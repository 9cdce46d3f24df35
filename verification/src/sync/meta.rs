//! The metadata sidecar of a gist.
use serde_json::Value;
use vstd::prelude::*;

use crate::json::{
    boolean, distinct_names, json_of, json_pretty, json_views, lemma_writable_list,
    lemma_writable_record, list, lookup, member_views, null, pretty, record, text, unsigned,
    writable, Json,
};
use crate::model::{Gist, GistFile};
use crate::outline::{fields_in, lemma_written_fields, writes};
use crate::search::info::{info_in, sidecar_info, InfoView};
use crate::text::option_view;

verus! {

/// A text, or null where there is none.
pub open spec fn text_or_null(s: Option<Seq<char>>) -> Json {
    match s {
        Some(s) => Json::Text(s),
        None => Json::Null,
    }
}

/// A member, or none where there is no text for it.
pub open spec fn text_member(name: Seq<char>, s: Option<Seq<char>>) -> Seq<(Seq<char>, Json)> {
    match s {
        Some(s) => seq![(name, Json::Text(s))],
        None => seq![],
    }
}

/// The details of a file in the sidecar. Language and type are left out where
/// they are not known.
pub open spec fn file_meta(file: GistFile) -> Json {
    Json::Record(
        seq![("filename"@, Json::Text(file.filename@)), ("size"@, Json::Unsigned(file.size))]
            + text_member("language"@, option_view(file.language)) + text_member(
            "type"@,
            option_view(file.content_type),
        ),
    )
}

/// The description of a gist, empty where it has none.
pub open spec fn description_text(gist: Gist) -> Seq<char> {
    match gist.description {
        Some(d) => d@,
        None => seq![],
    }
}

/// The members of a gist's sidecar.
pub open spec fn meta_members(gist: Gist) -> Seq<(Seq<char>, Json)> {
    seq![
        ("id"@, Json::Text(gist.id@)),
        ("description"@, Json::Text(description_text(gist))),
        ("public"@, Json::Bool(gist.public)),
        ("html_url"@, text_or_null(option_view(gist.html_url))),
        ("created_at"@, Json::Text(gist.created_at@)),
        ("updated_at"@, Json::Text(gist.updated_at@)),
        ("files"@, Json::List(gist.file_list().map_values(|f: GistFile| file_meta(f)))),
    ]
}

/// The sidecar of a gist.
pub open spec fn meta_json(gist: Gist) -> Json {
    Json::Record(meta_members(gist))
}

proof fn lemma_file_names()
    ensures
        "filename"@.len() == 8 && "filename"@[0] == 'f',
        "size"@.len() == 4 && "size"@[0] == 's',
        "language"@.len() == 8 && "language"@[0] == 'l',
        "type"@.len() == 4 && "type"@[0] == 't',
{
    reveal_strlit("filename");
    reveal_strlit("size");
    reveal_strlit("language");
    reveal_strlit("type");
}

proof fn lemma_meta_names()
    ensures
        "id"@.len() == 2,
        "description"@.len() == 11,
        "public"@.len() == 6,
        "html_url"@.len() == 8,
        "created_at"@.len() == 10 && "created_at"@[0] == 'c',
        "updated_at"@.len() == 10 && "updated_at"@[0] == 'u',
        "files"@.len() == 5,
{
    reveal_strlit("id");
    reveal_strlit("description");
    reveal_strlit("public");
    reveal_strlit("html_url");
    reveal_strlit("created_at");
    reveal_strlit("updated_at");
    reveal_strlit("files");
}

proof fn lemma_file_meta(file: GistFile)
    ensures
        distinct_names(file_meta(file)->Record_0),
        writable(file_meta(file), 125),
{
    lemma_file_names();
    let ms = file_meta(file)->Record_0;
    assert(ms.len() <= 4);
    lemma_writable_record(ms, 124);
}

proof fn lemma_meta(gist: Gist)
    ensures
        distinct_names(meta_members(gist)),
        writable(meta_json(gist), 127),
{
    lemma_meta_names();
    let files = gist.file_list().map_values(|f: GistFile| file_meta(f));
    assert forall|i: int| 0 <= i < files.len() implies writable(#[trigger] files[i], 125) by {
        lemma_file_meta(gist.file_list()[i]);
    }
    lemma_writable_list(files, 125);
    lemma_writable_record(meta_members(gist), 126);
}

/// The value for the details of a file.
fn file_value(file: &GistFile) -> (r: Value)
    ensures
        json_of(r) == file_meta(*file),
{
    let mut members = vec![
        ("filename".to_string(), text(file.filename.clone())),
        ("size".to_string(), unsigned(file.size)),
    ];
    let ghost start = seq![
        ("filename"@, Json::Text(file.filename@)),
        ("size"@, Json::Unsigned(file.size)),
    ];
    assert(member_views(members@) == start);
    if let Some(language) = &file.language {
        members.push(("language".to_string(), text(language.clone())));
    }
    assert(member_views(members@) == start + text_member(
        "language"@,
        option_view(file.language),
    ));
    if let Some(content_type) = &file.content_type {
        members.push(("type".to_string(), text(content_type.clone())));
    }
    assert(member_views(members@) == start + text_member("language"@, option_view(file.language))
        + text_member("type"@, option_view(file.content_type)));
    proof {
        lemma_file_meta(*file);
    }
    record(members)
}

/// The value of the sidecar for `gist`.
pub fn meta_value(gist: &Gist) -> (r: Value)
    ensures
        json_of(r) == meta_json(*gist),
{
    let mut files: Vec<Value> = Vec::new();
    let n: usize = gist.files.len();
    let mut i: usize = 0;
    while i < n
        invariant
            i <= n == gist.files@.len(),
            files@.len() == i,
            forall|k: int|
                0 <= k < i ==> json_of(#[trigger] files@[k]) == file_meta(gist.file_list()[k]),
        decreases n - i,
    {
        let (_, file) = gist.files.entry(i);
        files.push(file_value(file));
        i += 1;
    }
    assert(json_views(files@) == gist.file_list().map_values(|f: GistFile| file_meta(f)));
    let description = match &gist.description {
        Some(d) => d.clone(),
        None => String::new(),
    };
    let html_url = match &gist.html_url {
        Some(url) => text(url.clone()),
        None => null(),
    };
    let members = vec![
        ("id".to_string(), text(gist.id.clone())),
        ("description".to_string(), text(description)),
        ("public".to_string(), boolean(gist.public)),
        ("html_url".to_string(), html_url),
        ("created_at".to_string(), text(gist.created_at.clone())),
        ("updated_at".to_string(), text(gist.updated_at.clone())),
        ("files".to_string(), list(files)),
    ];
    assert(member_views(members@) == meta_members(*gist));
    proof {
        lemma_meta(*gist);
    }
    record(members)
}

/// The bytes of the sidecar for `gist`: its id, description, URL, timestamps
/// and file details.
pub fn write_meta(gist: &Gist) -> (r: Vec<u8>)
    ensures
        r@ == json_pretty(meta_json(*gist)),
        sidecar_info(Some(r@)) == (InfoView {
            description: Some(description_text(*gist)),
            html_url: option_view(gist.html_url),
        }),
{
    let value = meta_value(gist);
    proof {
        lemma_meta(*gist);
    }
    let bytes = pretty(&value);
    proof {
        law_sidecar_is_read_back(bytes@, *gist);
    }
    bytes
}

/// Searching finds in a sidecar the description and the URL that were written
/// to it.
pub proof fn law_sidecar_is_read_back(s: Seq<u8>, gist: Gist)
    requires
        writes(s, meta_json(gist), 127),
    ensures
        info_in(s) == (InfoView {
            description: Some(description_text(gist)),
            html_url: option_view(gist.html_url),
        }),
{
    lemma_meta_names();
    let ms = meta_members(gist);
    reveal_with_fuel(lookup::<Json>, 5);
    let t1 = ms.drop_first();
    let t2 = t1.drop_first();
    let t3 = t2.drop_first();
    assert(t1[0] == ms[1]);
    assert(t2[0] == ms[2]);
    assert(t3[0] == ms[3]);
    assert(lookup(ms, "description"@) == Some(ms[1].1));
    assert(lookup(ms, "html_url"@) == Some(ms[3].1));
    let names = seq!["description"@, "html_url"@];
    lemma_meta(gist);
    lemma_written_fields(s, ms, 126, names, 0);
    let fs = fields_in(s, names, 0)->0;
    assert(names[0] == "description"@ && names[1] == "html_url"@);
    assert(writes(fs[0]->0, ms[1].1, 126));
    assert(writes(fs[1]->0, ms[3].1, 126));
}

/// A sidecar holds all that is known of the gist, and an entry for each of its
/// files, in their order.
pub proof fn law_sidecar_holds_the_gist(gist: Gist, k: int)
    ensures
        ({
            let ms = meta_members(gist);
            &&& meta_json(gist) == Json::Record(ms)
            &&& lookup(ms, "id"@) == Some(Json::Text(gist.id@))
            &&& lookup(ms, "public"@) == Some(Json::Bool(gist.public))
            &&& lookup(ms, "created_at"@) == Some(Json::Text(gist.created_at@))
            &&& lookup(ms, "updated_at"@) == Some(Json::Text(gist.updated_at@))
            &&& lookup(ms, "html_url"@) == Some(
                if gist.html_url is Some {
                    Json::Text((gist.html_url->0)@)
                } else {
                    Json::Null
                },
            )
            &&& gist.description is Some ==> lookup(ms, "description"@) == Some(
                Json::Text((gist.description->0)@),
            )
            &&& lookup(ms, "files"@) matches Some(Json::List(files)) && files.len()
                == gist.files@.len() && (0 <= k < files.len() ==> files[k] == file_meta(
                gist.files@[k].1,
            ))
        }),
{
    lemma_meta_names();
    let ms = meta_members(gist);
    reveal_with_fuel(lookup::<Json>, 8);
    let t1 = ms.drop_first();
    let t2 = t1.drop_first();
    let t3 = t2.drop_first();
    let t4 = t3.drop_first();
    let t5 = t4.drop_first();
    let t6 = t5.drop_first();
    assert(t1[0] == ms[1]);
    assert(t2[0] == ms[2]);
    assert(t3[0] == ms[3]);
    assert(t4[0] == ms[4]);
    assert(t5[0] == ms[5]);
    assert(t6[0] == ms[6]);
}

/// The entry of a file has its name and its size, and its language and its type
/// where they are known.
pub proof fn law_sidecar_describes_the_files(file: GistFile)
    ensures
        file_meta(file) matches Json::Record(ms) && {
            &&& lookup(ms, "filename"@) == Some(Json::Text(file.filename@))
            &&& lookup(ms, "size"@) == Some(Json::Unsigned(file.size))
            &&& lookup(ms, "language"@) == if file.language is Some {
                Some(Json::Text((file.language->0)@))
            } else {
                None
            }
            &&& lookup(ms, "type"@) == if file.content_type is Some {
                Some(Json::Text((file.content_type->0)@))
            } else {
                None
            }
        },
{
    lemma_file_names();
    reveal_with_fuel(lookup::<Json>, 5);
    let ms = file_meta(file)->Record_0;
    let t1 = ms.drop_first();
    let t2 = t1.drop_first();
    let t3 = t2.drop_first();
    assert(t1[0] == ms[1]);
    assert(ms.len() > 2 ==> t2[0] == ms[2]);
    assert(ms.len() > 3 ==> t3[0] == ms[3]);
}

} // verus!

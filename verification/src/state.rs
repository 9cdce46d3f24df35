//! On-disk sync state.
//!
//! Tracks which gists have been downloaded and at what revision so that
//! re-runs only fetch new or changed gists.
use serde_json::Value;
use vstd::prelude::*;

use crate::json::{
    as_array, as_str, distinct_names, json_of, json_pretty, json_text, json_views,
    lemma_writable_list, lemma_writable_record, list, lookup, member_views, name_views, parse,
    pretty, record, text, writable, Json,
};
use crate::order::{lemma_str_irreflexive, str_less};
use crate::outline::{
    bytes_view, bytes_views, fields_in, lemma_written_fields, members_in, part_views, read_fields,
    read_members, read_text_field, text_field_in, writes,
};
use crate::paths::{join, path_join};
use crate::strmap::{keys_ascend, law_last_pair_counts, lemma_pairs_map, pairs_map, StrMap};
use crate::text::string_views;

verus! {

/// Name of the state file, stored at the root of the output directory.
pub const STATE_FILE: &'static str = ".grass-state.json";

/// The full sync state: a map from gist id to what we know about it locally.
#[derive(Debug, Clone, PartialEq, Eq)]
pub struct SyncState {
    pub gists: StrMap<GistRecord>,
}

/// What `grass` recorded about a single gist on the last successful sync.
#[derive(Debug, PartialEq, Eq)]
pub struct GistRecord {
    /// The gist's `updated_at` timestamp at download time (change detector).
    pub updated_at: String,
    /// The local folder name (relative to the output dir) it was written to.
    pub folder: String,
    /// Filenames written, used to prune files removed from the gist.
    pub files: Vec<String>,
}

/// What a [`GistRecord`] holds.
#[verifier::ext_equal]
pub struct RecordView {
    pub updated_at: Seq<char>,
    pub folder: Seq<char>,
    pub files: Seq<Seq<char>>,
}

impl View for GistRecord {
    type V = RecordView;

    open spec fn view(&self) -> RecordView {
        RecordView {
            updated_at: self.updated_at@,
            folder: self.folder@,
            files: string_views(self.files@),
        }
    }
}

/// Copies strings.
pub fn clone_strings(strings: &Vec<String>) -> (r: Vec<String>)
    ensures
        string_views(r@) == string_views(strings@),
{
    let mut out: Vec<String> = Vec::new();
    let mut i: usize = 0;
    while i < strings.len()
        invariant
            i <= strings@.len(),
            string_views(out@) == string_views(strings@).take(i as int),
        decreases strings@.len() - i,
    {
        let ghost before = string_views(out@);
        out.push(strings[i].clone());
        assert(string_views(out@) == before.push(strings@[i as int]@));
        i += 1;
    }
    assert(string_views(out@) == string_views(strings@));
    out
}

impl Clone for GistRecord {
    fn clone(&self) -> (r: Self)
        ensures
            r@ == self@,
    {
        GistRecord {
            updated_at: self.updated_at.clone(),
            folder: self.folder.clone(),
            files: clone_strings(&self.files),
        }
    }
}

/// Ids and what the records under them hold.
pub open spec fn record_views(s: Seq<(Seq<char>, GistRecord)>) -> Seq<(Seq<char>, RecordView)> {
    s.map_values(|e: (Seq<char>, GistRecord)| (e.0, e.1@))
}

impl View for SyncState {
    type V = Map<Seq<char>, RecordView>;

    /// What is known about each gist.
    open spec fn view(&self) -> Map<Seq<char>, RecordView> {
        pairs_map(record_views(self.gists@))
    }
}

/// What `state` knows about the gist `id`.
pub open spec fn known(state: Map<Seq<char>, RecordView>, id: Seq<char>) -> Option<RecordView> {
    if state.contains_key(id) {
        Some(state[id])
    } else {
        None
    }
}

/// Texts as a JSON list.
pub open spec fn texts_json(s: Seq<Seq<char>>) -> Json {
    Json::List(s.map_values(|t: Seq<char>| Json::Text(t)))
}

/// How a record is written.
pub open spec fn record_json(r: RecordView) -> Json {
    Json::Record(
        seq![
            ("updated_at"@, Json::Text(r.updated_at)),
            ("folder"@, Json::Text(r.folder)),
            ("files"@, texts_json(r.files)),
        ],
    )
}

/// How records are written, by id.
pub open spec fn records_json(records: Seq<(Seq<char>, RecordView)>) -> Json {
    Json::Record(records.map_values(|e: (Seq<char>, RecordView)| (e.0, record_json(e.1))))
}

/// How a state is written.
pub open spec fn state_json(records: Seq<(Seq<char>, RecordView)>) -> Json {
    Json::Record(seq![("gists"@, records_json(records))])
}

/// The texts that `j` lists, if that is what it is.
pub open spec fn texts_of(j: Json) -> Option<Seq<Seq<char>>> {
    match j {
        Json::List(items) => if forall|i: int|
            0 <= i < items.len() ==> (#[trigger] items[i]) is Text {
            Some(items.map_values(|j: Json| j->Text_0))
        } else {
            None
        },
        _ => None,
    }
}

/// A field that may be a list of texts or missing. `None` where it is neither.
pub open spec fn texts_in(f: Option<Seq<u8>>) -> Option<Seq<Seq<char>>> {
    match f {
        None => Some(seq![]),
        Some(s) => match json_text(s) {
            Some(j) => texts_of(j),
            None => None,
        },
    }
}

/// The record that `s` writes.
pub open spec fn record_in(s: Seq<u8>) -> Option<RecordView> {
    match fields_in(s, seq!["updated_at"@, "folder"@, "files"@], 2) {
        Some(fs) => match (text_field_in(fs[0]), text_field_in(fs[1]), texts_in(fs[2])) {
            (Some(updated_at), Some(folder), Some(files)) => Some(
                RecordView { updated_at, folder, files },
            ),
            _ => None,
        },
        None => None,
    }
}

/// The records that `f` writes by id, none where it is missing. Of an id that is
/// written more than once, the last record counts.
pub open spec fn records_in(f: Option<Seq<u8>>) -> Option<Map<Seq<char>, RecordView>> {
    match f {
        None => Some(Map::empty()),
        Some(s) => match members_in(s) {
            Some(ms) => if forall|i: int|
                0 <= i < ms.len() ==> record_in((#[trigger] ms[i]).1) is Some {
                Some(
                    pairs_map(ms.map_values(|m: (Seq<char>, Seq<u8>)| (m.0, record_in(m.1)->0))),
                )
            } else {
                None
            },
            None => None,
        },
    }
}

/// The state that `s` writes.
pub open spec fn state_in(s: Seq<u8>) -> Option<Map<Seq<char>, RecordView>> {
    match fields_in(s, seq!["gists"@], 0) {
        Some(fs) => records_in(fs[0]),
        None => None,
    }
}

/// The state in a file's bytes, the empty one where the file is missing or
/// corrupt.
pub open spec fn loaded(file: Option<Seq<u8>>) -> Map<Seq<char>, RecordView> {
    match file {
        Some(bytes) => match state_in(bytes) {
            Some(records) => records,
            None => Map::empty(),
        },
        None => Map::empty(),
    }
}

/// Reads a list of texts.
fn read_texts(f: Option<&[u8]>) -> (r: Option<Vec<String>>)
    ensures
        match r {
            Some(texts) => texts_in(bytes_view(f)) == Some(string_views(texts@)),
            None => texts_in(bytes_view(f)) is None,
        },
{
    let mut out: Vec<String> = Vec::new();
    let s: &[u8] = match f {
        Some(s) => s,
        None => {
            assert(string_views(out@) == Seq::<Seq<char>>::empty());
            return Some(out);
        },
    };
    let value: Value = match parse(s) {
        Some(value) => value,
        None => return None,
    };
    let items: &Vec<Value> = match as_array(&value) {
        Some(items) => items,
        None => return None,
    };
    let ghost js = json_views(items@);
    let mut i: usize = 0;
    while i < items.len()
        invariant
            i <= items@.len(),
            out@.len() == i,
            js == json_views(items@),
            texts_in(bytes_view(f)) == texts_of(Json::List(js)),
            forall|k: int| 0 <= k < i ==> #[trigger] js[k] == Json::Text(out@[k]@),
        decreases items@.len() - i,
    {
        assert(js[i as int] == json_of(items@[i as int]));
        match as_str(&items[i]) {
            Some(s) => out.push(s.to_string()),
            None => {
                assert(!(js[i as int] is Text));
                return None;
            },
        }
        i += 1;
    }
    assert(js.map_values(|j: Json| j->Text_0) == string_views(out@));
    Some(out)
}

impl GistRecord {
    /// Reads a record from JSON text.
    pub fn read(bytes: &[u8]) -> (r: Option<GistRecord>)
        ensures
            match r {
                Some(record) => record_in(bytes@) == Some(record@),
                None => record_in(bytes@) is None,
            },
    {
        let names = vec!["updated_at", "folder", "files"];
        assert(name_views(names@) == seq!["updated_at"@, "folder"@, "files"@]);
        let fs = match read_fields(bytes, &names, 2) {
            Some(fs) => fs,
            None => return None,
        };
        assert(bytes_views(fs@)[0] == bytes_view(fs@[0]));
        assert(bytes_views(fs@)[1] == bytes_view(fs@[1]));
        assert(bytes_views(fs@)[2] == bytes_view(fs@[2]));
        match (read_text_field(fs[0]), read_text_field(fs[1]), read_texts(fs[2])) {
            (Some(updated_at), Some(folder), Some(files)) => Some(
                GistRecord { updated_at, folder, files },
            ),
            _ => None,
        }
    }

    /// The value that writes a record.
    pub fn to_value(&self) -> (r: Value)
        ensures
            json_of(r) == record_json(self@),
    {
        let mut items: Vec<Value> = Vec::new();
        let mut i: usize = 0;
        while i < self.files.len()
            invariant
                i <= self.files@.len(),
                items@.len() == i,
                forall|k: int|
                    0 <= k < i ==> json_of(#[trigger] items@[k]) == Json::Text(self.files@[k]@),
            decreases self.files@.len() - i,
        {
            items.push(text(self.files[i].clone()));
            i += 1;
        }
        assert(json_views(items@) == string_views(self.files@).map_values(
            |t: Seq<char>| Json::Text(t),
        ));
        let members = vec![
            ("updated_at".to_string(), text(self.updated_at.clone())),
            ("folder".to_string(), text(self.folder.clone())),
            ("files".to_string(), list(items)),
        ];
        let ghost view = seq![
            ("updated_at"@, Json::Text(self.updated_at@)),
            ("folder"@, Json::Text(self.folder@)),
            ("files"@, texts_json(string_views(self.files@))),
        ];
        assert(member_views(members@) == view);
        proof {
            lemma_record_names();
        }
        record(members)
    }
}

proof fn lemma_record_names()
    ensures
        "updated_at"@ != "folder"@,
        "updated_at"@ != "files"@,
        "folder"@ != "files"@,
{
    reveal_strlit("updated_at");
    reveal_strlit("folder");
    reveal_strlit("files");
    assert("updated_at"@.len() == 10 && "folder"@.len() == 6 && "files"@.len() == 5);
}

/// How a state is put in its file: the bytes go to a temporary file first,
/// which then takes the place of the state file.
#[derive(Debug, Clone, PartialEq, Eq)]
pub struct StateWrite {
    pub bytes: Vec<u8>,
    pub temp_path: String,
    pub path: String,
}

/// Reads records by id.
fn read_records(f: Option<&[u8]>) -> (r: Option<StrMap<GistRecord>>)
    ensures
        match r {
            Some(gists) => records_in(bytes_view(f)) == Some(pairs_map(record_views(gists@))),
            None => records_in(bytes_view(f)) is None,
        },
{
    let mut gists: StrMap<GistRecord> = StrMap::new();
    assert(record_views(gists@) == Seq::<(Seq<char>, RecordView)>::empty());
    let s: &[u8] = match f {
        Some(s) => s,
        None => return Some(gists),
    };
    let ms = match read_members(s) {
        Some(ms) => ms,
        None => return None,
    };
    let ghost parts = part_views(ms@);
    let ghost decode = |m: (Seq<char>, Seq<u8>)| (m.0, record_in(m.1)->0);
    let mut i: usize = 0;
    assert(parts.take(0).map_values(decode) == Seq::<(Seq<char>, RecordView)>::empty());
    while i < ms.len()
        invariant
            decode == (|m: (Seq<char>, Seq<u8>)| (m.0, record_in(m.1)->0)),
            i <= ms@.len(),
            parts == part_views(ms@),
            f is Some,
            members_in((f->0)@) == Some(parts),
            forall|k: int| 0 <= k < i ==> record_in((#[trigger] parts[k]).1) is Some,
            pairs_map(record_views(gists@)) == pairs_map(parts.take(i as int).map_values(decode)),
            keys_ascend(gists@),
        decreases ms@.len() - i,
    {
        let name: &str = ms[i].0.as_str();
        assert(parts[i as int] == (name@, ms@[i as int].1@));
        match GistRecord::read(ms[i].1) {
            Some(rec) => {
                let ghost before = gists@;
                let ghost value = rec;
                gists.insert(name.to_string(), rec);
                proof {
                    lemma_record_map(before);
                    lemma_record_map(gists@);
                    assert(pairs_map(record_views(gists@)) =~= pairs_map(
                        record_views(before),
                    ).insert(name@, value@));
                    let next = parts.take(i + 1).map_values(decode);
                    assert(next.drop_last() == parts.take(i as int).map_values(decode));
                    assert(next.last() == (name@, value@));
                }
            },
            None => {
                assert(!(record_in(parts[i as int].1) is Some));
                return None;
            },
        }
        i += 1;
    }
    assert(parts.take(i as int) == parts);
    Some(gists)
}

/// What a map of records holds at each id.
proof fn lemma_record_map(s: Seq<(Seq<char>, GistRecord)>)
    ensures
        pairs_map(record_views(s)).dom() == pairs_map(s).dom(),
        forall|k: Seq<char>| #[trigger]
            pairs_map(s).contains_key(k) ==> pairs_map(record_views(s))[k] == pairs_map(s)[k]@,
    decreases s.len(),
{
    if s.len() > 0 {
        lemma_record_map(s.drop_last());
        assert(record_views(s).drop_last() == record_views(s.drop_last()));
    }
}

impl Default for SyncState {
    /// The state before the first sync.
    fn default() -> (r: Self)
        ensures
            r@ == Map::<Seq<char>, RecordView>::empty(),
            r.gists@.len() == 0,
    {
        let r = SyncState { gists: StrMap::new() };
        assert(record_views(r.gists@) == Seq::<(Seq<char>, RecordView)>::empty());
        r
    }
}

impl SyncState {
    /// Path to the state file within `dir`.
    pub fn path(dir: &str) -> (r: String)
        ensures
            r@ == path_join(dir@, STATE_FILE@),
    {
        join(dir, STATE_FILE)
    }

    /// What is known about the gist `id`.
    pub fn get(&self, id: &str) -> (r: Option<&GistRecord>)
        ensures
            match r {
                Some(rec) => known(self@, id@) == Some(rec@),
                None => known(self@, id@) is None,
            },
    {
        proof {
            lemma_record_map(self.gists@);
        }
        self.gists.get(id)
    }

    /// Records what is now known about the gist `id`.
    pub fn insert(&mut self, id: String, rec: GistRecord)
        ensures
            final(self)@ == old(self)@.insert(id@, rec@),
    {
        let ghost before = self.gists@;
        let ghost k = id@;
        let ghost v = rec;
        self.gists.insert(id, rec);
        proof {
            lemma_record_map(before);
            lemma_record_map(self.gists@);
            assert(self@ =~= old(self)@.insert(k, v@));
        }
    }

    /// Forgets the gist `id`.
    pub fn remove(&mut self, id: &str)
        ensures
            final(self)@ == old(self)@.remove(id@),
    {
        let ghost before = self.gists@;
        let _ = self.gists.remove(id);
        proof {
            lemma_record_map(before);
            lemma_record_map(self.gists@);
            assert(self@ =~= old(self)@.remove(id@));
        }
    }

    /// Reads a state from JSON text.
    pub fn read(bytes: &[u8]) -> (r: Option<SyncState>)
        ensures
            match r {
                Some(state) => state_in(bytes@) == Some(state@),
                None => state_in(bytes@) is None,
            },
    {
        let names = vec!["gists"];
        assert(name_views(names@) == seq!["gists"@]);
        let fs = match read_fields(bytes, &names, 0) {
            Some(fs) => fs,
            None => return None,
        };
        assert(bytes_views(fs@)[0] == bytes_view(fs@[0]));
        match read_records(fs[0]) {
            Some(gists) => Some(SyncState { gists }),
            None => None,
        }
    }

    /// Reads the state from the bytes of its file.
    ///
    /// A missing, unreadable, or corrupt file yields an empty state (i.e. a
    /// fresh sync) rather than an error, so a damaged state file self-heals.
    pub fn load(file: Option<&[u8]>) -> (r: SyncState)
        ensures
            r@ == loaded(bytes_view(file)),
    {
        match file {
            Some(bytes) => match SyncState::read(bytes) {
                Some(state) => state,
                None => SyncState::default(),
            },
            None => SyncState::default(),
        }
    }

    /// The value that writes a state.
    pub fn to_value(&self) -> (r: Value)
        ensures
            json_of(r) == state_json(record_views(self.gists@)),
            keys_ascend(self.gists@),
    {
        let mut items: Vec<(String, Value)> = Vec::new();
        let ghost entries = record_views(self.gists@);
        let n: usize = self.gists.len();
        let mut i: usize = 0;
        while i < n
            invariant
                i <= n == self.gists@.len(),
                entries == record_views(self.gists@),
                items@.len() == i,
                forall|k: int|
                    0 <= k < i ==> (#[trigger] items@[k]).0@ == entries[k].0 && json_of(items@[k].1)
                        == record_json(entries[k].1),
            decreases n - i,
        {
            let (id, rec) = self.gists.entry(i);
            items.push((id.to_string(), rec.to_value()));
            i += 1;
        }
        let ghost view = entries.map_values(
            |e: (Seq<char>, RecordView)| (e.0, record_json(e.1)),
        );
        assert(member_views(items@) == view);
        proof {
            lemma_distinct_ids(self.gists@);
        }
        let gists = record(items);
        let members = vec![("gists".to_string(), gists)];
        assert(member_views(members@) == seq![("gists"@, records_json(entries))]);
        record(members)
    }

    /// Persists the state atomically: what to write to a temp file, and where
    /// to rename that to.
    pub fn save(&self, dir: &str) -> (r: StateWrite)
        ensures
            r.bytes@ == json_pretty(state_json(record_views(self.gists@))),
            loaded(Some(r.bytes@)) == self@,
            r.path@ == path_join(dir@, STATE_FILE@),
            r.temp_path@ == path_join(dir@, STATE_FILE@ + ".tmp"@),
    {
        let value = self.to_value();
        proof {
            lemma_state_writable(self.gists@);
        }
        let bytes = pretty(&value);
        proof {
            law_state_is_read_back(bytes@, record_views(self.gists@));
        }
        let mut temp = STATE_FILE.to_string();
        temp.append(".tmp");
        StateWrite {
            bytes,
            temp_path: join(dir, temp.as_str()),
            path: SyncState::path(dir),
        }
    }
}

proof fn lemma_distinct_ids(gists: Seq<(Seq<char>, GistRecord)>)
    requires
        keys_ascend(gists),
    ensures
        distinct_names(
            record_views(gists).map_values(|e: (Seq<char>, RecordView)| (e.0, record_json(e.1))),
        ),
{
    let ms = record_views(gists).map_values(|e: (Seq<char>, RecordView)| (e.0, record_json(e.1)));
    assert forall|i: int, j: int| 0 <= i < j < ms.len() implies (#[trigger] ms[i]).0 != (
    #[trigger] ms[j]).0 by {
        assert(str_less(gists[i].0, gists[j].0));
        lemma_str_irreflexive(gists[i].0);
    }
}

proof fn lemma_record_writable(r: RecordView)
    ensures
        writable(record_json(r), 125),
{
    lemma_record_names();
    let ms = record_json(r)->Record_0;
    lemma_writable_list(texts_json(r.files)->List_0, 123);
    assert forall|i: int| 0 <= i < ms.len() implies writable((#[trigger] ms[i]).1, 124) by {
        assert(i == 0 || i == 1 || i == 2);
    }
    lemma_writable_record(ms, 124);
}

proof fn lemma_state_writable(gists: Seq<(Seq<char>, GistRecord)>)
    requires
        keys_ascend(gists),
    ensures
        writable(state_json(record_views(gists)), 127),
{
    let records = record_views(gists);
    let ms = records_json(records)->Record_0;
    lemma_distinct_ids(gists);
    assert forall|i: int| 0 <= i < ms.len() implies writable((#[trigger] ms[i]).1, 125) by {
        lemma_record_writable(records[i].1);
    }
    lemma_writable_record(ms, 125);
    lemma_writable_record(state_json(records)->Record_0, 126);
}

proof fn lemma_record_read_back(s: Seq<u8>, r: RecordView)
    requires
        writes(s, record_json(r), 125),
    ensures
        record_in(s) == Some(r),
{
    lemma_record_names();
    reveal_with_fuel(lookup::<Json>, 4);
    let a = ("updated_at"@, Json::Text(r.updated_at));
    let b = ("folder"@, Json::Text(r.folder));
    let c = ("files"@, texts_json(r.files));
    let ms = seq![a, b, c];
    assert(ms.drop_first() == seq![b, c]);
    assert(seq![b, c].drop_first() == seq![c]);
    assert(lookup(ms, "updated_at"@) == Some(a.1));
    assert(lookup(ms, "folder"@) == Some(b.1));
    assert(lookup(ms, "files"@) == Some(c.1));
    let names = seq!["updated_at"@, "folder"@, "files"@];
    lemma_written_fields(s, ms, 124, names, 2);
    let fs = fields_in(s, names, 2)->0;
    assert(names[0] == "updated_at"@ && names[1] == "folder"@ && names[2] == "files"@);
    assert(writes(fs[0]->0, a.1, 124));
    assert(writes(fs[1]->0, b.1, 124));
    assert(writes(fs[2]->0, c.1, 124));
    let items = texts_json(r.files)->List_0;
    assert(items.map_values(|j: Json| j->Text_0) == r.files);
}

/// A state that was written is read back as it was.
pub proof fn law_state_is_read_back(s: Seq<u8>, records: Seq<(Seq<char>, RecordView)>)
    requires
        writes(s, state_json(records), 127),
    ensures
        state_in(s) == Some(pairs_map(records)),
{
    let ms = records_json(records)->Record_0;
    let outer = seq![("gists"@, records_json(records))];
    let names = seq!["gists"@];
    assert(lookup(outer, "gists"@) == Some(records_json(records)));
    lemma_written_fields(s, outer, 126, names, 0);
    let fs = fields_in(s, names, 0)->0;
    assert(names[0] == "gists"@);
    let inner = fs[0]->0;
    assert(writes(inner, records_json(records), 126));
    let parts = members_in(inner)->0;
    assert forall|i: int| 0 <= i < parts.len() implies record_in((#[trigger] parts[i]).1) == Some(
        records[i].1,
    ) && parts[i].0 == records[i].0 by {
        assert(ms[i] == (records[i].0, record_json(records[i].1)));
        lemma_record_read_back(parts[i].1, records[i].1);
    }
    assert(parts.map_values(|m: (Seq<char>, Seq<u8>)| (m.0, record_in(m.1)->0)) == records);
}

/// A state file that is missing or cannot be read counts as an empty one; one that
/// can be read counts as what it says.
pub proof fn law_damaged_state_is_an_empty_one(bytes: Seq<u8>)
    ensures
        loaded(None) == Map::<Seq<char>, RecordView>::empty(),
        state_in(bytes) is None ==> loaded(Some(bytes)) == Map::<Seq<char>, RecordView>::empty(),
        state_in(bytes) matches Some(records) ==> loaded(Some(bytes)) == records,
{
}

/// A state says of each gist what its record says, the last one where there are
/// more; a record without a timestamp or a folder makes the whole unreadable, and
/// one without files has none.
pub proof fn law_state_says_what_its_records_say(
    s: Seq<u8>,
    members: Seq<(Seq<char>, Seq<u8>)>,
    i: int,
)
    requires
        members_in(s) == Some(members),
        0 <= i < members.len(),
    ensures
        record_in(members[i].1) is None ==> records_in(Some(s)) is None,
        (forall|j: int| 0 <= j < members.len() ==> record_in((#[trigger] members[j]).1) is Some)
            ==> {
            &&& records_in(Some(s)) is Some
            &&& (forall|j: int| i < j < members.len() ==> (#[trigger] members[j]).0 != members[i].0)
                ==> known(records_in(Some(s))->0, members[i].0) == record_in(members[i].1)
        },
        records_in(None) == Some(Map::<Seq<char>, RecordView>::empty()),
{
    let decode = |m: (Seq<char>, Seq<u8>)| (m.0, record_in(m.1)->0);
    let all = members.map_values(decode);
    if forall|j: int| 0 <= j < members.len() ==> record_in((#[trigger] members[j]).1) is Some {
        assert(record_in(members[i].1) is Some);
        let a = all.take(i);
        let b = all.skip(i + 1);
        assert(all == a + seq![(members[i].0, record_in(members[i].1)->0)] + b);
        if forall|j: int| i < j < members.len() ==> (#[trigger] members[j]).0 != members[i].0 {
            assert forall|j: int| 0 <= j < b.len() implies (#[trigger] b[j]).0 != members[i].0 by {
                assert(members[i + 1 + j].0 != members[i].0);
            }
            law_last_pair_counts(a, members[i].0, record_in(members[i].1)->0, b);
        }
    }
}

/// A record is read from its timestamp, its folder and its files: it takes the
/// first two, and has no files where they are left out.
pub proof fn law_record_takes_a_timestamp_and_a_folder(s: Seq<u8>, fs: Seq<Option<Seq<u8>>>)
    requires
        fields_in(s, seq!["updated_at"@, "folder"@, "files"@], 2) == Some(fs),
    ensures
        record_in(s) is Some ==> fs[0] is Some && fs[1] is Some && Some(
            record_in(s)->0.updated_at,
        ) == text_field_in(fs[0]) && Some(record_in(s)->0.folder) == text_field_in(fs[1]),
        text_field_in(fs[0]) is None || text_field_in(fs[1]) is None ==> record_in(s) is None,
        record_in(s) is Some && fs[2] is None ==> record_in(s)->0.files.len() == 0,
        text_field_in(fs[0]) is Some && text_field_in(fs[1]) is Some && fs[2] is None
            ==> record_in(s) is Some,
{
}

/// The texts of a list are all of its items, in their order, where all of them are
/// texts.
pub proof fn law_listed_texts_are_all_read(items: Seq<Json>, texts: Seq<Seq<char>>, k: int)
    requires
        0 <= k < items.len(),
    ensures
        items[k] !is Text ==> texts_of(Json::List(items)) is None,
        texts_of(Json::List(items)) == Some(texts) ==> texts.len() == items.len() && items[k]
            == Json::Text(texts[k]),
        (forall|j: int| 0 <= j < items.len() ==> (#[trigger] items[j]) is Text) ==> texts_of(
            Json::List(items),
        ) is Some,
{
}

/// What a record holds is all of it, and what a state knows of a gist is what its
/// record holds.
pub proof fn law_record_is_all_of_it(rec: GistRecord, state: SyncState, i: int, k: int)
    requires
        0 <= i < state.gists@.len(),
        keys_ascend(state.gists@),
    ensures
        rec@.updated_at == rec.updated_at@,
        rec@.folder == rec.folder@,
        rec@.files.len() == rec.files@.len(),
        0 <= k < rec.files@.len() ==> rec@.files[k] == rec.files@[k]@,
        known(state@, state.gists@[i].0) == Some(state.gists@[i].1@),
{
    let gists = state.gists@;
    lemma_pairs_map(gists);
    lemma_record_map(gists);
    assert(pairs_map(gists).contains_key(gists[i].0));
}

} // verus!

//! What a gist's metadata sidecar says about it.
use vstd::prelude::*;

use super::group::GistMatches;
use crate::json::name_views;
use crate::outline::{
    bytes_view, bytes_views, fields_in, optional_text_in, read_fields, read_optional_text,
};
use crate::text::option_view;

verus! {

/// Metadata read back from a gist's `.grass-meta.json` sidecar.
#[derive(Debug, Clone, PartialEq, Eq)]
pub struct GistInfo {
    pub description: Option<String>,
    pub html_url: Option<String>,
}

/// What a [`GistInfo`] holds.
#[verifier::ext_equal]
pub struct InfoView {
    pub description: Option<Seq<char>>,
    pub html_url: Option<Seq<char>>,
}

impl View for GistInfo {
    type V = InfoView;

    open spec fn view(&self) -> InfoView {
        InfoView {
            description: option_view(self.description),
            html_url: option_view(self.html_url),
        }
    }
}

/// The metadata of a gist about which nothing is known.
pub open spec fn no_info() -> InfoView {
    InfoView { description: None, html_url: None }
}

/// The metadata that `s` writes, or none where it is not of the form expected.
pub open spec fn info_in(s: Seq<u8>) -> InfoView {
    match fields_in(s, seq!["description"@, "html_url"@], 0) {
        Some(fs) => match (optional_text_in(fs[0]), optional_text_in(fs[1])) {
            (Some(description), Some(html_url)) => InfoView { description, html_url },
            _ => no_info(),
        },
        None => no_info(),
    }
}

/// The metadata in the bytes of a sidecar, or none where it is missing or
/// unreadable.
pub open spec fn sidecar_info(sidecar: Option<Seq<u8>>) -> InfoView {
    match sidecar {
        Some(bytes) => info_in(bytes),
        None => no_info(),
    }
}

impl GistInfo {
    /// The metadata of a gist about which nothing is known.
    fn none() -> (r: GistInfo)
        ensures
            r@ == no_info(),
    {
        GistInfo { description: None, html_url: None }
    }

    /// Reads metadata from JSON text.
    fn read(bytes: &[u8]) -> (r: GistInfo)
        ensures
            r@ == info_in(bytes@),
    {
        let names = vec!["description", "html_url"];
        assert(name_views(names@) == seq!["description"@, "html_url"@]);
        let fs = match read_fields(bytes, &names, 0) {
            Some(fs) => fs,
            None => return GistInfo::none(),
        };
        assert(bytes_views(fs@)[0] == bytes_view(fs@[0]));
        assert(bytes_views(fs@)[1] == bytes_view(fs@[1]));
        match (read_optional_text(fs[0]), read_optional_text(fs[1])) {
            (Some(description), Some(html_url)) => GistInfo { description, html_url },
            _ => GistInfo::none(),
        }
    }

    /// Reads the bytes of a sidecar, giving an empty record if it's missing or
    /// unreadable (the gist is still searchable, just without a URL).
    pub fn load(sidecar: Option<&[u8]>) -> (r: GistInfo)
        ensures
            r@ == sidecar_info(bytes_view(sidecar)),
    {
        match sidecar {
            Some(bytes) => GistInfo::read(bytes),
            None => GistInfo::none(),
        }
    }
}

impl GistMatches {
    /// Attaches the gist's metadata.
    pub fn attach(&mut self, info: GistInfo)
        ensures
            final(self).description == info.description,
            final(self).url == info.html_url,
            final(self).folder == old(self).folder,
            final(self).files == old(self).files,
    {
        self.description = info.description;
        self.url = info.html_url;
    }
}

/// The metadata is that of two members, each text, null or missing; where one of
/// them is anything else, or there is no record at all, nothing is known.
pub proof fn law_info_is_of_two_members(s: Seq<u8>, fs: Seq<Option<Seq<u8>>>)
    ensures
        fields_in(s, seq!["description"@, "html_url"@], 0) is None ==> info_in(s) == (InfoView {
            description: None,
            html_url: None,
        }),
        fields_in(s, seq!["description"@, "html_url"@], 0) == Some(fs) ==> {
            let d = optional_text_in(fs[0]);
            let u = optional_text_in(fs[1]);
            &&& d is Some && u is Some ==> info_in(s).description == d->0 && info_in(s).html_url
                == u->0
            &&& d is None || u is None ==> info_in(s).description is None
                && info_in(s).html_url is None
        },
        sidecar_info(Some(s)) == info_in(s),
        sidecar_info(None) == (InfoView { description: None, html_url: None }),
{
}

} // verus!

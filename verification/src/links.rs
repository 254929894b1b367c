//! Web pages that a devbox publishes.
use vstd::prelude::*;

use crate::hooks;
use crate::hooks::project;
use crate::ids;
use crate::ids::id_of_name;
use crate::model::{Link, LinkView, SCHEMA_VERSION};
use crate::text;
use crate::text::{begins_with, to_chars};
use crate::time;
use crate::time::utc_now;

verus! {

/// Why a link is refused.
#[derive(Clone, Copy, Debug, PartialEq, Eq, Structural)]
pub enum LinkError {
    /// The dashboard puts the page in a frame, so it must come from the web.
    NotAWebPage,
}

impl LinkError {
    pub open spec fn text(self) -> Seq<char> {
        "only http and https URLs are accepted"@
    }

    pub fn message(self) -> (r: String)
        ensures
            r@ == self.text(),
    {
        "only http and https URLs are accepted".to_owned()
    }
}

/// The URL is one of `http` or `https`.
pub open spec fn is_web_page(url: Seq<char>) -> bool {
    "http://"@.is_prefix_of(url) || "https://"@.is_prefix_of(url)
}

/// A link that is not given an identifier belongs to this.
pub open spec fn link_source(kind: Seq<char>, cwd: Seq<char>, tmux_pane: Option<Seq<char>>) -> Seq<
    char,
> {
    kind + "|"@ + cwd + "|"@ + text::or_empty(tmux_pane)
}

/// Where a page is published from.
pub struct LinkPlace {
    pub cwd: String,
    pub tmux_pane: Option<String>,
    /// The tmux pane by the name that is shown for it.
    pub tmux: String,
}

/// The identifier of a link: the one that it is given, else the one that belongs to its
/// kind, directory and tmux pane.
pub open spec fn link_id_of(kind: Seq<char>, id: Option<Seq<char>>, place: LinkPlace) -> Seq<char> {
    match id {
        Some(id) => id,
        None => ids::url_uuid(link_source(kind, place.cwd@, text::optional(place.tmux_pane))),
    }
}

/// The link to a page.
pub open spec fn link_of(
    id: Seq<char>,
    kind: Seq<char>,
    url: Seq<char>,
    title: Seq<char>,
    place: LinkPlace,
    updated_at: Seq<char>,
) -> LinkView {
    LinkView {
        schema_version: SCHEMA_VERSION,
        id,
        kind,
        url,
        title,
        cwd: place.cwd@,
        project: hooks::project_of(place.cwd@),
        tmux: place.tmux@,
        updated_at,
    }
}

/// The identifier of a link. A command that is run again in its place gets the same one, so
/// it replaces or clears its own entry.
pub fn link_id(kind: &str, id: Option<&str>, place: &LinkPlace) -> (r: String)
    ensures
        r@ == link_id_of(
            kind@,
            text::given(id),
            *place,
        ),
{
    match id {
        Some(id) => id.to_owned(),
        None => {
            let mut source = kind.to_owned();
            source.append("|");
            source.append(place.cwd.as_str());
            source.append("|");
            if let Some(pane) = &place.tmux_pane {
                source.append(pane.as_str());
            }
            assert(source@ =~= link_source(kind@, place.cwd@, text::optional(place.tmux_pane)));
            id_of_name(source.as_str())
        },
    }
}

fn url_is_web_page(url: &str) -> (r: bool)
    ensures
        r == is_web_page(url@),
{
    let chars = to_chars(url);
    let plain = to_chars("http://");
    let secure = to_chars("https://");
    begins_with(chars.as_slice(), plain.as_slice()) || begins_with(
        chars.as_slice(),
        secure.as_slice(),
    )
}

/// The link to a page under an identifier, refreshed at a time.
pub fn link_at(
    id: String,
    kind: &str,
    url: &str,
    title: &str,
    place: &LinkPlace,
    updated_at: String,
) -> (r: Result<Link, LinkError>)
    ensures
        match r {
            Ok(link) => is_web_page(url@) && link.deep_view() == link_of(
                id@,
                kind@,
                url@,
                title@,
                *place,
                updated_at@,
            ),
            Err(error) => !is_web_page(url@) && error == LinkError::NotAWebPage,
        },
{
    if !url_is_web_page(url) {
        return Err(LinkError::NotAWebPage);
    }
    Ok(
        Link {
            schema_version: SCHEMA_VERSION,
            id,
            kind: kind.to_owned(),
            url: url.to_owned(),
            title: title.to_owned(),
            cwd: place.cwd.clone(),
            project: project(place.cwd.as_str()),
            tmux: place.tmux.clone(),
            updated_at,
        },
    )
}

/// The link to publish for a page, refreshed now.
pub fn publish(
    id: Option<&str>,
    kind: &str,
    url: &str,
    title: &str,
    place: &LinkPlace,
) -> (r: Result<Link, LinkError>)
    ensures
        match r {
            Ok(link) => is_web_page(url@) && exists|at: time::Timestamp|
                #![trigger at.valid()]
                at.valid() && at.seconds >= 0 && link.deep_view() == link_of(
                    link_id_of(
                        kind@,
                        text::given(id),
                        *place,
                    ),
                    kind@,
                    url@,
                    title@,
                    *place,
                    time::rfc3339(at.seconds, at.nanos),
                ),
            Err(error) => !is_web_page(url@) && error == LinkError::NotAWebPage,
        },
{
    let id = link_id(kind, id, place);
    link_at(id, kind, url, title, place, utc_now())
}

/// A link that is set again in its place is the same link, whatever page it then leads to; in
/// another place, or of another kind, it belongs to another source.
pub proof fn lemma_link_belongs_to_its_place(kind: Seq<char>, given: Seq<char>, place: LinkPlace)
    ensures
        link_id_of(kind, Some(given), place) == given,
        link_id_of(kind, None, place) == ids::url_uuid(
            link_source(kind, place.cwd@, text::optional(place.tmux_pane)),
        ),
        place.tmux_pane matches Some(pane) ==> link_source(
            kind,
            place.cwd@,
            text::optional(place.tmux_pane),
        ) == kind + "|"@ + place.cwd@ + "|"@ + pane@,
        place.tmux_pane is None ==> link_source(kind, place.cwd@, text::optional(place.tmux_pane))
            == kind + "|"@ + place.cwd@ + "|"@,
{
    let bare = kind + "|"@ + place.cwd@ + "|"@;
    assert(bare + Seq::empty() =~= bare);
}

/// A link says what it was given, and where it was set.
pub proof fn lemma_link_says(
    id: Seq<char>,
    kind: Seq<char>,
    url: Seq<char>,
    title: Seq<char>,
    place: LinkPlace,
    updated_at: Seq<char>,
)
    ensures
        ({
            let link = link_of(id, kind, url, title, place, updated_at);
            &&& link.schema_version == 1
            &&& link.id == id && link.kind == kind && link.url == url && link.title == title
            &&& link.cwd == place.cwd@ && link.tmux == place.tmux@ && link.updated_at == updated_at
            &&& link.project == hooks::project_of(place.cwd@)
        }),
{
}

/// Only pages of the web are accepted.
pub proof fn lemma_web_pages(rest: Seq<char>, url: Seq<char>)
    ensures
        is_web_page("http://"@ + rest),
        is_web_page("https://"@ + rest),
        is_web_page(url) ==> url.len() >= 7 && url[0] == 'h' && url[1] == 't' && url[2] == 't'
            && url[3] == 'p' && (url[4] == ':' || url[4] == 's' && url[5] == ':'),
{
    reveal_strlit("http://");
    reveal_strlit("https://");
    assert("http://"@.len() == 7 && "https://"@.len() == 8);
    let a = "http://"@ + rest;
    let b = "https://"@ + rest;
    assert("http://"@ =~= a.subrange(0, 7));
    assert("https://"@ =~= b.subrange(0, 8));
    if "http://"@.is_prefix_of(url) {
        assert forall|i: int| 0 <= i < 7 implies url[i] == "http://"@[i] by {}
        assert("http://"@[0] == 'h' && "http://"@[1] == 't' && "http://"@[2] == 't'
            && "http://"@[3] == 'p' && "http://"@[4] == ':');
    }
    if "https://"@.is_prefix_of(url) {
        assert forall|i: int| 0 <= i < 8 implies url[i] == "https://"@[i] by {}
        assert("https://"@[0] == 'h' && "https://"@[1] == 't' && "https://"@[2] == 't'
            && "https://"@[3] == 'p' && "https://"@[4] == 's' && "https://"@[5] == ':');
    }
}

} // verus!

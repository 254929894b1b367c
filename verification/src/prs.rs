//! GitHub pull requests attached to a devbox.
use vstd::prelude::*;
use vstd::slice::slice_subrange;

use crate::config;
use crate::config::{pair_of, push_line, ConfigError};
use crate::number;
use crate::number::{decimal_text, unsigned_value};
use crate::split;
use crate::paths;
use crate::paths::join;
use crate::split::{index_of, index_of_text, split_at_each, split_lines, trimmed};
use crate::table;
use crate::table::{Duplicate, Table};
use crate::text;
use crate::text::{char_is_alphanumeric, chars_are, chars_are_ignoring_case, same, to_chars, to_lower, to_text};

verus! {

/// Bounds one card's row of chips, so a devbox cannot push its sessions off the screen
/// with pull requests.
pub const PR_LIMIT: usize = 8;

/// The longest input that is looked at, in characters.
pub const INPUT_LIMIT: usize = 300;

/// The longest host, owner or repository.
pub const SEGMENT_LIMIT: usize = 100;

/// A pull request attached to a devbox. `url` is canonical, so the same pull request
/// pasted from a diff view and from the conversation tab is one entry.
#[derive(Clone, Debug, PartialEq, Eq)]
pub struct PullRequest {
    pub url: String,
    pub owner: String,
    pub repo: String,
    pub number: u64,
}

/// What a value of `PullRequest` says.
pub struct PrView {
    pub url: Seq<char>,
    pub owner: Seq<char>,
    pub repo: Seq<char>,
    pub number: u64,
}

impl DeepView for PullRequest {
    type V = PrView;

    open spec fn deep_view(&self) -> PrView {
        PrView { url: self.url@, owner: self.owner@, repo: self.repo@, number: self.number }
    }
}

impl Duplicate for PullRequest {
    fn duplicate(&self) -> (copy: Self) {
        PullRequest {
            url: self.url.clone(),
            owner: self.owner.clone(),
            repo: self.repo.clone(),
            number: self.number,
        }
    }
}

/// A character of a host, owner or repository.
pub open spec fn is_segment_char(c: char) -> bool {
    text::is_alphanumeric(c) || c == '.' || c == '-' || c == '_'
}

/// What the line format and a chip can hold: no white space, no `#` to comment out the
/// rest of the line, no step up the path.
pub open spec fn segment(s: Seq<char>) -> bool {
    &&& 0 < s.len() <= SEGMENT_LIMIT
    &&& s != seq!['.']
    &&& s != seq!['.', '.']
    &&& forall|i: int| 0 <= i < s.len() ==> is_segment_char(#[trigger] s[i])
}

/// The link to a pull request.
pub open spec fn link_text(
    host: Seq<char>,
    owner: Seq<char>,
    repo: Seq<char>,
    number: u64,
) -> Seq<char> {
    "https://"@ + host + "/"@ + owner + "/"@ + repo + "/pull/"@ + number::decimal(number as nat)
}

/// The canonical pull request, if every part is one that a link can hold.
pub open spec fn canonical(
    host: Seq<char>,
    owner: Seq<char>,
    repo: Seq<char>,
    number: u64,
) -> Option<PrView> {
    if number > 0 && segment(host) && segment(owner) && segment(repo) {
        Some(PrView { url: link_text(text::lower(host), owner, repo, number), owner, repo, number })
    } else {
        None
    }
}

/// A text up to its first `?` or `#`.
pub open spec fn before_query(s: Seq<char>) -> Seq<char> {
    let head = s.take(split::find(s, '?') as int);
    head.take(split::find(head, '#') as int)
}

/// The pull request that a link leads to: `scheme://host/owner/repo/pull/number`, where
/// the scheme is `http` or `https` and anything may follow the number.
pub open spec fn from_url(input: Seq<char>) -> Option<PrView> {
    match split::position(input, "://"@) {
        None => None,
        Some(colon) => {
            let scheme = text::lower(input.take(colon as int));
            let rest = input.skip(colon as int + 3);
            let slash = split::find(rest, '/') as int;
            let path = split::pieces(rest.skip(slash + 1), '/');
            if scheme != "https"@ && scheme != "http"@ || slash == rest.len() || path.len() < 4
                || path[2] != "pull"@ {
                None
            } else {
                match number::parse_unsigned(before_query(path[3]), u64::MAX as nat) {
                    Some(n) => canonical(rest.take(slash), path[0], path[1], n as u64),
                    None => None,
                }
            }
        },
    }
}

/// The pull request that `owner/repo#number` names on github.com.
pub open spec fn from_shorthand(input: Seq<char>) -> Option<PrView> {
    let hash = split::find(input, '#') as int;
    let repository = input.take(hash);
    let slash = split::find(repository, '/') as int;
    if hash == input.len() || slash == repository.len() {
        None
    } else {
        match number::parse_unsigned(split::trim(input.skip(hash + 1)), u64::MAX as nat) {
            Some(n) => canonical(
                "github.com"@,
                repository.take(slash),
                repository.skip(slash + 1),
                n as u64,
            ),
            None => None,
        }
    }
}

/// The pull request that an input names.
pub open spec fn named(input: Seq<char>) -> Option<PrView> {
    let trimmed = split::trim(input);
    if trimmed.len() == 0 || trimmed.len() > INPUT_LIMIT {
        None
    } else {
        match from_url(trimmed) {
            Some(pr) => Some(pr),
            None => from_shorthand(trimmed),
        }
    }
}

/// Whether a host, owner or repository is one that a link can hold.
pub fn is_segment(value: &[char]) -> (r: bool)
    ensures
        r == segment(value@),
{
    if value.len() == 0 || value.len() > SEGMENT_LIMIT {
        return false;
    }
    if value.len() == 1 && value[0] == '.' {
        assert(value@ =~= seq!['.']);
        return false;
    }
    if value.len() == 2 && value[0] == '.' && value[1] == '.' {
        assert(value@ =~= seq!['.', '.']);
        return false;
    }
    let mut i: usize = 0;
    while i < value.len()
        invariant
            i <= value@.len(),
            forall|j: int| 0 <= j < i ==> is_segment_char(#[trigger] value@[j]),
        decreases value@.len() - i,
    {
        let c = value[i];
        if !(char_is_alphanumeric(c) || c == '.' || c == '-' || c == '_') {
            assert(!is_segment_char(value@[i as int]));
            return false;
        }
        i += 1;
    }
    true
}

/// What a parser hands back, by what it says.
pub open spec fn seen(r: Option<PullRequest>) -> Option<PrView> {
    match r {
        Some(pr) => Some(pr.deep_view()),
        None => None,
    }
}

/// The canonical pull request. The link is always `https`: GitHub and Enterprise both
/// redirect there anyway, and it keeps a hand-edited `http://` line from downgrading it.
pub fn build(host: &[char], owner: &[char], repo: &[char], number: u64) -> (r: Option<PullRequest>)
    ensures
        seen(r) == canonical(host@, owner@, repo@, number),
{
    if number == 0 || !is_segment(host) || !is_segment(owner) || !is_segment(repo) {
        return None;
    }
    let plain = to_text(host);
    let lowered = to_lower(plain.as_str());
    let owner_text = to_text(owner);
    let repo_text = to_text(repo);
    let digits = decimal_text(number as u128);
    let mut url = "https://".to_owned();
    url.append(lowered.as_str());
    url.append("/");
    url.append(owner_text.as_str());
    url.append("/");
    url.append(repo_text.as_str());
    url.append("/pull/");
    url.append(digits.as_str());
    Some(PullRequest { url, owner: owner_text, repo: repo_text, number })
}

/// The pull request that a link leads to.
pub fn parse_url(input: &[char]) -> (r: Option<PullRequest>)
    ensures
        seen(r) == from_url(input@),
{
    proof {
        reveal_strlit("://");
        lemma_schemes();
    }
    let mark = to_chars("://");
    let colon: usize = match index_of_text(input, mark.as_slice()) {
        Some(n) => n,
        None => {
            return None;
        },
    };
    assert(mark@.len() == 3);
    let scheme = slice_subrange(input, 0, colon);
    assert(scheme@ =~= input@.take(colon as int));
    if !chars_are_ignoring_case(scheme, "https") && !chars_are_ignoring_case(scheme, "http") {
        return None;
    }
    let end: usize = input.len();
    let rest = slice_subrange(input, colon + 3, end);
    assert(rest@ =~= input@.skip(colon + 3));
    let slash: usize = index_of(rest, '/');
    if slash == rest.len() {
        return None;
    }
    let host = slice_subrange(rest, 0, slash);
    let path = slice_subrange(rest, slash + 1, rest.len());
    assert(host@ =~= rest@.take(slash as int));
    assert(path@ =~= rest@.skip(slash + 1));
    let segments = split_at_each(path, '/');
    if segments.len() < 4 || !chars_are(segments[2], "pull") {
        return None;
    }
    let last = segments[3];
    let head = slice_subrange(last, 0, index_of(last, '?'));
    assert(head@ =~= last@.take(split::find(last@, '?') as int));
    let bare = slice_subrange(head, 0, index_of(head, '#'));
    assert(bare@ =~= before_query(last@));
    match unsigned_value(bare, u64::MAX) {
        Some(number) => build(host, segments[0], segments[1], number),
        None => None,
    }
}

/// The pull request that `owner/repo#number` names on github.com.
pub fn parse_shorthand(input: &[char]) -> (r: Option<PullRequest>)
    ensures
        seen(r) == from_shorthand(input@),
{
    let hash: usize = index_of(input, '#');
    if hash == input.len() {
        return None;
    }
    let repository = slice_subrange(input, 0, hash);
    assert(repository@ =~= input@.take(hash as int));
    let slash: usize = index_of(repository, '/');
    if slash == repository.len() {
        return None;
    }
    let tail = slice_subrange(input, hash + 1, input.len());
    assert(tail@ =~= input@.skip(hash + 1));
    let owner = slice_subrange(repository, 0, slash);
    assert(owner@ =~= repository@.take(slash as int));
    let repo = slice_subrange(repository, slash + 1, repository.len());
    assert(repo@ =~= repository@.skip(slash + 1));
    match unsigned_value(trimmed(tail), u64::MAX) {
        Some(number) => {
            let host = to_chars("github.com");
            build(host.as_slice(), owner, repo, number)
        },
        None => None,
    }
}

/// Accepts a pull request URL, on github.com or an Enterprise host, or the
/// `owner/repo#123` shorthand, and returns the canonical link. Trailing path, query and
/// fragment are dropped: `/files?diff=split` is the same pull request.
pub fn parse(input: &str) -> (r: Option<PullRequest>)
    ensures
        seen(r) == named(input@),
{
    let chars = to_chars(input);
    let bare = trimmed(chars.as_slice());
    if bare.len() == 0 || bare.len() > INPUT_LIMIT {
        return None;
    }
    match parse_url(bare) {
        Some(pr) => Some(pr),
        None => parse_shorthand(bare),
    }
}

proof fn lemma_schemes()
    ensures
        text::lower("https"@) == "https"@,
        text::lower("http"@) == "http"@,
{
    reveal_strlit("https");
    reveal_strlit("http");
    assert(text::lower("https"@) =~= "https"@);
    assert(text::lower("http"@) =~= "http"@);
}

// ---------------------------------------------------------------------------
// Canonical links
// ---------------------------------------------------------------------------

/// A pull request whose parts a link can hold and whose link is the one they make.
pub open spec fn well_formed(pr: PrView) -> bool {
    &&& pr.number > 0
    &&& segment(pr.owner)
    &&& segment(pr.repo)
    &&& exists|host: Seq<char>|
        #![trigger link_text(host, pr.owner, pr.repo, pr.number)]
        segment(host) && text::lower(host) == host && pr.url == link_text(
            host,
            pr.owner,
            pr.repo,
            pr.number,
        )
}

proof fn lemma_canonical(host: Seq<char>, owner: Seq<char>, repo: Seq<char>, number: u64)
    ensures
        canonical(host, owner, repo, number) matches Some(pr) ==> well_formed(pr),
{
    if let Some(pr) = canonical(host, owner, repo, number) {
        let low = text::lower(host);
        assert(text::lower(low) =~= low);
        assert(segment(low)) by {
            assert(low != seq!['.']) by {
                if low == seq!['.'] {
                    assert(low[0] == '.');
                    assert(host =~= seq!['.']);
                }
            }
            assert(low != seq!['.', '.']) by {
                if low == seq!['.', '.'] {
                    assert(low[0] == '.' && low[1] == '.');
                    assert(host =~= seq!['.', '.']);
                }
            }
            assert forall|i: int| 0 <= i < low.len() implies is_segment_char(#[trigger] low[i]) by {
                assert(is_segment_char(host[i]));
            }
        }
        assert(pr.url == link_text(low, pr.owner, pr.repo, pr.number));
    }
}

/// Whatever names a pull request, the pull request is well formed.
pub proof fn lemma_named_is_well_formed(input: Seq<char>)
    ensures
        named(input) matches Some(pr) ==> well_formed(pr),
{
    let t = split::trim(input);
    if let Some(colon) = split::position(t, "://"@) {
        let rest = t.skip(colon as int + 3);
        let slash = split::find(rest, '/') as int;
        let path = split::pieces(rest.skip(slash + 1), '/');
        if let Some(n) = number::parse_unsigned(before_query(path[3]), u64::MAX as nat) {
            lemma_canonical(rest.take(slash), path[0], path[1], n as u64);
        }
    }
    let hash = split::find(t, '#') as int;
    let repository = t.take(hash);
    let slash = split::find(repository, '/') as int;
    if let Some(n) = number::parse_unsigned(split::trim(t.skip(hash + 1)), u64::MAX as nat) {
        lemma_canonical("github.com"@, repository.take(slash), repository.skip(slash + 1), n as u64);
    }
}

proof fn lemma_segment_has_no(s: Seq<char>, c: char)
    requires
        segment(s),
        !is_segment_char(c),
    ensures
        !s.contains(c),
{
    if s.contains(c) {
        let i = choose|i: int| 0 <= i < s.len() && s[i] == c;
        assert(is_segment_char(s[i]));
    }
}

proof fn lemma_before_query(digits: Seq<char>, tail: Seq<char>)
    requires
        number::all_digits(digits),
        tail.len() == 0 || tail[0] == '?' || tail[0] == '#',
    ensures
        before_query(digits + tail) == digits,
{
    let s = digits + tail;
    split::lemma_find(s, '?');
    let n = split::find(s, '?') as int;
    if n < digits.len() {
        assert(text::is_digit(digits[n]));
        assert(s[n] == digits[n]);
    }
    let head = s.take(n);
    assert forall|j: int| 0 <= j < digits.len() implies #[trigger] head[j] != '#' by {
        assert(text::is_digit(digits[j]));
        assert(head[j] == digits[j]);
    }
    if tail.len() > 0 && tail[0] == '?' {
        assert forall|j: int| 0 <= j < digits.len() implies #[trigger] s[j] != '?' by {
            assert(text::is_digit(digits[j]));
            assert(s[j] == digits[j]);
        }
        split::lemma_find_at(s, '?', digits.len() as int);
    }
    split::lemma_find_at(head, '#', digits.len() as int);
    assert(head.take(digits.len() as int) =~= digits);
}

/// The part of a link behind its host.
spec fn path_text(owner: Seq<char>, repo: Seq<char>, last: Seq<char>) -> Seq<char> {
    owner + seq!['/'] + (repo + seq!['/'] + ("pull"@ + seq!['/'] + last))
}

proof fn lemma_path_pieces(owner: Seq<char>, repo: Seq<char>, last: Seq<char>)
    requires
        segment(owner),
        segment(repo),
    ensures
        split::pieces(path_text(owner, repo, last), '/') == seq![owner, repo, "pull"@]
            + split::pieces(last, '/'),
{
    reveal_strlit("pull");
    let pulled = "pull"@ + seq!['/'] + last;
    let from_repo = repo + seq!['/'] + pulled;
    lemma_segment_has_no(owner, '/');
    lemma_segment_has_no(repo, '/');
    assert(!"pull"@.contains('/'));
    split::lemma_pieces(owner, from_repo, '/');
    split::lemma_pieces(repo, pulled, '/');
    split::lemma_pieces("pull"@, last, '/');
    assert(seq![owner] + (seq![repo] + (seq!["pull"@] + split::pieces(last, '/'))) =~= seq![
        owner,
        repo,
        "pull"@,
    ] + split::pieces(last, '/'));
}

proof fn lemma_number_piece(number: u64, tail: Seq<char>)
    requires
        tail.len() == 0 || tail[0] == '/' || tail[0] == '?' || tail[0] == '#',
    ensures
        split::pieces(number::decimal(number as nat) + tail, '/').len() > 0,
        number::parse_unsigned(
            before_query(split::pieces(number::decimal(number as nat) + tail, '/')[0]),
            u64::MAX as nat,
        ) == Some(number as nat),
{
    let digits = number::decimal(number as nat);
    let last = digits + tail;
    number::lemma_decimal(number as nat);
    number::lemma_decimal_reads_back(number as nat, u64::MAX as nat);
    split::lemma_find(last, '/');
    let n = split::find(last, '/') as int;
    if n < digits.len() {
        assert(text::is_digit(digits[n]));
        assert(last[n] == digits[n]);
    }
    let first = split::pieces(last, '/')[0];
    assert(first =~= last.take(n));
    let more = first.skip(digits.len() as int);
    assert(first =~= digits + more);
    assert(more.len() > 0 ==> more[0] == tail[0] && more[0] == last[digits.len() as int]);
    lemma_before_query(digits, more);
}

proof fn lemma_concat(a: Seq<char>, b: Seq<char>, c: Seq<char>)
    ensures
        a + b + c == a + (b + c),
{
    assert(a + b + c =~= a + (b + c));
}

proof fn lemma_link_text(
    host: Seq<char>,
    owner: Seq<char>,
    repo: Seq<char>,
    number: u64,
    tail: Seq<char>,
)
    ensures
        link_text(host, owner, repo, number) + tail == "https://"@ + (host + seq!['/'] + path_text(
            owner,
            repo,
            number::decimal(number as nat) + tail,
        )),
{
    let slash = seq!['/'];
    let pull = "pull"@;
    assert("/"@ =~= slash && "/pull/"@ =~= slash + pull + slash) by {
        reveal_strlit("/");
        reveal_strlit("/pull/");
        reveal_strlit("pull");
    }
    let digits = number::decimal(number as nat);
    let last = digits + tail;
    let begin = "https://"@ + host;
    let to_owner = begin + slash + owner;
    let to_repo = to_owner + slash + repo;
    let pulled = pull + slash + last;
    let from_repo = repo + slash + pulled;
    lemma_concat(to_repo + (slash + pull + slash), digits, tail);
    lemma_concat(to_repo, slash + pull + slash, last);
    lemma_concat(slash, pull, slash);
    lemma_concat(slash, pull + slash, last);
    assert(slash + pull + slash + last == slash + pulled);
    lemma_concat(to_owner + slash, repo, slash + pulled);
    lemma_concat(to_owner, slash, repo + (slash + pulled));
    lemma_concat(repo, slash, pulled);
    assert(link_text(host, owner, repo, number) + tail == to_owner + (slash + from_repo));
    lemma_concat(begin + slash, owner, slash + from_repo);
    lemma_concat(owner, slash, from_repo);
    lemma_concat(begin, slash, owner + slash + from_repo);
    lemma_concat("https://"@, host, slash + (owner + slash + from_repo));
    lemma_concat(host, slash, owner + slash + from_repo);
}

proof fn lemma_scheme_ends(rest: Seq<char>)
    ensures
        split::position("https://"@ + rest, "://"@) == Some(5nat),
        text::lower(("https://"@ + rest).take(5)) == "https"@,
        ("https://"@ + rest).skip(8) == rest,
{
    reveal_strlit("https://");
    reveal_strlit("://");
    reveal_strlit("https");
    let input = "https://"@ + rest;
    assert(input.subrange(5, 8) =~= "://"@);
    split::lemma_position_at(input, "://"@, 5);
    assert(input.take(5) =~= "https"@);
    lemma_schemes();
    assert(input.skip(8) =~= rest);
}

proof fn lemma_host_ends(host: Seq<char>, path: Seq<char>)
    requires
        segment(host),
    ensures
        split::find(host + seq!['/'] + path, '/') == host.len(),
        (host + seq!['/'] + path).take(host.len() as int) == host,
        (host + seq!['/'] + path).skip(host.len() as int + 1) == path,
{
    let rest = host + seq!['/'] + path;
    lemma_segment_has_no(host, '/');
    assert forall|j: int| 0 <= j < host.len() implies #[trigger] rest[j] != '/' by {
        assert(rest[j] == host[j]);
    }
    split::lemma_find_at(rest, '/', host.len() as int);
    assert(rest.take(host.len() as int) =~= host);
    assert(rest.skip(host.len() as int + 1) =~= path);
}

/// What follows the number of a link does not matter, if it begins with `/`, `?` or `#`.
proof fn lemma_link_leads_back(
    host: Seq<char>,
    owner: Seq<char>,
    repo: Seq<char>,
    number: u64,
    tail: Seq<char>,
)
    requires
        segment(host),
        segment(owner),
        segment(repo),
        number > 0,
        tail.len() == 0 || tail[0] == '/' || tail[0] == '?' || tail[0] == '#',
    ensures
        from_url(link_text(host, owner, repo, number) + tail) == canonical(host, owner, repo, number),
{
    let last = number::decimal(number as nat) + tail;
    let path = path_text(owner, repo, last);
    let rest = host + seq!['/'] + path;
    let input = link_text(host, owner, repo, number) + tail;
    lemma_link_text(host, owner, repo, number, tail);
    lemma_scheme_ends(rest);
    lemma_host_ends(host, path);
    lemma_path_pieces(owner, repo, last);
    lemma_number_piece(number, tail);
    let found = split::pieces(path, '/');
    assert(found[0] == owner && found[1] == repo && found[2] == "pull"@);
    assert(found[3] == split::pieces(last, '/')[0]);
}

/// A link is free of white space, `=`, `#` and line ends.
proof fn lemma_link_characters(pr: PrView)
    requires
        well_formed(pr),
    ensures
        pr.url.len() > 0,
        forall|i: int|
            0 <= i < pr.url.len() ==> !text::is_space(#[trigger] pr.url[i]) && pr.url[i] != '#'
                && pr.url[i] != '=',
{
    reveal_strlit("https://");
    reveal_strlit("/");
    reveal_strlit("/pull/");
    let host = choose|host: Seq<char>|
        #![trigger link_text(host, pr.owner, pr.repo, pr.number)]
        segment(host) && text::lower(host) == host && pr.url == link_text(
            host,
            pr.owner,
            pr.repo,
            pr.number,
        );
    let digits = number::decimal(pr.number as nat);
    number::lemma_decimal(pr.number as nat);
    let a = "https://"@ + host;
    let b = a + "/"@ + pr.owner;
    let c = b + "/"@ + pr.repo;
    let d = c + "/pull/"@;
    assert(pr.url == d + digits);
    assert forall|i: int| 0 <= i < pr.url.len() implies !text::is_space(#[trigger] pr.url[i])
        && pr.url[i] != '#' && pr.url[i] != '=' by {
        if i < 8 {
            assert(pr.url[i] == "https://"@[i]);
        } else if i < a.len() {
            assert(pr.url[i] == host[i - 8]);
            assert(is_segment_char(host[i - 8]));
        } else if i < a.len() + 1 {
            assert(pr.url[i] == '/');
        } else if i < b.len() {
            assert(pr.url[i] == pr.owner[i - a.len() - 1]);
            assert(is_segment_char(pr.owner[i - a.len() - 1]));
        } else if i < b.len() + 1 {
            assert(pr.url[i] == '/');
        } else if i < c.len() {
            assert(pr.url[i] == pr.repo[i - b.len() - 1]);
            assert(is_segment_char(pr.repo[i - b.len() - 1]));
        } else if i < d.len() {
            assert(pr.url[i] == "/pull/"@[i - c.len()]);
        } else {
            assert(pr.url[i] == digits[i - d.len()]);
            assert(text::is_digit(digits[i - d.len()]));
        }
    }
}

/// The same pull request from any tab is one entry: a path, query or fragment behind its
/// link does not change which pull request is named, as long as the input is not too long.
pub proof fn lemma_same_from_any_tab(pr: PrView, tail: Seq<char>)
    requires
        well_formed(pr),
        tail.len() == 0 || tail[0] == '/' || tail[0] == '?' || tail[0] == '#',
        (pr.url + tail).len() <= INPUT_LIMIT,
    ensures
        named(pr.url + tail) == Some(pr),
{
    let host = choose|host: Seq<char>|
        #![trigger link_text(host, pr.owner, pr.repo, pr.number)]
        segment(host) && text::lower(host) == host && pr.url == link_text(
            host,
            pr.owner,
            pr.repo,
            pr.number,
        );
    lemma_link_characters(pr);
    let whole = pr.url + tail;
    // Only the end can be trimmed, and not past the first character of the tail.
    let kept = split::trim_end(tail);
    split::lemma_trim_end_is_prefix(tail);
    assert(tail.len() > 0 ==> !text::is_space(tail[0]));
    let to = pr.url.len() + kept.len();
    assert forall|j: int| to <= j < whole.len() implies text::is_space(#[trigger] whole[j]) by {
        assert(whole[j] == tail[j - pr.url.len()]);
    }
    assert(whole[0] == pr.url[0]);
    assert(!text::is_space(whole[to - 1])) by {
        if kept.len() == 0 {
            assert(whole[to - 1] == pr.url.last());
        } else {
            assert(whole[to - 1] == tail[kept.len() - 1]);
            assert(kept.last() == tail[kept.len() - 1]);
        }
    }
    split::lemma_trim_at(whole, 0, to as int);
    assert(whole.subrange(0, to as int) =~= pr.url + kept);
    assert(kept.len() > 0 ==> kept[0] == tail[0]);
    lemma_link_leads_back(host, pr.owner, pr.repo, pr.number, kept);
}

/// A canonical link names its own pull request again.
pub proof fn lemma_link_reads_back(input: Seq<char>)
    ensures
        named(input) matches Some(pr) ==> (pr.url.len() <= INPUT_LIMIT ==> named(pr.url) == Some(
            pr,
        )),
{
    lemma_named_is_well_formed(input);
    if let Some(pr) = named(input) {
        if pr.url.len() <= INPUT_LIMIT {
            lemma_same_from_any_tab(pr, seq![]);
            assert(pr.url + seq![] =~= pr.url);
        }
    }
}

// ---------------------------------------------------------------------------
// The file of attachments
// ---------------------------------------------------------------------------

/// The lines that the file begins with.
pub open spec fn header() -> Seq<Seq<char>> {
    seq![
        "# GitHub pull requests attached to a devbox on the llm-watch dashboard."@,
        "# One `host = url` per line, repeated per pull request; `#` starts a comment."@,
        "# Edited in place by the web dashboard."@,
    ]
}

/// Whether a pull request with that link is in the list.
pub open spec fn has_url(list: Seq<PrView>, url: Seq<char>) -> bool {
    exists|i: int| 0 <= i < list.len() && (#[trigger] list[i]).url == url
}

/// The list with the pull request attached. A duplicate, or one past the limit, leaves
/// the list as it is.
pub open spec fn attach(list: Seq<PrView>, pr: PrView) -> Seq<PrView> {
    if list.len() < PR_LIMIT && !has_url(list, pr.url) {
        list.push(pr)
    } else {
        list
    }
}

/// The list without the pull requests that have that link.
pub open spec fn detach(list: Seq<PrView>, url: Seq<char>) -> Seq<PrView>
    decreases list.len(),
{
    if list.len() == 0 {
        seq![]
    } else if list.last().url == url {
        detach(list.drop_last(), url)
    } else {
        detach(list.drop_last(), url).push(list.last())
    }
}

/// The pull requests attached to a host.
pub open spec fn list_of(all: Map<Seq<char>, Seq<PrView>>, host: Seq<char>) -> Seq<PrView> {
    if all.dom().contains(host) {
        all[host]
    } else {
        seq![]
    }
}

/// The attachments once a further line is read. A line that is not `host = pull request`
/// is skipped.
pub open spec fn with_line(
    all: Map<Seq<char>, Seq<PrView>>,
    line: Seq<char>,
) -> Map<Seq<char>, Seq<PrView>> {
    match config::pair(line) {
        None => all,
        Some((host, url)) => match named(url) {
            None => all,
            Some(pr) => all.insert(host, attach(list_of(all, host), pr)),
        },
    }
}

/// The attachments that the lines list.
pub open spec fn in_lines(lines: Seq<Seq<char>>) -> Map<Seq<char>, Seq<PrView>>
    decreases lines.len(),
{
    if lines.len() == 0 {
        Map::empty()
    } else {
        with_line(in_lines(lines.drop_last()), lines.last())
    }
}

/// The attachments that the content of the file lists.
pub open spec fn attached(content: Seq<char>) -> Map<Seq<char>, Seq<PrView>> {
    in_lines(split::lines(content))
}

/// The lines for one host.
pub open spec fn host_lines(host: Seq<char>, list: Seq<PrView>) -> Seq<Seq<char>> {
    Seq::new(list.len(), |i: int| config::line(host, list[i].url))
}

/// The lines for the hosts, one host after the other.
pub open spec fn all_lines(
    hosts: Seq<Seq<char>>,
    all: Map<Seq<char>, Seq<PrView>>,
) -> Seq<Seq<char>>
    decreases hosts.len(),
{
    if hosts.len() == 0 {
        seq![]
    } else {
        all_lines(hosts.drop_last(), all) + host_lines(hosts.last(), all[hosts.last()])
    }
}

/// The content of the file that lists the attachments, host by host in ascending order.
pub open spec fn file_text(all: Map<Seq<char>, Seq<PrView>>) -> Seq<char> {
    config::unlines(header() + all_lines(table::sorted_keys(all.dom()), all))
}

/// The attachments with the list of one host changed; an empty list drops the host.
pub open spec fn changed(
    all: Map<Seq<char>, Seq<PrView>>,
    host: Seq<char>,
    list: Seq<PrView>,
) -> Map<Seq<char>, Seq<PrView>> {
    if list.len() == 0 {
        all.remove(host)
    } else {
        all.insert(host, list)
    }
}

/// Whether the list holds that link.
fn contains_url(list: &Vec<PullRequest>, url: &str) -> (r: bool)
    ensures
        r == has_url(list.deep_view(), url@),
{
    let mut i: usize = 0;
    while i < list.len()
        invariant
            i <= list@.len(),
            forall|j: int| 0 <= j < i ==> (#[trigger] list.deep_view()[j]).url != url@,
        decreases list@.len() - i,
    {
        if same(list[i].url.as_str(), url) {
            assert(list.deep_view()[i as int].url == url@);
            return true;
        }
        i += 1;
    }
    false
}

/// Attaches the pull request to the list unless it is there or the list is full.
fn push_new(list: &mut Vec<PullRequest>, pr: PullRequest)
    ensures
        final(list).deep_view() == attach(old(list).deep_view(), pr.deep_view()),
{
    if list.len() < PR_LIMIT && !contains_url(list, pr.url.as_str()) {
        list.push(pr);
        assert(list.deep_view() =~= old(list).deep_view().push(pr.deep_view()));
    }
}

/// Takes the list of a host out of the table.
fn take_list(all: &mut Table<Vec<PullRequest>>, host: &str) -> (list: Vec<PullRequest>)
    ensures
        list.deep_view() == list_of(old(all)@, host@),
        final(all)@ == old(all)@.remove(host@),
{
    match all.remove(host) {
        Some(list) => list,
        None => {
            let list: Vec<PullRequest> = Vec::new();
            assert(list.deep_view() =~= seq![]);
            list
        },
    }
}

/// Reads `host = url` lines, one per pull request. Anything unparseable is skipped rather
/// than failing the poll that asked for it.
pub fn read_prs(content: &str) -> (all: Table<Vec<PullRequest>>)
    ensures
        all@ == attached(content@),
{
    let chars = to_chars(content);
    let lines = split_lines(chars.as_slice());
    let ghost every = split::lines(content@);
    let mut all: Table<Vec<PullRequest>> = Table::new();
    let mut i: usize = 0;
    while i < lines.len()
        invariant
            i <= lines@.len(),
            every == split::views(lines@),
            all@ == in_lines(every.take(i as int)),
        decreases lines@.len() - i,
    {
        let ghost before_line = all@;
        assert(every.take(i + 1).drop_last() =~= every.take(i as int));
        assert(every.take(i + 1).last() == lines@[i as int]@);
        if let Some((host, url)) = pair_of(lines[i]) {
            let url_text = to_text(url);
            if let Some(pr) = parse(url_text.as_str()) {
                let host_text = to_text(host);
                let mut list = take_list(&mut all, host_text.as_str());
                push_new(&mut list, pr);
                all.insert(host_text, list);
                assert(all@ =~= before_line.insert(host@, list.deep_view()));
            }
        }
        i += 1;
    }
    assert(every.take(i as int) =~= every);
    all
}

/// The content of the file that lists the attachments.
pub fn write_prs(all: &Table<Vec<PullRequest>>) -> (content: String)
    ensures
        content@ == file_text(all@),
{
    let mut content = String::new();
    let ghost top = header();
    let ghost keys = table::sorted_keys(all@.dom());
    push_line(&mut content, "# GitHub pull requests attached to a devbox on the llm-watch dashboard.");
    push_line(
        &mut content,
        "# One `host = url` per line, repeated per pull request; `#` starts a comment.",
    );
    push_line(&mut content, "# Edited in place by the web dashboard.");
    proof {
        reveal_with_fuel(config::unlines, 4);
        assert(top.drop_last() =~= seq![top[0], top[1]]);
        assert(top.drop_last().drop_last() =~= seq![top[0]]);
        assert(top.drop_last().drop_last().drop_last() =~= seq![]);
        assert(content@ =~= config::unlines(top));
        assert(top + all_lines(keys.take(0), all@) =~= top);
    }
    let mut i: usize = 0;
    let count: usize = all.len();
    while i < count
        invariant
            count == keys.len(),
            keys == table::sorted_keys(all@.dom()),
            i <= count,
            top == header(),
            content@ == config::unlines(top + all_lines(keys.take(i as int), all@)),
        decreases count - i,
    {
        let host = all.key_at(i);
        let list = all.value_at(i);
        let ghost shown = list.deep_view();
        let ghost so_far = top + all_lines(keys.take(i as int), all@);
        let mut j: usize = 0;
        assert(so_far + host_lines(host@, shown.take(0)) =~= so_far);
        while j < list.len()
            invariant
                j <= list@.len(),
                shown == list.deep_view(),
                content@ == config::unlines(so_far + host_lines(host@, shown.take(j as int))),
            decreases list@.len() - j,
        {
            let mut line = host.clone();
            line.append(" = ");
            line.append(list[j].url.as_str());
            push_line(&mut content, line.as_str());
            proof {
                let next = so_far + host_lines(host@, shown.take(j + 1));
                assert(line@ =~= config::line(host@, shown[j as int].url));
                assert(next.drop_last() =~= so_far + host_lines(host@, shown.take(j as int)));
                assert(next.last() == line@);
            }
            j += 1;
        }
        proof {
            assert(shown.take(j as int) =~= shown);
            assert(keys.take(i + 1).drop_last() =~= keys.take(i as int));
            assert(keys.take(i + 1).last() == host@);
            assert(so_far + host_lines(host@, shown) =~= top + all_lines(keys.take(i + 1), all@));
        }
        i += 1;
    }
    assert(keys.take(i as int) =~= keys);
    content
}

/// An edit of the attachments: the new content of the file, and the list of the host.
pub struct PrEdit {
    pub content: String,
    pub list: Vec<PullRequest>,
}

/// Files the list under the host, or drops the host if the list is empty.
fn finish_edit(mut all: Table<Vec<PullRequest>>, host: &str, list: Vec<PullRequest>) -> (edit: PrEdit)
    ensures
        edit.list.deep_view() == list.deep_view(),
        edit.content@ == file_text(changed(all@, host@, list.deep_view())),
{
    if list.len() > 0 {
        let copy = list.duplicate();
        all.insert(host.to_owned(), copy);
    } else {
        all.remove(host);
    }
    let content = write_prs(&all);
    PrEdit { content, list }
}

/// Attaches a pull request to one host. A duplicate, or one past the limit per host,
/// leaves the list as it was. The other hosts keep theirs, so two dashboards that edit
/// different hosts cannot erase each other.
pub fn add_pr(content: &str, host: &str, pr: &PullRequest) -> (r: Result<PrEdit, ConfigError>)
    ensures
        match r {
            Ok(edit) => {
                let name = split::trim(host@);
                let list = attach(list_of(attached(content@), name), pr.deep_view());
                &&& name.len() > 0
                &&& edit.list.deep_view() == list
                &&& edit.content@ == file_text(changed(attached(content@), name, list))
            },
            Err(error) => split::trim(host@).len() == 0 && error == ConfigError::EmptyHost,
        },
{
    let chars = to_chars(host);
    let name = to_text(trimmed(chars.as_slice()));
    if name.as_str().is_empty() {
        return Err(ConfigError::EmptyHost);
    }
    let mut all = read_prs(content);
    let ghost whole = all@;
    let mut list = take_list(&mut all, name.as_str());
    push_new(&mut list, pr.duplicate());
    proof {
        let shown = list.deep_view();
        assert(changed(whole.remove(name@), name@, shown) =~= changed(whole, name@, shown));
    }
    Ok(finish_edit(all, name.as_str(), list))
}

/// Detaches a pull request from one host; the other hosts keep theirs.
pub fn remove_pr(content: &str, host: &str, pr: &PullRequest) -> (r: Result<PrEdit, ConfigError>)
    ensures
        match r {
            Ok(edit) => {
                let name = split::trim(host@);
                let list = detach(list_of(attached(content@), name), pr.url@);
                &&& name.len() > 0
                &&& edit.list.deep_view() == list
                &&& edit.content@ == file_text(changed(attached(content@), name, list))
            },
            Err(error) => split::trim(host@).len() == 0 && error == ConfigError::EmptyHost,
        },
{
    let chars = to_chars(host);
    let name = to_text(trimmed(chars.as_slice()));
    if name.as_str().is_empty() {
        return Err(ConfigError::EmptyHost);
    }
    let mut all = read_prs(content);
    let ghost whole = all@;
    let list = take_list(&mut all, name.as_str());
    let ghost shown = list.deep_view();
    let mut kept: Vec<PullRequest> = Vec::new();
    let mut i: usize = 0;
    assert(kept.deep_view() =~= detach(shown.take(0), pr.url@));
    while i < list.len()
        invariant
            i <= list@.len(),
            shown == list.deep_view(),
            kept.deep_view() == detach(shown.take(i as int), pr.url@),
        decreases list@.len() - i,
    {
        let ghost earlier = kept.deep_view();
        assert(shown.take(i + 1).drop_last() =~= shown.take(i as int));
        if !same(list[i].url.as_str(), pr.url.as_str()) {
            kept.push(list[i].duplicate());
            assert(kept.deep_view() =~= earlier.push(shown[i as int]));
        }
        i += 1;
    }
    proof {
        assert(shown.take(i as int) =~= shown);
        let left = kept.deep_view();
        assert(changed(whole.remove(name@), name@, left) =~= changed(whole, name@, left));
    }
    Ok(finish_edit(all, name.as_str(), kept))
}

// ---------------------------------------------------------------------------
// What the file keeps
// ---------------------------------------------------------------------------

/// A list as it can be attached to a host: one to eight well-formed pull requests, no
/// link twice.
pub open spec fn orderly_list(list: Seq<PrView>) -> bool {
    &&& 0 < list.len() <= PR_LIMIT
    &&& forall|i: int| 0 <= i < list.len() ==> well_formed(#[trigger] list[i])
    &&& forall|i: int, j: int|
        0 <= i < j < list.len() ==> (#[trigger] list[i]).url != (#[trigger] list[j]).url
}

/// Attachments as a file can list them.
pub open spec fn orderly(all: Map<Seq<char>, Seq<PrView>>) -> bool {
    &&& all.dom().finite()
    &&& forall|host: Seq<char>| #[trigger]
        all.dom().contains(host) ==> config::is_key(host) && orderly_list(all[host])
}

/// No link of the list is longer than an input may be.
pub open spec fn short_links(list: Seq<PrView>) -> bool {
    forall|i: int| 0 <= i < list.len() ==> (#[trigger] list[i]).url.len() <= INPUT_LIMIT
}

/// No link is longer than an input may be.
pub open spec fn all_short(all: Map<Seq<char>, Seq<PrView>>) -> bool {
    forall|host: Seq<char>| #[trigger] all.dom().contains(host) ==> short_links(all[host])
}

proof fn lemma_attach(list: Seq<PrView>, pr: PrView)
    requires
        list.len() == 0 || orderly_list(list),
        well_formed(pr),
    ensures
        orderly_list(attach(list, pr)),
{
    let longer = attach(list, pr);
    if list.len() < PR_LIMIT && !has_url(list, pr.url) {
        assert forall|i: int| 0 <= i < longer.len() implies well_formed(#[trigger] longer[i]) by {
            if i < list.len() {
                assert(well_formed(list[i]));
            }
        }
        assert forall|i: int, j: int| 0 <= i < j < longer.len() implies (#[trigger] longer[i]).url
            != (#[trigger] longer[j]).url by {
            assert(longer[i] == list[i]);
            if j < list.len() {
                assert(longer[j] == list[j]);
            }
        }
    }
}

proof fn lemma_in_lines_orderly(lines: Seq<Seq<char>>)
    requires
        forall|i: int| 0 <= i < lines.len() ==> !(#[trigger] lines[i]).contains('\n'),
    ensures
        orderly(in_lines(lines)),
    decreases lines.len(),
{
    if lines.len() > 0 {
        let rest = lines.drop_last();
        assert forall|i: int| 0 <= i < rest.len() implies !(#[trigger] rest[i]).contains('\n') by {
            assert(rest[i] == lines[i]);
        }
        lemma_in_lines_orderly(rest);
        let all = in_lines(rest);
        let line = lines.last();
        config::lemma_pair_parts(line);
        if let Some((host, url)) = config::pair(line) {
            lemma_named_is_well_formed(url);
            if let Some(pr) = named(url) {
                lemma_attach(list_of(all, host), pr);
            }
        }
    }
}

/// Whatever the file holds, each host has one to eight pull requests and no link twice.
pub proof fn lemma_attached_is_orderly(content: Seq<char>)
    ensures
        orderly(attached(content)),
{
    config::lemma_lines_hold_no_line_end(content);
    lemma_in_lines_orderly(split::lines(content));
}

proof fn lemma_link_is_value(pr: PrView)
    requires
        well_formed(pr),
        pr.url.len() <= INPUT_LIMIT,
    ensures
        config::is_value(pr.url),
        named(" "@ + pr.url) == Some(pr),
{
    lemma_link_characters(pr);
    split::lemma_trim_at(pr.url, 0, pr.url.len() as int);
    assert(pr.url.subrange(0, pr.url.len() as int) =~= pr.url);
    if pr.url.contains('#') {
        let i = choose|i: int| 0 <= i < pr.url.len() && pr.url[i] == '#';
        assert(pr.url[i] != '#');
    }
    if pr.url.contains('\n') {
        let i = choose|i: int| 0 <= i < pr.url.len() && pr.url[i] == '\n';
        assert(!text::is_space(pr.url[i]));
    }
    lemma_same_from_any_tab(pr, seq![]);
    assert(pr.url + seq![] =~= pr.url);
    let key = Seq::<char>::empty();
    split::lemma_trim(key);
    config::lemma_line_reads_back(key, pr.url);
}

proof fn lemma_in_lines_split(a: Seq<Seq<char>>, b: Seq<Seq<char>>)
    requires
        b.len() > 0,
    ensures
        in_lines(a + b) == with_line(in_lines(a + b.drop_last()), b.last()),
{
    assert((a + b).drop_last() =~= a + b.drop_last());
    assert((a + b).last() == b.last());
}

/// The lines for one host add its list.
proof fn lemma_host_lines(front: Seq<Seq<char>>, host: Seq<char>, list: Seq<PrView>)
    requires
        config::is_key(host),
        forall|i: int| 0 <= i < list.len() ==> well_formed(#[trigger] list[i]),
        forall|i: int, j: int|
            0 <= i < j < list.len() ==> (#[trigger] list[i]).url != (#[trigger] list[j]).url,
        list.len() <= PR_LIMIT,
        short_links(list),
        !in_lines(front).dom().contains(host),
    ensures
        in_lines(front + host_lines(host, list)) == (if list.len() == 0 {
            in_lines(front)
        } else {
            in_lines(front).insert(host, list)
        }),
    decreases list.len(),
{
    let more = host_lines(host, list);
    if list.len() == 0 {
        assert(front + more =~= front);
    } else {
        let fewer = list.drop_last();
        let pr = list.last();
        assert forall|i: int| 0 <= i < fewer.len() implies well_formed(#[trigger] fewer[i]) by {
            assert(fewer[i] == list[i]);
        }
        assert forall|i: int, j: int| 0 <= i < j < fewer.len() implies (#[trigger] fewer[i]).url != (
        #[trigger] fewer[j]).url by {
            assert(fewer[i] == list[i] && fewer[j] == list[j]);
        }
        assert forall|i: int| 0 <= i < fewer.len() implies (#[trigger] fewer[i]).url.len()
            <= INPUT_LIMIT by {
            assert(fewer[i] == list[i]);
        }
        lemma_host_lines(front, host, fewer);
        assert(more.drop_last() =~= host_lines(host, fewer));
        lemma_in_lines_split(front, more);
        lemma_link_is_value(pr);
        config::lemma_line_reads_back(host, pr.url);
        let so_far = in_lines(front + host_lines(host, fewer));
        assert(list_of(so_far, host) =~= fewer);
        assert(!has_url(fewer, pr.url)) by {
            if has_url(fewer, pr.url) {
                let i = choose|i: int| 0 <= i < fewer.len() && (#[trigger] fewer[i]).url == pr.url;
                assert(list[i].url != list[list.len() - 1].url);
            }
        }
        assert(fewer.push(pr) =~= list);
        assert(so_far.insert(host, list) =~= in_lines(front).insert(host, list));
    }
}

/// The lines for the hosts of an ascending list add their lists.
proof fn lemma_all_lines(
    front: Seq<Seq<char>>,
    hosts: Seq<Seq<char>>,
    all: Map<Seq<char>, Seq<PrView>>,
)
    requires
        orderly(all),
        all_short(all),
        table::ascending(hosts),
        hosts.to_set().subset_of(all.dom()),
        in_lines(front) == Map::<Seq<char>, Seq<PrView>>::empty(),
    ensures
        in_lines(front + all_lines(hosts, all)) == all.restrict(hosts.to_set()),
    decreases hosts.len(),
{
    if hosts.len() == 0 {
        assert(front + all_lines(hosts, all) =~= front);
        assert(all.restrict(hosts.to_set()) =~= Map::empty());
    } else {
        let fewer = hosts.drop_last();
        let host = hosts.last();
        assert(hosts.to_set().contains(hosts[hosts.len() - 1]));
        assert forall|k: Seq<char>| fewer.to_set().contains(k) implies hosts.to_set().contains(k) by {
            let i = choose|i: int| 0 <= i < fewer.len() && fewer[i] == k;
            assert(hosts[i] == k);
        }
        assert(table::ascending(fewer)) by {
            assert forall|i: int, j: int| 0 <= i < j < fewer.len() implies text::before(
                #[trigger] fewer[i],
                #[trigger] fewer[j],
            ) by {
                assert(fewer[i] == hosts[i] && fewer[j] == hosts[j]);
            }
        }
        lemma_all_lines(front, fewer, all);
        let so_far = front + all_lines(fewer, all);
        assert(!fewer.to_set().contains(host)) by {
            if fewer.to_set().contains(host) {
                let i = choose|i: int| 0 <= i < fewer.len() && fewer[i] == host;
                assert(text::before(hosts[i], hosts[hosts.len() - 1]));
                text::lemma_before_irreflexive(host);
            }
        }
        assert(all.dom().contains(host));
        lemma_host_lines(so_far, host, all[host]);
        assert(front + all_lines(hosts, all) =~= so_far + host_lines(host, all[host]));
        assert(all.restrict(fewer.to_set()).insert(host, all[host]) =~= all.restrict(
            hosts.to_set(),
        )) by {
            assert forall|k: Seq<char>| hosts.to_set().contains(k) == (fewer.to_set().contains(k)
                || k == host) by {
                if hosts.to_set().contains(k) {
                    let i = choose|i: int| 0 <= i < hosts.len() && hosts[i] == k;
                    if i < fewer.len() {
                        assert(fewer[i] == k);
                    }
                }
            }
        }
    }
}

proof fn lemma_header()
    ensures
        in_lines(header()) == Map::<Seq<char>, Seq<PrView>>::empty(),
        config::are_plain_lines(header()),
{
    reveal_strlit("# GitHub pull requests attached to a devbox on the llm-watch dashboard.");
    reveal_strlit("# One `host = url` per line, repeated per pull request; `#` starts a comment.");
    reveal_strlit("# Edited in place by the web dashboard.");
    let top = header();
    config::lemma_comment(top[0]);
    config::lemma_comment(top[1]);
    config::lemma_comment(top[2]);
    reveal_with_fuel(in_lines, 4);
    assert(top.drop_last().last() == top[1]);
    assert(top.drop_last().drop_last().last() == top[0]);
    assert(!top[0].contains('\n'));
    assert(!top[1].contains('\n'));
    assert(!top[2].contains('\n'));
}

proof fn lemma_all_lines_plain(hosts: Seq<Seq<char>>, all: Map<Seq<char>, Seq<PrView>>)
    requires
        orderly(all),
        all_short(all),
        hosts.to_set().subset_of(all.dom()),
    ensures
        config::are_plain_lines(all_lines(hosts, all)),
    decreases hosts.len(),
{
    if hosts.len() > 0 {
        let fewer = hosts.drop_last();
        let host = hosts.last();
        assert(hosts.to_set().contains(hosts[hosts.len() - 1]));
        assert(fewer.to_set().subset_of(all.dom())) by {
            assert forall|k: Seq<char>| fewer.to_set().contains(k) implies all.dom().contains(k) by {
                let i = choose|i: int| 0 <= i < fewer.len() && fewer[i] == k;
                assert(hosts[i] == k);
                assert(hosts.to_set().contains(k));
            }
        }
        lemma_all_lines_plain(fewer, all);
        assert(all.dom().contains(host));
        let list = all[host];
        let front = all_lines(fewer, all);
        let lines = all_lines(hosts, all);
        assert forall|i: int| 0 <= i < lines.len() implies config::is_plain_line(
            #[trigger] lines[i],
        ) by {
            if i < front.len() {
                assert(lines[i] == front[i]);
            } else {
                let pr = list[i - front.len()];
                assert(lines[i] == config::line(host, pr.url));
                lemma_link_is_value(pr);
                config::lemma_line_reads_back(host, pr.url);
            }
        }
    }
}

/// The file gives back what was written to it: every host with its list, in order.
pub proof fn lemma_file_reads_back(all: Map<Seq<char>, Seq<PrView>>)
    requires
        orderly(all),
        all_short(all),
    ensures
        attached(file_text(all)) == all,
{
    let hosts = table::sorted_keys(all.dom());
    table::lemma_sorted_keys_exist(all.dom());
    lemma_header();
    lemma_all_lines(header(), hosts, all);
    lemma_all_lines_plain(hosts, all);
    let lines = header() + all_lines(hosts, all);
    assert(config::are_plain_lines(lines)) by {
        assert forall|i: int| 0 <= i < lines.len() implies config::is_plain_line(
            #[trigger] lines[i],
        ) by {
            if i < header().len() {
                assert(lines[i] == header()[i]);
            } else {
                assert(lines[i] == all_lines(hosts, all)[i - header().len()]);
            }
        }
    }
    config::lemma_lines_read_back(lines);
    assert(all.restrict(all.dom()) =~= all);
}

/// An attached pull request is there when the file is read again, and every other host
/// has the list it had.
pub proof fn lemma_add_reads_back(content: Seq<char>, host: Seq<char>, pr: PrView)
    requires
        config::is_key(host),
        well_formed(pr),
        pr.url.len() <= INPUT_LIMIT,
        all_short(attached(content)),
    ensures
        ({
            let list = attach(list_of(attached(content), host), pr);
            attached(file_text(changed(attached(content), host, list))) == attached(content).insert(
                host,
                list,
            )
        }),
{
    let all = attached(content);
    lemma_attached_is_orderly(content);
    let list = attach(list_of(all, host), pr);
    lemma_attach(list_of(all, host), pr);
    let next = changed(all, host, list);
    assert forall|h: Seq<char>| #[trigger] next.dom().contains(h) implies short_links(next[h]) by {
        if h == host {
            assert forall|i: int| 0 <= i < list.len() implies (#[trigger] list[i]).url.len()
                <= INPUT_LIMIT by {
                if i < list_of(all, host).len() {
                    assert(list[i] == list_of(all, host)[i]);
                    assert(all.dom().contains(host));
                    assert(short_links(all[host]));
                }
            }
        } else {
            assert(all.dom().contains(h));
        }
    }
    lemma_file_reads_back(next);
}

proof fn lemma_detach(list: Seq<PrView>, url: Seq<char>)
    requires
        list.len() == 0 || orderly_list(list),
        short_links(list),
    ensures
        detach(list, url).len() == 0 || orderly_list(detach(list, url)),
        short_links(detach(list, url)),
        !has_url(detach(list, url), url),
        detach(list, url).len() <= list.len(),
        forall|other: Seq<char>| #[trigger]
            has_url(detach(list, url), other) ==> has_url(list, other),
    decreases list.len(),
{
    if list.len() > 0 {
        let fewer = list.drop_last();
        let pr = list.last();
        assert(fewer.len() == 0 || orderly_list(fewer)) by {
            assert forall|i: int| 0 <= i < fewer.len() implies well_formed(#[trigger] fewer[i]) by {
                assert(fewer[i] == list[i]);
            }
            assert forall|i: int, j: int| 0 <= i < j < fewer.len() implies (#[trigger] fewer[i]).url
                != (#[trigger] fewer[j]).url by {
                assert(fewer[i] == list[i] && fewer[j] == list[j]);
            }
        }
        assert(short_links(fewer)) by {
            assert forall|i: int| 0 <= i < fewer.len() implies (#[trigger] fewer[i]).url.len()
                <= INPUT_LIMIT by {
                assert(fewer[i] == list[i]);
            }
        }
        lemma_detach(fewer, url);
        let kept = detach(fewer, url);
        let result = detach(list, url);
        assert forall|other: Seq<char>| #[trigger] has_url(result, other) implies has_url(
            list,
            other,
        ) by {
            let i = choose|i: int| 0 <= i < result.len() && (#[trigger] result[i]).url == other;
            if i < kept.len() {
                assert(kept[i].url == other);
                assert(has_url(kept, other));
                let j = choose|j: int| 0 <= j < fewer.len() && (#[trigger] fewer[j]).url == other;
                assert(list[j].url == other);
            } else {
                assert(list[list.len() - 1].url == other);
            }
        }
        if pr.url != url {
            assert(well_formed(list[list.len() - 1]));
            assert forall|i: int| 0 <= i < result.len() implies well_formed(
                #[trigger] result[i],
            ) by {
                if i < kept.len() {
                    assert(result[i] == kept[i]);
                }
            }
            assert forall|i: int, j: int| 0 <= i < j < result.len() implies (#[trigger] result[i]).url
                != (#[trigger] result[j]).url by {
                assert(result[i] == kept[i]);
                if j < kept.len() {
                    assert(result[j] == kept[j]);
                } else if kept[i].url == pr.url {
                    assert(has_url(kept, pr.url));
                    let k = choose|k: int| 0 <= k < fewer.len() && (#[trigger] fewer[k]).url == pr.url;
                    assert(list[k].url != list[list.len() - 1].url);
                }
            }
            assert forall|i: int| 0 <= i < result.len() implies (#[trigger] result[i]).url.len()
                <= INPUT_LIMIT by {
                if i < kept.len() {
                    assert(result[i] == kept[i]);
                } else {
                    assert(result[i] == list[list.len() - 1]);
                }
            }
            assert(!has_url(result, url)) by {
                if has_url(result, url) {
                    let i = choose|i: int| 0 <= i < result.len() && (#[trigger] result[i]).url == url;
                    assert(result[i] == kept[i]);
                }
            }
        }
    }
}

/// A detached pull request is gone when the file is read again; a host without pull
/// requests is gone from the file, and every other host has the list it had.
pub proof fn lemma_remove_reads_back(content: Seq<char>, host: Seq<char>, url: Seq<char>)
    requires
        config::is_key(host),
        all_short(attached(content)),
    ensures
        ({
            let list = detach(list_of(attached(content), host), url);
            &&& attached(file_text(changed(attached(content), host, list))) == changed(
                attached(content),
                host,
                list,
            )
            &&& !has_url(list, url)
        }),
{
    let all = attached(content);
    lemma_attached_is_orderly(content);
    let before_list = list_of(all, host);
    let list = detach(before_list, url);
    if all.dom().contains(host) {
        assert(short_links(all[host]));
    }
    lemma_detach(before_list, url);
    let next = changed(all, host, list);
    assert forall|h: Seq<char>| #[trigger] next.dom().contains(h) implies short_links(next[h])
        && config::is_key(h) && orderly_list(next[h]) by {
        if h != host {
            assert(all.dom().contains(h));
        }
    }
    lemma_file_reads_back(next);
}

proof fn lemma_detach_absent(list: Seq<PrView>, url: Seq<char>)
    requires
        !has_url(list, url),
    ensures
        detach(list, url) == list,
    decreases list.len(),
{
    if list.len() > 0 {
        let fewer = list.drop_last();
        assert(list[list.len() - 1].url != url);
        assert forall|i: int| 0 <= i < fewer.len() implies (#[trigger] fewer[i]).url != url by {
            assert(fewer[i] == list[i]);
        }
        lemma_detach_absent(fewer, url);
        assert(fewer.push(list.last()) =~= list);
    } else {
        assert(list =~= seq![]);
    }
}

/// Detaching a pull request right after it was newly attached gives back the attachments from
/// before.
pub proof fn lemma_remove_undoes_add(content: Seq<char>, host: Seq<char>, pr: PrView)
    requires
        config::is_key(host),
        well_formed(pr),
        pr.url.len() <= INPUT_LIMIT,
        all_short(attached(content)),
        list_of(attached(content), host).len() < PR_LIMIT,
        !has_url(list_of(attached(content), host), pr.url),
    ensures
        ({
            let all = attached(content);
            let list = list_of(all, host);
            let added = file_text(changed(all, host, attach(list, pr)));
            let left = detach(list_of(attached(added), host), pr.url);
            &&& left == list
            &&& attached(file_text(changed(attached(added), host, left))) == all
        }),
{
    let all = attached(content);
    let list = list_of(all, host);
    let longer = list.push(pr);
    let added = file_text(changed(all, host, longer));
    lemma_attached_is_orderly(content);
    lemma_add_reads_back(content, host, pr);
    assert(attached(added) == all.insert(host, longer));
    assert(longer.drop_last() =~= list);
    lemma_detach_absent(list, pr.url);
    assert(changed(all.insert(host, longer), host, list) =~= all);
    lemma_file_reads_back(all);
}

/// The pull requests that the lines name for a host, one after the other.
pub open spec fn named_for(lines: Seq<Seq<char>>, host: Seq<char>) -> Seq<PrView>
    decreases lines.len(),
{
    if lines.len() == 0 {
        seq![]
    } else {
        let earlier = named_for(lines.drop_last(), host);
        match config::pair(lines.last()) {
            Some((key, url)) if key == host => match named(url) {
                Some(pr) => earlier.push(pr),
                None => earlier,
            },
            _ => earlier,
        }
    }
}

/// The pull requests without the repetitions of a link.
pub open spec fn distinct(list: Seq<PrView>) -> Seq<PrView>
    decreases list.len(),
{
    if list.len() == 0 {
        seq![]
    } else {
        let earlier = distinct(list.drop_last());
        if has_url(earlier, list.last().url) {
            earlier
        } else {
            earlier.push(list.last())
        }
    }
}

/// As many of the first pull requests as a host can have.
pub open spec fn first_ones(list: Seq<PrView>) -> Seq<PrView> {
    if list.len() > PR_LIMIT {
        list.take(PR_LIMIT as int)
    } else {
        list
    }
}

proof fn lemma_attach_first(list: Seq<PrView>, pr: PrView)
    ensures
        attach(first_ones(distinct(list)), pr) == first_ones(distinct(list.push(pr))),
{
    let whole = distinct(list);
    let kept = first_ones(whole);
    assert(list.push(pr).drop_last() =~= list);
    if has_url(whole, pr.url) {
        if kept.len() < PR_LIMIT {
            assert(kept == whole);
        }
    } else {
        if has_url(kept, pr.url) {
            let i = choose|i: int| 0 <= i < kept.len() && (#[trigger] kept[i]).url == pr.url;
            assert(whole[i].url == pr.url);
        }
        if whole.len() >= PR_LIMIT {
            assert(whole.push(pr).take(PR_LIMIT as int) =~= whole.take(PR_LIMIT as int));
            assert(whole.take(PR_LIMIT as int) =~= kept);
        }
    }
}

proof fn lemma_in_lines_of_host(lines: Seq<Seq<char>>, host: Seq<char>)
    ensures
        list_of(in_lines(lines), host) == first_ones(distinct(named_for(lines, host))),
        in_lines(lines).dom().contains(host) == (named_for(lines, host).len() > 0),
    decreases lines.len(),
{
    if lines.len() > 0 {
        let fewer = lines.drop_last();
        lemma_in_lines_of_host(fewer, host);
        if let Some((key, url)) = config::pair(lines.last()) {
            if let Some(pr) = named(url) {
                if key == host {
                    lemma_attach_first(named_for(fewer, host), pr);
                }
            }
        }
    }
}

/// Whatever the file holds, the list of a host is the first eight different pull requests of
/// its lines, in the order of the file. A host has one if a line names a pull request for it.
pub proof fn lemma_first_lines_count(content: Seq<char>, host: Seq<char>)
    ensures
        list_of(attached(content), host) == first_ones(
            distinct(named_for(split::lines(content), host)),
        ),
        attached(content).dom().contains(host) == (named_for(split::lines(content), host).len()
            > 0),
{
    lemma_in_lines_of_host(split::lines(content), host);
}

/// Where the attachments are kept.
pub fn prs_path(config_dir: &str) -> (r: String)
    ensures
        r@ == paths::joined(config_dir@, "prs"@),
{
    join(config_dir, "prs")
}

/// A pull request that is attached once more changes nothing.
pub proof fn lemma_attached_twice(list: Seq<PrView>, pr: PrView)
    ensures
        attach(attach(list, pr), pr) == attach(list, pr),
{
    if list.len() < PR_LIMIT && !has_url(list, pr.url) {
        assert(list.push(pr)[list.len() as int].url == pr.url);
    }
}

/// However often pull requests are attached, a host has at most so many.
pub proof fn lemma_attached_are_bounded(list: Seq<PrView>, pr: PrView)
    requires
        list.len() <= PR_LIMIT,
    ensures
        attach(list, pr).len() <= PR_LIMIT,
{
}

// ---------------------------------------------------------------------------
// What names a pull request, and what becomes of it
// ---------------------------------------------------------------------------

proof fn lemma_trimmed_input(s: Seq<char>)
    requires
        s.len() > 0,
        !text::is_space(s[0]),
        !text::is_space(s.last()),
    ensures
        split::trim(s) == s,
{
    split::lemma_trim_at(s, 0, s.len() as int);
    assert(s.subrange(0, s.len() as int) =~= s);
}

proof fn lemma_segment_is_no_space(s: Seq<char>, i: int)
    requires
        segment(s),
        0 <= i < s.len(),
    ensures
        !text::is_space(s[i]),
        s[i] != ':',
{
    assert(is_segment_char(s[i]));
}

/// A link names the pull request that it leads to, with the owner, the repository and the
/// number it holds. Its scheme is `http` or `https` in any case; the link that is kept has
/// `https` and the host in lower case.
pub proof fn lemma_link_names(
    scheme: Seq<char>,
    host: Seq<char>,
    owner: Seq<char>,
    repo: Seq<char>,
    number: u64,
)
    requires
        text::lower(scheme) == "https"@ || text::lower(scheme) == "http"@,
        segment(host),
        segment(owner),
        segment(repo),
        number > 0,
        (scheme + ("://"@ + host + "/"@ + owner + "/"@ + repo + "/pull/"@ + number::decimal(
            number as nat,
        ))).len() <= 300,
    ensures
        named(
            scheme + ("://"@ + host + "/"@ + owner + "/"@ + repo + "/pull/"@ + number::decimal(
                number as nat,
            )),
        ) == Some(
            PrView {
                url: "https"@ + ("://"@ + text::lower(host) + "/"@ + owner + "/"@ + repo
                    + "/pull/"@ + number::decimal(number as nat)),
                owner,
                repo,
                number,
            },
        ),
{
    let digits = number::decimal(number as nat);
    let tail = "://"@ + host + "/"@ + owner + "/"@ + repo + "/pull/"@ + digits;
    let input = scheme + tail;
    let path = path_text(owner, repo, digits);
    let rest = host + seq!['/'] + path;
    lemma_link_from_colon(text::lower(host), owner, repo, number);
    lemma_from_colon(host, owner, repo, number);
    lemma_any_scheme_ends(scheme, rest);
    lemma_host_ends(host, path);
    lemma_path_pieces(owner, repo, digits);
    lemma_number_piece(number, Seq::empty());
    assert(digits + Seq::empty() =~= digits);
    let found = split::pieces(path, '/');
    assert(found[0] == owner && found[1] == repo && found[2] == "pull"@);
    assert(found[3] == split::pieces(digits, '/')[0]);
    assert(from_url(input) == canonical(host, owner, repo, number));
    number::lemma_decimal(number as nat);
    assert(tail.last() == digits.last());
    assert(input.last() == digits.last());
    assert(text::is_digit(digits[digits.len() - 1]));
    lemma_trimmed_input(input);
}

proof fn lemma_from_colon(host: Seq<char>, owner: Seq<char>, repo: Seq<char>, number: u64)
    ensures
        "://"@ + host + "/"@ + owner + "/"@ + repo + "/pull/"@ + number::decimal(number as nat)
            == "://"@ + (host + seq!['/'] + path_text(owner, repo, number::decimal(number as nat))),
{
    let digits = number::decimal(number as nat);
    let tail = "://"@ + host + "/"@ + owner + "/"@ + repo + "/pull/"@ + digits;
    let rest = host + seq!['/'] + path_text(owner, repo, digits);
    let link = link_text(host, owner, repo, number);
    lemma_link_from_colon(host, owner, repo, number);
    lemma_link_text(host, owner, repo, number, Seq::empty());
    assert(digits + Seq::empty() =~= digits);
    assert(link + Seq::empty() =~= link);
    assert("https://"@ =~= "https"@ + "://"@ && "https"@.len() == 5) by {
        reveal_strlit("https://");
        reveal_strlit("https");
        reveal_strlit("://");
    }
    lemma_concat("https"@, "://"@, rest);
    assert("https"@ + tail == "https"@ + ("://"@ + rest));
    assert(("https"@ + tail).skip(5) =~= tail);
    assert(("https"@ + ("://"@ + rest)).skip(5) =~= "://"@ + rest);
}

proof fn lemma_any_scheme_ends(scheme: Seq<char>, rest: Seq<char>)
    requires
        text::lower(scheme) == "https"@ || text::lower(scheme) == "http"@,
    ensures
        ({
            let input = scheme + ("://"@ + rest);
            &&& split::position(input, "://"@) == Some(scheme.len())
            &&& input.take(scheme.len() as int) == scheme
            &&& input.skip(scheme.len() as int + 3) == rest
            &&& input.len() > 0
            &&& !text::is_space(input[0])
        }),
{
    reveal_strlit("https");
    reveal_strlit("http");
    reveal_strlit("://");
    assert("https"@.len() == 5 && "http"@.len() == 4 && "://"@.len() == 3);
    let input = scheme + ("://"@ + rest);
    let n = scheme.len() as int;
    assert(text::lower_char(':') == ':');
    assert forall|j: int| 0 <= j < n implies #[trigger] input[j] != ':' by {
        assert(input[j] == scheme[j]);
        assert(text::lower(scheme)[j] == text::lower_char(scheme[j]));
        if text::lower(scheme) == "https"@ {
            assert("https"@[j] != ':');
        } else {
            assert("http"@[j] != ':');
        }
    }
    assert("://"@[0] == ':');
    assert(input.subrange(n, n + 3) =~= "://"@);
    split::lemma_position_at(input, "://"@, n);
    assert(input.take(n) =~= scheme);
    assert(input.skip(n + 3) =~= rest);
    assert(input[0] == scheme[0]);
    assert(text::lower(scheme)[0] == text::lower_char(scheme[0]));
    assert("https"@[0] == 'h' && "http"@[0] == 'h');
}

proof fn lemma_link_from_colon(host: Seq<char>, owner: Seq<char>, repo: Seq<char>, number: u64)
    ensures
        link_text(host, owner, repo, number) == "https"@ + ("://"@ + host + "/"@ + owner + "/"@
            + repo + "/pull/"@ + number::decimal(number as nat)),
{
    let digits = number::decimal(number as nat);
    let a = "https"@;
    assert("https://"@ =~= a + "://"@) by {
        reveal_strlit("https://");
        reveal_strlit("https");
        reveal_strlit("://");
    }
    lemma_concat(a, "://"@, host);
    lemma_concat(a, "://"@ + host, "/"@);
    lemma_concat(a, "://"@ + host + "/"@, owner);
    lemma_concat(a, "://"@ + host + "/"@ + owner, "/"@);
    lemma_concat(a, "://"@ + host + "/"@ + owner + "/"@, repo);
    lemma_concat(a, "://"@ + host + "/"@ + owner + "/"@ + repo, "/pull/"@);
    lemma_concat(a, "://"@ + host + "/"@ + owner + "/"@ + repo + "/pull/"@, digits);
}

/// `owner/repo#number` names that pull request on github.com.
pub proof fn lemma_shorthand_names(owner: Seq<char>, repo: Seq<char>, number: u64)
    requires
        segment(owner),
        segment(repo),
        number > 0,
        (owner + seq!['/'] + repo + seq!['#'] + number::decimal(number as nat)).len() <= 300,
    ensures
        named(owner + seq!['/'] + repo + seq!['#'] + number::decimal(number as nat)) == Some(
            PrView {
                url: "https"@ + ("://"@ + "github.com"@ + "/"@ + owner + "/"@ + repo + "/pull/"@
                    + number::decimal(number as nat)),
                owner,
                repo,
                number,
            },
        ),
{
    let digits = number::decimal(number as nat);
    let repository = owner + seq!['/'] + repo;
    let input = repository + seq!['#'] + digits;
    number::lemma_decimal(number as nat);
    number::lemma_decimal_reads_back(number as nat, u64::MAX as nat);
    reveal_strlit("://");
    reveal_strlit("github.com");
    assert("github.com"@.len() == 10);
    assert(text::lower("github.com"@) =~= "github.com"@);
    lemma_link_from_colon("github.com"@, owner, repo, number);
    assert forall|i: int| 0 <= i < input.len() implies #[trigger] input[i] != ':' by {
        if i < owner.len() {
            assert(input[i] == owner[i]);
            lemma_segment_is_no_space(owner, i);
        } else if i > owner.len() && i < repository.len() {
            assert(input[i] == repo[i - owner.len() - 1]);
            lemma_segment_is_no_space(repo, i - owner.len() - 1);
        } else if i > repository.len() {
            assert(input[i] == digits[i - repository.len() - 1]);
            assert(text::is_digit(digits[i - repository.len() - 1]));
        }
    }
    assert(split::position(input, "://"@) is None) by {
        split::lemma_position(input, "://"@);
        if let Some(n) = split::position(input, "://"@) {
            assert("://"@.len() == 3);
            assert(input.subrange(n as int, n as int + 3)[0] == "://"@[0]);
            assert(input[n as int] == ':');
        }
    }
    lemma_segment_has_no(owner, '#');
    lemma_segment_has_no(repo, '#');
    lemma_segment_has_no(owner, '/');
    let hash = repository.len() as int;
    assert forall|j: int| 0 <= j < hash implies #[trigger] input[j] != '#' by {
        if j < owner.len() {
            assert(input[j] == owner[j]);
            assert(owner.contains(owner[j]));
        } else if j > owner.len() {
            assert(input[j] == repo[j - owner.len() - 1]);
            assert(repo.contains(repo[j - owner.len() - 1]));
        }
    }
    assert(input[hash] == '#');
    split::lemma_find_at(input, '#', hash);
    assert(input.take(hash) =~= repository);
    assert(input.skip(hash + 1) =~= digits);
    lemma_host_ends(owner, repo);
    assert(text::is_digit(digits[0]) && text::is_digit(digits[digits.len() - 1]));
    lemma_trimmed_input(digits);
    lemma_segment_is_no_space(owner, 0);
    assert(input[0] == owner[0]);
    assert(input.last() == digits.last());
    lemma_trimmed_input(input);
    assert(segment("github.com"@)) by {
        assert("github.com"@[0] == 'g');
        assert forall|i: int| 0 <= i < 10 implies is_segment_char(#[trigger] "github.com"@[i]) by {}
    }
}

/// White space around an input does not matter, and one that is too long names nothing.
pub proof fn lemma_input_is_trimmed(input: Seq<char>)
    ensures
        named(split::trim(input)) == named(input),
        split::trim(input).len() > 300 ==> named(input) is None,
        split::trim(input).len() == 0 ==> named(input) is None,
{
    split::lemma_trim(input);
}

/// A pull request is attached behind those that are there, unless there are eight or it is one
/// of them.
pub proof fn lemma_attach_appends(list: Seq<PrView>, pr: PrView)
    ensures
        list.len() < 8 && (forall|i: int| 0 <= i < list.len() ==> (#[trigger] list[i]).url != pr.url)
            ==> attach(list, pr) == list.push(pr),
        list.len() >= 8 ==> attach(list, pr) == list,
        (exists|i: int| 0 <= i < list.len() && (#[trigger] list[i]).url == pr.url) ==> attach(
            list,
            pr,
        ) == list,
{
}

/// Detaching takes out what has that link, and leaves the others in their order.
pub proof fn lemma_detach_keeps_others(list: Seq<PrView>, url: Seq<char>)
    ensures
        detach(list, url) == list.filter(|pr: PrView| pr.url != url),
    decreases list.len(),
{
    reveal(Seq::filter);
    if list.len() > 0 {
        lemma_detach_keeps_others(list.drop_last(), url);
    }
}

/// An edit of one host's pull requests is there when the file is read again, and every other
/// host has the list it had.
pub proof fn lemma_edits_read_back(
    content: Seq<char>,
    host: Seq<char>,
    pr: PrView,
    other: Seq<char>,
)
    requires
        config::is_key(host),
        well_formed(pr),
        pr.url.len() <= INPUT_LIMIT,
        all_short(attached(content)),
        other != host,
    ensures
        ({
            let before = attached(content);
            let list = list_of(before, host);
            let added = attached(file_text(changed(before, host, attach(list, pr))));
            let removed = attached(file_text(changed(before, host, detach(list, pr.url))));
            &&& list_of(added, host) == attach(list, pr)
            &&& list_of(added, other) == list_of(before, other)
            &&& added.dom().contains(other) == before.dom().contains(other)
            &&& list_of(removed, host) == detach(list, pr.url)
            &&& list_of(removed, other) == list_of(before, other)
            &&& removed.dom().contains(other) == before.dom().contains(other)
        }),
{
    let before = attached(content);
    let list = list_of(before, host);
    lemma_add_reads_back(content, host, pr);
    lemma_remove_reads_back(content, host, pr.url);
    let left = detach(list, pr.url);
    if left.len() == 0 {
        assert(left =~= seq![]);
    }
}

/// Every line that names a pull request for a host attaches it, whichever line it is, unless the
/// host has eight without it; and nothing else is attached.
pub proof fn lemma_lines_attach(lines: Seq<Seq<char>>, host: Seq<char>, i: int)
    requires
        0 <= i < lines.len(),
        config::pair(lines[i]) is Some,
        config::pair(lines[i])->Some_0.0 == host,
        named(config::pair(lines[i])->Some_0.1) is Some,
    ensures
        in_lines(lines).dom().contains(host),
        list_of(in_lines(lines), host).len() == 8 || exists|k: int|
            0 <= k < list_of(in_lines(lines), host).len() && (#[trigger] list_of(
                in_lines(lines),
                host,
            )[k]).url == named(config::pair(lines[i])->Some_0.1)->Some_0.url,
    decreases lines.len(),
{
    let fewer = lines.drop_last();
    let all = in_lines(fewer);
    let wanted = named(config::pair(lines[i])->Some_0.1)->Some_0.url;
    let before = list_of(all, host);
    let after = list_of(in_lines(lines), host);
    lemma_at_most_eight(fewer, host);
    if i < fewer.len() {
        assert(fewer[i] == lines[i]);
        lemma_lines_attach(fewer, host, i);
        if before.len() != 8 {
            let k = choose|k: int| 0 <= k < before.len() && (#[trigger] before[k]).url == wanted;
            assert(after[k] == before[k]);
        }
    } else {
        let pr = named(config::pair(lines[i])->Some_0.1)->Some_0;
        assert(lines.last() == lines[i]);
        if before.len() < PR_LIMIT && !has_url(before, pr.url) {
            assert(after[before.len() as int] == pr);
        } else if has_url(before, pr.url) {
            let k = choose|k: int| 0 <= k < before.len() && (#[trigger] before[k]).url == pr.url;
            assert(after[k].url == wanted);
        }
    }
}

proof fn lemma_at_most_eight(lines: Seq<Seq<char>>, host: Seq<char>)
    ensures
        list_of(in_lines(lines), host).len() <= 8,
    decreases lines.len(),
{
    if lines.len() > 0 {
        lemma_at_most_eight(lines.drop_last(), host);
    }
}

/// Every pull request that is attached to a host is named by one of the lines for that host.
pub proof fn lemma_attached_is_named(lines: Seq<Seq<char>>, host: Seq<char>, k: int)
    requires
        0 <= k < list_of(in_lines(lines), host).len(),
    ensures
        exists|i: int|
            0 <= i < lines.len() && config::pair(#[trigger] lines[i]) is Some && config::pair(
                lines[i],
            )->Some_0.0 == host && named(config::pair(lines[i])->Some_0.1) == Some(
                list_of(in_lines(lines), host)[k],
            ),
    decreases lines.len(),
{
    let fewer = lines.drop_last();
    let before = list_of(in_lines(fewer), host);
    let after = list_of(in_lines(lines), host);
    assert(lines.len() > 0);
    if k < before.len() {
        lemma_attached_is_named(fewer, host, k);
        let i = choose|i: int|
            0 <= i < fewer.len() && config::pair(#[trigger] fewer[i]) is Some && config::pair(
                fewer[i],
            )->Some_0.0 == host && named(config::pair(fewer[i])->Some_0.1) == Some(before[k]);
        assert(lines[i] == fewer[i]);
        assert(after[k] == before[k]);
    } else {
        assert(lines[lines.len() - 1] == lines.last());
    }
}

/// A host, owner or repository is one to a hundred letters, digits, dots, hyphens and
/// underscores, and no step along the path.
pub proof fn lemma_segment(s: Seq<char>)
    ensures
        segment(s) == (0 < s.len() <= 100 && s != seq!['.'] && s != seq!['.', '.'] && forall|i: int|
            0 <= i < s.len() ==> {
                let c = #[trigger] s[i];
                'a' <= c <= 'z' || 'A' <= c <= 'Z' || '0' <= c <= '9' || c == '.' || c == '-' || c
                    == '_'
            }),
{
    if segment(s) {
        assert forall|i: int| 0 <= i < s.len() implies {
            let c = #[trigger] s[i];
            'a' <= c <= 'z' || 'A' <= c <= 'Z' || '0' <= c <= '9' || c == '.' || c == '-' || c
                == '_'
        } by {
            assert(is_segment_char(s[i]));
        }
    }
}

/// The parts of an input between its slashes are those of a link to the pull request: scheme,
/// host, owner, repository, `pull` and the number, with anything behind.
pub open spec fn is_link_to(input: Seq<char>, pr: PrView) -> bool {
    let parts = split::pieces(input, '/');
    &&& parts.len() >= 7
    &&& text::lower(parts[0]) == "https:"@ || text::lower(parts[0]) == "http:"@
    &&& parts[1].len() == 0
    &&& pr.url == link_text(text::lower(parts[2]), pr.owner, pr.repo, pr.number)
    &&& parts[3] == pr.owner
    &&& parts[4] == pr.repo
    &&& parts[5] == "pull"@
    &&& number::parse_unsigned(before_query(parts[6]), u64::MAX as nat) == Some(pr.number as nat)
}

/// The input is `owner/repo#number` for the pull request.
pub open spec fn is_shorthand_for(input: Seq<char>, pr: PrView) -> bool {
    exists|digits: Seq<char>| {
        &&& input == #[trigger] (pr.owner + seq!['/'] + pr.repo + seq!['#'] + digits)
        &&& number::parse_unsigned(split::trim(digits), u64::MAX as nat) == Some(pr.number as nat)
        &&& pr.url == link_text("github.com"@, pr.owner, pr.repo, pr.number)
    }
}

/// Nothing but a link to a pull request or the shorthand for one names it.
pub proof fn lemma_only_links_name(input: Seq<char>)
    ensures
        named(input) matches Some(pr) ==> is_link_to(split::trim(input), pr) || is_shorthand_for(
            split::trim(input),
            pr,
        ),
{
    let t = split::trim(input);
    if let Some(pr) = named(input) {
        if from_url(t) is Some {
            lemma_url_parts(t);
        } else {
            reveal_strlit("github.com");
            assert(text::lower("github.com"@) =~= "github.com"@);
            split::lemma_find(t, '#');
            let hash = split::find(t, '#') as int;
            let repository = t.take(hash);
            split::lemma_find(repository, '/');
            let slash = split::find(repository, '/') as int;
            let digits = t.skip(hash + 1);
            assert(repository =~= pr.owner + seq!['/'] + pr.repo) by {
                assert(repository[slash] == '/');
            }
            assert(t =~= repository + seq!['#'] + digits) by {
                assert(t[hash] == '#');
            }
            assert(t == pr.owner + seq!['/'] + pr.repo + seq!['#'] + digits);
        }
    }
}

proof fn lemma_url_parts(t: Seq<char>)
    requires
        from_url(t) is Some,
    ensures
        is_link_to(t, from_url(t)->Some_0),
{
    reveal_strlit("://");
    reveal_strlit("https");
    reveal_strlit("http");
    reveal_strlit("https:");
    reveal_strlit("http:");
    assert("://"@.len() == 3 && "://"@[0] == ':' && "://"@[1] == '/' && "://"@[2] == '/');
    split::lemma_position(t, "://"@);
    let colon = split::position(t, "://"@)->Some_0 as int;
    let scheme = t.take(colon);
    let rest = t.skip(colon + 3);
    split::lemma_find(rest, '/');
    let slash = split::find(rest, '/') as int;
    let host = rest.take(slash);
    let path = rest.skip(slash + 1);
    let mark = t.subrange(colon, colon + 3);
    assert(mark[0] == t[colon] && mark[1] == t[colon + 1] && mark[2] == t[colon + 2]);
    let first = scheme + seq![':'];
    let none = Seq::<char>::empty();
    assert(t =~= first + seq!['/'] + (none + seq!['/'] + rest));
    assert(rest =~= host + seq!['/'] + path);
    assert(!first.contains('/')) by {
        if first.contains('/') {
            let i = choose|i: int| 0 <= i < first.len() && first[i] == '/';
            assert(i < scheme.len() && scheme[i] == '/');
            assert("https"@.len() == 5 && "http"@.len() == 4);
            assert(text::lower(scheme)[i] == text::lower_char(scheme[i]));
            assert(text::lower_char('/') == '/');
            if text::lower(scheme) == "https"@ {
                assert("https"@[i] != '/');
            } else {
                assert("http"@[i] != '/');
            }
        }
    }
    assert(!host.contains('/')) by {
        if host.contains('/') {
            let i = choose|i: int| 0 <= i < host.len() && host[i] == '/';
            assert(rest[i] == '/');
        }
    }
    assert(!none.contains('/'));
    split::lemma_pieces(first, none + seq!['/'] + rest, '/');
    split::lemma_pieces(none, rest, '/');
    split::lemma_pieces(host, path, '/');
    let parts = split::pieces(t, '/');
    let found = split::pieces(path, '/');
    assert(parts == seq![first] + (seq![none] + (seq![host] + found)));
    assert(parts[0] == first && parts[1] == none && parts[2] == host);
    assert(parts[3] == found[0] && parts[4] == found[1] && parts[5] == found[2] && parts[6]
        == found[3]);
    assert(text::lower(first) =~= text::lower(scheme) + seq![':']) by {
        assert(text::lower_char(':') == ':');
    }
    if text::lower(scheme) == "https"@ {
        assert(text::lower(first) =~= "https:"@);
    } else {
        assert(text::lower(first) =~= "http:"@);
    }
}

/// The number of a link ends at a query or a fragment.
pub proof fn lemma_number_ends(digits: Seq<char>, mark: char, rest: Seq<char>)
    requires
        number::all_digits(digits),
        mark == '?' || mark == '#',
    ensures
        before_query(digits) == digits,
        before_query(digits + (seq![mark] + rest)) == digits,
{
    lemma_before_query(digits, Seq::empty());
    assert(digits + Seq::empty() =~= digits);
    lemma_before_query(digits, seq![mark] + rest);
}

} // verus!

//! What the site answers: the welcome page, a page asked for by path, and
//! error notices.
use crate::disk::{is_file_at, stamp_at, Disk, Stamp};
use crate::html::{document_text, html, html_checked, html_pagelet, link_fits_title, pagelet_text, title_fits};
use crate::outside::{clean, is_alphanumeric_byte, sample_alphanumeric, sanitized, seeded_rng};
use crate::page::{law_put_then_lookup, lookup, PageView};
use crate::state::{page_spec, path_of, page_exists, State};
use crate::text::{
    byte_prefix, cut_at_byte, ends_with, longer_than, owned, remove_all, remove_each, slice,
    starts_with, str_eq, utf8_len, char_width, lemma_utf8_len_concat,
};
use vstd::prelude::*;

verus! {

// ---------------------------------------------------------------------------
// error notices

/// The status and the notice text of an error: a server error says only that
/// there was trouble; any other code is a page not found.
pub open spec fn error_parts(code: int, text: Seq<char>) -> (u16, Seq<char>, Seq<char>) {
    if code == 500 {
        (500u16, "500"@, "trouble processing"@)
    } else {
        (404u16, "404"@, text)
    }
}

/// The answer to an error: its status, and a document holding an "oops"
/// notice with the text and more.
pub open spec fn error_reply_spec(
    code: int,
    site: Seq<char>,
    host: Seq<char>,
    link: Seq<char>,
    text: Seq<char>,
    more: Seq<char>,
) -> (u16, Seq<char>) {
    let (status, error, text) = error_parts(code, text);
    (
        status,
        document_text(
            error,
            site,
            sanitized(host),
            sanitized(link),
            sanitized(""@),
            Seq::empty(),
            pagelet_text(error, "oops"@, text, more),
        ),
    )
}

/// The answer to an error, as a status and a body.
pub fn respond_error(code: i32, site: &str, host: &str, link: &str, text: &str, more: &str) -> (r: (
    u16,
    String,
))
    requires
        title_fits(sanitized(link@)),
    ensures
        (r.0, r.1@) == error_reply_spec(code as int, site@, host@, link@, text@, more@),
{
    let mut text = text;
    let (error, status) = if code == 500 {
        text = "trouble processing";
        ("500", 500u16)
    } else {
        ("404", 404u16)
    };
    let scripts: Vec<String> = Vec::new();
    assert(scripts.deep_view() =~= Seq::<Seq<char>>::empty());
    let belly = html_pagelet(error, "oops", text, more);
    let body = html(error, site, host, link, "", &scripts, belly.as_str());
    (status, body)
}

/// The answer to an error, or `None` where the link is too long for the
/// title and cannot be cut (there the site stops).
pub fn error_reply(code: i32, site: &str, host: &str, link: &str, text: &str, more: &str) -> (r: Option<
    (u16, String),
>)
    ensures
        r is Some <==> title_fits(sanitized(link@)),
        r matches Some(x) ==> (x.0, x.1@) == error_reply_spec(
            code as int,
            site@,
            host@,
            link@,
            text@,
            more@,
        ),
{
    let clean_link = clean(link);
    if link_fits_title(clean_link.as_str()) {
        Some(respond_error(code, site, host, link, text, more))
    } else {
        None
    }
}

// ---------------------------------------------------------------------------
// the welcome page

/// How long the welcome message is: from Kaprekar's constant, the answer and
/// the trinity, a number of plutonium, and from it the length.
pub fn motd_len() -> (r: usize)
    ensures
        r == 1200,
{
    let kaprekar: usize = 6174;
    let answer: usize = 42;
    let trinity: usize = 3;
    let plutonium = kaprekar / answer / trinity;
    assert(plutonium == 49);
    (plutonium * plutonium - 1) / 2
}

/// An ASCII letter or digit.
pub open spec fn is_alnum_char(c: char) -> bool {
    ('0' <= c && c <= '9') || ('A' <= c && c <= 'Z') || ('a' <= c && c <= 'z')
}

/// The character of a byte that is an ASCII letter or digit.
pub open spec fn byte_char(b: u8) -> char {
    b as char
}

/// The text of drawn letters and digits: each byte as its character, in
/// order.
pub fn motd_text(draws: &Vec<u8>) -> (r: String)
    requires
        forall|i: int| 0 <= i < draws@.len() ==> is_alphanumeric_byte(#[trigger] draws@[i]),
    ensures
        r@.len() == draws@.len(),
        forall|i: int| 0 <= i < draws@.len() ==> r@[i] == byte_char(#[trigger] draws@[i]),
{
    let digits = "0123456789";
    let upper = "ABCDEFGHIJKLMNOPQRSTUVWXYZ";
    let lower = "abcdefghijklmnopqrstuvwxyz";
    proof {
        reveal_strlit("0123456789");
        reveal_strlit("ABCDEFGHIJKLMNOPQRSTUVWXYZ");
        reveal_strlit("abcdefghijklmnopqrstuvwxyz");
        assert forall|k: int| 0 <= k < 10 implies #[trigger] digits@[k] == ((0x30 + k) as char) by {
            assert(digits@ == seq!['0', '1', '2', '3', '4', '5', '6', '7', '8', '9']);
        }
        assert forall|k: int| 0 <= k < 26 implies #[trigger] upper@[k] == ((0x41 + k) as char) by {
            assert(upper@ == seq![
                'A', 'B', 'C', 'D', 'E', 'F', 'G', 'H', 'I', 'J', 'K', 'L', 'M', 'N', 'O', 'P', 'Q',
                'R', 'S', 'T', 'U', 'V', 'W', 'X', 'Y', 'Z',
            ]);
        }
        assert forall|k: int| 0 <= k < 26 implies #[trigger] lower@[k] == ((0x61 + k) as char) by {
            assert(lower@ == seq![
                'a', 'b', 'c', 'd', 'e', 'f', 'g', 'h', 'i', 'j', 'k', 'l', 'm', 'n', 'o', 'p', 'q',
                'r', 's', 't', 'u', 'v', 'w', 'x', 'y', 'z',
            ]);
        }
    }
    let n = draws.len();
    let mut s = String::new();
    let mut i: usize = 0;
    while i < n
        invariant
            n == draws@.len(),
            forall|j: int| 0 <= j < n ==> is_alphanumeric_byte(#[trigger] draws@[j]),
            i <= n,
            s@.len() == i,
            digits@.len() == 10,
            upper@.len() == 26,
            lower@.len() == 26,
            forall|k: int| 0 <= k < 10 ==> #[trigger] digits@[k] == ((0x30 + k) as char),
            forall|k: int| 0 <= k < 26 ==> #[trigger] upper@[k] == ((0x41 + k) as char),
            forall|k: int| 0 <= k < 26 ==> #[trigger] lower@[k] == ((0x61 + k) as char),
            forall|j: int| 0 <= j < i ==> s@[j] == byte_char(#[trigger] draws@[j]),
        decreases n - i,
    {
        let b = draws[i];
        assert(is_alphanumeric_byte(draws@[i as int]));
        let c = if b <= 0x39 {
            let k = (b - 0x30) as usize;
            assert(digits@[k as int] == ((0x30 + k) as char));
            slice(digits, k, k + 1)
        } else if b <= 0x5a {
            let k = (b - 0x41) as usize;
            assert(upper@[k as int] == ((0x41 + k) as char));
            slice(upper, k, k + 1)
        } else {
            let k = (b - 0x61) as usize;
            assert(lower@[k as int] == ((0x61 + k) as char));
            slice(lower, k, k + 1)
        };
        assert(c@.len() == 1);
        assert(c@[0] == byte_char(b));
        let ghost before = s@;
        s.append(c.as_str());
        assert(s@ =~= before + c@);
        assert(s@[i as int] == c@[0]);
        i = i + 1;
    }
    s
}

/// The welcome message: 1200 random ASCII letters and digits, each the
/// character of one byte drawn from `rand`'s alphanumeric distribution, or
/// `None` where the operating system gives no seed for the generator.
pub fn root_motd() -> (r: Option<String>)
    ensures
        r matches Some(t) ==> t@.len() == 1200 && forall|i: int|
            0 <= i < t@.len() ==> is_alnum_char(#[trigger] t@[i]),
{
    let n = motd_len();
    let mut rng = match seeded_rng() {
        Some(rng) => rng,
        None => {
            return None;
        },
    };
    let mut draws: Vec<u8> = Vec::new();
    let mut i: usize = 0;
    while i < n
        invariant
            n == 1200,
            i <= n,
            draws@.len() == i,
            forall|j: int| 0 <= j < i ==> is_alphanumeric_byte(#[trigger] draws@[j]),
        decreases n - i,
    {
        draws.push(sample_alphanumeric(&mut rng));
        i = i + 1;
    }
    let r = motd_text(&draws);
    assert forall|i: int| 0 <= i < r@.len() implies is_alnum_char(#[trigger] r@[i]) by {
        assert(r@[i] == byte_char(draws@[i]));
        assert(is_alphanumeric_byte(draws@[i]));
    }
    Some(r)
}

/// The welcome page around the message `motd`, under the root link.
pub fn welcome_reply(site: &str, host: &str, motd: &str) -> (r: Option<String>)
    ensures
        r is Some <==> title_fits(sanitized("/"@)),
        r matches Some(t) ==> t@ == document_text(
            ""@,
            site@,
            sanitized(host@),
            sanitized("/"@),
            sanitized(""@),
            Seq::empty(),
            pagelet_text("-welcome"@, "welcome"@, motd@, ""@),
        ),
{
    let scripts: Vec<String> = Vec::new();
    assert(scripts.deep_view() =~= Seq::<Seq<char>>::empty());
    let belly = html_pagelet("-welcome", "welcome", motd, "");
    html_checked("", site, host, "/", "", &scripts, belly.as_str())
}

// ---------------------------------------------------------------------------
// a page asked for by path

/// Names that stand outside the page scope.
pub open spec fn tolerable(name: Seq<char>) -> bool {
    name == "about"@ || name == "dev"@ || name == "dev/"@
}

fn is_tolerable(name: &str) -> (r: bool)
    ensures
        r == tolerable(name@),
{
    str_eq(name, "about") || str_eq(name, "dev") || str_eq(name, "dev/")
}

/// A page name: letters, digits, underscores and hyphens, at least one.
pub open spec fn sane_name(name: Seq<char>) -> bool {
    name.len() > 0 && forall|i: int| 0 <= i < name.len() ==> is_name_char(#[trigger] name[i])
}

/// May stand in a page name.
pub open spec fn is_name_char(c: char) -> bool {
    ('0' <= c && c <= '9') || ('A' <= c && c <= 'Z') || ('a' <= c && c <= 'z') || c == '_' || c == '-'
}

fn sane(name: &str) -> (r: bool)
    ensures
        r == sane_name(name@),
{
    let n = name.unicode_len();
    if n == 0 {
        return false;
    }
    let mut i: usize = 0;
    while i < n
        invariant
            n == name@.len(),
            i <= n,
            forall|j: int| 0 <= j < i ==> is_name_char(#[trigger] name@[j]),
        decreases n - i,
    {
        let c = name.get_char(i);
        if !(('0' <= c && c <= '9') || ('A' <= c && c <= 'Z') || ('a' <= c && c <= 'z') || c == '_'
            || c == '-') {
            return false;
        }
        i = i + 1;
    }
    true
}

/// `s` without one slash at its end (`Regex::replace` of `/$`).
pub open spec fn strip_slash(s: Seq<char>) -> Seq<char> {
    if ends_with(s, "/"@) {
        s.drop_last()
    } else {
        s
    }
}

/// The tail of the path of a request: all but its first character.
pub open spec fn request_name(req: Seq<char>) -> Seq<char> {
    sanitized(req.skip(1))
}

/// A request name too long to keep can be cut at byte 127 (`truncate`
/// panics inside a character).
pub open spec fn lick_fits(name: Seq<char>) -> bool {
    utf8_len(name) <= 128 || byte_prefix(name, 127) is Some
}

/// The message for a request that names no page.
pub open spec fn bad_request() -> Seq<char> {
    "bad page request"@
}

/// The message for a page whose source is not there.
pub open spec fn not_found() -> Seq<char> {
    "page not found"@
}

/// The last checks on a name: it must be sane, and its source a file.
pub open spec fn settle(dir: Seq<char>, disk: &Disk, name: Seq<char>, link: Seq<char>) -> (
    bool,
    Seq<char>,
    Seq<char>,
    Seq<char>,
) {
    if !sane_name(name) {
        (true, bad_request(), name, link)
    } else if !is_file_at(disk, path_of(dir, name)) {
        (true, not_found(), name, link)
    } else {
        (false, ""@, name, link)
    }
}

/// What a request path asks for: whether it is bad, the message why, the
/// page name and the link. A name longer than 128 bytes is cut to 127 and
/// marked with an ellipsis; `about`, `dev` and `dev/` stand for themselves;
/// other names must lie in the scope, which is taken off them, and must not
/// then be one of those three; the name must be sane and its source a file.
pub open spec fn lick_spec(req: Seq<char>, dir: Seq<char>, scope: Seq<char>, disk: &Disk) -> (
    bool,
    Seq<char>,
    Seq<char>,
    Seq<char>,
) {
    lick_of(request_name(req), dir, scope, disk)
}

/// What a sanitized request name asks for (see `lick_spec`).
pub open spec fn lick_of(name: Seq<char>, dir: Seq<char>, scope: Seq<char>, disk: &Disk) -> (
    bool,
    Seq<char>,
    Seq<char>,
    Seq<char>,
) {
    let scoped = scope.skip(1) + "/"@;
    let link = name;
    if utf8_len(name) > 128 {
        let cut = byte_prefix(name, 127)->0 + "\u{2026}"@;
        (true, bad_request(), cut, cut)
    } else if tolerable(name) {
        settle(dir, disk, strip_slash(name), link)
    } else if starts_with(name, scoped) {
        let inner = remove_all(name, scoped);
        if tolerable(inner) {
            (true, bad_request(), inner, link)
        } else {
            settle(dir, disk, inner, link)
        }
    } else {
        (true, bad_request(), name, link)
    }
}

/// Reads a request path against the pages of the directory.
pub fn flip_lick(req: &str, dir: &str, scope: &str, disk: &Disk) -> (r: (bool, String, String, String))
    requires
        req@.len() > 0,
        char_width(req@[0]) == 1,
        scope@.len() > 0,
        char_width(scope@[0]) == 1,
        lick_fits(request_name(req@)),
    ensures
        (r.0, r.1@, r.2@, r.3@) == lick_spec(req@, dir@, scope@, disk),
{
    let rest = slice(req, 1, req.unicode_len());
    assert(req@.subrange(1, req@.len() as int) =~= req@.skip(1));
    let name = clean(rest.as_str());
    lick(name, dir, scope, disk)
}

/// Reads a sanitized request name against the pages of the directory.
pub fn lick(name: String, dir: &str, scope: &str, disk: &Disk) -> (r: (bool, String, String, String))
    requires
        scope@.len() > 0,
        char_width(scope@[0]) == 1,
        lick_fits(name@),
    ensures
        (r.0, r.1@, r.2@, r.3@) == lick_of(name@, dir@, scope@, disk),
{
    let mut scoped = slice(scope, 1, scope.unicode_len());
    scoped.append("/");
    let mut name = name;
    let link = name.clone();
    let max: usize = 128;
    proof {
        reveal_strlit("/");
        reveal_strlit("");
        assert(scope@.subrange(1, scope@.len() as int) =~= scope@.skip(1));
    }
    if longer_than(name.as_str(), max) {
        let mut cut = match cut_at_byte(name.as_str(), max - 1) {
            Some(c) => c,
            None => {
                proof {
                    assert(false);
                }
                owned("")
            },
        };
        cut.append("\u{2026}");
        let cut2 = cut.clone();
        return (true, owned("bad page request"), cut, cut2);
    }
    if is_tolerable(name.as_str()) {
        let n = name.unicode_len();
        if n > 0 && name.as_str().get_char(n - 1) == '/' {
            proof {
                assert(name@.skip(n - 1) =~= "/"@);
            }
            name = slice(name.as_str(), 0, n - 1);
            assert(name@ =~= link@.drop_last());
        } else {
            proof {
                if ends_with(name@, "/"@) {
                    assert(name@.skip(n - 1)[0] == name@[n - 1]);
                }
            }
        }
    } else if crate::text::has_prefix(name.as_str(), scoped.as_str()) {
        name = remove_each(name.as_str(), scoped.as_str());
        if is_tolerable(name.as_str()) {
            return (true, owned("bad page request"), name, link);
        }
    } else {
        return (true, owned("bad page request"), name, link);
    }
    if !sane(name.as_str()) {
        return (true, owned("bad page request"), name, link);
    }
    if !page_exists(dir, name.as_str(), disk) {
        return (true, owned("page not found"), name, link);
    }
    (false, String::new(), name, link)
}

/// Reads a request path, or gives `None` where the name is too long and
/// cannot be cut (there the site stops).
pub fn flip_check(req: &str, dir: &str, scope: &str, disk: &Disk) -> (r: Option<(bool, String, String, String)>)
    requires
        req@.len() > 0,
        char_width(req@[0]) == 1,
        scope@.len() > 0,
        char_width(scope@[0]) == 1,
    ensures
        r is Some <==> lick_fits(request_name(req@)),
        r matches Some(x) ==> (x.0, x.1@, x.2@, x.3@) == lick_spec(req@, dir@, scope@, disk),
{
    let rest = slice(req, 1, req.unicode_len());
    assert(req@.subrange(1, req@.len() as int) =~= req@.skip(1));
    let name = clean(rest.as_str());
    if !longer_than(name.as_str(), 128) || cut_at_byte(name.as_str(), 127).is_some() {
        Some(flip_lick(req, dir, scope, disk))
    } else {
        None
    }
}

/// Whether a path's first character is one byte long (so the rest of it can
/// be taken from byte 1).
pub fn ascii_head(s: &str) -> (r: bool)
    ensures
        r == (s@.len() > 0 && char_width(s@[0]) == 1),
{
    s.unicode_len() > 0 && s.get_char(0) < '\u{80}'
}

/// A good request for a page whose source is a file newer than the page
/// serves the page built anew from the source as it is now, and keeps that
/// page: the answer is its HTML and looking up its name afterwards finds it.
pub proof fn law_flip_serves_fresh_page(st: &State, host: Seq<char>, path: Seq<char>, disk: &Disk)
    requires
        st.wf(),
        lick_fits(request_name(path)),
        !lick_spec(path, st.dir@, st.scope@, disk).0,
        lookup(st.pages@, lick_spec(path, st.dir@, st.scope@, disk).2) matches Some(pg) && (stamp_at(
            disk,
            path_of(st.dir@, lick_spec(path, st.dir@, st.scope@, disk).2),
        ) matches Stamp::Secs(t) && t > pg.lmod),
        page_spec(
            st.site@,
            st.scope@,
            host,
            lick_spec(path, st.dir@, st.scope@, disk).2,
            lick_spec(path, st.dir@, st.scope@, disk).3,
            path_of(st.dir@, lick_spec(path, st.dir@, st.scope@, disk).2),
            disk,
        ) matches Some(Ok(_)),
    ensures
        ({
            let l = lick_spec(path, st.dir@, st.scope@, disk);
            page_spec(st.site@, st.scope@, host, l.2, l.3, path_of(st.dir@, l.2), disk) matches Some(Ok(pv))
                && st.flip_answer(host, path, disk) == Some((200u16, pv.html)) && lookup(
                st.flip_pages(host, path, disk),
                l.2,
            ) == Some(pv)
        }),
{
    let l = lick_spec(path, st.dir@, st.scope@, disk);
    law_lick_verdict(path, st.dir@, st.scope@, disk);
    let pv = page_spec(st.site@, st.scope@, host, l.2, l.3, path_of(st.dir@, l.2), disk)->0->Ok_0;
    assert(l.2.len() > 0);
    law_put_then_lookup(st.pages@, pv, l.2);
}

/// A request that is not bad names a sane page whose source is a file, and
/// carries no message; a bad one says why.
pub proof fn law_lick_verdict(req: Seq<char>, dir: Seq<char>, scope: Seq<char>, disk: &Disk)
    ensures
        ({
            let r = lick_spec(req, dir, scope, disk);
            &&& !r.0 ==> r.1 == ""@ && sane_name(r.2) && is_file_at(disk, path_of(dir, r.2))
            &&& r.0 ==> r.1 == bad_request() || r.1 == not_found()
            &&& r.1 == not_found() ==> sane_name(r.2) && !is_file_at(disk, path_of(dir, r.2))
        }),
{
    reveal_strlit("bad page request");
    reveal_strlit("page not found");
    reveal_strlit("");
}

/// A request name longer than 128 bytes comes back cut to 127 bytes and an
/// ellipsis, 130 bytes in all, as both name and link, and is bad.
pub proof fn law_long_request_cut(req: Seq<char>, dir: Seq<char>, scope: Seq<char>, disk: &Disk)
    requires
        utf8_len(request_name(req)) > 128,
        lick_fits(request_name(req)),
    ensures
        ({
            let r = lick_spec(req, dir, scope, disk);
            r.0 && r.1 == bad_request() && r.2 == r.3 && utf8_len(r.2) == 130
        }),
{
    reveal_strlit("\u{2026}");
    let head = byte_prefix(request_name(req), 127)->0;
    lemma_utf8_len_concat(head, "\u{2026}"@);
    assert("\u{2026}"@.len() == 1);
    assert("\u{2026}"@[0] == '\u{2026}');
    assert("\u{2026}"@.drop_last() =~= Seq::<char>::empty());
    assert(utf8_len(Seq::<char>::empty()) == 0);
    assert(char_width('\u{2026}') == 3);
    assert(utf8_len("\u{2026}"@) == 3);
    assert(utf8_len(head) == 127);
}

impl State {
    /// The answer to a request for the page at `path`: where the request is
    /// bad, a not-found notice saying why, with the pages left as they are;
    /// otherwise, once the page is brought up to date, its HTML, or a server
    /// error where it is missing. `None` where the site stops (a name or a
    /// link that cannot be cut, or a source that stops the refresh).
    pub open spec fn flip_answer(&self, host: Seq<char>, path: Seq<char>, disk: &Disk) -> Option<
        (u16, Seq<char>),
    > {
        let l = lick_spec(path, self.dir@, self.scope@, disk);
        if !lick_fits(request_name(path)) {
            None
        } else if l.0 {
            if title_fits(sanitized(l.3)) {
                Some(error_reply_spec(404, self.site@, host, l.3, l.1, l.3))
            } else {
                None
            }
        } else {
            match self.up_state_spec(host, l.3, l.2, disk) {
                None => None,
                Some(out) => match lookup(out.1, l.2) {
                    Some(p) => Some((200u16, p.html)),
                    None => if title_fits(sanitized(l.2)) {
                        Some(error_reply_spec(500, self.site@, host, l.2, ""@, l.2))
                    } else {
                        None
                    },
                },
            }
        }
    }

    /// The pages after a request for the page at `path`: brought up to date
    /// for a request that is not bad, as they were otherwise (and where the
    /// refresh would stop the site).
    pub open spec fn flip_pages(&self, host: Seq<char>, path: Seq<char>, disk: &Disk) -> Seq<PageView> {
        let l = lick_spec(path, self.dir@, self.scope@, disk);
        if !lick_fits(request_name(path)) || l.0 {
            self.pages@
        } else {
            match self.up_state_spec(host, l.3, l.2, disk) {
                Some(out) => out.1,
                None => self.pages@,
            }
        }
    }

    /// Answers a request for the page at `path`.
    pub fn flip_reply(&mut self, host: &str, path: &str, disk: &Disk) -> (r: Option<(u16, String)>)
        requires
            old(self).wf(),
            path@.len() > 0,
            char_width(path@[0]) == 1,
            old(self).scope@.len() > 0,
            char_width(old(self).scope@[0]) == 1,
        ensures
            final(self).wf(),
            final(self).site == old(self).site,
            final(self).dir == old(self).dir,
            final(self).scope == old(self).scope,
            final(self).pages@ == old(self).flip_pages(host@, path@, disk),
            r is Some <==> old(self).flip_answer(host@, path@, disk) is Some,
            r matches Some(x) ==> old(self).flip_answer(host@, path@, disk) == Some((x.0, x.1@)),
    {
        let (bad, msg, name, link) = match flip_check(path, self.dir.as_str(), self.scope.as_str(), disk) {
            Some(l) => l,
            None => {
                return None;
            },
        };
        if bad {
            return error_reply(404, self.site.as_str(), host, link.as_str(), msg.as_str(), link.as_str());
        }
        match self.refresh(host, link.as_str(), name.as_str(), disk) {
            None => {
                return None;
            },
            Some(_) => {},
        }
        self.page_reply(host, name.as_str())
    }

    /// The answer for the page `name`: its HTML, or a server error where the
    /// page is missing. `None` where that error's link does not fit the title.
    pub fn page_reply(&self, host: &str, name: &str) -> (r: Option<(u16, String)>)
        requires
            self.wf(),
        ensures
            lookup(self.pages@, name@) matches Some(p) ==> r matches Some(x) && x.0 == 200 && x.1@
                == p.html,
            lookup(self.pages@, name@) is None ==> (r is Some <==> title_fits(sanitized(name@))),
            lookup(self.pages@, name@) is None ==> (r matches Some(x) ==> (x.0, x.1@)
                == error_reply_spec(500, self.site@, host@, name@, ""@, name@)),
    {
        match self.pages.get(name) {
            Some(page) => Some((200u16, page.html.clone())),
            None => error_reply(500, self.site.as_str(), host, name, "", name),
        }
    }
}

} // verus!

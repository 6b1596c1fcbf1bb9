//! The state of the site: its pages, kept up to date with their sources in
//! the site's directory.
use crate::disk::{
    entry_stamp_at, is_file_at, stamp_at, text_at, Disk, Entry, Stamp, TextView,
};
use crate::error::{err, error_text, Error};
use crate::html::{
    document_text, html, law_document_holds_body, link_fits_title, page_tag_text, page_text, title_fits,
    html_page, PAGELET_HEAD, PAGE_BODY, PAGE_CLOSE, PAGE_LMOD, PAGE_OPEN, PAGE_TIME, TAGS_CLOSE, TAGS_OPEN,
    TITLE_CLOSE,
};
use crate::outside::{clean, day_text, in_calendar, markdown_html, md_to_html, sanitized, LAST_SECOND, FIRST_SECOND};
use crate::page::{
    has_name, law_put_keeps_order, law_put_then_lookup, lookup, put, sorted_by_name, Page, PageView,
    Pages,
};
use crate::source::{read_lines, scan_lines, scan_start, text_matches, ScanView};
use crate::text::{
    concat_map, ends_with, has_part, lemma_has_part_mid, lemma_has_part_trans, owned, slice, starts_with, str_eq,
};
use vstd::prelude::*;

verus! {

// ---------------------------------------------------------------------------
// paths

/// The path of the source of the page `name`: the directory, the name and
/// `.md`.
pub open spec fn path_of(dir: Seq<char>, name: Seq<char>) -> Seq<char> {
    dir + name + ".md"@
}

/// The path of the source of the page `name`.
pub fn page_path(dir: &str, name: &str) -> (r: String)
    ensures
        r@ == path_of(dir@, name@),
{
    let mut p = owned(dir);
    p.append(name);
    p.append(".md");
    p
}

/// Whether the source of the page `name` is a file.
pub fn page_exists(dir: &str, name: &str, disk: &Disk) -> (r: bool)
    ensures
        r == is_file_at(disk, path_of(dir@, name@)),
{
    let p = page_path(dir, name);
    disk.is_file(p.as_str())
}

/// A character that means something in a regular expression.
pub open spec fn is_pattern_char(c: char) -> bool {
    c == '\\' || c == '.' || c == '+' || c == '*' || c == '?' || c == '(' || c == ')' || c == '|'
        || c == '[' || c == ']' || c == '{' || c == '}' || c == '^' || c == '$'
}

/// The directory's name reads as itself inside a regular expression.
pub open spec fn literal_pattern(dir: Seq<char>) -> bool {
    forall|i: int| 0 <= i < dir.len() ==> !is_pattern_char(#[trigger] dir[i])
}

/// Whether the directory's name reads as itself inside a regular expression.
pub fn plain_pattern(dir: &str) -> (r: bool)
    ensures
        r == literal_pattern(dir@),
{
    let n = dir.unicode_len();
    let mut i: usize = 0;
    while i < n
        invariant
            n == dir@.len(),
            i <= n,
            forall|j: int| 0 <= j < i ==> !is_pattern_char(#[trigger] dir@[j]),
        decreases n - i,
    {
        let c = dir.get_char(i);
        if c == '\\' || c == '.' || c == '+' || c == '*' || c == '?' || c == '(' || c == ')' || c
            == '|' || c == '[' || c == ']' || c == '{' || c == '}' || c == '^' || c == '$' {
            return false;
        }
        i = i + 1;
    }
    true
}

/// The page name that a listed path gives (`^{dir}([^.]+)\.md$`): the path
/// is the directory, a name of at least one character and no dot, and `.md`.
pub open spec fn db_name(dir: Seq<char>, path: Seq<char>) -> Option<Seq<char>> {
    if starts_with(path, dir) && path.len() >= dir.len() + 4 && ends_with(path, ".md"@) {
        let mid = path.subrange(dir.len() as int, path.len() - 3);
        if !mid.contains('.') {
            Some(mid)
        } else {
            None
        }
    } else {
        None
    }
}

/// The page name that a listed path gives, if any.
pub fn listed_name(dir: &str, path: &str) -> (r: Option<String>)
    ensures
        r matches Some(n) ==> db_name(dir@, path@) == Some(n@),
        r is None ==> db_name(dir@, path@) is None,
{
    proof {
        reveal_strlit(".md");
    }
    let dl = dir.unicode_len();
    let pl = path.unicode_len();
    if !crate::text::has_prefix(path, dir) {
        return None;
    }
    if pl - dl < 4 {
        return None;
    }
    if path.get_char(pl - 3) != '.' || path.get_char(pl - 2) != 'm' || path.get_char(pl - 1) != 'd' {
        proof {
            let t = path@.skip(pl - 3);
            assert(t[0] == path@[pl - 3]);
            assert(t[1] == path@[pl - 2]);
            assert(t[2] == path@[pl - 1]);
        }
        return None;
    }
    assert(path@.skip(pl - 3) =~= ".md"@);
    let mut i = dl;
    while i < pl - 3
        invariant
            pl == path@.len(),
            dl == dir@.len(),
            starts_with(path@, dir@),
            ends_with(path@, ".md"@),
            dl + 4 <= pl,
            dl <= i <= pl - 3,
            forall|j: int| dl <= j < i ==> #[trigger] path@[j] != '.',
        decreases pl - 3 - i,
    {
        if path.get_char(i) == '.' {
            proof {
                let mid = path@.subrange(dl as int, pl - 3);
                assert(mid[i - dl] == '.');
            }
            return None;
        }
        i = i + 1;
    }
    let name = slice(path, dl, pl - 3);
    proof {
        let mid = path@.subrange(dl as int, pl - 3);
        assert(!mid.contains('.')) by {
            if mid.contains('.') {
                let j = choose|j: int| 0 <= j < mid.len() && mid[j] == '.';
                assert(path@[dl + j] == '.');
            }
        }
    }
    Some(name)
}

/// Where a page's link points: `about` and `dev` by their names, the rest
/// under `page/`.
pub open spec fn link_of(name: Seq<char>) -> Seq<char> {
    if name == "about"@ || name == "dev"@ {
        name
    } else {
        "page/"@ + name
    }
}

/// Where the page `name` is linked.
pub fn page_link(name: &str) -> (r: String)
    ensures
        r@ == link_of(name@),
{
    if str_eq(name, "about") || str_eq(name, "dev") {
        owned(name)
    } else {
        let mut l = owned("page/");
        l.append(name);
        l
    }
}

// ---------------------------------------------------------------------------
// reading a source

/// What a page's source gives.
pub struct Parsed {
    pub title: String,
    pub time: i64,
    pub lmod: i64,
    pub tags: Vec<String>,
    pub scripts: Vec<String>,
    /// The body rendered from markdown.
    pub html: String,
}

/// What a source gives, over plain values.
pub struct ParsedView {
    pub title: Seq<char>,
    pub time: int,
    pub lmod: int,
    pub tags: Seq<Seq<char>>,
    pub scripts: Seq<Seq<char>>,
    pub html: Seq<char>,
}

impl View for Parsed {
    type V = ParsedView;

    open spec fn view(&self) -> ParsedView {
        ParsedView {
            title: self.title@,
            time: self.time as int,
            lmod: self.lmod as int,
            tags: self.tags.deep_view(),
            scripts: self.scripts.deep_view(),
            html: self.html@,
        }
    }
}

/// What reading the source at `path` of the page `name` gives: `None` where
/// the site stops (a line that cannot be read, a time that is not a number,
/// a modification time before the epoch), an error where the metadata cannot
/// be read or the file cannot be opened.
pub open spec fn parse_spec(name: Seq<char>, path: Seq<char>, disk: &Disk) -> Option<
    Result<ParsedView, Seq<char>>,
> {
    let stamp = stamp_at(disk, path);
    if stamp is NoMetadata {
        Some(Err(error_text("parse"@, "file metadata"@)))
    } else {
        match text_at(disk, path) {
            TextView::Closed => Some(Err(error_text("parse"@, "file open"@))),
            TextView::Broken => None,
            TextView::Lines(ls) => {
                let st = scan_lines(scan_start(name), ls);
                if !st.fine {
                    None
                } else {
                    match stamp {
                        Stamp::Secs(l) => Some(
                            Ok(
                                ParsedView {
                                    title: st.title,
                                    time: st.time,
                                    lmod: l as int,
                                    tags: st.tags,
                                    scripts: st.scripts,
                                    html: markdown_html(st.md),
                                },
                            ),
                        ),
                        _ => None,
                    }
                }
            },
        }
    }
}

/// A result over plain values.
pub open spec fn parsed_result(r: Result<Parsed, Error>) -> Result<ParsedView, Seq<char>> {
    match r {
        Ok(p) => Ok(p@),
        Err(e) => Err(e@),
    }
}

/// Reads the source at `path` of the page `name`.
pub fn parse(name: &str, path: &str, disk: &Disk) -> (r: Result<Parsed, Error>)
    requires
        parse_spec(name@, path@, disk) is Some,
    ensures
        parse_spec(name@, path@, disk) == Some(parsed_result(r)),
{
    let stamp = disk.stamp(path);
    if let Stamp::NoMetadata = stamp {
        return Err(err("parse", "file metadata"));
    }
    match disk.text(path) {
        None => Err(err("parse", "file open")),
        Some(None) => {
            proof {
                assert(false);
            }
            Err(err("parse", "file open"))
        },
        Some(Some(lines)) => match read_lines(name, lines) {
            Some(t) => match stamp {
                Stamp::Secs(l) => {
                    let html = md_to_html(t.md.as_str());
                    Ok(
                        Parsed {
                            title: t.title,
                            time: t.time,
                            lmod: l,
                            tags: t.tags,
                            scripts: t.scripts,
                            html,
                        },
                    )
                },
                _ => {
                    proof {
                        assert(false);
                    }
                    Err(err("parse", "file open"))
                },
            },
            None => {
                proof {
                    assert(false);
                }
                Err(err("parse", "file open"))
            },
        },
    }
}

/// Whether reading the source at `path` stops the site; when it does not,
/// the time and modification time it reads, where it reads them.
fn parse_check(name: &str, path: &str, disk: &Disk) -> (r: Option<Option<(i64, i64)>>)
    ensures
        r is Some <==> parse_spec(name@, path@, disk) is Some,
        r matches Some(None) ==> parse_spec(name@, path@, disk) matches Some(Err(_)),
        r matches Some(Some(tl)) ==> (parse_spec(name@, path@, disk) matches Some(Ok(p)) && p.time
            == tl.0 && p.lmod == tl.1),
{
    let stamp = disk.stamp(path);
    if let Stamp::NoMetadata = stamp {
        return Some(None);
    }
    match disk.text(path) {
        None => Some(None),
        Some(None) => None,
        Some(Some(lines)) => match read_lines(name, lines) {
            Some(t) => match stamp {
                Stamp::Secs(l) => Some(Some((t.time, l))),
                _ => None,
            },
            None => None,
        },
    }
}

// ---------------------------------------------------------------------------
// the state

/// A page built from its source: `None` where the site stops (in reading the
/// source, on a day chrono cannot write, or on a link too long for the
/// title that cannot be cut).
pub open spec fn page_spec(
    site: Seq<char>,
    scope: Seq<char>,
    host: Seq<char>,
    name: Seq<char>,
    link: Seq<char>,
    path: Seq<char>,
    disk: &Disk,
) -> Option<Result<PageView, Seq<char>>> {
    match parse_spec(name, path, disk) {
        None => None,
        Some(Err(e)) => Some(Err(e)),
        Some(Ok(p)) => {
            if in_calendar(p.time) && in_calendar(p.lmod) && title_fits(sanitized(link)) {
                Some(
                    Ok(
                        PageView {
                            name,
                            link,
                            time: p.time,
                            lmod: p.lmod,
                            tags: p.tags,
                            html: document_text(
                                ""@,
                                site,
                                sanitized(host),
                                sanitized(link),
                                sanitized(""@),
                                p.scripts,
                                page_text(scope, name, p.title, p.time, p.lmod, p.tags, p.html),
                            ),
                        },
                    ),
                )
            } else {
                None
            }
        },
    }
}

/// A built page shows its two days in its head: the day of its time, then,
/// after `PAGE_LMOD`, the day of its modification time, which is the time of
/// the source file as its metadata gives it.
pub proof fn law_page_shows_its_days(
    site: Seq<char>,
    scope: Seq<char>,
    host: Seq<char>,
    name: Seq<char>,
    link: Seq<char>,
    path: Seq<char>,
    disk: &Disk,
)
    requires
        page_spec(site, scope, host, name, link, path, disk) is Some,
        page_spec(site, scope, host, name, link, path, disk)->0 is Ok,
    ensures
        page_spec(site, scope, host, name, link, path, disk) matches Some(Ok(pv)) && (stamp_at(disk, path) matches Stamp::Secs(
            l,
        ) && pv.lmod == l) && has_part(
            pv.html,
            PAGE_TIME@ + day_text(pv.time) + PAGE_LMOD@ + day_text(pv.lmod) + PAGE_BODY@,
        ),
{
    let p = parse_spec(name, path, disk)->0->Ok_0;
    let pv = page_spec(site, scope, host, name, link, path, disk)->0->Ok_0;
    let belly = page_text(scope, name, p.title, p.time, p.lmod, p.tags, p.html);
    law_document_holds_body(
        ""@,
        site,
        sanitized(host),
        sanitized(link),
        sanitized(""@),
        p.scripts,
        belly,
    );
    let part = PAGE_TIME@ + day_text(p.time) + PAGE_LMOD@ + day_text(p.lmod) + PAGE_BODY@;
    let a = PAGE_OPEN@ + name + PAGELET_HEAD@ + p.title + TITLE_CLOSE@ + crate::html::when(
        p.tags.len() > 0,
        TAGS_OPEN@ + concat_map(p.tags, |t: Seq<char>| page_tag_text(scope, t)) + TAGS_CLOSE@,
    );
    let b = p.html + PAGE_CLOSE@;
    assert((a + part + b) =~= belly);
    lemma_has_part_mid(a, part, b);
    lemma_has_part_trans(pv.html, belly, part);
}

/// Whether the page's source has changed since the page was built: `false`
/// when the source is gone; `None` where the site stops.
pub open spec fn old_spec(dir: Seq<char>, page: PageView, disk: &Disk) -> Option<
    Result<bool, Seq<char>>,
> {
    let path = path_of(dir, page.name);
    if !is_file_at(disk, path) {
        Some(Ok(false))
    } else {
        match stamp_at(disk, path) {
            Stamp::NoMetadata => Some(Err(error_text("page_is_old"@, "file metadata"@))),
            Stamp::NoTime => None,
            Stamp::Secs(l) => Some(Ok(l > page.lmod)),
        }
    }
}

/// Some page's source is no longer a file.
pub open spec fn stale(pages: Seq<PageView>, dir: Seq<char>, disk: &Disk) -> bool {
    exists|i: int| 0 <= i < pages.len() && !is_file_at(disk, path_of(dir, #[trigger] pages[i].name))
}

/// The pages kept before the directory is read again: none when some page's
/// source is gone, all otherwise.
pub open spec fn kept(pages: Seq<PageView>, dir: Seq<char>, disk: &Disk) -> Seq<PageView> {
    if stale(pages, dir, disk) {
        Seq::empty()
    } else {
        pages
    }
}

/// What one listing entry gives.
pub enum EntryStep {
    Fail(Seq<char>),
    Halt,
    Skip,
    Keep((Seq<char>, Seq<char>, Seq<char>)),
}

/// A listed source is read again unless its page exists and the source is no
/// newer than the page. The triple is the link, the name and the path.
pub open spec fn entry_step(pages: Seq<PageView>, dir: Seq<char>, disk: &Disk, e: Entry) -> EntryStep {
    match e {
        Entry::Failed => EntryStep::Fail(error_text("up_db"@, "file"@)),
        Entry::NotText => EntryStep::Halt,
        Entry::Path(p) => match db_name(dir, p@) {
            None => EntryStep::Skip,
            Some(name) => {
                if has_name(pages, name) {
                    match entry_stamp_at(disk, p@) {
                        Stamp::NoMetadata => EntryStep::Fail(error_text("up_db"@, "file metadata"@)),
                        Stamp::NoTime => EntryStep::Halt,
                        Stamp::Secs(l) => {
                            if l <= lookup(pages, name)->0.lmod {
                                EntryStep::Skip
                            } else {
                                EntryStep::Keep((link_of(name), name, p@))
                            }
                        },
                    }
                } else {
                    EntryStep::Keep((link_of(name), name, p@))
                }
            },
        },
    }
}

/// The sources to read again, in the order of the listing, stopping at the
/// first failed entry.
pub open spec fn db_scan(pages: Seq<PageView>, dir: Seq<char>, disk: &Disk, es: Seq<Entry>) -> Option<
    Result<Seq<(Seq<char>, Seq<char>, Seq<char>)>, Seq<char>>,
>
    decreases es.len(),
{
    if es.len() == 0 {
        Some(Ok(Seq::empty()))
    } else {
        match entry_step(pages, dir, disk, es[0]) {
            EntryStep::Fail(e) => Some(Err(e)),
            EntryStep::Halt => None,
            EntryStep::Skip => db_scan(pages, dir, disk, es.skip(1)),
            EntryStep::Keep(x) => match db_scan(pages, dir, disk, es.skip(1)) {
                Some(Ok(r)) => Some(Ok(seq![x] + r)),
                other => other,
            },
        }
    }
}

/// The sources to read again, from the pages kept.
pub open spec fn db_spec(pages: Seq<PageView>, dir: Seq<char>, disk: &Disk) -> Option<
    Result<Seq<(Seq<char>, Seq<char>, Seq<char>)>, Seq<char>>,
> {
    match disk.listing {
        None => Some(Err(error_text("up_db"@, "read_dir"@))),
        Some(es) => db_scan(kept(pages, dir, disk), dir, disk, es@),
    }
}

/// Building the pages of the listed sources in order and putting each in,
/// until one fails.
pub open spec fn fill(
    site: Seq<char>,
    scope: Seq<char>,
    host: Seq<char>,
    pages: Seq<PageView>,
    db: Seq<(Seq<char>, Seq<char>, Seq<char>)>,
    disk: &Disk,
) -> Option<(Result<(), Seq<char>>, Seq<PageView>)>
    decreases db.len(),
{
    if db.len() == 0 {
        Some((Ok(()), pages))
    } else {
        match page_spec(site, scope, host, db[0].1, db[0].0, db[0].2, disk) {
            None => None,
            Some(Err(e)) => Some((Err(e), pages)),
            Some(Ok(p)) => fill(site, scope, host, put(pages, p), db.skip(1), disk),
        }
    }
}

/// A listing result over plain values.
pub open spec fn db_view(db: Seq<(String, String, String)>) -> Seq<(Seq<char>, Seq<char>, Seq<char>)> {
    db.map_values(|t: (String, String, String)| (t.0@, t.1@, t.2@))
}

/// A unit result over plain values.
pub open spec fn unit_result(r: Result<(), Error>) -> Result<(), Seq<char>> {
    match r {
        Ok(()) => Ok(()),
        Err(e) => Err(e@),
    }
}


/// A listing outcome with `acc` put in front of what it lists.
pub open spec fn after_listed(
    acc: Seq<(Seq<char>, Seq<char>, Seq<char>)>,
    r: Option<Result<Seq<(Seq<char>, Seq<char>, Seq<char>)>, Seq<char>>>,
) -> Option<Result<Seq<(Seq<char>, Seq<char>, Seq<char>)>, Seq<char>>> {
    match r {
        Some(Ok(x)) => Some(Ok(acc + x)),
        other => other,
    }
}

/// Whether the entry's page, if it has one, is among the pages.
fn db_entries(pages: &Pages, dir: &str, disk: &Disk, es: &Vec<Entry>) -> (r: Option<
    Result<Vec<(String, String, String)>, Error>,
>)
    requires
        pages.wf(),
    ensures
        r is Some <==> db_scan(pages@, dir@, disk, es@) is Some,
        r matches Some(x) ==> db_scan(pages@, dir@, disk, es@) == Some(
            match x {
                Ok(db) => Ok::<Seq<(Seq<char>, Seq<char>, Seq<char>)>, Seq<char>>(db_view(db@)),
                Err(e) => Err(e@),
            },
        ),
{
    let ghost ps = pages@;
    let mut out: Vec<(String, String, String)> = Vec::new();
    let mut i: usize = 0;
    assert(es@.skip(0) =~= es@);
    assert(db_view(out@) =~= Seq::<(Seq<char>, Seq<char>, Seq<char>)>::empty());
    while i < es.len()
        invariant
            pages.wf(),
            ps == pages@,
            i <= es.len(),
            db_scan(ps, dir@, disk, es@) == after_listed(
                db_view(out@),
                db_scan(ps, dir@, disk, es@.skip(i as int)),
            ),
        decreases es.len() - i,
    {
        let ghost rest = es@.skip(i as int);
        assert(rest[0] == es@[i as int]);
        assert(rest.skip(1) =~= es@.skip(i + 1));
        match &es[i] {
            Entry::Failed => {
                return Some(Err(err("up_db", "file")));
            },
            Entry::NotText => {
                return None;
            },
            Entry::Path(p) => {
                match listed_name(dir, p.as_str()) {
                    None => {},
                    Some(name) => {
                        let mut keep = true;
                        match pages.get(name.as_str()) {
                            Some(page) => {
                                match disk.entry_stamp(p.as_str()) {
                                    Stamp::NoMetadata => {
                                        return Some(Err(err("up_db", "file metadata")));
                                    },
                                    Stamp::NoTime => {
                                        return None;
                                    },
                                    Stamp::Secs(l) => {
                                        if l <= page.lmod {
                                            keep = false;
                                        }
                                    },
                                }
                            },
                            None => {},
                        }
                        if keep {
                            let link = page_link(name.as_str());
                            let ghost before = out@;
                            let ghost x = (link@, name@, p@);
                            out.push((link, name, owned(p.as_str())));
                            proof {
                                assert(entry_step(ps, dir@, disk, es@[i as int]) == EntryStep::Keep(x));
                                assert(db_view(out@) =~= db_view(before) + seq![x]);
                                let next = db_scan(ps, dir@, disk, es@.skip(i + 1));
                                match next {
                                    Some(Ok(r)) => {
                                        assert(db_view(before) + (seq![x] + r) =~= db_view(out@) + r);
                                    },
                                    _ => {},
                                }
                            }
                        } else {
                            assert(entry_step(ps, dir@, disk, es@[i as int]) is Skip);
                        }
                    },
                }
            },
        }
        i = i + 1;
    }
    assert(es@.skip(es.len() as int) =~= Seq::<Entry>::empty());
    assert(db_view(out@) + Seq::<(Seq<char>, Seq<char>, Seq<char>)>::empty() =~= db_view(out@));
    Some(Ok(out))
}

/// Whether building the listed pages in order stops the site before one of
/// them fails.
pub open spec fn fill_halts(
    site: Seq<char>,
    scope: Seq<char>,
    host: Seq<char>,
    db: Seq<(Seq<char>, Seq<char>, Seq<char>)>,
    disk: &Disk,
) -> bool
    decreases db.len(),
{
    if db.len() == 0 {
        false
    } else {
        match page_spec(site, scope, host, db[0].1, db[0].0, db[0].2, disk) {
            None => true,
            Some(Err(_)) => false,
            Some(Ok(_)) => fill_halts(site, scope, host, db.skip(1), disk),
        }
    }
}

proof fn lemma_fill_halts(
    site: Seq<char>,
    scope: Seq<char>,
    host: Seq<char>,
    pages: Seq<PageView>,
    db: Seq<(Seq<char>, Seq<char>, Seq<char>)>,
    disk: &Disk,
)
    ensures
        fill(site, scope, host, pages, db, disk) is Some <==> !fill_halts(site, scope, host, db, disk),
    decreases db.len(),
{
    if db.len() > 0 {
        match page_spec(site, scope, host, db[0].1, db[0].0, db[0].2, disk) {
            Some(Ok(p)) => lemma_fill_halts(site, scope, host, put(pages, p), db.skip(1), disk),
            _ => {},
        }
    }
}

/// Bringing every page up to date, over plain values: the pages whose
/// sources are gone are dropped as `kept` says, the sources to read again are
/// listed, and their pages are put in. The outcome and the pages after it,
/// or `None` where the site stops.
pub open spec fn refresh_all(
    site: Seq<char>,
    dir: Seq<char>,
    scope: Seq<char>,
    host: Seq<char>,
    pages: Seq<PageView>,
    disk: &Disk,
) -> Option<(Result<(), Seq<char>>, Seq<PageView>)> {
    let start = kept(pages, dir, disk);
    match db_spec(pages, dir, disk) {
        None => None,
        Some(Err(e)) => Some((Err(e), start)),
        Some(Ok(db)) => fill(site, scope, host, start, db, disk),
    }
}

/// The site: its name, the directory of its sources, the scope of its page
/// links, and its pages.
pub struct State {
    pub site: String,
    pub dir: String,
    pub scope: String,
    pub pages: Pages,
}

impl State {
    /// The pages are well formed and the directory reads as itself in a pattern.
    pub open spec fn wf(&self) -> bool {
        self.pages.wf() && literal_pattern(self.dir@)
    }

    /// The state of `refresh` and its relatives, over plain values: the
    /// outcome and the pages after it, or `None` where the site stops.
    pub open spec fn up_pages_spec(&self, host: Seq<char>, disk: &Disk) -> Option<
        (Result<(), Seq<char>>, Seq<PageView>),
    > {
        refresh_all(self.site@, self.dir@, self.scope@, host, self.pages@, disk)
    }

    /// The state after refreshing the page `name` (see `up_pages_spec`).
    pub open spec fn up_page_spec(&self, host: Seq<char>, link: Seq<char>, name: Seq<char>, disk: &Disk) -> Option<
        (Result<(), Seq<char>>, Seq<PageView>),
    > {
        let pages = self.pages@;
        match lookup(pages, name) {
            None => Some((Err(error_text("up_page"@, "get page"@)), pages)),
            Some(pg) => match old_spec(self.dir@, pg, disk) {
                None => None,
                Some(Err(e)) => Some((Err(e), pages)),
                Some(Ok(false)) => Some((Ok(()), pages)),
                Some(Ok(true)) => match page_spec(
                    self.site@,
                    self.scope@,
                    host,
                    name,
                    link,
                    path_of(self.dir@, name),
                    disk,
                ) {
                    None => None,
                    Some(Err(e)) => Some((Err(e), pages)),
                    Some(Ok(p)) => Some((Ok(()), put(pages, p))),
                },
            },
        }
    }

    /// Every page when no name is given, the named page otherwise.
    pub open spec fn up_state_spec(&self, host: Seq<char>, link: Seq<char>, name: Seq<char>, disk: &Disk) -> Option<
        (Result<(), Seq<char>>, Seq<PageView>),
    > {
        if name.len() == 0 {
            self.up_pages_spec(host, disk)
        } else {
            self.up_page_spec(host, link, name, disk)
        }
    }

    /// A site with no pages yet.
    pub fn new(site: String, dir: String, scope: String) -> (r: State)
        requires
            literal_pattern(dir@),
        ensures
            r.site == site,
            r.dir == dir,
            r.scope == scope,
            r.pages@ == Seq::<PageView>::empty(),
            r.wf(),
    {
        State { site, dir, scope, pages: Pages::new() }
    }

    /// Builds the page `name`, linked at `link`, from its source at `path`.
    pub fn page(&self, host: &str, name: &str, link: &str, path: &str, disk: &Disk) -> (r: Result<
        Page,
        Error,
    >)
        requires
            page_spec(self.site@, self.scope@, host@, name@, link@, path@, disk) is Some,
        ensures
            page_spec(self.site@, self.scope@, host@, name@, link@, path@, disk) == Some(
                match r {
                    Ok(p) => Ok::<PageView, Seq<char>>(p@),
                    Err(e) => Err(e@),
                },
            ),
    {
        let parsed = match parse(name, path, disk) {
            Ok(p) => p,
            Err(e) => return Err(e),
        };
        let belly = html_page(
            self.scope.as_str(),
            name,
            parsed.title.as_str(),
            parsed.time,
            parsed.lmod,
            &parsed.tags,
            parsed.html.as_str(),
        );
        let doc = html("", self.site.as_str(), host, link, "", &parsed.scripts, belly.as_str());
        Ok(
            Page {
                name: owned(name),
                link: owned(link),
                time: parsed.time,
                lmod: parsed.lmod,
                tags: parsed.tags,
                html: doc,
            },
        )
    }

    /// Whether building the page stops the site; when it does not, whether
    /// it fails.
    pub fn page_check(&self, name: &str, link: &str, path: &str, disk: &Disk, host: &str) -> (r: Option<
        bool,
    >)
        ensures
            r is Some <==> page_spec(self.site@, self.scope@, host@, name@, link@, path@, disk) is Some,
            r == Some(true) ==> page_spec(self.site@, self.scope@, host@, name@, link@, path@, disk) matches Some(
                Ok(_),
            ),
            r == Some(false) ==> page_spec(self.site@, self.scope@, host@, name@, link@, path@, disk) matches Some(
                Err(_),
            ),
    {
        match parse_check(name, path, disk) {
            None => None,
            Some(None) => Some(false),
            Some(Some(tl)) => {
                let (time, lmod) = tl;
                let clean_link = clean(link);
                if FIRST_SECOND <= time && time <= LAST_SECOND && FIRST_SECOND <= lmod && lmod
                    <= LAST_SECOND && link_fits_title(clean_link.as_str()) {
                    Some(true)
                } else {
                    None
                }
            },
        }
    }

    /// Whether the page's source is newer than the page.
    pub fn page_is_old(&self, page: &Page, disk: &Disk) -> (r: Result<bool, Error>)
        requires
            old_spec(self.dir@, page@, disk) is Some,
        ensures
            old_spec(self.dir@, page@, disk) == Some(
                match r {
                    Ok(b) => Ok::<bool, Seq<char>>(b),
                    Err(e) => Err(e@),
                },
            ),
    {
        let path = page_path(self.dir.as_str(), page.name.as_str());
        if !page_exists(self.dir.as_str(), page.name.as_str(), disk) {
            return Ok(false);
        }
        match disk.stamp(path.as_str()) {
            Stamp::NoMetadata => Err(err("page_is_old", "file metadata")),
            Stamp::Secs(l) => Ok(l > page.lmod),
            Stamp::NoTime => {
                proof {
                    assert(false);
                }
                Ok(false)
            },
        }
    }
}

// ---------------------------------------------------------------------------
// laws

/// A page's source is where the listing finds the page again: the listed
/// name of `path_of(dir, name)` is `name`, for a name of at least one
/// character and no dot.
pub proof fn law_listed_path_gives_name(dir: Seq<char>, name: Seq<char>)
    requires
        name.len() > 0,
        !name.contains('.'),
    ensures
        db_name(dir, path_of(dir, name)) == Some(name),
{
    reveal_strlit(".md");
    let p = path_of(dir, name);
    assert(p.take(dir.len() as int) =~= dir);
    assert(p.skip(p.len() - 3) =~= ".md"@);
    assert(p.subrange(dir.len() as int, p.len() - 3) =~= name);
}

/// Putting pages in never takes a name out.
proof fn lemma_fill_keeps(
    site: Seq<char>,
    scope: Seq<char>,
    host: Seq<char>,
    pages: Seq<PageView>,
    db: Seq<(Seq<char>, Seq<char>, Seq<char>)>,
    disk: &Disk,
    n: Seq<char>,
)
    requires
        sorted_by_name(pages),
        has_name(pages, n),
        fill(site, scope, host, pages, db, disk) is Some,
    ensures
        fill(site, scope, host, pages, db, disk) matches Some(x) && sorted_by_name(x.1) && has_name(x.1, n),
    decreases db.len(),
{
    if db.len() > 0 {
        match page_spec(site, scope, host, db[0].1, db[0].0, db[0].2, disk) {
            Some(Ok(p)) => {
                law_put_keeps_order(pages, p);
                law_put_then_lookup(pages, p, n);
                lemma_fill_keeps(site, scope, host, put(pages, p), db.skip(1), disk, n);
            },
            _ => {},
        }
    }
}

/// Once every listed source has been read without failure, every listed
/// page is among the pages.
pub proof fn law_listed_pages_present(
    site: Seq<char>,
    scope: Seq<char>,
    host: Seq<char>,
    pages: Seq<PageView>,
    db: Seq<(Seq<char>, Seq<char>, Seq<char>)>,
    disk: &Disk,
    k: int,
)
    requires
        sorted_by_name(pages),
        fill(site, scope, host, pages, db, disk) matches Some(x) && x.0 is Ok,
        0 <= k < db.len(),
    ensures
        fill(site, scope, host, pages, db, disk) matches Some(x) && has_name(x.1, db[k].1),
    decreases db.len(),
{
    match page_spec(site, scope, host, db[0].1, db[0].0, db[0].2, disk) {
        Some(Ok(p)) => {
            law_put_keeps_order(pages, p);
            if k == 0 {
                law_put_then_lookup(pages, p, p.name);
                lemma_fill_keeps(site, scope, host, put(pages, p), db.skip(1), disk, p.name);
            } else {
                assert(db.skip(1)[k - 1] == db[k]);
                law_listed_pages_present(site, scope, host, put(pages, p), db.skip(1), disk, k - 1);
            }
        },
        _ => {},
    }
}

/// Bringing one page up to date leaves every other page as it was.
pub proof fn law_one_page_refresh_keeps_others(
    st: &State,
    host: Seq<char>,
    link: Seq<char>,
    name: Seq<char>,
    disk: &Disk,
    other: Seq<char>,
)
    requires
        st.wf(),
        st.up_page_spec(host, link, name, disk) is Some,
        other != name,
    ensures
        st.up_page_spec(host, link, name, disk) matches Some(x) && lookup(x.1, other) == lookup(
            st.pages@,
            other,
        ),
{
    let pages = st.pages@;
    match lookup(pages, name) {
        Some(pg) => match old_spec(st.dir@, pg, disk) {
            Some(Ok(true)) => match page_spec(
                st.site@,
                st.scope@,
                host,
                name,
                link,
                path_of(st.dir@, name),
                disk,
            ) {
                Some(Ok(p)) => {
                    law_put_then_lookup(pages, p, other);
                },
                _ => {},
            },
            _ => {},
        },
        None => {},
    }
}

/// A page whose source is no newer than the page is kept as it is.
pub proof fn law_fresh_page_kept(st: &State, host: Seq<char>, link: Seq<char>, name: Seq<char>, disk: &Disk)
    requires
        st.wf(),
        lookup(st.pages@, name) matches Some(pg) && (stamp_at(disk, path_of(st.dir@, name)) matches Stamp::Secs(
            l,
        ) && l <= pg.lmod),
    ensures
        st.up_page_spec(host, link, name, disk) == Some((Ok::<(), Seq<char>>(()), st.pages@)),
{
    let pages = st.pages@;
    let i = choose|i: int| 0 <= i < pages.len() && #[trigger] pages[i].name == name;
    assert(pages[i].name == name);
}

/// A listed path gives a name only when it is the path of that name's
/// source.
proof fn lemma_db_name_path(dir: Seq<char>, p: Seq<char>)
    requires
        db_name(dir, p) is Some,
    ensures
        p == path_of(dir, db_name(dir, p)->0),
{
    reveal_strlit(".md");
    let name = db_name(dir, p)->0;
    let q = path_of(dir, name);
    assert(q.len() == p.len());
    assert forall|i: int| 0 <= i < p.len() implies p[i] == q[i] by {
        if i < dir.len() {
            assert(p.take(dir.len() as int)[i] == dir[i]);
        } else if i < p.len() - 3 {
            assert(name[i - dir.len()] == p[i]);
        } else {
            assert(p.skip(p.len() - 3)[i - (p.len() - 3)] == ".md"@[i - (p.len() - 3)]);
        }
    }
    assert(p =~= q);
}

/// The sources listed for reading again leave out `name` when its page
/// exists and its source is no newer than the page.
proof fn lemma_scan_skips(pages: Seq<PageView>, dir: Seq<char>, disk: &Disk, es: Seq<Entry>, name: Seq<char>)
    requires
        lookup(pages, name) matches Some(pg) && (entry_stamp_at(disk, path_of(dir, name)) matches Stamp::Secs(
            l,
        ) && l <= pg.lmod),
    ensures
        db_scan(pages, dir, disk, es) matches Some(Ok(db)) ==> forall|k: int|
            0 <= k < db.len() ==> (#[trigger] db[k]).1 != name,
    decreases es.len(),
{
    if es.len() > 0 {
        lemma_scan_skips(pages, dir, disk, es.skip(1), name);
        if let Entry::Path(p) = es[0] {
            if db_name(dir, p@) is Some {
                lemma_db_name_path(dir, p@);
            }
        }
        if let EntryStep::Keep(x) = entry_step(pages, dir, disk, es[0]) {
            if let Some(Ok(r)) = db_scan(pages, dir, disk, es.skip(1)) {
                let db = seq![x] + r;
                assert forall|k: int| 0 <= k < db.len() implies (#[trigger] db[k]).1 != name by {
                    if k > 0 {
                        assert(db[k] == r[k - 1]);
                    }
                }
            }
        }
    }
}

/// Building the listed pages leaves a page whose name is not listed as it
/// was.
proof fn lemma_fill_leaves(
    site: Seq<char>,
    scope: Seq<char>,
    host: Seq<char>,
    pages: Seq<PageView>,
    db: Seq<(Seq<char>, Seq<char>, Seq<char>)>,
    disk: &Disk,
    name: Seq<char>,
)
    requires
        sorted_by_name(pages),
        forall|k: int| 0 <= k < db.len() ==> (#[trigger] db[k]).1 != name,
    ensures
        fill(site, scope, host, pages, db, disk) matches Some(x) ==> lookup(x.1, name) == lookup(pages, name),
    decreases db.len(),
{
    if db.len() > 0 {
        if let Some(Ok(p)) = page_spec(site, scope, host, db[0].1, db[0].0, db[0].2, disk) {
            law_put_keeps_order(pages, p);
            law_put_then_lookup(pages, p, name);
            let rest = db.skip(1);
            assert forall|k: int| 0 <= k < rest.len() implies (#[trigger] rest[k]).1 != name by {
                assert(rest[k] == db[k + 1]);
            }
            lemma_fill_leaves(site, scope, host, put(pages, p), rest, disk, name);
        }
    }
}

/// An unchanged source is not read again: bringing every page up to date
/// leaves a page as it was when its source is no newer than the page and no
/// page's source is gone.
pub proof fn law_unchanged_page_kept(st: &State, host: Seq<char>, name: Seq<char>, disk: &Disk)
    requires
        st.wf(),
        !stale(st.pages@, st.dir@, disk),
        lookup(st.pages@, name) matches Some(pg) && (entry_stamp_at(disk, path_of(st.dir@, name)) matches Stamp::Secs(
            l,
        ) && l <= pg.lmod),
    ensures
        st.up_pages_spec(host, disk) matches Some(x) ==> lookup(x.1, name) == lookup(st.pages@, name),
{
    let pages = st.pages@;
    if let Some(es) = disk.listing {
        lemma_scan_skips(pages, st.dir@, disk, es@, name);
        if let Some(Ok(db)) = db_scan(pages, st.dir@, disk, es@) {
            lemma_fill_leaves(st.site@, st.scope@, host, pages, db, disk, name);
        }
    }
}

/// A listed path that names a page is settled: it is a file, and the time
/// of its directory entry is no newer than the time of the file it leads to
/// (for a link: its target's).
pub open spec fn settled_path(dir: Seq<char>, disk: &Disk, p: Seq<char>) -> bool {
    db_name(dir, p) is Some ==> is_file_at(disk, p) && match (entry_stamp_at(disk, p), stamp_at(disk, p)) {
        (Stamp::Secs(a), Stamp::Secs(b)) => a <= b,
        _ => false,
    }
}

/// An entry of the listing is settled.
pub open spec fn settled_entry(dir: Seq<char>, disk: &Disk, e: Entry) -> bool {
    match e {
        Entry::Path(p) => settled_path(dir, disk, p@),
        _ => true,
    }
}

/// Every entry of the listing is settled.
pub open spec fn settled(dir: Seq<char>, disk: &Disk) -> bool {
    match disk.listing {
        Some(es) => forall|i: int| 0 <= i < es@.len() ==> settled_entry(dir, disk, #[trigger] es@[i]),
        None => true,
    }
}

/// The page an entry names is listed to be read again, or it is among the
/// pages and its entry is no newer than it.
pub open spec fn covered(
    pages: Seq<PageView>,
    dir: Seq<char>,
    disk: &Disk,
    db: Seq<(Seq<char>, Seq<char>, Seq<char>)>,
    e: Entry,
) -> bool {
    match e {
        Entry::Path(p) => match db_name(dir, p@) {
            Some(n) => (exists|k: int| 0 <= k < db.len() && #[trigger] db[k].1 == n) || (has_name(pages, n)
                && match entry_stamp_at(disk, p@) {
                Stamp::Secs(a) => a <= lookup(pages, n)->0.lmod,
                _ => false,
            }),
            None => true,
        },
        _ => false,
    }
}

/// What a listing that went through gives: only paths, each listed source
/// settled and named by its path, and every page named covered.
pub open spec fn scan_facts(
    pages: Seq<PageView>,
    dir: Seq<char>,
    disk: &Disk,
    es: Seq<Entry>,
    db: Seq<(Seq<char>, Seq<char>, Seq<char>)>,
) -> bool {
    &&& forall|k: int|
        0 <= k < db.len() ==> db_name(dir, (#[trigger] db[k]).2) == Some(db[k].1) && settled_path(
            dir,
            disk,
            db[k].2,
        )
    &&& forall|i: int| 0 <= i < es.len() ==> covered(pages, dir, disk, db, #[trigger] es[i])
}

proof fn lemma_scan_facts(pages: Seq<PageView>, dir: Seq<char>, disk: &Disk, es: Seq<Entry>)
    requires
        forall|i: int| 0 <= i < es.len() ==> settled_entry(dir, disk, #[trigger] es[i]),
    ensures
        db_scan(pages, dir, disk, es) matches Some(Ok(db)) ==> scan_facts(pages, dir, disk, es, db),
    decreases es.len(),
{
    if es.len() > 0 {
        let rest = es.skip(1);
        assert forall|i: int| 0 <= i < rest.len() implies settled_entry(dir, disk, #[trigger] rest[i]) by {
            assert(rest[i] == es[i + 1]);
        }
        lemma_scan_facts(pages, dir, disk, rest);
        assert(settled_entry(dir, disk, es[0]));
        match entry_step(pages, dir, disk, es[0]) {
            EntryStep::Skip => {
                if let Some(Ok(db)) = db_scan(pages, dir, disk, rest) {
                    assert forall|i: int| 0 <= i < es.len() implies covered(pages, dir, disk, db, #[trigger] es[i]) by {
                        if i > 0 {
                            assert(es[i] == rest[i - 1]);
                        }
                    }
                }
            },
            EntryStep::Keep(x) => {
                if let Some(Ok(r)) = db_scan(pages, dir, disk, rest) {
                    let db = seq![x] + r;
                    assert forall|k: int| 0 <= k < db.len() implies db_name(dir, (#[trigger] db[k]).2) == Some(
                        db[k].1,
                    ) && settled_path(dir, disk, db[k].2) by {
                        if k > 0 {
                            assert(db[k] == r[k - 1]);
                        }
                    }
                    assert forall|i: int| 0 <= i < es.len() implies covered(pages, dir, disk, db, #[trigger] es[i]) by {
                        if i == 0 {
                            assert(db[0] == x);
                        } else {
                            assert(es[i] == rest[i - 1]);
                            assert(covered(pages, dir, disk, r, rest[i - 1]));
                            if let Entry::Path(p) = es[i] {
                                if let Some(n) = db_name(dir, p@) {
                                    if exists|k: int| 0 <= k < r.len() && #[trigger] r[k].1 == n {
                                        let k = choose|k: int| 0 <= k < r.len() && #[trigger] r[k].1 == n;
                                        assert(db[k + 1] == r[k]);
                                    }
                                }
                            }
                        }
                    }
                }
            },
            _ => {},
        }
    }
}

/// A listed page is built with a modification time no older than `e`.
pub open spec fn built_after(
    site: Seq<char>,
    scope: Seq<char>,
    host: Seq<char>,
    x: (Seq<char>, Seq<char>, Seq<char>),
    disk: &Disk,
    e: int,
) -> bool {
    match page_spec(site, scope, host, x.1, x.0, x.2, disk) {
        Some(Ok(pv)) => pv.lmod >= e,
        _ => true,
    }
}

/// Building the listed pages leaves the page `n` present and no older than
/// `e` when it was so before or is listed, and every listing of it is built
/// no older than `e`.
proof fn lemma_fill_fresh(
    site: Seq<char>,
    scope: Seq<char>,
    host: Seq<char>,
    pages: Seq<PageView>,
    db: Seq<(Seq<char>, Seq<char>, Seq<char>)>,
    disk: &Disk,
    n: Seq<char>,
    e: int,
)
    requires
        sorted_by_name(pages),
        forall|k: int|
            0 <= k < db.len() && (#[trigger] db[k]).1 == n ==> built_after(site, scope, host, db[k], disk, e),
        (has_name(pages, n) && lookup(pages, n)->0.lmod >= e) || (exists|k: int|
            0 <= k < db.len() && #[trigger] db[k].1 == n),
    ensures
        fill(site, scope, host, pages, db, disk) matches Some(out) ==> (out.0 is Ok ==> has_name(out.1, n)
            && lookup(out.1, n)->0.lmod >= e),
    decreases db.len(),
{
    if db.len() > 0 {
        if let Some(Ok(p)) = page_spec(site, scope, host, db[0].1, db[0].0, db[0].2, disk) {
            law_put_keeps_order(pages, p);
            law_put_then_lookup(pages, p, n);
            let rest = db.skip(1);
            assert forall|k: int| 0 <= k < rest.len() && (#[trigger] rest[k]).1 == n implies built_after(
                site,
                scope,
                host,
                rest[k],
                disk,
                e,
            ) by {
                assert(rest[k] == db[k + 1]);
            }
            if db[0].1 == n {
                assert(built_after(site, scope, host, db[0], disk, e));
            } else if !(has_name(pages, n) && lookup(pages, n)->0.lmod >= e) {
                let k = choose|k: int| 0 <= k < db.len() && #[trigger] db[k].1 == n;
                assert(rest[k - 1] == db[k]);
            }
            lemma_fill_fresh(site, scope, host, put(pages, p), rest, disk, n, e);
        }
    } else {
        if exists|k: int| 0 <= k < db.len() && #[trigger] db[k].1 == n {
            let k = choose|k: int| 0 <= k < db.len() && #[trigger] db[k].1 == n;
        }
    }
}

/// Building the listed pages keeps every page's source a file, when every
/// listed page's source is one.
proof fn lemma_fill_files(
    site: Seq<char>,
    scope: Seq<char>,
    host: Seq<char>,
    pages: Seq<PageView>,
    db: Seq<(Seq<char>, Seq<char>, Seq<char>)>,
    disk: &Disk,
    dir: Seq<char>,
)
    requires
        sorted_by_name(pages),
        forall|m: Seq<char>| #[trigger] has_name(pages, m) ==> is_file_at(disk, path_of(dir, m)),
        forall|k: int| 0 <= k < db.len() ==> is_file_at(disk, path_of(dir, (#[trigger] db[k]).1)),
    ensures
        fill(site, scope, host, pages, db, disk) matches Some(out) ==> forall|m: Seq<char>|
            #[trigger] has_name(out.1, m) ==> is_file_at(disk, path_of(dir, m)),
    decreases db.len(),
{
    if db.len() > 0 {
        if let Some(Ok(p)) = page_spec(site, scope, host, db[0].1, db[0].0, db[0].2, disk) {
            law_put_keeps_order(pages, p);
            let t = put(pages, p);
            assert forall|m: Seq<char>| #[trigger] has_name(t, m) implies is_file_at(disk, path_of(dir, m)) by {
                law_put_then_lookup(pages, p, m);
                assert(db[0].1 == p.name);
            }
            let rest = db.skip(1);
            assert forall|k: int| 0 <= k < rest.len() implies is_file_at(disk, path_of(dir, (#[trigger] rest[k]).1)) by {
                assert(rest[k] == db[k + 1]);
            }
            lemma_fill_files(site, scope, host, t, rest, disk, dir);
        }
    }
}

/// The page an entry names is among the pages, and its entry is no newer
/// than it.
pub open spec fn fresh_entry(pages: Seq<PageView>, dir: Seq<char>, disk: &Disk, e: Entry) -> bool {
    match e {
        Entry::Path(p) => match db_name(dir, p@) {
            Some(n) => has_name(pages, n) && match entry_stamp_at(disk, p@) {
                Stamp::Secs(a) => a <= lookup(pages, n)->0.lmod,
                _ => false,
            },
            None => true,
        },
        _ => false,
    }
}

/// When every entry is fresh, nothing is listed to be read again.
proof fn lemma_scan_nothing(pages: Seq<PageView>, dir: Seq<char>, disk: &Disk, es: Seq<Entry>)
    requires
        forall|i: int| 0 <= i < es.len() ==> fresh_entry(pages, dir, disk, #[trigger] es[i]),
    ensures
        db_scan(pages, dir, disk, es) == Some(Ok::<Seq<(Seq<char>, Seq<char>, Seq<char>)>, Seq<char>>(Seq::empty())),
    decreases es.len(),
{
    if es.len() > 0 {
        let rest = es.skip(1);
        assert forall|i: int| 0 <= i < rest.len() implies fresh_entry(pages, dir, disk, #[trigger] rest[i]) by {
            assert(rest[i] == es[i + 1]);
        }
        assert(fresh_entry(pages, dir, disk, es[0]));
        lemma_scan_nothing(pages, dir, disk, rest);
    }
}

/// After a refresh that went through, one entry is fresh against the pages
/// it left.
proof fn lemma_entry_fresh(
    site: Seq<char>,
    scope: Seq<char>,
    host: Seq<char>,
    start: Seq<PageView>,
    dir: Seq<char>,
    disk: &Disk,
    es: Seq<Entry>,
    db: Seq<(Seq<char>, Seq<char>, Seq<char>)>,
    i: int,
)
    requires
        sorted_by_name(start),
        0 <= i < es.len(),
        settled_entry(dir, disk, es[i]),
        scan_facts(start, dir, disk, es, db),
        fill(site, scope, host, start, db, disk) matches Some(out) && out.0 is Ok,
    ensures
        fill(site, scope, host, start, db, disk) matches Some(out) && fresh_entry(out.1, dir, disk, es[i]),
{
    assert(covered(start, dir, disk, db, es[i]));
    if let Entry::Path(p) = es[i] {
        if let Some(n) = db_name(dir, p@) {
            lemma_db_name_path(dir, p@);
            if let (Stamp::Secs(a), Stamp::Secs(b)) = (entry_stamp_at(disk, p@), stamp_at(disk, p@)) {
                assert forall|k: int| 0 <= k < db.len() && (#[trigger] db[k]).1 == n implies built_after(
                    site,
                    scope,
                    host,
                    db[k],
                    disk,
                    a as int,
                ) by {
                    assert(db_name(dir, db[k].2) == Some(db[k].1));
                    lemma_db_name_path(dir, db[k].2);
                    assert(db[k].2 == p@);
                }
                lemma_fill_fresh(site, scope, host, start, db, disk, n, a as int);
            }
        }
    }
}

/// A second refresh with nothing changed reads nothing again: once every page
/// has been brought up to date without failure, doing it again, for any
/// host, goes through and leaves the pages as they are, as long as every
/// listed page source is a file whose directory entry is no newer than the
/// file (for a link: no newer than its target).
pub proof fn law_second_refresh_reads_nothing(st: &State, host: Seq<char>, host2: Seq<char>, disk: &Disk)
    requires
        st.wf(),
        settled(st.dir@, disk),
        st.up_pages_spec(host, disk) matches Some(out) && out.0 is Ok,
    ensures
        st.up_pages_spec(host, disk) matches Some(out) && refresh_all(
            st.site@,
            st.dir@,
            st.scope@,
            host2,
            out.1,
            disk,
        ) == Some((Ok::<(), Seq<char>>(()), out.1)),
{
    let dir = st.dir@;
    let pages = st.pages@;
    let start = kept(pages, dir, disk);
    let es = disk.listing->0@;
    let db = match db_scan(start, dir, disk, es) {
        Some(Ok(db)) => db,
        _ => Seq::empty(),
    };
    let out = fill(st.site@, st.scope@, host, start, db, disk)->0;
    lemma_scan_facts(start, dir, disk, es);
    assert(sorted_by_name(start));
    assert forall|m: Seq<char>| #[trigger] has_name(start, m) implies is_file_at(disk, path_of(dir, m)) by {
        let j = choose|j: int| 0 <= j < start.len() && #[trigger] start[j].name == m;
    }
    assert forall|k: int| 0 <= k < db.len() implies is_file_at(disk, path_of(dir, (#[trigger] db[k]).1)) by {
        lemma_db_name_path(dir, db[k].2);
    }
    lemma_fill_files(st.site@, st.scope@, host, start, db, disk, dir);
    assert(!stale(out.1, dir, disk)) by {
        if stale(out.1, dir, disk) {
            let j = choose|j: int| 0 <= j < out.1.len() && !is_file_at(disk, path_of(dir, #[trigger] out.1[j].name));
            assert(has_name(out.1, out.1[j].name));
        }
    }
    assert forall|i: int| 0 <= i < es.len() implies fresh_entry(out.1, dir, disk, #[trigger] es[i]) by {
        lemma_entry_fresh(st.site@, st.scope@, host, start, dir, disk, es, db, i);
    }
    lemma_scan_nothing(out.1, dir, disk, es);
}

/// The path of a listing entry, if it has one.
pub open spec fn entry_path(e: Entry) -> Option<Seq<char>> {
    match e {
        Entry::Path(p) => Some(p@),
        _ => None,
    }
}

/// No path is listed twice (a directory lists each of its names once).
pub open spec fn distinct_paths(es: Seq<Entry>) -> bool {
    forall|i: int, j: int|
        0 <= i < j < es.len() && (#[trigger] entry_path(es[i])) is Some ==> entry_path(es[i])
            != #[trigger] entry_path(es[j])
}

/// The pages listed to be read again come each with the path of its source
/// out of the listing, and where the listing names no path twice, no name is
/// listed twice.
pub proof fn law_listed_names_distinct(pages: Seq<PageView>, dir: Seq<char>, disk: &Disk, es: Seq<Entry>)
    requires
        distinct_paths(es),
    ensures
        db_scan(pages, dir, disk, es) matches Some(Ok(db)) ==> {
            &&& forall|k: int| 0 <= k < db.len() ==> (#[trigger] db[k]).2 == path_of(dir, db[k].1)
            &&& forall|k: int|
                0 <= k < db.len() ==> exists|i: int| 0 <= i < es.len() && #[trigger] entry_path(es[i]) == Some(
                    (#[trigger] db[k]).2,
                )
            &&& forall|k: int, l: int| 0 <= k < l < db.len() ==> (#[trigger] db[k]).1 != (#[trigger] db[l]).1
        },
    decreases es.len(),
{
    if es.len() > 0 {
        let rest = es.skip(1);
        assert forall|i: int, j: int|
            0 <= i < j < rest.len() && (#[trigger] entry_path(rest[i])) is Some implies entry_path(rest[i])
                != #[trigger] entry_path(rest[j]) by {
            assert(rest[i] == es[i + 1] && rest[j] == es[j + 1]);
        }
        law_listed_names_distinct(pages, dir, disk, rest);
        if let Some(Ok(r)) = db_scan(pages, dir, disk, rest) {
            assert forall|k: int| 0 <= k < r.len() implies exists|i: int|
                0 <= i < es.len() && #[trigger] entry_path(es[i]) == Some((#[trigger] r[k]).2) by {
                let i = choose|i: int| 0 <= i < rest.len() && #[trigger] entry_path(rest[i]) == Some(r[k].2);
                assert(rest[i] == es[i + 1]);
            }
            if let EntryStep::Keep(x) = entry_step(pages, dir, disk, es[0]) {
                let db = seq![x] + r;
                if let Entry::Path(p) = es[0] {
                    lemma_db_name_path(dir, p@);
                }
                assert(entry_path(es[0]) == Some(x.2));
                assert forall|k: int| 0 <= k < db.len() implies (#[trigger] db[k]).2 == path_of(dir, db[k].1) by {
                    if k > 0 {
                        assert(db[k] == r[k - 1]);
                    }
                }
                assert forall|k: int| 0 <= k < db.len() implies exists|i: int|
                    0 <= i < es.len() && #[trigger] entry_path(es[i]) == Some((#[trigger] db[k]).2) by {
                    if k > 0 {
                        assert(db[k] == r[k - 1]);
                        let i = choose|i: int| 0 <= i < es.len() && #[trigger] entry_path(es[i]) == Some(r[k - 1].2);
                    } else {
                        assert(entry_path(es[0]) == Some(db[0].2));
                    }
                }
                assert forall|k: int, l: int| 0 <= k < l < db.len() implies (#[trigger] db[k]).1
                    != (#[trigger] db[l]).1 by {
                    assert(db[l] == r[l - 1]);
                    if k > 0 {
                        assert(db[k] == r[k - 1]);
                    } else if db[0].1 == db[l].1 {
                        let i = choose|i: int| 0 <= i < rest.len() && #[trigger] entry_path(rest[i]) == Some(
                            r[l - 1].2,
                        );
                        assert(rest[i] == es[i + 1]);
                        assert(entry_path(es[0]) != entry_path(es[i + 1]));
                    }
                }
            }
        }
    }
}

/// The page built from a listed source is the one its name finds.
pub open spec fn built_as(
    site: Seq<char>,
    scope: Seq<char>,
    host: Seq<char>,
    x: (Seq<char>, Seq<char>, Seq<char>),
    disk: &Disk,
    pages: Seq<PageView>,
) -> bool {
    match page_spec(site, scope, host, x.1, x.0, x.2, disk) {
        Some(Ok(p)) => lookup(pages, x.1) == Some(p),
        _ => false,
    }
}

/// Building listed pages whose names are distinct, when it goes through,
/// leaves each name with the page built from its source.
proof fn lemma_fill_puts(
    site: Seq<char>,
    scope: Seq<char>,
    host: Seq<char>,
    pages: Seq<PageView>,
    db: Seq<(Seq<char>, Seq<char>, Seq<char>)>,
    disk: &Disk,
)
    requires
        sorted_by_name(pages),
        forall|k: int, l: int| 0 <= k < l < db.len() ==> (#[trigger] db[k]).1 != (#[trigger] db[l]).1,
    ensures
        fill(site, scope, host, pages, db, disk) matches Some(out) ==> (out.0 is Ok ==> forall|k: int|
            0 <= k < db.len() ==> built_as(site, scope, host, #[trigger] db[k], disk, out.1)),
    decreases db.len(),
{
    if db.len() > 0 {
        if let Some(Ok(p)) = page_spec(site, scope, host, db[0].1, db[0].0, db[0].2, disk) {
            let t = put(pages, p);
            law_put_keeps_order(pages, p);
            law_put_then_lookup(pages, p, p.name);
            let rest = db.skip(1);
            assert forall|k: int, l: int| 0 <= k < l < rest.len() implies (#[trigger] rest[k]).1
                != (#[trigger] rest[l]).1 by {
                assert(rest[k] == db[k + 1] && rest[l] == db[l + 1]);
            }
            assert forall|k: int| 0 <= k < rest.len() implies (#[trigger] rest[k]).1 != db[0].1 by {
                assert(rest[k] == db[k + 1]);
            }
            lemma_fill_puts(site, scope, host, t, rest, disk);
            lemma_fill_leaves(site, scope, host, t, rest, disk, db[0].1);
            if let Some(out) = fill(site, scope, host, pages, db, disk) {
                if out.0 is Ok {
                    assert forall|k: int| 0 <= k < db.len() implies built_as(
                        site,
                        scope,
                        host,
                        #[trigger] db[k],
                        disk,
                        out.1,
                    ) by {
                        if k > 0 {
                            assert(db[k] == rest[k - 1]);
                        }
                    }
                }
            }
        }
    }
}

/// What bringing every page up to date does, where the listing names no
/// path twice: each page listed to be read again is built anew from its
/// source, and every other page is as the kept pages had it.
pub proof fn law_refresh_all_effect(st: &State, host: Seq<char>, disk: &Disk)
    requires
        st.wf(),
        disk.listing matches Some(es) && distinct_paths(es@),
        st.up_pages_spec(host, disk) matches Some(out) && out.0 is Ok,
    ensures
        db_spec(st.pages@, st.dir@, disk) matches Some(Ok(db)) && st.up_pages_spec(host, disk) matches Some(
            out,
        ) && (forall|k: int| 0 <= k < db.len() ==> built_as(st.site@, st.scope@, host, #[trigger] db[k], disk, out.1))
            && (forall|n: Seq<char>|
            (forall|k: int| 0 <= k < db.len() ==> (#[trigger] db[k]).1 != n) ==> #[trigger] lookup(out.1, n)
                == lookup(kept(st.pages@, st.dir@, disk), n)),
{
    let dir = st.dir@;
    let start = kept(st.pages@, dir, disk);
    let es = disk.listing->0@;
    law_listed_names_distinct(start, dir, disk, es);
    let db = match db_scan(start, dir, disk, es) {
        Some(Ok(db)) => db,
        _ => Seq::empty(),
    };
    assert(sorted_by_name(start));
    lemma_fill_puts(st.site@, st.scope@, host, start, db, disk);
    let out = st.up_pages_spec(host, disk)->0;
    assert forall|n: Seq<char>| (forall|k: int| 0 <= k < db.len() ==> (#[trigger] db[k]).1 != n) implies #[trigger] lookup(
        out.1,
        n,
    ) == lookup(start, n) by {
        lemma_fill_leaves(st.site@, st.scope@, host, start, db, disk, n);
    }
}

impl State {
    /// Whether some page's source is no longer a file.
    fn any_gone(&self, disk: &Disk) -> (r: bool)
        ensures
            r == stale(self.pages@, self.dir@, disk),
    {
        let n = self.pages.len();
        let mut i: usize = 0;
        while i < n
            invariant
                n == self.pages@.len(),
                i <= n,
                forall|j: int|
                    0 <= j < i ==> is_file_at(disk, path_of(self.dir@, #[trigger] self.pages@[j].name)),
            decreases n - i,
        {
            if !page_exists(self.dir.as_str(), self.pages.at(i).name.as_str(), disk) {
                assert(!is_file_at(disk, path_of(self.dir@, self.pages@[i as int].name)));
                return true;
            }
            i = i + 1;
        }
        false
    }

    /// Drops every page when the source of one is gone, then lists the
    /// sources to read again: those whose page is missing or older than the
    /// source, each with its link, name and path.
    pub fn up_db(&mut self, disk: &Disk) -> (r: Result<Vec<(String, String, String)>, Error>)
        requires
            old(self).wf(),
            db_spec(old(self).pages@, old(self).dir@, disk) is Some,
        ensures
            final(self).wf(),
            final(self).site == old(self).site,
            final(self).dir == old(self).dir,
            final(self).scope == old(self).scope,
            final(self).pages@ == kept(old(self).pages@, old(self).dir@, disk),
            db_spec(old(self).pages@, old(self).dir@, disk) == Some(
                match r {
                    Ok(db) => Ok::<Seq<(Seq<char>, Seq<char>, Seq<char>)>, Seq<char>>(db_view(db@)),
                    Err(e) => Err(e@),
                },
            ),
    {
        if self.any_gone(disk) {
            self.pages.clear();
        }
        match &disk.listing {
            None => Err(err("up_db", "read_dir")),
            Some(es) => match db_entries(&self.pages, self.dir.as_str(), disk, es) {
                Some(r) => r,
                None => {
                    proof {
                        assert(false);
                    }
                    Err(err("up_db", "read_dir"))
                },
            },
        }
    }

    /// Reads again every source that is new or newer than its page, and
    /// puts the pages built from them in.
    pub fn up_pages(&mut self, host: &str, disk: &Disk) -> (r: Result<(), Error>)
        requires
            old(self).wf(),
            old(self).up_pages_spec(host@, disk) is Some,
        ensures
            final(self).wf(),
            final(self).site == old(self).site,
            final(self).dir == old(self).dir,
            final(self).scope == old(self).scope,
            old(self).up_pages_spec(host@, disk) == Some((unit_result(r), final(self).pages@)),
    {
        let ghost start = kept(self.pages@, self.dir@, disk);
        let ghost site = self.site@;
        let ghost scope = self.scope@;
        let db = match self.up_db(disk) {
            Ok(db) => db,
            Err(e) => {
                return Err(e);
            },
        };
        let ghost dv = db_view(db@);
        assert(dv.skip(0) =~= dv);
        let mut i: usize = 0;
        while i < db.len()
            invariant
                self.wf(),
                self.site == old(self).site,
                self.dir == old(self).dir,
                self.scope == old(self).scope,
                site == self.site@,
                scope == self.scope@,
                start == kept(old(self).pages@, old(self).dir@, disk),
                db_spec(old(self).pages@, old(self).dir@, disk) == Some(
                    Ok::<Seq<(Seq<char>, Seq<char>, Seq<char>)>, Seq<char>>(dv),
                ),
                dv == db_view(db@),
                i <= db.len(),
                fill(site, scope, host@, start, dv, disk) == fill(
                    site,
                    scope,
                    host@,
                    self.pages@,
                    dv.skip(i as int),
                    disk,
                ),
                fill(site, scope, host@, start, dv, disk) is Some,
            decreases db.len() - i,
        {
            let ghost rest = dv.skip(i as int);
            assert(rest[0] == dv[i as int]);
            assert(rest.skip(1) =~= dv.skip(i + 1));
            let page = match self.page(host, db[i].1.as_str(), db[i].0.as_str(), db[i].2.as_str(), disk) {
                Ok(p) => p,
                Err(e) => {
                    return Err(e);
                },
            };
            self.pages.insert(page);
            i = i + 1;
        }
        assert(dv.skip(db.len() as int) =~= Seq::<(Seq<char>, Seq<char>, Seq<char>)>::empty());
        Ok(())
    }

    /// Reads the source of the page `name` again when it is newer than the
    /// page, and puts the page built from it in.
    pub fn up_page(&mut self, host: &str, link: &str, name: &str, disk: &Disk) -> (r: Result<(), Error>)
        requires
            old(self).wf(),
            old(self).up_page_spec(host@, link@, name@, disk) is Some,
        ensures
            final(self).wf(),
            final(self).site == old(self).site,
            final(self).dir == old(self).dir,
            final(self).scope == old(self).scope,
            old(self).up_page_spec(host@, link@, name@, disk) == Some(
                (unit_result(r), final(self).pages@),
            ),
    {
        let newer = match self.pages.get(name) {
            None => {
                return Err(err("up_page", "get page"));
            },
            Some(page) => {
                proof {
                    let i = choose|i: int| 0 <= i < self.pages@.len() && #[trigger] self.pages@[i].name == name@;
                    assert(self.pages@[i].name == name@);
                }
                self.page_is_old(page, disk)
            },
        };
        match newer {
            Err(e) => {
                return Err(e);
            },
            Ok(false) => {
                return Ok(());
            },
            Ok(true) => {},
        }
        let path = page_path(self.dir.as_str(), name);
        let p = match self.page(host, name, link, path.as_str(), disk) {
            Ok(p) => p,
            Err(e) => {
                return Err(e);
            },
        };
        self.pages.insert(p);
        Ok(())
    }

    /// Brings the pages up to date: all of them when no name is given, the
    /// named one otherwise.
    pub fn up_state(&mut self, host: &str, link: &str, name: &str, disk: &Disk) -> (r: Result<(), Error>)
        requires
            old(self).wf(),
            old(self).up_state_spec(host@, link@, name@, disk) is Some,
        ensures
            final(self).wf(),
            final(self).site == old(self).site,
            final(self).dir == old(self).dir,
            final(self).scope == old(self).scope,
            old(self).up_state_spec(host@, link@, name@, disk) == Some(
                (unit_result(r), final(self).pages@),
            ),
    {
        if name.is_empty() {
            self.up_pages(host, disk)
        } else {
            self.up_page(host, link, name, disk)
        }
    }

    /// Whether building the listed pages in order stops the site before one
    /// of them fails.
    fn fill_check(&self, host: &str, db: &Vec<(String, String, String)>, disk: &Disk) -> (r: bool)
        ensures
            r == !fill_halts(self.site@, self.scope@, host@, db_view(db@), disk),
    {
        let ghost dv = db_view(db@);
        assert(dv.skip(0) =~= dv);
        let mut i: usize = 0;
        while i < db.len()
            invariant
                dv == db_view(db@),
                i <= db.len(),
                fill_halts(self.site@, self.scope@, host@, dv, disk) == fill_halts(
                    self.site@,
                    self.scope@,
                    host@,
                    dv.skip(i as int),
                    disk,
                ),
            decreases db.len() - i,
        {
            let ghost rest = dv.skip(i as int);
            assert(rest[0] == dv[i as int]);
            assert(rest.skip(1) =~= dv.skip(i + 1));
            match self.page_check(db[i].1.as_str(), db[i].0.as_str(), db[i].2.as_str(), disk, host) {
                None => {
                    return false;
                },
                Some(false) => {
                    return true;
                },
                Some(true) => {},
            }
            i = i + 1;
        }
        assert(dv.skip(db.len() as int) =~= Seq::<(Seq<char>, Seq<char>, Seq<char>)>::empty());
        true
    }

    /// Whether bringing the pages up to date goes through without stopping
    /// the site.
    pub fn up_state_fits(&self, host: &str, link: &str, name: &str, disk: &Disk) -> (r: bool)
        requires
            self.wf(),
        ensures
            r == self.up_state_spec(host@, link@, name@, disk) is Some,
    {
        if name.is_empty() {
            let es = match &disk.listing {
                None => {
                    return true;
                },
                Some(es) => es,
            };
            let empty = Pages::new();
            let gone = self.any_gone(disk);
            let base = if gone {
                &empty
            } else {
                &self.pages
            };
            match db_entries(base, self.dir.as_str(), disk, es) {
                None => false,
                Some(Err(_)) => true,
                Some(Ok(db)) => {
                    proof {
                        lemma_fill_halts(
                            self.site@,
                            self.scope@,
                            host@,
                            kept(self.pages@, self.dir@, disk),
                            db_view(db@),
                            disk,
                        );
                    }
                    self.fill_check(host, &db, disk)
                },
            }
        } else {
            match self.pages.get(name) {
                None => true,
                Some(page) => {
                    proof {
                        let i = choose|i: int| 0 <= i < self.pages@.len() && #[trigger] self.pages@[i].name == name@;
                        assert(self.pages@[i].name == name@);
                    }
                    if !page_exists(self.dir.as_str(), name, disk) {
                        return true;
                    }
                    let path = page_path(self.dir.as_str(), name);
                    match disk.stamp(path.as_str()) {
                        Stamp::NoMetadata => true,
                        Stamp::NoTime => false,
                        Stamp::Secs(l) => {
                            if l > page.lmod {
                                self.page_check(name, link, path.as_str(), disk, host).is_some()
                            } else {
                                true
                            }
                        },
                    }
                },
            }
        }
    }

    /// Brings the pages up to date as `up_state` does, or leaves them as they
    /// are and gives `None` where that would stop the site.
    pub fn refresh(&mut self, host: &str, link: &str, name: &str, disk: &Disk) -> (r: Option<
        Result<(), Error>,
    >)
        requires
            old(self).wf(),
        ensures
            final(self).wf(),
            final(self).site == old(self).site,
            final(self).dir == old(self).dir,
            final(self).scope == old(self).scope,
            r is Some <==> old(self).up_state_spec(host@, link@, name@, disk) is Some,
            r matches Some(x) ==> old(self).up_state_spec(host@, link@, name@, disk) == Some(
                (unit_result(x), final(self).pages@),
            ),
            r is None ==> final(self).pages@ == old(self).pages@,
    {
        if self.up_state_fits(host, link, name, disk) {
            Some(self.up_state(host, link, name, disk))
        } else {
            None
        }
    }
}

} // verus!

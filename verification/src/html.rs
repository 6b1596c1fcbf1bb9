//! The HTML of the site: the document frame, navigation, footer, and the
//! bodies of pages, page lists and short notices.
use crate::outside::{clean, day_text, in_calendar, sanitized, timestamp};
use crate::page::{Page, PageView};
use crate::text::{
    byte_prefix, char_width, concat_map, has_part, in_order, lemma_concat_map_order,
    lemma_concat_map_part, lemma_has_part_mid, lemma_has_part_trans, lemma_in_order_lift, lemma_utf8_len_concat, cut_at_byte, int_text, int_to_text, lemma_concat_map_step, longer_than,
    nat_to_text, owned, str_eq, utf8_len,
};
use vstd::prelude::*;

verus! {

pub const DOC_HEAD: &'static str = r#"<!doctype html>
<html lang="en">
<head>
"#;

pub const DOC_META: &'static str = r#"  <meta charset="utf-8">
  <meta name="viewport" content="width=device-width, initial-scale=1">
"#;

pub const DOC_TITLE: &'static str = "  <title>~b";

pub const DOC_LINKS: &'static str = r#"</title>
  <link icon="/pub/favicon.ico">
  <link rel="stylesheet" href="/pub/css/style.css">
  <link rel="preconnect" href="https://fonts.gstatic.com">
  <link rel="stylesheet" href="https://fonts.googleapis.com/css2?family=Roboto+Mono:ital,wght@0,400;0,700;1,400;1,700&display=swap">
"#;

pub const DOC_BODY: &'static str = r#"</head>
<body>
"#;

pub const DOC_END: &'static str = r#"</body>
"#;

pub const SLASH: &'static str = "/";

pub const COLON: &'static str = ":";

pub const BANG: &'static str = "!";

pub const ELLIPSIS: &'static str = "\u{2026}";

pub const ANALYTICS: &'static str = r#"  <script async src="https://www.googletagmanager.com/gtag/js?id=G-PT10SS3WP3"></script><script>window.dataLayer = window.dataLayer || [];function gtag(){dataLayer.push(arguments);}gtag('js', new Date());gtag('config', 'G-PT10SS3WP3');</script>
"#;

pub const SCRIPT_OPEN: &'static str = r#"  <script src="/pub/js/"#;

pub const SCRIPT_CLOSE: &'static str = r#""></script>
"#;

pub const NAV_OPEN: &'static str = r#"  <div class="nav">
    <div class="root">
      <a "#;

pub const HERE: &'static str = r#"class="here" "#;

pub const NAV_ROOT: &'static str = r#"href="/"><img class="cup" src="/pub/img/agaric-24.png">b</a>
    </div>
    <div class="links">
"#;

pub const NAV_ITEM_OPEN: &'static str = "      <a ";

pub const HREF_SLASH: &'static str = r#"href="/"#;

pub const ATTR_END: &'static str = r#"">"#;

pub const LINK_CLOSE: &'static str = "</a>\n";

pub const NAV_CLOSE: &'static str = r#"    </div>
  </div>
"#;

pub const FOOT_OPEN: &'static str = r#"  <div class="foot">
"#;

pub const FOOT_ERROR_OPEN: &'static str = r#"    <span class="error">"#;

pub const SPAN_CLOSE: &'static str = "</span>\n";

pub const FOOT_LACE: &'static str = r#"    <span class="stride"></span>
    <div class="lace"><a class="froot" href="/">root</a></span><a href=""#;

pub const TAG_QUERY: &'static str = "?tag=";

pub const FOOT_LINK_TEXT: &'static str = r#"">/"#;

pub const FOOT_SLIP: &'static str = r#"<span class="slip">?tag=</span>"#;

pub const FOOT_CLOSE: &'static str = r#"</a></div>
  </div>
"#;

pub const PAGELET_OPEN: &'static str = r#"  <div class="page"#;

pub const SPACE: &'static str = " ";

pub const PAGELET_HEAD: &'static str = r#"">
    <div class="page-head">
      <h1 class="title">"#;

pub const PAGELET_BODY: &'static str = r#"</h1>
    </div>
    <div class="page-body">
      <p>"#;

pub const MORE_SEP: &'static str = ": ";

pub const BREAK: &'static str = "<br/>";

pub const BOLD_OPEN: &'static str = "<b>";

pub const BOLD_CLOSE: &'static str = "</b>";

pub const PAGELET_CLOSE: &'static str = r#"</p>
    </div>
  </div>
"#;

pub const PAGE_OPEN: &'static str = r#"  <div class="page _"#;

pub const TITLE_CLOSE: &'static str = "</h1>\n";

pub const TAGS_OPEN: &'static str = r#"      <ul class="tags">
"#;

pub const PAGE_TAG_OPEN: &'static str = r#"        <li><a class="tag" href=""#;

pub const PAGE_TAG_QUERY: &'static str = "s?tag=";

pub const ITEM_CLOSE: &'static str = "</a></li>\n";

pub const TAGS_CLOSE: &'static str = "      </ul>\n";

pub const PAGE_TIME: &'static str = r#"      <div class="time">"#;

pub const PAGE_LMOD: &'static str = r#"</div>
      <div class="lmod">"#;

pub const PAGE_BODY: &'static str = r#"</div>
    </div>
    <div class="page-body">
"#;

pub const PAGE_CLOSE: &'static str = r#"    </div
  </div>
"#;

pub const LIST_OPEN: &'static str = r#"  <div class="page -pages">
    <div class="page-head">
      <h1 class="title">pages</h1>
    </div>
    <div class="page-body">
      <ul class="tags">
"#;

pub const LIST_ALL_OPEN: &'static str = r#"        <li><a class="tag clear"#;

pub const ACTIVE: &'static str = " active";

pub const LIST_ALL_COUNT: &'static str = r#"" href="/pages"><span class="tag-name">all</span><span class="tag-count">"#;

pub const COUNT_CLOSE: &'static str = "</span></a></li>\n";

pub const LIST_TAG_OPEN: &'static str = r#"        <li><a class="tag"#;

pub const LIST_TAG_HREF: &'static str = r#"" href="/pages?tag="#;

pub const LIST_TAG_NAME: &'static str = r#""><span class="tag-name">"#;

pub const LIST_TAG_COUNT: &'static str = r#"</span><span class="tag-count">"#;

pub const LIST_TAG_CLOSE: &'static str = r#"</span></a></li>
"#;

pub const LIST_PAGES: &'static str = r#"      </ul>
      <ul class="pages">
"#;

pub const ROW_OPEN: &'static str = r#"        <li>
          <div class="page-time">
            <div class="time">"#;

pub const ROW_LMOD: &'static str = r#"</div><div class="lmod">"#;

pub const ROW_NAME: &'static str = r#"</div>
          </div>
          <a class="name" href="/"#;

pub const ROW_TAGS_OPEN: &'static str = r#"          <ul class="page-tags">
"#;

pub const ROW_TAG_OPEN: &'static str = r#"            <li><a class="tag"#;

pub const ROW_TAGS_CLOSE: &'static str = "          </ul>\n";

pub const ROW_CLOSE: &'static str = "        </li>\n";

pub const LIST_CLOSE: &'static str = r#"      </ul>
    </div>
  </div>
"#;

/// Whether `s` is the empty text.
pub open spec fn blank(s: Seq<char>) -> bool {
    s.len() == 0
}

/// `t` where `c` holds, nothing otherwise.
pub open spec fn when(c: bool, t: Seq<char>) -> Seq<char> {
    if c {
        t
    } else {
        Seq::empty()
    }
}

// ---------------------------------------------------------------------------
// analytics

/// The analytics snippet goes only into pages served under the site's own
/// name.
pub open spec fn analytics_text(site: Seq<char>, host: Seq<char>) -> Seq<char> {
    when(host == site, ANALYTICS@)
}

/// The analytics snippet for a page served to `host`.
pub fn html_analytics(site: &str, host: &str) -> (r: String)
    ensures
        r@ == analytics_text(site@, host@),
{
    if str_eq(host, site) {
        owned(ANALYTICS)
    } else {
        String::new()
    }
}

// ---------------------------------------------------------------------------
// scripts

/// The element that loads one page script.
pub open spec fn script_text(script: Seq<char>) -> Seq<char> {
    SCRIPT_OPEN@ + script + SCRIPT_CLOSE@
}

/// One script element per script, in order.
pub open spec fn scripts_text(scripts: Seq<Seq<char>>) -> Seq<char> {
    concat_map(scripts, |s: Seq<char>| script_text(s))
}

/// The script elements of a page.
pub fn html_scripts(scripts: &Vec<String>) -> (r: String)
    ensures
        r@ == scripts_text(scripts.deep_view()),
{
    let ghost ss = scripts.deep_view();
    let mut html = String::new();
    let mut i: usize = 0;
    while i < scripts.len()
        invariant
            ss == scripts.deep_view(),
            i <= scripts.len(),
            html@ == scripts_text(ss.take(i as int)),
        decreases scripts.len() - i,
    {
        proof {
            lemma_concat_map_step(ss, |s: Seq<char>| script_text(s), i as int);
        }
        html.append(SCRIPT_OPEN);
        html.append(scripts[i].as_str());
        html.append(SCRIPT_CLOSE);
        i = i + 1;
    }
    assert(ss.take(scripts.len() as int) =~= ss);
    html
}

// ---------------------------------------------------------------------------
// navigation

/// One link of the navigation bar, marked when it is the current link.
pub open spec fn nav_item_text(link: Seq<char>, name: Seq<char>) -> Seq<char> {
    NAV_ITEM_OPEN@ + when(!blank(link) && name == link, HERE@) + HREF_SLASH@ + name + ATTR_END@ + name
        + LINK_CLOSE@
}

/// The navigation bar: the root, marked when the link is the root, and the
/// about, dev and pages links, each marked when it is the link.
pub open spec fn nav_text(link: Seq<char>) -> Seq<char> {
    NAV_OPEN@ + when(link == "/"@, HERE@) + NAV_ROOT@ + nav_item_text(link, "about"@)
        + nav_item_text(link, "dev"@) + nav_item_text(link, "pages"@) + NAV_CLOSE@
}

fn nav_item(html: &mut String, link: &str, name: &str)
    ensures
        final(html)@ == old(html)@ + nav_item_text(link@, name@),
{
    html.append(NAV_ITEM_OPEN);
    if !link.is_empty() && str_eq(name, link) {
        html.append(HERE);
    }
    html.append(HREF_SLASH);
    html.append(name);
    html.append(ATTR_END);
    html.append(name);
    html.append(LINK_CLOSE);
    assert(final(html)@ =~= old(html)@ + nav_item_text(link@, name@));
}

/// The navigation bar for the current link.
pub fn html_nav(link: &str) -> (r: String)
    ensures
        r@ == nav_text(link@),
{
    let mut html = owned(NAV_OPEN);
    if str_eq(link, "/") {
        html.append(HERE);
    }
    html.append(NAV_ROOT);
    nav_item(&mut html, link, "about");
    nav_item(&mut html, link, "dev");
    nav_item(&mut html, link, "pages");
    html.append(NAV_CLOSE);
    assert(html@ =~= nav_text(link@));
    html
}

// ---------------------------------------------------------------------------
// footer

/// The footer: nothing on the root page; elsewhere the error code when there
/// is one, and a link back to the page with its tag query.
pub open spec fn foot_text(error: Seq<char>, query: Seq<char>, link: Seq<char>) -> Seq<char> {
    if link == "/"@ {
        Seq::empty()
    } else {
        FOOT_OPEN@ + when(!blank(error), FOOT_ERROR_OPEN@ + error + SPAN_CLOSE@) + FOOT_LACE@
            + SLASH@ + link + when(!blank(query), TAG_QUERY@ + query) + FOOT_LINK_TEXT@ + link
            + when(!blank(query), FOOT_SLIP@ + query) + FOOT_CLOSE@
    }
}

/// The footer for an error code, a tag query and the current link.
pub fn html_foot(error: &str, query: &str, link: &str) -> (r: String)
    ensures
        r@ == foot_text(error@, query@, link@),
{
    if str_eq(link, "/") {
        return String::new();
    }
    let mut html = owned(FOOT_OPEN);
    if !error.is_empty() {
        html.append(FOOT_ERROR_OPEN);
        html.append(error);
        html.append(SPAN_CLOSE);
    }
    html.append(FOOT_LACE);
    html.append(SLASH);
    html.append(link);
    if !query.is_empty() {
        html.append(TAG_QUERY);
        html.append(query);
    }
    html.append(FOOT_LINK_TEXT);
    html.append(link);
    if !query.is_empty() {
        html.append(FOOT_SLIP);
        html.append(query);
    }
    html.append(FOOT_CLOSE);
    assert(html@ =~= foot_text(error@, query@, link@));
    html
}

// ---------------------------------------------------------------------------
// notices

/// A short notice: a classed box with a title, a line of text and, when there
/// is more to say, the more in bold after a colon, on a line of its own when
/// it is longer than 48 bytes.
pub open spec fn pagelet_text(class: Seq<char>, title: Seq<char>, text: Seq<char>, more: Seq<char>) -> Seq<
    char,
> {
    PAGELET_OPEN@ + when(!blank(class), SPACE@ + class) + PAGELET_HEAD@ + title + PAGELET_BODY@ + text
        + when(
        !blank(more),
        MORE_SEP@ + when(utf8_len(more) > 48, BREAK@) + BOLD_OPEN@ + more + BOLD_CLOSE@,
    ) + PAGELET_CLOSE@
}

/// A short notice.
pub fn html_pagelet(class: &str, title: &str, text: &str, more: &str) -> (r: String)
    ensures
        r@ == pagelet_text(class@, title@, text@, more@),
{
    let long: usize = 48;
    let mut html = owned(PAGELET_OPEN);
    if !class.is_empty() {
        html.append(SPACE);
        html.append(class);
    }
    html.append(PAGELET_HEAD);
    html.append(title);
    html.append(PAGELET_BODY);
    html.append(text);
    if !more.is_empty() {
        html.append(MORE_SEP);
        if longer_than(more, long) {
            html.append(BREAK);
        }
        html.append(BOLD_OPEN);
        html.append(more);
        html.append(BOLD_CLOSE);
    }
    html.append(PAGELET_CLOSE);
    assert(html@ =~= pagelet_text(class@, title@, text@, more@));
    html
}

// ---------------------------------------------------------------------------
// a page

/// One tag of a page, linking to the list of pages with that tag.
pub open spec fn page_tag_text(scope: Seq<char>, tag: Seq<char>) -> Seq<char> {
    PAGE_TAG_OPEN@ + scope + PAGE_TAG_QUERY@ + tag + ATTR_END@ + tag + ITEM_CLOSE@
}

/// The body of a page: its name as a class, its title, its tags linking to
/// the list of pages so tagged, its two days, and its HTML.
pub open spec fn page_text(
    scope: Seq<char>,
    name: Seq<char>,
    title: Seq<char>,
    time: int,
    lmod: int,
    tags: Seq<Seq<char>>,
    md: Seq<char>,
) -> Seq<char> {
    PAGE_OPEN@ + name + PAGELET_HEAD@ + title + TITLE_CLOSE@ + when(
        tags.len() > 0,
        TAGS_OPEN@ + concat_map(tags, |t: Seq<char>| page_tag_text(scope, t)) + TAGS_CLOSE@,
    ) + PAGE_TIME@ + day_text(time) + PAGE_LMOD@ + day_text(lmod) + PAGE_BODY@ + md + PAGE_CLOSE@
}

/// The body of a page. Both days must be in chrono's calendar.
pub fn html_page(
    scope: &str,
    name: &str,
    title: &str,
    time: i64,
    lmod: i64,
    tags: &Vec<String>,
    md: &str,
) -> (r: String)
    requires
        in_calendar(time as int),
        in_calendar(lmod as int),
    ensures
        r@ == page_text(scope@, name@, title@, time as int, lmod as int, tags.deep_view(), md@),
{
    let ghost ts = tags.deep_view();
    let ghost f = |t: Seq<char>| page_tag_text(scope@, t);
    let mut html = owned(PAGE_OPEN);
    html.append(name);
    html.append(PAGELET_HEAD);
    html.append(title);
    html.append(TITLE_CLOSE);
    let ghost head = html@;
    if 0 < tags.len() {
        html.append(TAGS_OPEN);
        let ghost open = html@;
        let mut i: usize = 0;
        while i < tags.len()
            invariant
                ts == tags.deep_view(),
                f == (|t: Seq<char>| page_tag_text(scope@, t)),
                i <= tags.len(),
                html@ == open + concat_map(ts.take(i as int), f),
            decreases tags.len() - i,
        {
            proof {
                lemma_concat_map_step(ts, f, i as int);
            }
            html.append(PAGE_TAG_OPEN);
            html.append(scope);
            html.append(PAGE_TAG_QUERY);
            html.append(tags[i].as_str());
            html.append(ATTR_END);
            html.append(tags[i].as_str());
            html.append(ITEM_CLOSE);
            assert(html@ =~= open + concat_map(ts.take(i + 1), f));
            i = i + 1;
        }
        assert(ts.take(tags.len() as int) =~= ts);
        html.append(TAGS_CLOSE);
    }
    html.append(PAGE_TIME);
    let t = timestamp(time);
    html.append(t.as_str());
    html.append(PAGE_LMOD);
    let l = timestamp(lmod);
    html.append(l.as_str());
    html.append(PAGE_BODY);
    html.append(md);
    html.append(PAGE_CLOSE);
    assert(html@ =~= page_text(scope@, name@, title@, time as int, lmod as int, ts, md@));
    html
}

// ---------------------------------------------------------------------------
// the list of pages

/// One tag of the list with its count, marked when it is the query.
pub open spec fn list_tag_text(query: Seq<char>, tag: Seq<char>, count: int) -> Seq<char> {
    LIST_TAG_OPEN@ + when(tag == query, ACTIVE@) + LIST_TAG_HREF@ + tag + LIST_TAG_NAME@ + tag
        + LIST_TAG_COUNT@ + int_text(count) + LIST_TAG_CLOSE@
}

/// One tag of a row of the list, marked when it is the query.
pub open spec fn row_tag_text(query: Seq<char>, tag: Seq<char>) -> Seq<char> {
    ROW_TAG_OPEN@ + when(tag == query, ACTIVE@) + LIST_TAG_HREF@ + tag + ATTR_END@ + tag + ITEM_CLOSE@
}

/// One row of the list: the page's two days, its name linking to it, and its
/// tags, the one queried marked active.
pub open spec fn row_text(query: Seq<char>, page: PageView) -> Seq<char> {
    ROW_OPEN@ + day_text(page.time) + ROW_LMOD@ + day_text(page.lmod) + ROW_NAME@ + page.link
        + ATTR_END@ + page.name + LINK_CLOSE@ + when(page.tags.len() > 0, ROW_TAGS_OPEN@) + concat_map(
        page.tags,
        |t: Seq<char>| row_tag_text(query, t),
    ) + when(page.tags.len() > 0, ROW_TAGS_CLOSE@) + ROW_CLOSE@
}

/// The view of a tag count list.
pub open spec fn counts_view(tags: Seq<(String, i16)>) -> Seq<(Seq<char>, int)> {
    tags.map_values(|t: (String, i16)| (t.0@, t.1 as int))
}

/// The view of a list of pages.
pub open spec fn pages_view(pages: Seq<&Page>) -> Seq<PageView> {
    pages.map_values(|p: &Page| p@)
}

/// The list of pages: a notice when there are none; otherwise the tags with
/// their counts (after an "all" entry with the total), and one row per page.
pub open spec fn pages_text(
    query: Seq<char>,
    total: int,
    tags: Seq<(Seq<char>, int)>,
    pages: Seq<PageView>,
) -> Seq<char> {
    if pages.len() == 0 {
        pagelet_text(""@, "pages"@, "no pages to list"@, ""@)
    } else {
        LIST_OPEN@ + LIST_ALL_OPEN@ + when(blank(query), ACTIVE@) + LIST_ALL_COUNT@ + int_text(total)
            + COUNT_CLOSE@ + concat_map(
            tags,
            |t: (Seq<char>, int)| list_tag_text(query, t.0, t.1),
        ) + LIST_PAGES@ + concat_map(pages, |p: PageView| row_text(query, p)) + LIST_CLOSE@
    }
}

fn list_tag(html: &mut String, query: &str, tag: &(String, i16))
    ensures
        final(html)@ == old(html)@ + list_tag_text(query@, tag.0@, tag.1 as int),
{
    html.append(LIST_TAG_OPEN);
    if str_eq(tag.0.as_str(), query) {
        html.append(ACTIVE);
    }
    html.append(LIST_TAG_HREF);
    html.append(tag.0.as_str());
    html.append(LIST_TAG_NAME);
    html.append(tag.0.as_str());
    html.append(LIST_TAG_COUNT);
    let c = int_to_text(tag.1 as i64);
    html.append(c.as_str());
    html.append(LIST_TAG_CLOSE);
    assert(final(html)@ =~= old(html)@ + list_tag_text(query@, tag.0@, tag.1 as int));
}

fn list_row(html: &mut String, query: &str, page: &Page)
    requires
        in_calendar(page.time as int),
        in_calendar(page.lmod as int),
    ensures
        final(html)@ == old(html)@ + row_text(query@, page@),
{
    let ghost ts = page.tags.deep_view();
    let ghost f = |t: Seq<char>| row_tag_text(query@, t);
    html.append(ROW_OPEN);
    let t = timestamp(page.time);
    html.append(t.as_str());
    html.append(ROW_LMOD);
    let l = timestamp(page.lmod);
    html.append(l.as_str());
    html.append(ROW_NAME);
    html.append(page.link.as_str());
    html.append(ATTR_END);
    html.append(page.name.as_str());
    html.append(LINK_CLOSE);
    if 0 < page.tags.len() {
        html.append(ROW_TAGS_OPEN);
    }
    let ghost open = html@;
    let mut i: usize = 0;
    while i < page.tags.len()
        invariant
            ts == page.tags.deep_view(),
            f == (|t: Seq<char>| row_tag_text(query@, t)),
            i <= page.tags.len(),
            html@ == open + concat_map(ts.take(i as int), f),
        decreases page.tags.len() - i,
    {
        proof {
            lemma_concat_map_step(ts, f, i as int);
        }
        html.append(ROW_TAG_OPEN);
        if str_eq(page.tags[i].as_str(), query) {
            html.append(ACTIVE);
        }
        html.append(LIST_TAG_HREF);
        html.append(page.tags[i].as_str());
        html.append(ATTR_END);
        html.append(page.tags[i].as_str());
        html.append(ITEM_CLOSE);
        assert(html@ =~= open + concat_map(ts.take(i + 1), f));
        i = i + 1;
    }
    assert(ts.take(page.tags.len() as int) =~= ts);
    if 0 < page.tags.len() {
        html.append(ROW_TAGS_CLOSE);
    }
    html.append(ROW_CLOSE);
    assert(final(html)@ =~= old(html)@ + row_text(query@, page@));
}

/// The list of pages. The days of every page must be in chrono's calendar.
pub fn html_pages(query: &str, total: usize, tags: &Vec<(String, i16)>, pages: &Vec<&Page>) -> (r:
    String)
    requires
        forall|i: int|
            0 <= i < pages.len() ==> in_calendar(#[trigger] pages@[i].time as int) && in_calendar(
                pages@[i].lmod as int,
            ),
    ensures
        r@ == pages_text(query@, total as int, counts_view(tags@), pages_view(pages@)),
{
    let ghost cs = counts_view(tags@);
    let ghost ps = pages_view(pages@);
    if pages.len() == 0 {
        return html_pagelet("", "pages", "no pages to list", "");
    }
    let mut html = owned(LIST_OPEN);
    html.append(LIST_ALL_OPEN);
    if query.is_empty() {
        html.append(ACTIVE);
    }
    html.append(LIST_ALL_COUNT);
    let n = nat_to_text(total as u64);
    html.append(n.as_str());
    html.append(COUNT_CLOSE);
    let ghost ft = |t: (Seq<char>, int)| list_tag_text(query@, t.0, t.1);
    let ghost open = html@;
    let mut i: usize = 0;
    while i < tags.len()
        invariant
            cs == counts_view(tags@),
            ft == (|t: (Seq<char>, int)| list_tag_text(query@, t.0, t.1)),
            i <= tags.len(),
            html@ == open + concat_map(cs.take(i as int), ft),
        decreases tags.len() - i,
    {
        proof {
            lemma_concat_map_step(cs, ft, i as int);
        }
        list_tag(&mut html, query, &tags[i]);
        assert(html@ =~= open + concat_map(cs.take(i + 1), ft));
        i = i + 1;
    }
    assert(cs.take(tags.len() as int) =~= cs);
    html.append(LIST_PAGES);
    let ghost fp = |p: PageView| row_text(query@, p);
    let ghost middle = html@;
    let mut j: usize = 0;
    while j < pages.len()
        invariant
            ps == pages_view(pages@),
            fp == (|p: PageView| row_text(query@, p)),
            j <= pages.len(),
            html@ == middle + concat_map(ps.take(j as int), fp),
            forall|i: int|
                0 <= i < pages.len() ==> in_calendar(#[trigger] pages@[i].time as int) && in_calendar(
                    pages@[i].lmod as int,
                ),
        decreases pages.len() - j,
    {
        proof {
            lemma_concat_map_step(ps, fp, j as int);
        }
        assert(in_calendar(pages@[j as int].time as int));
        list_row(&mut html, query, pages[j]);
        assert(html@ =~= middle + concat_map(ps.take(j + 1), fp));
        j = j + 1;
    }
    assert(ps.take(pages.len() as int) =~= ps);
    html.append(LIST_CLOSE);
    assert(html@ =~= pages_text(query@, total as int, cs, ps));
    html
}

// ---------------------------------------------------------------------------
// the document

/// The link as the title shows it: cut to its first 31 bytes and an ellipsis
/// when its encoding is longer than 32 bytes.
pub open spec fn title_link(link: Seq<char>) -> Seq<char> {
    if utf8_len(link) > 32 {
        byte_prefix(link, 31)->0 + ELLIPSIS@
    } else {
        link
    }
}

/// The title can be cut where it is too long: byte 31 of the link is not
/// inside a character (`String::truncate` panics there).
pub open spec fn title_fits(link: Seq<char>) -> bool {
    link == "/"@ || utf8_len(link) <= 32 || byte_prefix(link, 31) is Some
}

/// A link shown in the title takes at most 34 bytes: a long one is cut to
/// 31 bytes and the 3-byte ellipsis.
pub proof fn law_title_link_short(link: Seq<char>)
    requires
        title_fits(link),
        link != "/"@,
    ensures
        utf8_len(title_link(link)) <= 34,
{
    reveal_strlit("\u{2026}");
    if utf8_len(link) > 32 {
        let head = byte_prefix(link, 31)->0;
        lemma_utf8_len_concat(head, ELLIPSIS@);
        assert(ELLIPSIS@ == "\u{2026}"@);
        assert(ELLIPSIS@.len() == 1);
        assert(ELLIPSIS@[0] == '\u{2026}');
        assert(ELLIPSIS@.drop_last() =~= Seq::<char>::empty());
        assert(utf8_len(Seq::<char>::empty()) == 0);
        assert(char_width('\u{2026}') == 3);
        assert(utf8_len(ELLIPSIS@) == 3);
    }
}

/// A whole document, over the already sanitized host, link and query.
pub open spec fn document_text(
    error: Seq<char>,
    site: Seq<char>,
    host: Seq<char>,
    link: Seq<char>,
    query: Seq<char>,
    scripts: Seq<Seq<char>>,
    belly: Seq<char>,
) -> Seq<char> {
    DOC_HEAD@ + analytics_text(site, host) + DOC_META@ + DOC_TITLE@ + when(
        link != "/"@,
        SLASH@ + title_link(link),
    ) + when(!blank(query), COLON@ + query) + when(!blank(error), BANG@) + DOC_LINKS@
        + scripts_text(scripts) + DOC_BODY@ + nav_text(link) + belly + foot_text(error, query, link)
        + DOC_END@
}

/// A document holds its body whole.
pub proof fn law_document_holds_body(
    error: Seq<char>,
    site: Seq<char>,
    host: Seq<char>,
    link: Seq<char>,
    query: Seq<char>,
    scripts: Seq<Seq<char>>,
    belly: Seq<char>,
)
    ensures
        has_part(document_text(error, site, host, link, query, scripts, belly), belly),
{
    let x = DOC_HEAD@ + analytics_text(site, host) + DOC_META@ + DOC_TITLE@ + when(
        link != "/"@,
        SLASH@ + title_link(link),
    ) + when(!blank(query), COLON@ + query) + when(!blank(error), BANG@) + DOC_LINKS@
        + scripts_text(scripts) + DOC_BODY@ + nav_text(link);
    let y = foot_text(error, query, link) + DOC_END@;
    assert((x + belly + y) =~= document_text(error, site, host, link, query, scripts, belly));
    lemma_has_part_mid(x, belly, y);
}

/// A document loads its page scripts: between the links of its head and its
/// body stand the script elements, and each script `s` is loaded by an
/// element `SCRIPT_OPEN s SCRIPT_CLOSE`.
pub proof fn law_document_loads_scripts(
    error: Seq<char>,
    site: Seq<char>,
    host: Seq<char>,
    link: Seq<char>,
    query: Seq<char>,
    scripts: Seq<Seq<char>>,
    belly: Seq<char>,
    i: int,
)
    requires
        0 <= i < scripts.len(),
    ensures
        has_part(
            document_text(error, site, host, link, query, scripts, belly),
            DOC_LINKS@ + scripts_text(scripts) + DOC_BODY@,
        ),
        has_part(
            document_text(error, site, host, link, query, scripts, belly),
            SCRIPT_OPEN@ + scripts[i] + SCRIPT_CLOSE@,
        ),
{
    lemma_document_scripts(error, site, host, link, query, scripts, belly);
    let doc = document_text(error, site, host, link, query, scripts, belly);
    let st = scripts_text(scripts);
    let f = |s: Seq<char>| script_text(s);
    lemma_concat_map_part(scripts, f, i);
    lemma_has_part_trans(doc, st, script_text(scripts[i]));
}

/// The script elements of a document stand in the order of its scripts.
pub proof fn law_document_script_order(
    error: Seq<char>,
    site: Seq<char>,
    host: Seq<char>,
    link: Seq<char>,
    query: Seq<char>,
    scripts: Seq<Seq<char>>,
    belly: Seq<char>,
    i: int,
    j: int,
)
    requires
        0 <= i < j < scripts.len(),
    ensures
        in_order(
            document_text(error, site, host, link, query, scripts, belly),
            SCRIPT_OPEN@ + scripts[i] + SCRIPT_CLOSE@,
            SCRIPT_OPEN@ + scripts[j] + SCRIPT_CLOSE@,
        ),
{
    lemma_document_scripts(error, site, host, link, query, scripts, belly);
    let doc = document_text(error, site, host, link, query, scripts, belly);
    let st = scripts_text(scripts);
    let f = |s: Seq<char>| script_text(s);
    lemma_concat_map_order(scripts, f, i, j);
    lemma_in_order_lift(doc, st, script_text(scripts[i]), script_text(scripts[j]));
}

/// A document holds its script elements between the links of its head and
/// its body.
proof fn lemma_document_scripts(
    error: Seq<char>,
    site: Seq<char>,
    host: Seq<char>,
    link: Seq<char>,
    query: Seq<char>,
    scripts: Seq<Seq<char>>,
    belly: Seq<char>,
)
    ensures
        has_part(
            document_text(error, site, host, link, query, scripts, belly),
            DOC_LINKS@ + scripts_text(scripts) + DOC_BODY@,
        ),
        has_part(document_text(error, site, host, link, query, scripts, belly), scripts_text(scripts)),
{
    let doc = document_text(error, site, host, link, query, scripts, belly);
    let st = scripts_text(scripts);
    let x = DOC_HEAD@ + analytics_text(site, host) + DOC_META@ + DOC_TITLE@ + when(
        link != "/"@,
        SLASH@ + title_link(link),
    ) + when(!blank(query), COLON@ + query) + when(!blank(error), BANG@);
    let y = nav_text(link) + belly + foot_text(error, query, link) + DOC_END@;
    let m = DOC_LINKS@ + st + DOC_BODY@;
    assert((x + m + y) =~= doc);
    lemma_has_part_mid(x, m, y);
    lemma_has_part_mid(DOC_LINKS@, st, DOC_BODY@);
    lemma_has_part_trans(doc, m, st);
}

/// The whole document around `belly`, over a host, link and query that are
/// already sanitized.
pub fn document(
    error: &str,
    site: &str,
    host: &str,
    link: &str,
    query: &str,
    scripts: &Vec<String>,
    belly: &str,
) -> (r: String)
    requires
        title_fits(link@),
    ensures
        r@ == document_text(error@, site@, host@, link@, query@, scripts.deep_view(), belly@),
{
    let mut s = owned(DOC_HEAD);
    let a = html_analytics(site, host);
    s.append(a.as_str());
    s.append(DOC_META);
    s.append(DOC_TITLE);
    if !str_eq(link, "/") {
        let max: usize = 32;
        let mut l = owned(link);
        if longer_than(l.as_str(), max) {
            match cut_at_byte(l.as_str(), max - 1) {
                Some(cut) => {
                    l = cut;
                },
                None => {
                    proof {
                        assert(false);
                    }
                },
            }
            l.append(ELLIPSIS);
        }
        s.append(SLASH);
        s.append(l.as_str());
    }
    if !query.is_empty() {
        s.append(COLON);
        s.append(query);
    }
    if !error.is_empty() {
        s.append(BANG);
    }
    s.append(DOC_LINKS);
    let sc = html_scripts(scripts);
    s.append(sc.as_str());
    s.append(DOC_BODY);
    let nav = html_nav(link);
    s.append(nav.as_str());
    s.append(belly);
    let foot = html_foot(error, query, link);
    s.append(foot.as_str());
    s.append(DOC_END);
    assert(s@ =~= document_text(
        error@,
        site@,
        host@,
        link@,
        query@,
        scripts.deep_view(),
        belly@,
    ));
    s
}

/// The whole document around `belly`. The host, link and query come from the
/// request and are sanitized first.
pub fn html(
    error: &str,
    site: &str,
    dirty_host: &str,
    dirty_link: &str,
    dirty_query: &str,
    scripts: &Vec<String>,
    belly: &str,
) -> (r: String)
    requires
        title_fits(sanitized(dirty_link@)),
    ensures
        r@ == document_text(
            error@,
            site@,
            sanitized(dirty_host@),
            sanitized(dirty_link@),
            sanitized(dirty_query@),
            scripts.deep_view(),
            belly@,
        ),
{
    let host = clean(dirty_host);
    let link = clean(dirty_link);
    let query = clean(dirty_query);
    document(error, site, host.as_str(), link.as_str(), query.as_str(), scripts, belly)
}

/// The whole document around `belly`, or `None` where the sanitized link is
/// too long for the title and byte 31 falls inside a character (there the
/// server would stop).
pub fn html_checked(
    error: &str,
    site: &str,
    dirty_host: &str,
    dirty_link: &str,
    dirty_query: &str,
    scripts: &Vec<String>,
    belly: &str,
) -> (r: Option<String>)
    ensures
        r is Some <==> title_fits(sanitized(dirty_link@)),
        r matches Some(t) ==> t@ == document_text(
            error@,
            site@,
            sanitized(dirty_host@),
            sanitized(dirty_link@),
            sanitized(dirty_query@),
            scripts.deep_view(),
            belly@,
        ),
{
    let link = clean(dirty_link);
    if link_fits_title(link.as_str()) {
        Some(html(error, site, dirty_host, dirty_link, dirty_query, scripts, belly))
    } else {
        None
    }
}

/// Whether a sanitized link can be put into the title.
pub fn link_fits_title(link: &str) -> (r: bool)
    ensures
        r == title_fits(link@),
{
    if str_eq(link, "/") || !longer_than(link, 32) {
        true
    } else {
        cut_at_byte(link, 31).is_some()
    }
}

} // verus!

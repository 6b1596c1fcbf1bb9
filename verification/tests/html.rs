use agaric_blog::html::{
    document, html, html_analytics, html_checked, html_foot, html_nav, html_page, html_pagelet,
    html_pages, html_scripts, link_fits_title,
};
use agaric_blog::page::{Page, Pages};

fn page(name: &str, time: i64, lmod: i64, tags: &[&str]) -> Page {
    Page {
        name: name.to_string(),
        link: format!("page/{}", name),
        time,
        lmod,
        tags: tags.iter().map(|t| t.to_string()).collect(),
        html: String::new(),
    }
}

#[test]
fn nav_marks_the_current_link() {
    let nav = html_nav("about");
    assert_eq!(
        nav,
        "  <div class=\"nav\">\n    <div class=\"root\">\n      <a href=\"/\"><img class=\"cup\" src=\"/pub/img/agaric-24.png\">b</a>\n    </div>\n    <div class=\"links\">\n      <a class=\"here\" href=\"/about\">about</a>\n      <a href=\"/dev\">dev</a>\n      <a href=\"/pages\">pages</a>\n    </div>\n  </div>\n"
    );
    let root = html_nav("/");
    assert!(root.starts_with("  <div class=\"nav\">\n    <div class=\"root\">\n      <a class=\"here\" href=\"/\">"));
    assert!(!root.contains("class=\"here\" href=\"/about\""));
    let none = html_nav("");
    assert!(!none.contains("class=\"here\""));
}

#[test]
fn foot_links_back_with_the_query() {
    assert_eq!(html_foot("", "", "/"), "");
    assert_eq!(
        html_foot("404", "rust", "pages"),
        "  <div class=\"foot\">\n    <span class=\"error\">404</span>\n    <span class=\"stride\"></span>\n    <div class=\"lace\"><a class=\"froot\" href=\"/\">root</a></span><a href=\"/pages?tag=rust\">/pages<span class=\"slip\">?tag=</span>rust</a></div>\n  </div>\n"
    );
    assert_eq!(
        html_foot("", "", "dev"),
        "  <div class=\"foot\">\n    <span class=\"stride\"></span>\n    <div class=\"lace\"><a class=\"froot\" href=\"/\">root</a></span><a href=\"/dev\">/dev</a></div>\n  </div>\n"
    );
}

#[test]
fn pagelet_puts_long_more_on_its_own_line() {
    assert_eq!(
        html_pagelet("", "pages", "no pages to list", ""),
        "  <div class=\"page\">\n    <div class=\"page-head\">\n      <h1 class=\"title\">pages</h1>\n    </div>\n    <div class=\"page-body\">\n      <p>no pages to list</p>\n    </div>\n  </div>\n"
    );
    let short = html_pagelet("404", "oops", "page not found", "page/x");
    assert!(short.starts_with("  <div class=\"page 404\">"));
    assert!(short.contains("<p>page not found: <b>page/x</b></p>"));
    let exactly = "x".repeat(48);
    assert!(html_pagelet("404", "oops", "t", &exactly).contains(": <b>"));
    let longer = "x".repeat(49);
    assert!(html_pagelet("404", "oops", "t", &longer).contains(": <br/><b>"));
    // 17 three-byte characters are 51 bytes
    let wide = "\u{2026}".repeat(17);
    assert!(html_pagelet("404", "oops", "t", &wide).contains(": <br/><b>"));
}

#[test]
fn scripts_and_analytics() {
    let scripts = vec!["a.js".to_string(), "b.js".to_string()];
    assert_eq!(
        html_scripts(&scripts),
        "  <script src=\"/pub/js/a.js\"></script>\n  <script src=\"/pub/js/b.js\"></script>\n"
    );
    assert_eq!(html_scripts(&vec![]), "");
    assert!(html_analytics("b.agaric.net", "b.agaric.net")
        .starts_with("  <script async src=\"https://www.googletagmanager.com/gtag/js?id=G-PT10SS3WP3\">"));
    assert_eq!(html_analytics("b.agaric.net", "localhost:8490"), "");
}

#[test]
fn page_body_holds_tags_and_days() {
    let tags = vec!["a".to_string(), "b".to_string()];
    let body = html_page("/page", "hello_world", "hello world", 0, 86400, &tags, "<p>x</p>\n");
    assert_eq!(
        body,
        "  <div class=\"page _hello_world\">\n    <div class=\"page-head\">\n      <h1 class=\"title\">hello world</h1>\n      <ul class=\"tags\">\n        <li><a class=\"tag\" href=\"/pages?tag=a\">a</a></li>\n        <li><a class=\"tag\" href=\"/pages?tag=b\">b</a></li>\n      </ul>\n      <div class=\"time\">1970-01-01</div>\n      <div class=\"lmod\">1970-01-02</div>\n    </div>\n    <div class=\"page-body\">\n<p>x</p>\n    </div\n  </div>\n"
    );
    let bare = html_page("/page", "x", "x", 1609459200, 1609459200, &vec![], "");
    assert!(!bare.contains("<ul"));
    assert!(bare.contains("<div class=\"time\">2021-01-01</div>"));
}

#[test]
fn list_of_pages() {
    let mut pages = Pages::new();
    pages.insert(page("one", 0, 0, &["rust", "web"]));
    pages.insert(page("two", 86400, 86400, &[]));
    let list: Vec<&Page> = vec![pages.at(0), pages.at(1)];
    let tags = vec![("rust".to_string(), 1i16), ("web".to_string(), 1i16)];
    let out = html_pages("rust", 2, &tags, &list);
    assert!(out.starts_with("  <div class=\"page -pages\">\n"));
    assert!(out.contains("<li><a class=\"tag clear\" href=\"/pages\"><span class=\"tag-name\">all</span><span class=\"tag-count\">2</span></a></li>\n"));
    assert!(out.contains("        <li><a class=\"tag active\" href=\"/pages?tag=rust\"><span class=\"tag-name\">rust</span><span class=\"tag-count\">1</span></a></li>\n"));
    assert!(out.contains("        <li><a class=\"tag\" href=\"/pages?tag=web\"><span class=\"tag-name\">web</span><span class=\"tag-count\">1</span></a></li>\n"));
    assert!(out.contains("          <a class=\"name\" href=\"/page/one\">one</a>\n          <ul class=\"page-tags\">\n            <li><a class=\"tag active\" href=\"/pages?tag=rust\">rust</a></li>\n            <li><a class=\"tag\" href=\"/pages?tag=web\">web</a></li>\n          </ul>\n        </li>\n"));
    assert!(out.contains("<div class=\"time\">1970-01-02</div><div class=\"lmod\">1970-01-02</div>"));
    assert!(out.ends_with("      </ul>\n    </div>\n  </div>\n"));
    let all = html_pages("", 2, &tags, &list);
    assert!(all.contains("<a class=\"tag clear active\" href=\"/pages\">"));
    assert_eq!(
        html_pages("", 0, &vec![], &vec![]),
        html_pagelet("", "pages", "no pages to list", "")
    );
}

#[test]
fn document_frame_and_title() {
    let doc = document("", "b.agaric.net", "localhost", "pages", "rust", &vec![], "BELLY");
    assert!(doc.starts_with("<!doctype html>\n<html lang=\"en\">\n<head>\n  <meta charset=\"utf-8\">"));
    assert!(doc.contains("  <title>~b/pages:rust</title>\n"));
    assert!(doc.contains("</head>\n<body>\n  <div class=\"nav\">"));
    assert!(doc.contains("<a class=\"here\" href=\"/pages\">pages</a>"));
    assert!(doc.contains("  </div>\nBELLY  <div class=\"foot\">"));
    assert!(doc.ends_with("</div>\n  </div>\n</body>\n"));
    let root = document("404", "b.agaric.net", "b.agaric.net", "/", "", &vec![], "");
    assert!(root.contains("  <title>~b!</title>\n"));
    assert!(root.contains("gtag('config', 'G-PT10SS3WP3')"));
    assert!(!root.contains("class=\"foot\""));
    let long = "a".repeat(40);
    let cut = document("", "s", "h", &long, "", &vec![], "");
    assert!(cut.contains(&format!("  <title>~b/{}\u{2026}</title>", "a".repeat(31))));
    let exact = "a".repeat(32);
    assert!(document("", "s", "h", &exact, "", &vec![], "").contains(&format!("~b/{}</title>", exact)));
}

#[test]
fn html_sanitizes_what_the_request_gave() {
    let doc = html("", "s", "h", "pages", "<script>alert(1)</script>rust", &vec![], "");
    assert!(doc.contains("  <title>~b/pages:rust</title>\n"));
    assert!(!doc.contains("alert(1)"));
    let stays = html("", "s", "h", "pages", "rust", &vec![], "B");
    assert_eq!(stays, document("", "s", "h", "pages", "rust", &vec![], "B"));
}

#[test]
fn title_cut_inside_a_character_is_refused() {
    // byte 31 falls inside the two-byte e-acute
    let link = format!("{}\u{e9}{}", "a".repeat(30), "b".repeat(10));
    assert!(!link_fits_title(&link));
    assert!(html_checked("", "s", "h", &link, "", &vec![], "").is_none());
    let fine = format!("{}\u{e9}{}", "a".repeat(29), "b".repeat(10));
    assert!(link_fits_title(&fine));
    let doc = html_checked("", "s", "h", &fine, "", &vec![], "").unwrap();
    assert!(doc.contains(&format!("~b/{}\u{e9}\u{2026}</title>", "a".repeat(29))));
    assert!(link_fits_title("/"));
}

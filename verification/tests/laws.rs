use agaric_blog::disk::{Disk, Entry, FileFacts, Stamp, Text};
use agaric_blog::html::{document, html_page};
use agaric_blog::outside::{FIRST_SECOND, LAST_SECOND};
use agaric_blog::page::{Page, Pages};
use agaric_blog::source::{parse_i64, read_lines};
use agaric_blog::state::{listed_name, State};

fn page(name: &str, html: &str) -> Page {
    Page {
        name: name.to_string(),
        link: name.to_string(),
        time: 0,
        lmod: 0,
        tags: vec![],
        html: html.to_string(),
    }
}

#[test]
fn insert_keeps_names_in_order_and_replaces_by_name() {
    let mut pages = Pages::new();
    for n in ["m", "b", "z", "a", "b"] {
        pages.insert(page(n, n));
    }
    pages.insert(page("m", "new m"));
    let got: Vec<String> = (0..pages.len()).map(|i| pages.at(i).name.clone()).collect();
    assert_eq!(got, vec!["a", "b", "m", "z"]);
    assert_eq!(pages.get("m").unwrap().html, "new m");
    assert!(pages.contains_key("z"));
    assert!(!pages.contains_key("q"));
    // byte order, as a BTreeMap of strings keeps it
    pages.insert(page("B", ""));
    pages.insert(page("\u{e9}", ""));
    assert_eq!(pages.at(0).name, "B");
    assert_eq!(pages.at(pages.len() - 1).name, "\u{e9}");
    pages.clear();
    assert_eq!(pages.len(), 0);
}

#[test]
fn the_title_link_is_short() {
    for n in [0usize, 1, 31, 32, 33, 100] {
        let link = "l".repeat(n);
        let doc = document("", "s", "h", &link, "", &vec![], "");
        let start = doc.find("<title>~b/").unwrap() + "<title>~b/".len();
        let end = doc.find("</title>").unwrap();
        assert!(end - start <= 34, "link of {} bytes", n);
    }
}

#[test]
fn times_read_back_as_written() {
    for v in [0i64, 7, -7, 1609459200, i64::MAX, i64::MIN] {
        assert_eq!(parse_i64(&v.to_string()), Some(v));
    }
}

#[test]
fn without_a_fence_there_is_no_body() {
    let lines: Vec<String> = vec!["title: x".to_string(), "# not body".to_string(), ":: :".to_string()];
    assert_eq!(read_lines("n", &lines).unwrap().md, "");
}

#[test]
fn a_listed_path_gives_its_name() {
    for name in ["a", "hello-world", "sub/dir", "x y"] {
        assert_eq!(listed_name("db/", &format!("db/{}.md", name)), Some(name.to_string()));
    }
}

#[test]
fn days_cover_chrono_calendar() {
    let last = chrono::DateTime::from_timestamp(LAST_SECOND, 0).unwrap();
    assert!(chrono::DateTime::from_timestamp(LAST_SECOND + 1, 0).is_none());
    let first = chrono::DateTime::from_timestamp(FIRST_SECOND, 0).unwrap();
    assert!(chrono::DateTime::from_timestamp(FIRST_SECOND - 1, 0).is_none());
    let body = html_page("/page", "x", "x", FIRST_SECOND, LAST_SECOND, &vec![], "");
    let time = format!("<div class=\"time\">{}</div>", first.format("%Y-%m-%d"));
    let lmod = format!("<div class=\"lmod\">{}</div>", last.format("%Y-%m-%d"));
    assert!(body.contains(&time), "{}", body);
    assert!(body.contains(&lmod), "{}", body);
}

fn file(path: &str, lmod: i64, lines: &[&str]) -> FileFacts {
    FileFacts {
        path: path.to_string(),
        is_file: true,
        stamp: Stamp::Secs(lmod),
        entry_stamp: Stamp::Secs(lmod),
        text: Text::Lines(lines.iter().map(|s| s.to_string()).collect()),
    }
}

fn disk(files: Vec<FileFacts>) -> Disk {
    let listing = files.iter().map(|f| Entry::Path(f.path.clone())).collect();
    Disk { listing: Some(listing), files }
}

#[test]
fn every_listed_source_is_a_page_after_a_refresh() {
    let mut st = State::new("s".to_string(), "db/".to_string(), "/page".to_string());
    let d = disk(vec![file("db/a.md", 1, &[]), file("db/b.md", 1, &[]), file("db/c.txt", 1, &[])]);
    st.refresh("h", "", "", &d).unwrap().ok().unwrap();
    assert!(st.pages.contains_key("a"));
    assert!(st.pages.contains_key("b"));
    assert!(!st.pages.contains_key("c"));
}

#[test]
fn refreshing_one_page_keeps_the_others_and_keeps_it_fresh() {
    let mut st = State::new("s".to_string(), "db/".to_string(), "/page".to_string());
    let d = disk(vec![file("db/a.md", 1, &["title: A1"]), file("db/b.md", 1, &["title: B1"])]);
    st.refresh("h", "", "", &d).unwrap().ok().unwrap();
    let b_before = st.pages.get("b").unwrap().html.clone();
    let d2 = disk(vec![file("db/a.md", 2, &["title: A2"]), file("db/b.md", 2, &["title: B2"])]);
    st.refresh("h", "page/a", "a", &d2).unwrap().ok().unwrap();
    assert_eq!(st.pages.get("b").unwrap().html, b_before);
    let a = st.pages.get("a").unwrap();
    assert_eq!(a.lmod, 2);
    assert!(a.html.contains("A2"));
}

#[test]
fn a_second_refresh_with_nothing_changed_reads_nothing() {
    let mut st = State::new("b.agaric.net".to_string(), "db/".to_string(), "/page".to_string());
    let d = disk(vec![file("db/a.md", 3, &["title: A"]), file("db/b.md", 4, &["tag: x"])]);
    st.refresh("b.agaric.net", "", "", &d).unwrap().ok().unwrap();
    let before: Vec<String> = (0..st.pages.len()).map(|i| st.pages.at(i).html.clone()).collect();
    assert!(before[0].contains("gtag('config'"));
    // another host would build pages without the analytics snippet
    st.refresh("localhost", "", "", &d).unwrap().ok().unwrap();
    let after: Vec<String> = (0..st.pages.len()).map(|i| st.pages.at(i).html.clone()).collect();
    assert_eq!(before, after);
}

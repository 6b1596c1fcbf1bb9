use agaric_blog::disk::{Disk, Entry, FileFacts, Stamp, Text};
use agaric_blog::lists::{captured_tag, counts_check, pages_for, pages_lists, tag_query};
use agaric_blog::page::{Page, Pages};
use agaric_blog::state::State;

fn page(name: &str, tags: &[&str]) -> Page {
    Page {
        name: name.to_string(),
        link: format!("page/{}", name),
        time: 0,
        lmod: 86400,
        tags: tags.iter().map(|t| t.to_string()).collect(),
        html: format!("<{}>", name),
    }
}

fn three() -> Pages {
    let mut pages = Pages::new();
    pages.insert(page("gamma", &["web"]));
    pages.insert(page("alpha", &["rust", "web"]));
    pages.insert(page("beta", &["rust"]));
    pages
}

fn names(list: &[&Page]) -> Vec<String> {
    list.iter().map(|p| p.name.clone()).collect()
}

#[test]
fn captured_tags_match_the_pattern() {
    let re = regex::Regex::new(r"[?&]?tag=([0-9A-za-z]+)").unwrap();
    for q in [
        "", "tag=rust", "?tag=rust", "a=1&tag=web&tag=x", "tag=", "tag=-x&tag=ok", "tag=a_b^c[d]`e-f",
        "xtag=zz", "tag=r\u{e9}s", "tagtag=1", "tag=\u{2026}",
    ] {
        let want = re.captures(q).map(|c| c.get(1).unwrap().as_str().to_string());
        assert_eq!(captured_tag(q), want, "query {:?}", q);
    }
}

#[test]
fn the_query_is_the_sanitized_tag() {
    assert_eq!(tag_query("tag=rust"), "rust");
    assert_eq!(tag_query("page=2"), "");
    assert_eq!(tag_query("tag=a&tag=b"), "a");
}

#[test]
fn an_empty_query_picks_every_page_in_order() {
    let pages = three();
    let (query, tags, list) = pages_lists("", &pages);
    assert_eq!(query, "");
    assert_eq!(names(&list), vec!["alpha", "beta", "gamma"]);
    assert_eq!(tags, vec![("rust".to_string(), 2), ("web".to_string(), 2)]);
}

#[test]
fn a_tag_picks_the_pages_that_carry_it() {
    let pages = three();
    let (query, tags, list) = pages_lists("?tag=rust", &pages);
    assert_eq!(query, "rust");
    assert_eq!(names(&list), vec!["alpha", "beta"]);
    for p in &list {
        assert!(p.tags.contains(&"rust".to_string()));
    }
    // every tag of a picked page, counted over all pages
    assert_eq!(tags, vec![("rust".to_string(), 2), ("web".to_string(), 2)]);
    let (_, tags, list) = pages_lists("tag=web", &pages);
    assert_eq!(names(&list), vec!["alpha", "gamma"]);
    assert_eq!(tags, vec![("rust".to_string(), 2), ("web".to_string(), 2)]);
    let (_, tags, list) = pages_lists("tag=none", &pages);
    assert!(list.is_empty());
    assert!(tags.is_empty());
}

#[test]
fn tag_counts_depend_on_the_pages_alone() {
    let pages = three();
    let a = pages_lists("tag=rust", &pages);
    let b = pages_for("rust".to_string(), &pages);
    assert_eq!(a.1, b.1);
    assert_eq!(names(&a.2), names(&b.2));
}

#[test]
fn counts_past_an_i16_are_caught() {
    let mut pages = Pages::new();
    for i in 0..3 {
        pages.insert(page(&format!("p{}", i), &["t"]));
    }
    assert!(counts_check(&pages, ""));
    let mut many = Pages::new();
    let tags: Vec<&str> = std::iter::repeat("t").take(32768).collect();
    many.insert(page("big", &tags));
    assert!(!counts_check(&many, ""));
    assert!(!counts_check(&many, "t"));
    assert!(counts_check(&many, "other"));
}

fn file(path: &str, lines: &[&str]) -> FileFacts {
    FileFacts {
        path: path.to_string(),
        is_file: true,
        stamp: Stamp::Secs(86400),
        entry_stamp: Stamp::Secs(86400),
        text: Text::Lines(lines.iter().map(|s| s.to_string()).collect()),
    }
}

fn site_with(files: Vec<FileFacts>) -> State {
    let listing = files.iter().map(|f| Entry::Path(f.path.clone())).collect();
    let disk = Disk { listing: Some(listing), files };
    let mut st = State::new("b.agaric.net".to_string(), "db/".to_string(), "/page".to_string());
    st.refresh("localhost", "", "", &disk).unwrap().ok().unwrap();
    st
}

#[test]
fn the_list_answer() {
    let st = site_with(vec![
        file("db/alpha.md", &["tag: rust, web"]),
        file("db/beta.md", &["tag: rust"]),
    ]);
    let (status, body) = st.pages_reply("localhost", "tag=rust").unwrap();
    assert_eq!(status, 200);
    assert!(body.contains("  <title>~b/pages:rust</title>\n"));
    assert!(body.contains("<span class=\"tag-name\">all</span><span class=\"tag-count\">2</span>"));
    assert!(body.contains("<a class=\"name\" href=\"/page/alpha\">alpha</a>"));
    assert!(body.contains("<a class=\"name\" href=\"/page/beta\">beta</a>"));
    let (status, body) = st.pages_reply("localhost", "tag=go").unwrap();
    assert_eq!(status, 404);
    assert!(body.contains("<p>no pages tagged: <b>go</b></p>"));
    assert!(body.contains("  <title>~b/pages!</title>\n"));
    let empty = site_with(vec![]);
    let (status, body) = empty.pages_reply("localhost", "tag=go").unwrap();
    assert_eq!(status, 200);
    assert!(body.contains("<p>no pages to list</p>"));
}

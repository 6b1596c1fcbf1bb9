use agaric_blog::disk::{Disk, Entry, FileFacts, Stamp, Text};
use agaric_blog::state::{listed_name, page_exists, page_link, page_path, parse, plain_pattern, State};

fn file(path: &str, lmod: i64, lines: &[&str]) -> FileFacts {
    FileFacts {
        path: path.to_string(),
        is_file: true,
        stamp: Stamp::Secs(lmod),
        entry_stamp: Stamp::Secs(lmod),
        text: Text::Lines(lines.iter().map(|s| s.to_string()).collect()),
    }
}

fn disk(files: Vec<FileFacts>) -> Disk {
    let listing = files.iter().map(|f| Entry::Path(f.path.clone())).collect();
    Disk { listing: Some(listing), files }
}

fn site() -> State {
    State::new("b.agaric.net".to_string(), "db/".to_string(), "/page".to_string())
}

#[test]
fn paths_and_links() {
    assert_eq!(page_path("db/", "hello"), "db/hello.md");
    assert_eq!(page_link("about"), "about");
    assert_eq!(page_link("dev"), "dev");
    assert_eq!(page_link("hello"), "page/hello");
    assert_eq!(listed_name("db/", "db/hello.md"), Some("hello".to_string()));
    assert_eq!(listed_name("db/", "db/hello.txt"), None);
    assert_eq!(listed_name("db/", "db/.md"), None);
    assert_eq!(listed_name("db/", "db/a.b.md"), None);
    assert_eq!(listed_name("db/", "other/hello.md"), None);
    assert_eq!(listed_name("db/", "db/sub/x.md"), Some("sub/x".to_string()));
    assert!(plain_pattern("db/"));
    assert!(!plain_pattern("d.b/"));
    let d = disk(vec![file("db/hello.md", 5, &[])]);
    assert!(page_exists("db/", "hello", &d));
    assert!(!page_exists("db/", "gone", &d));
}

#[test]
fn listed_names_match_the_pattern() {
    let re = regex::Regex::new(r"^db/([^.]+)\.md$").unwrap();
    for path in ["db/hello.md", "db/a.b.md", "db/.md", "db/x.md.md", "db/x\n.md", "xdb/x.md", "db/x.mdx"] {
        let want = re.captures(path).map(|c| c.get(1).unwrap().as_str().to_string());
        assert_eq!(listed_name("db/", path), want, "path {:?}", path);
    }
}

#[test]
fn parse_reads_title_days_and_body() {
    let d = disk(vec![file("db/hello_world.md", 86400, &["tag: a", ":::", "# Hi"])]);
    let p = parse("hello_world", "db/hello_world.md", &d).ok().unwrap();
    assert_eq!(p.title, "hello world");
    assert_eq!(p.time, 0);
    assert_eq!(p.lmod, 86400);
    assert_eq!(p.tags, vec!["a".to_string()]);
    assert_eq!(p.html, "<h1>Hi</h1>\n");
    let missing = parse("x", "db/x.md", &d).err().unwrap();
    assert_eq!(missing.message(), "parse: file metadata");
    let mut closed = file("db/c.md", 1, &[]);
    closed.text = Text::Closed;
    let d = disk(vec![closed]);
    assert_eq!(parse("c", "db/c.md", &d).err().unwrap().message(), "parse: file open");
}

#[test]
fn refreshing_every_page() {
    let mut st = site();
    let d = disk(vec![
        file("db/about.md", 10, &["title: About", ":::", "me"]),
        file("db/hello.md", 20, &["time: 1609459200", "tag: rust", ":::", "hi"]),
        file("db/notes.txt", 30, &[]),
    ]);
    assert_eq!(st.refresh("b.agaric.net", "", "", &d).unwrap().ok(), Some(()));
    assert_eq!(st.pages.len(), 2);
    let about = st.pages.get("about").unwrap();
    assert_eq!(about.link, "about");
    assert_eq!(about.lmod, 10);
    assert!(about.html.contains("<h1 class=\"title\">About</h1>"));
    assert!(about.html.contains("<title>~b/about</title>"));
    let hello = st.pages.get("hello").unwrap();
    assert_eq!(hello.link, "page/hello");
    assert_eq!(hello.time, 1609459200);
    assert_eq!(hello.tags, vec!["rust".to_string()]);
    assert!(hello.html.contains("<div class=\"time\">2021-01-01</div>"));
    assert!(hello.html.contains("gtag('config'"));
    assert_eq!(st.pages.at(0).name, "about");
    assert_eq!(st.pages.at(1).name, "hello");
}

#[test]
fn unchanged_sources_are_not_read_again() {
    let mut st = site();
    let d = disk(vec![file("db/hello.md", 20, &["title: First"])]);
    st.up_state("h", "", "", &d).ok().unwrap();
    // same stamp, new text: the page is kept
    let d2 = disk(vec![file("db/hello.md", 20, &["title: Second"])]);
    st.up_state("h", "", "", &d2).ok().unwrap();
    assert!(st.pages.get("hello").unwrap().html.contains("First"));
    // newer stamp: read again
    let d3 = disk(vec![file("db/hello.md", 21, &["title: Third"])]);
    st.up_state("h", "", "", &d3).ok().unwrap();
    assert!(st.pages.get("hello").unwrap().html.contains("Third"));
}

#[test]
fn a_gone_source_drops_every_page() {
    let mut st = site();
    let d = disk(vec![file("db/a.md", 1, &[]), file("db/b.md", 1, &[])]);
    st.up_state("h", "", "", &d).ok().unwrap();
    assert_eq!(st.pages.len(), 2);
    let d2 = disk(vec![file("db/b.md", 1, &[])]);
    let db = st.up_db(&d2).ok().unwrap();
    assert_eq!(st.pages.len(), 0);
    assert_eq!(db, vec![("page/b".to_string(), "b".to_string(), "db/b.md".to_string())]);
}

#[test]
fn listing_errors() {
    let mut st = site();
    let d = Disk { listing: None, files: vec![] };
    assert_eq!(st.up_state("h", "", "", &d).err().unwrap().message(), "up_db: read_dir");
    let d = Disk { listing: Some(vec![Entry::Failed]), files: vec![] };
    assert_eq!(st.up_state("h", "", "", &d).err().unwrap().message(), "up_db: file");
    // a path that is not text stops the site
    let d = Disk { listing: Some(vec![Entry::NotText]), files: vec![] };
    assert!(!st.up_state_fits("h", "", "", &d));
    assert!(st.refresh("h", "", "", &d).is_none());
}

#[test]
fn refreshing_one_page() {
    let mut st = site();
    assert_eq!(st.up_state("h", "page/x", "x", &disk(vec![])).err().unwrap().message(), "up_page: get page");
    let d = disk(vec![file("db/x.md", 5, &["title: One"]), file("db/y.md", 5, &["title: Y"])]);
    st.up_state("h", "", "", &d).ok().unwrap();
    let d2 = disk(vec![file("db/x.md", 6, &["title: Two"]), file("db/y.md", 9, &["title: Y2"])]);
    st.up_state("h", "page/x", "x", &d2).ok().unwrap();
    assert!(st.pages.get("x").unwrap().html.contains("Two"));
    // the other page is left as it was
    assert!(st.pages.get("y").unwrap().html.contains(">Y<"));
    // a gone source leaves the page
    st.up_state("h", "page/x", "x", &disk(vec![])).ok().unwrap();
    assert!(st.pages.get("x").unwrap().html.contains("Two"));
    // unreadable metadata is an error
    let mut f = file("db/x.md", 7, &[]);
    f.stamp = Stamp::NoMetadata;
    let e = st.up_state("h", "page/x", "x", &disk(vec![f])).err().unwrap();
    assert_eq!(e.message(), "page_is_old: file metadata");
}

#[test]
fn sources_that_stop_the_site_are_refused() {
    let mut st = site();
    let d = disk(vec![file("db/t.md", 1, &["time: soon"])]);
    assert!(st.refresh("h", "", "", &d).is_none());
    assert_eq!(st.pages.len(), 0);
    let mut broken = file("db/b.md", 1, &[]);
    broken.text = Text::Broken;
    assert!(st.refresh("h", "", "", &disk(vec![broken])).is_none());
    let far = disk(vec![file("db/f.md", 1, &["time: 9000000000000000"])]);
    assert!(st.refresh("h", "", "", &far).is_none());
    let mut early = file("db/e.md", 1, &[]);
    early.stamp = Stamp::NoTime;
    assert!(st.refresh("h", "", "", &disk(vec![early])).is_none());
    // a failure before any of those is an error, not a stop
    let d = Disk {
        listing: Some(vec![Entry::Failed, Entry::NotText]),
        files: vec![],
    };
    assert_eq!(st.refresh("h", "", "", &d).unwrap().err().unwrap().message(), "up_db: file");
}

#[test]
fn unreadable_entry_metadata_is_an_error() {
    let mut st = site();
    let d = disk(vec![file("db/a.md", 1, &[])]);
    st.up_state("h", "", "", &d).ok().unwrap();
    let mut f = file("db/a.md", 2, &[]);
    f.entry_stamp = Stamp::NoMetadata;
    let e = st.up_state("h", "", "", &disk(vec![f])).err().unwrap();
    assert_eq!(e.message(), "up_db: file metadata");
    // a page that is not there yet is read without its entry's metadata
    let mut fresh = site();
    let mut g = file("db/b.md", 2, &[]);
    g.entry_stamp = Stamp::NoMetadata;
    assert_eq!(fresh.up_state("h", "", "", &disk(vec![g])).ok(), Some(()));
    assert!(fresh.pages.contains_key("b"));
}

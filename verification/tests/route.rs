use agaric_blog::disk::{Disk, Entry, FileFacts, Stamp, Text};
use agaric_blog::route::{
    ascii_head, error_reply, flip_check, flip_lick, motd_len, motd_text, respond_error, root_motd,
    welcome_reply,
};
use agaric_blog::state::State;

fn file(path: &str, lines: &[&str]) -> FileFacts {
    FileFacts {
        path: path.to_string(),
        is_file: true,
        stamp: Stamp::Secs(86400),
        entry_stamp: Stamp::Secs(86400),
        text: Text::Lines(lines.iter().map(|s| s.to_string()).collect()),
    }
}

fn disk() -> Disk {
    let files = vec![
        file("db/about.md", &["title: About"]),
        file("db/dev.md", &[]),
        file("db/hello-world.md", &["tag: rust"]),
    ];
    let listing = files.iter().map(|f| Entry::Path(f.path.clone())).collect();
    Disk { listing: Some(listing), files }
}

fn lick(req: &str) -> (bool, String, String, String) {
    flip_lick(req, "db/", "/page", &disk())
}

fn t(bad: bool, msg: &str, name: &str, link: &str) -> (bool, String, String, String) {
    (bad, msg.to_string(), name.to_string(), link.to_string())
}

#[test]
fn pages_in_scope_are_found() {
    assert_eq!(lick("/page/hello-world"), t(false, "", "hello-world", "page/hello-world"));
    assert_eq!(lick("/page/missing"), t(true, "page not found", "missing", "page/missing"));
}

#[test]
fn about_and_dev_stand_outside_the_scope() {
    assert_eq!(lick("/about"), t(false, "", "about", "about"));
    assert_eq!(lick("/dev"), t(false, "", "dev", "dev"));
    assert_eq!(lick("/dev/"), t(false, "", "dev", "dev/"));
    // in the scope they are refused
    assert_eq!(lick("/page/about"), t(true, "bad page request", "about", "page/about"));
    assert_eq!(lick("/page/dev/"), t(true, "bad page request", "dev/", "page/dev/"));
}

#[test]
fn other_requests_are_bad() {
    assert_eq!(lick("/hello-world"), t(true, "bad page request", "hello-world", "hello-world"));
    assert_eq!(lick("/page/a.b"), t(true, "bad page request", "a.b", "page/a.b"));
    assert_eq!(lick("/page/"), t(true, "bad page request", "", "page/"));
    assert_eq!(lick("/about/"), t(true, "bad page request", "about/", "about/"));
}

#[test]
fn long_requests_are_cut() {
    let req = format!("/page/{}", "x".repeat(200));
    let (bad, msg, name, link) = lick(&req);
    assert!(bad);
    assert_eq!(msg, "bad page request");
    let want = format!("{}\u{2026}", &req[1..128]);
    assert_eq!(name, want);
    assert_eq!(link, want);
    assert_eq!(name.len(), 130);
    // exactly 128 bytes are kept whole
    let edge = format!("/page/{}", "x".repeat(123));
    assert_eq!(lick(&edge).2, "x".repeat(123));
    // a cut inside a character stops the site
    let inside = format!("/{}\u{e9}{}", "x".repeat(126), "y".repeat(10));
    assert!(flip_check(&inside, "db/", "/page", &disk()).is_none());
    assert!(flip_check("/about", "db/", "/page", &disk()).is_some());
}

#[test]
fn request_heads() {
    assert!(ascii_head("/page"));
    assert!(!ascii_head(""));
    assert!(!ascii_head("\u{e9}x"));
}

#[test]
fn error_answers() {
    let (status, body) = respond_error(404, "s", "h", "page/x", "page not found", "page/x");
    assert_eq!(status, 404);
    assert!(body.contains("  <title>~b/page/x!</title>\n"));
    assert!(body.contains("  <div class=\"page 404\">"));
    assert!(body.contains("<h1 class=\"title\">oops</h1>"));
    assert!(body.contains("<p>page not found: <b>page/x</b></p>"));
    assert!(body.contains("<span class=\"error\">404</span>"));
    let (status, body) = error_reply(500, "s", "h", "x", "ignored", "x").unwrap();
    assert_eq!(status, 500);
    assert!(body.contains("<p>trouble processing: <b>x</b></p>"));
    assert!(!body.contains("ignored"));
    let inside = format!("{}\u{e9}{}", "a".repeat(30), "b".repeat(10));
    assert!(error_reply(404, "s", "h", &inside, "t", "m").is_none());
}

#[test]
fn the_welcome_page() {
    assert_eq!(motd_len(), 1200);
    let motd = root_motd().unwrap();
    assert_eq!(motd.len(), 1200);
    assert!(motd.chars().all(|c| c.is_ascii_alphanumeric()));
    assert_ne!(motd, root_motd().unwrap());
    let body = welcome_reply("b.agaric.net", "b.agaric.net", &motd).unwrap();
    assert!(body.contains("  <title>~b</title>\n"));
    assert!(body.contains("  <div class=\"page -welcome\">"));
    assert!(body.contains(&format!("<p>{}</p>", motd)));
    assert!(body.contains("gtag('config'"));
    assert!(!body.contains("class=\"foot\""));
}

#[test]
fn a_page_answer() {
    let d = disk();
    let mut st = State::new("b.agaric.net".to_string(), "db/".to_string(), "/page".to_string());
    st.refresh("localhost", "", "", &d).unwrap().ok().unwrap();
    let (bad, _, name, link) = flip_lick("/page/hello-world", "db/", "/page", &d);
    assert!(!bad);
    st.refresh("localhost", &link, &name, &d).unwrap().ok().unwrap();
    let (status, body) = st.page_reply("localhost", &name).unwrap();
    assert_eq!(status, 200);
    assert!(body.contains("<h1 class=\"title\">hello world</h1>"));
    assert!(body.contains("  <title>~b/page/hello-world</title>\n"));
    let (status, body) = st.page_reply("localhost", "gone").unwrap();
    assert_eq!(status, 500);
    assert!(body.contains("<p>trouble processing: <b>gone</b></p>"));
}

#[test]
fn drawn_bytes_become_their_characters() {
    assert_eq!(motd_text(&b"0aZ9zA".to_vec()), "0aZ9zA");
    assert_eq!(motd_text(&vec![]), "");
}

#[test]
fn flip_answers() {
    let d = disk();
    let mut st = State::new("b.agaric.net".to_string(), "db/".to_string(), "/page".to_string());
    st.refresh("localhost", "", "", &d).unwrap().ok().unwrap();
    let (status, body) = st.flip_reply("localhost", "/page/hello-world", &d).unwrap();
    assert_eq!(status, 200);
    assert!(body.contains("<h1 class=\"title\">hello world</h1>"));
    let (status, body) = st.flip_reply("localhost", "/about", &d).unwrap();
    assert_eq!(status, 200);
    assert!(body.contains("<h1 class=\"title\">About</h1>"));
    let (status, body) = st.flip_reply("localhost", "/page/missing", &d).unwrap();
    assert_eq!(status, 404);
    assert!(body.contains("<p>page not found: <b>page/missing</b></p>"));
    let (status, body) = st.flip_reply("localhost", "/nowhere", &d).unwrap();
    assert_eq!(status, 404);
    assert!(body.contains("<p>bad page request: <b>nowhere</b></p>"));
    // a source that appeared after the last full refresh has no page yet
    let mut files = vec![file("db/about.md", &[]), file("db/new.md", &[])];
    let listing = files.iter().map(|f| Entry::Path(f.path.clone())).collect();
    files.push(file("db/dev.md", &[]));
    let d2 = Disk { listing: Some(listing), files };
    let (status, body) = st.flip_reply("localhost", "/page/new", &d2).unwrap();
    assert_eq!(status, 500);
    assert!(body.contains("<p>trouble processing: <b>new</b></p>"));
    let inside = format!("/{}\u{e9}{}", "x".repeat(126), "y".repeat(10));
    assert!(st.flip_reply("localhost", &inside, &d).is_none());
}

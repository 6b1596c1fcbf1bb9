use agaric_blog::source::{fence_line, head_field, parse_i64, read_lines, split_list, title_of_name};
use regex::Regex;

const LINES: &[&str] = &[
    ":::",
    "::::",
    " ::: ",
    ":: :",
    "::",
    ": : :",
    "\t:::\u{a0}",
    "::: x",
    "",
    "title: Hello",
    "  title:   spaced out  ",
    "title:no space",
    "ti tle: x",
    ":value: x",
    "tag: a, b,c ,  d",
    "tag:\u{3000}wide",
    "key: ",
    "key:  ",
    "time: 1234",
    "x: y: z",
    "\u{2003}k\u{e9}y: v\u{e9}",
];

#[test]
fn fence_matches_the_pattern() {
    let re = Regex::new(r"^[:\s]*:::+[:\s]*$").unwrap();
    for line in LINES {
        assert_eq!(fence_line(line), re.is_match(line), "line {:?}", line);
    }
}

#[test]
fn head_fields_match_the_pattern() {
    let re = Regex::new(r"^\s*([^\s:]+):\s+(.*)$").unwrap();
    for line in LINES {
        let want = re
            .captures(line)
            .map(|c| (c.get(1).unwrap().as_str().to_string(), c.get(2).unwrap().as_str().to_string()));
        assert_eq!(head_field(line), want, "line {:?}", line);
    }
    assert_eq!(head_field("title: Hello"), Some(("title".to_string(), "Hello".to_string())));
    assert_eq!(head_field("title:no space"), None);
}

#[test]
fn lists_split_like_the_pattern() {
    let re = Regex::new(r",\s*").unwrap();
    for val in ["", "a", "a,b", "a, b,c ,  d", "a,", ",", ", ,b", "x,\u{2003}y", "a,,b"] {
        let want: Vec<String> = re.split(val).map(|s| s.to_string()).collect();
        assert_eq!(split_list(val), want, "value {:?}", val);
    }
    assert_eq!(split_list("rust, web"), vec!["rust".to_string(), "web".to_string()]);
}

#[test]
fn titles_replace_the_first_run_of_joiners() {
    let re = Regex::new(r"[_-]+").unwrap();
    for name in ["hello", "hello_world", "a__b-c_d", "-x", "x-", "a-_-b_c", ""] {
        let want = re.replace(name, regex::NoExpand(" ")).to_string();
        assert_eq!(title_of_name(name), want, "name {:?}", name);
    }
    assert_eq!(title_of_name("a__b-c_d"), "a b-c_d");
}

#[test]
fn numbers_parse_like_std() {
    for s in [
        "0", "42", "-42", "+42", "-", "+", "", " 1", "1 ", "9223372036854775807",
        "9223372036854775808", "-9223372036854775808", "-9223372036854775809", "00012",
        "12a", "99999999999999999999999",
    ] {
        assert_eq!(parse_i64(s), s.parse::<i64>().ok(), "text {:?}", s);
    }
}

#[test]
fn a_source_is_read_head_then_body() {
    let lines: Vec<String> = [
        "title: A Title",
        "time: 1609459200",
        "",
        "tag: rust, web",
        "script: one.js,two.js",
        "other: ignored",
        ":::",
        "# heading",
        "",
        "title: not head",
        ":::",
        "end",
    ]
    .iter()
    .map(|s| s.to_string())
    .collect();
    let t = read_lines("a_page", &lines).unwrap();
    assert_eq!(t.title, "A Title");
    assert_eq!(t.time, 1609459200);
    assert_eq!(t.tags, vec!["rust".to_string(), "web".to_string()]);
    assert_eq!(t.scripts, vec!["one.js".to_string(), "two.js".to_string()]);
    assert_eq!(t.md, "# heading\n\ntitle: not head\nend\n");

    let plain: Vec<String> = vec!["just text".to_string()];
    let t = read_lines("my-page", &plain).unwrap();
    assert_eq!(t.title, "my page");
    assert_eq!(t.time, 0);
    assert_eq!(t.md, "");

    let bad: Vec<String> = vec!["time: soon".to_string(), ":::".to_string()];
    assert!(read_lines("x", &bad).is_none());
    let late: Vec<String> = vec![":::".to_string(), "time: soon".to_string()];
    assert_eq!(read_lines("x", &late).unwrap().md, "time: soon\n");
}

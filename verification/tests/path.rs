use boxfs::path::Path;

fn segments(text: &str) -> Vec<String> {
    Path::parse(text).segments
}

#[test]
fn a_path_is_split_at_slashes_and_empty_segments_are_dropped() {
    assert_eq!(segments("one/two/three"), vec!["one", "two", "three"]);
    assert_eq!(segments("/one//two/"), vec!["one", "two"]);
    assert_eq!(segments("///"), Vec::<String>::new());
    assert_eq!(segments(""), Vec::<String>::new());
    assert_eq!(segments("x"), vec!["x"]);
}

#[test]
fn escapes_in_a_segment_are_replaced() {
    assert_eq!(segments("a%2Fb/c%23d%3f"), vec!["a/b", "c#d?"]);
    assert_eq!(segments("100%/%zz/%4"), vec!["100%", "%zz", "%4"]);
    assert_eq!(segments("caf%C3%A9"), vec!["caf\u{e9}"]);
    assert_eq!(segments("bad%FFbyte"), vec!["bad\u{fffd}byte"]);
}

#[test]
fn a_path_is_written_with_escapes_and_slashes_between_segments() {
    let path = Path {
        segments: vec![
            "a/b".to_string(),
            "c#d?".to_string(),
            "tab\there".to_string(),
            "caf\u{e9} x".to_string(),
        ],
    };
    assert_eq!(
        path.to_text(),
        "a%2Fb/c%23d%3F/tab%09here/caf%C3%A9 x"
    );
    assert_eq!(Path { segments: vec![] }.to_text(), "");
    assert_eq!(Path { segments: vec!["one".to_string()] }.to_text(), "one");
}

#[test]
fn a_written_path_is_read_back() {
    let names = vec![
        "plain".to_string(),
        "with/slash".to_string(),
        "q?#%".to_string(),
        "\u{1f600}".to_string(),
    ];
    let text = Path { segments: names.clone() }.to_text();
    assert_eq!(text, "plain/with%2Fslash/q%3F%23%/%F0%9F%98%80");
    assert_eq!(Path::parse(&text).segments, names);
}

#[test]
fn pop_takes_the_last_name() {
    let mut path = Path::parse("a/b");
    assert_eq!(path.len(), 2);
    assert_eq!(path.pop(), Some("b".to_string()));
    assert_eq!(path.len(), 1);
    assert_eq!(path.pop(), Some("a".to_string()));
    assert_eq!(path.pop(), None);
    assert_eq!(path.len(), 0);
}

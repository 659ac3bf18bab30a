use valet::Path;

fn path(lot: &str, label: &str) -> Path {
    Path { lot: lot.to_string(), label: label.to_string() }
}

#[test]
fn test_path_parse() {
    assert_eq!(path("main", ""), Path::parse(""));
    assert_eq!(path("main", ""), Path::parse("::"));
    assert_eq!(path("lot", ""), Path::parse("lot::"));
    assert_eq!(path("main", "label"), Path::parse("label"));
    assert_eq!(path("lot", "label"), Path::parse("lot::label"));
    assert_eq!(path("lot::sublot", "label"), Path::parse("lot::sublot::label"));
}

#[test]
fn path_parse_odd_separators() {
    assert_eq!(path("a:", "b"), Path::parse("a:::b"));
    assert_eq!(path("main", ":x"), Path::parse(":x"));
    assert_eq!(path("ünï", "cödé"), Path::parse("ünï::cödé"));
}

#[test]
fn path_text() {
    assert_eq!(Path::new("lot", "label").to_text(), "lot::label");
    assert_eq!(Path::new("lot", "").to_text(), "lot");
    assert_eq!(Path::parse(&Path::new("a::b", "c").to_text()), path("a::b", "c"));
}

use blog::frontmatter::{parse_frontmatter, TextMap};

fn value(meta: &TextMap, key: &str) -> Option<String> {
    meta.get(key)
}

#[test]
fn frontmatter_entries_and_body() {
    let text = "---\ntitle: My Post\nslug: my-post\ntags: rust, notes\n---\n\nBody here.\n";
    let (meta, body) = parse_frontmatter(text);
    assert_eq!(value(&meta, "title"), Some("My Post".to_string()));
    assert_eq!(value(&meta, "slug"), Some("my-post".to_string()));
    assert_eq!(value(&meta, "tags"), Some("rust, notes".to_string()));
    assert_eq!(meta.len(), 3);
    assert_eq!(body, "Body here.\n");
}

#[test]
fn frontmatter_absent_keeps_whole_text() {
    let (meta, body) = parse_frontmatter("Just a body.\n---\nmore");
    assert_eq!(meta.len(), 0);
    assert_eq!(body, "Just a body.\n---\nmore");
}

#[test]
fn frontmatter_without_closing_fence_keeps_whole_text() {
    let text = "---\ntitle: Unclosed\nbody";
    let (meta, body) = parse_frontmatter(text);
    assert_eq!(meta.len(), 0);
    assert_eq!(body, text);
}

#[test]
fn frontmatter_later_key_wins() {
    let (meta, body) = parse_frontmatter("---\na: 1\na: 2\n---\nx");
    assert_eq!(meta.len(), 1);
    assert_eq!(value(&meta, "a"), Some("2".to_string()));
    assert_eq!(body, "x");
}

#[test]
fn frontmatter_lines_without_separator_are_skipped() {
    let (meta, _) = parse_frontmatter("---\nnocolon\nk:v\nk2:   spaced value  \n---\n");
    assert_eq!(meta.len(), 1);
    assert_eq!(value(&meta, "k"), None);
    assert_eq!(value(&meta, "k2"), Some("spaced value".to_string()));
}

#[test]
fn frontmatter_fence_inside_value_closes_block() {
    let (meta, body) = parse_frontmatter("---\ntitle: a---b\n---\nbody");
    assert_eq!(value(&meta, "title"), Some("a".to_string()));
    assert_eq!(body, "b\n---\nbody");
}

#[test]
fn frontmatter_body_gap_is_trimmed() {
    let (_, body) = parse_frontmatter("---\nk: v\n---\r\n \t\n  Text  ");
    assert_eq!(body, "Text  ");
}

#[test]
fn text_map_insert_replaces() {
    let mut m = TextMap::new();
    m.insert("a".to_string(), "1".to_string());
    m.insert("b".to_string(), "2".to_string());
    m.insert("a".to_string(), "3".to_string());
    assert_eq!(m.len(), 2);
    assert_eq!(m.get("a"), Some("3".to_string()));
    assert_eq!(m.get("b"), Some("2".to_string()));
    assert_eq!(m.get("c"), None);
}

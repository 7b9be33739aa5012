use blog::pdf::{
    build_source, escape_markup, format_diagnostics, path_within, str_lit, strip_images_prefix,
    typst_from_markdown, Diagnostic,
};
use blog::posts::Post;

fn post_with(title: &str, tags: &[&str], cover_image: &str, body_typst: &str) -> Post {
    Post {
        filename: "p.md".to_string(),
        title: title.to_string(),
        slug: "p".to_string(),
        date: "2024-01-01".to_string(),
        publish_date: "2024-01-01".to_string(),
        tags: tags.iter().map(|t| t.to_string()).collect(),
        description: "d".to_string(),
        cover_image: cover_image.to_string(),
        body_html: String::new(),
        body_typst: body_typst.to_string(),
        read_time: 3,
    }
}

fn comps(parts: &[&str]) -> Vec<String> {
    parts.iter().map(|p| p.to_string()).collect()
}

#[test]
fn markup_characters_are_escaped() {
    assert_eq!(escape_markup("a*b_[c]#$"), "a\\*b\\_\\[c\\]\\#\\$");
    assert_eq!(escape_markup("x\\y`z<@~"), "x\\\\y\\`z\\<\\@\\~");
    assert_eq!(escape_markup("plain text."), "plain text.");
}

#[test]
fn string_literals_are_escaped() {
    assert_eq!(str_lit("say \"hi\"\n\t\\\r"), "say \\\"hi\\\"\\n\\t\\\\\\r");
    assert_eq!(str_lit("ok"), "ok");
    assert!(!str_lit("a\nb").contains('\n'));
}

#[test]
fn images_prefix_is_stripped_once() {
    assert_eq!(strip_images_prefix("images/cat.png"), "cat.png");
    assert_eq!(strip_images_prefix("images/images/x"), "images/x");
    assert_eq!(strip_images_prefix("other/cat.png"), "other/cat.png");
}

#[test]
fn heading_and_emphasis() {
    assert_eq!(
        typst_from_markdown("# Title\n\nHello *world*.\n"),
        "= Title\n\nHello #emph[world].\n\n"
    );
    assert_eq!(typst_from_markdown("### Three\n"), "=== Three\n\n");
}

#[test]
fn strong_strike_and_breaks() {
    assert_eq!(typst_from_markdown("**b** ~~s~~\n"), "#strong[b] #strike[s]\n\n");
    assert_eq!(typst_from_markdown("a\nb\n"), "a b\n\n");
    assert_eq!(typst_from_markdown("a  \nb\n"), "a \\\nb\n\n");
}

#[test]
fn lists_bullet_and_ordered() {
    assert_eq!(typst_from_markdown("- a\n- b\n"), "- a\n- b\n\n");
    assert_eq!(typst_from_markdown("1. x\n2. y\n"), "+ x\n+ y\n\n");
}

#[test]
fn nested_list_is_indented() {
    assert_eq!(
        typst_from_markdown("- a\n  - b\n- c\n"),
        "- a\n  - b\n\n- c\n\n"
    );
}

#[test]
fn code_block_and_inline_code() {
    assert_eq!(
        typst_from_markdown("```rust\nfn main() {}\n```\n"),
        "#raw(block: true, lang: \"rust\", \"fn main() {}\\n\")\n\n"
    );
    assert_eq!(
        typst_from_markdown("```\nplain\n```\n"),
        "#raw(block: true, \"plain\\n\")\n\n"
    );
    assert_eq!(typst_from_markdown("use `x`\n"), "use #raw(\"x\")\n\n");
}

#[test]
fn images_and_links() {
    assert_eq!(
        typst_from_markdown("![A cat](images/cat.png)\n"),
        "#align(center)[#image(\"/content/images/cat.png\", width: 100%, alt: \"A cat\")]\n\n"
    );
    assert_eq!(
        typst_from_markdown("![](dog.png)\n"),
        "#align(center)[#image(\"/content/images/dog.png\", width: 100%)]\n\n"
    );
    assert_eq!(
        typst_from_markdown("see ![x](images/a.png)\n"),
        "see #image(\"/content/images/a.png\")\n\n"
    );
    assert_eq!(
        typst_from_markdown("[site](https://x.y)\n"),
        "#link(\"https://x.y\")[site]\n\n"
    );
}

#[test]
fn table_with_alignments() {
    assert_eq!(
        typst_from_markdown("| a | b | c |\n|:--|--:|:-:|\n| 1 | 2 | 3 |\n"),
        "#table(columns: 3, align: (left, right, center),\n  [a],\n  [b],\n  [c],\n  [1],\n  [2],\n  [3],\n)\n\n"
    );
}

#[test]
fn quote_rule_and_html() {
    assert_eq!(typst_from_markdown("> hi\n"), "#quote(block: true)[\nhi\n\n]\n\n");
    assert_eq!(
        typst_from_markdown("***\n"),
        "#align(center)[#line(length: 30%, stroke: 0.5pt + gray)]\n\n"
    );
    assert_eq!(typst_from_markdown("<div>x</div>\n"), "");
    assert_eq!(typst_from_markdown(""), "");
}

#[test]
fn source_with_one_tag_has_trailing_comma() {
    let p = post_with("T \"q\"", &["rust"], "", "Body\n\n");
    assert_eq!(
        build_source(&p),
        "#import \"/templates/blog_post.typ\": render\n#render(\n  title: \"T \\\"q\\\"\",\n  date: \"2024-01-01\",\n  read_time: 3,\n  tags: (\"rust\",),\n  description: \"d\",\n  cover_image: none,\n  body: [\nBody\n\n\n  ],\n)\n"
    );
}

#[test]
fn source_with_tags_and_cover() {
    let p = post_with("T", &["a", "b"], "c.png", "B");
    let s = build_source(&p);
    assert!(s.contains("  tags: (\"a\", \"b\"),\n"));
    assert!(s.contains("  cover_image: \"/content/images/c.png\",\n"));
    let none = post_with("T", &[], "", "B");
    assert!(build_source(&none).contains("  tags: (),\n"));
}

#[test]
fn diagnostics_are_joined_with_hints() {
    let errs = vec![
        Diagnostic { message: "bad".to_string(), hints: vec!["h1".to_string(), "h2".to_string()] },
        Diagnostic { message: "worse".to_string(), hints: vec![] },
    ];
    assert_eq!(
        format_diagnostics("compile", &errs),
        "typst compile: bad\n  hint: h1\n  hint: h2\nworse"
    );
    assert_eq!(format_diagnostics("pdf export", &vec![]), "typst pdf export: ");
    let first_empty = vec![
        Diagnostic { message: String::new(), hints: vec![] },
        Diagnostic { message: "x".to_string(), hints: vec![] },
    ];
    assert_eq!(format_diagnostics("s", &first_empty), "typst s: x");
}

#[test]
fn paths_within_root() {
    let root = comps(&["/", "srv", "blog"]);
    assert!(path_within(&comps(&["/", "srv", "blog", "content", "a.png"]), &root));
    assert!(path_within(&comps(&["/", "srv", "blog"]), &root));
    assert!(!path_within(&comps(&["/", "srv"]), &root));
    assert!(!path_within(&comps(&["/", "srv", "blogs", "x"]), &root));
}

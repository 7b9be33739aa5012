use blog::posts::{
    build_post, collect_tags, collect_years, is_markdown_file, is_published, is_published_on,
    published, published_at, related, sort_newest_first, Post,
};

fn post(slug: &str, date: &str, publish_date: &str, tags: &[&str]) -> Post {
    Post {
        filename: format!("{slug}.md"),
        title: format!("Title of {slug}"),
        slug: slug.to_string(),
        date: date.to_string(),
        publish_date: publish_date.to_string(),
        tags: tags.iter().map(|t| t.to_string()).collect(),
        description: String::new(),
        cover_image: String::new(),
        body_html: String::new(),
        body_typst: String::new(),
        read_time: 1,
    }
}

fn slugs(posts: &[Post]) -> Vec<String> {
    posts.iter().map(|p| p.slug.clone()).collect()
}

#[test]
fn published_on_compares_dates_as_text() {
    let p = post("a", "2024-05-01", "2024-05-01", &[]);
    assert!(is_published_on(&p, "2024-05-01"));
    assert!(is_published_on(&p, "2024-05-02"));
    assert!(!is_published_on(&p, "2024-04-30"));
    let undated = post("b", "", "", &[]);
    assert!(is_published_on(&undated, "0000-00-00"));
}

#[test]
fn published_at_keeps_order_and_drops_future_posts() {
    let posts = vec![
        post("new", "2024-06-01", "2030-01-01", &[]),
        post("mid", "2024-05-01", "2024-05-01", &[]),
        post("old", "2023-01-01", "2023-01-01", &[]),
    ];
    assert_eq!(slugs(&published_at(&posts, "2024-05-15")), vec!["mid", "old"]);
    assert_eq!(slugs(&published_at(&posts, "2030-01-01")), vec!["new", "mid", "old"]);
    assert!(published_at(&posts, "2000-01-01").is_empty());
}

#[test]
fn published_today_uses_the_clock() {
    let posts = vec![
        post("past", "0000-01-01", "0000-01-01", &[]),
        post("future", "9999-12-31", "9999-12-31", &[]),
    ];
    assert!(is_published(&posts[0]));
    assert!(!is_published(&posts[1]));
    assert_eq!(slugs(&published(&posts)), vec!["past"]);
}

#[test]
fn tags_are_counted_sorted_and_encoded() {
    let posts = vec![
        post("a", "2024-01-01", "2024-01-01", &["rust", "web"]),
        post("b", "2024-01-02", "2024-01-02", &["rust"]),
        post("c", "2024-01-03", "2024-01-03", &["c++", "hello world"]),
        post("d", "2024-01-04", "2024-01-04", &["Zed"]),
    ];
    let tags = collect_tags(&posts);
    let names: Vec<String> = tags.iter().map(|t| t.name.clone()).collect();
    assert_eq!(names, vec!["Zed", "c++", "hello world", "rust", "web"]);
    let counts: Vec<usize> = tags.iter().map(|t| t.count).collect();
    assert_eq!(counts, vec![1, 1, 1, 2, 1]);
    let urls: Vec<String> = tags.iter().map(|t| t.url.clone()).collect();
    assert_eq!(
        urls,
        vec![
            "/blog/tag/Zed/",
            "/blog/tag/c%2B%2B/",
            "/blog/tag/hello%20world/",
            "/blog/tag/rust/",
            "/blog/tag/web/",
        ]
    );
    for t in &tags {
        assert_eq!(t.slug, t.name);
    }
}

#[test]
fn tag_urls_encode_non_ascii_bytes() {
    let posts = vec![post("a", "2024-01-01", "2024-01-01", &["café"])];
    let tags = collect_tags(&posts);
    assert_eq!(tags.len(), 1);
    assert_eq!(tags[0].url, "/blog/tag/caf%C3%A9/");
}

#[test]
fn no_tags_give_an_empty_index() {
    let posts = vec![post("a", "2024-01-01", "2024-01-01", &[])];
    assert!(collect_tags(&posts).is_empty());
    assert!(collect_tags(&Vec::new()).is_empty());
}

#[test]
fn years_are_distinct_newest_first() {
    let posts = vec![
        post("a", "2024-01-01", "2024-01-01", &[]),
        post("b", "2023-05-05", "2023-05-05", &[]),
        post("c", "2024-06-01", "2024-06-01", &[]),
        post("d", "", "", &[]),
        post("e", "2021-02-02", "2021-02-02", &[]),
    ];
    assert_eq!(collect_years(&posts), vec!["2024", "2023", "2021"]);
}

#[test]
fn short_dates_are_their_own_year() {
    let posts = vec![
        post("a", "99", "99", &[]),
        post("b", "2024-01-01", "2024-01-01", &[]),
    ];
    assert_eq!(collect_years(&posts), vec!["99", "2024"]);
}

#[test]
fn related_ranks_by_shared_tags_then_fills() {
    let posts = vec![
        post("a", "2024-05-01", "2024-05-01", &["rust", "web"]),
        post("b", "2024-04-01", "2024-04-01", &["rust"]),
        post("c", "2024-03-01", "2024-03-01", &["web", "rust"]),
        post("d", "2024-02-01", "2024-02-01", &["go"]),
        post("e", "2024-01-01", "2024-01-01", &[]),
    ];
    let r = related(&posts[0], &posts, 3);
    assert_eq!(slugs(&r), vec!["c", "b", "d"]);
    let r = related(&posts[0], &posts, 1);
    assert_eq!(slugs(&r), vec!["c"]);
    let r = related(&posts[0], &posts, 0);
    assert!(r.is_empty());
}

#[test]
fn related_keeps_list_order_on_ties() {
    let posts = vec![
        post("a", "2024-05-01", "2024-05-01", &["x"]),
        post("b", "2024-04-01", "2024-04-01", &["x"]),
        post("c", "2024-03-01", "2024-03-01", &["x"]),
        post("d", "2024-02-01", "2024-02-01", &["x"]),
    ];
    assert_eq!(slugs(&related(&posts[0], &posts, 2)), vec!["b", "c"]);
}

#[test]
fn related_of_an_untagged_post_is_the_first_posts() {
    let posts = vec![
        post("a", "2024-05-01", "2024-05-01", &["x"]),
        post("b", "2024-04-01", "2024-04-01", &[]),
        post("c", "2024-03-01", "2024-03-01", &["y"]),
    ];
    assert_eq!(slugs(&related(&posts[1], &posts, 2)), vec!["a", "b"]);
    assert_eq!(slugs(&related(&posts[1], &posts, 10)), vec!["a", "b", "c"]);
}

#[test]
fn posts_sort_newest_first_and_stably() {
    let posts = vec![
        post("one", "2023-01-01", "2023-01-01", &[]),
        post("two", "2024-01-01", "2024-01-01", &[]),
        post("three", "2023-01-01", "2023-01-01", &[]),
        post("four", "2022-01-01", "2022-01-01", &[]),
    ];
    assert_eq!(slugs(&sort_newest_first(&posts)), vec!["two", "one", "three", "four"]);
}

#[test]
fn post_is_built_from_its_file() {
    let text = "---\ntitle: Hello\ndate: 2024-03-01\ntags: rust, , web \ndescription: About it\ncover_image: c.webp\n---\n\nOne two three.\n";
    let p = build_post("hello-world.md", text, "<p>One two three.</p>".to_string());
    assert_eq!(p.filename, "hello-world.md");
    assert_eq!(p.title, "Hello");
    assert_eq!(p.slug, "hello-world");
    assert_eq!(p.date, "2024-03-01");
    assert_eq!(p.publish_date, "2024-03-01");
    assert_eq!(p.tags, vec!["rust", "web"]);
    assert_eq!(p.description, "About it");
    assert_eq!(p.cover_image, "c.webp");
    assert_eq!(p.body_html, "<p>One two three.</p>");
    assert_eq!(p.body_typst, "One two three.\n\n");
    assert_eq!(p.read_time, 1);
}

#[test]
fn post_slug_and_publish_date_from_front_matter() {
    let text = "---\nslug: custom\ndate: 2024-01-01\npublish_date: 2024-02-01\n---\nx";
    let p = build_post("file.md", text, String::new());
    assert_eq!(p.slug, "custom");
    assert_eq!(p.date, "2024-01-01");
    assert_eq!(p.publish_date, "2024-02-01");
    assert!(p.tags.is_empty());
    assert_eq!(p.title, "");
}

#[test]
fn post_slug_drops_every_trailing_md() {
    let p = build_post("a.md.md", "no front matter", String::new());
    assert_eq!(p.slug, "a");
    assert_eq!(p.date, "");
    assert_eq!(p.publish_date, "");
}

#[test]
fn read_time_rounds_up_per_two_hundred_words() {
    let words = |n: usize| vec!["word"; n].join(" ");
    assert_eq!(build_post("a.md", &words(400), String::new()).read_time, 2);
    assert_eq!(build_post("a.md", &words(401), String::new()).read_time, 3);
    assert_eq!(build_post("a.md", &words(1), String::new()).read_time, 1);
    assert_eq!(build_post("a.md", "", String::new()).read_time, 1);
}

#[test]
fn markdown_files_are_recognised_by_extension() {
    assert!(is_markdown_file("post.md"));
    assert!(is_markdown_file("a.b.md"));
    assert!(!is_markdown_file("post.MD"));
    assert!(!is_markdown_file("post.markdown"));
    assert!(!is_markdown_file(".md"));
    assert!(!is_markdown_file("md"));
    assert!(!is_markdown_file(".."));
    assert!(!is_markdown_file("post.md.bak"));
    assert!(is_markdown_file("..md"));
}

#[test]
fn post_from_the_documented_front_matter() {
    let text = "---\ntitle: My Post\nslug: my-post\ndate: 2026-06-19\npublish_date: 2026-06-19\ntags: [rust, notes]\ndescription: A short summary used in listings and OG images.\ncover_image: my-cover.webp\n---\n\nBody Markdown follows the frontmatter.\n";
    let p = build_post("my-post.md", text, String::new());
    assert_eq!(p.title, "My Post");
    assert_eq!(p.slug, "my-post");
    assert_eq!(p.date, "2026-06-19");
    assert_eq!(p.publish_date, "2026-06-19");
    assert_eq!(p.tags, vec!["rust", "notes"]);
    assert_eq!(p.description, "A short summary used in listings and OG images.");
    assert_eq!(p.cover_image, "my-cover.webp");
    assert!(!is_published_on(&p, "2026-06-18"));
    assert!(is_published_on(&p, "2026-06-19"));
}

#[test]
fn bracketed_tags_only_when_both_brackets() {
    let p = build_post("a.md", "---\ntags: [solo\n---\n", String::new());
    assert_eq!(p.tags, vec!["[solo"]);
    let p = build_post("a.md", "---\ntags: []\n---\n", String::new());
    assert!(p.tags.is_empty());
}

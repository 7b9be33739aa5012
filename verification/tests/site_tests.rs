use blog::posts::Post;
use blog::site::{
    blog_crumbs, build_request, download_disposition, home_crumbs, home_page, live_results,
    lookup, lookup_on, matches_lowered, og_image_content, post_md_redirect_target,
    post_md_redirect, post_pdf_redirect, post_pdf_redirect_target, post_redirect, post_redirect_target, posts_in_order, random_pick, search_page, sitemap_lastmods,
    slug_index, tag_listing, tag_page, wrap_title, year_listing, year_page,
};

fn post(slug: &str, date: &str, tags: &[&str]) -> Post {
    Post {
        filename: format!("{slug}.md"),
        title: format!("Title of {slug}"),
        slug: slug.to_string(),
        date: date.to_string(),
        publish_date: date.to_string(),
        tags: tags.iter().map(|t| t.to_string()).collect(),
        description: format!("About {slug}"),
        cover_image: String::new(),
        body_html: String::new(),
        body_typst: String::new(),
        read_time: 1,
    }
}

fn titled(slug: &str, title: &str, description: &str, tags: &[&str]) -> Post {
    let mut p = post(slug, "2024-01-01", tags);
    p.title = title.to_string();
    p.description = description.to_string();
    p
}

fn slugs(posts: &[Post]) -> Vec<String> {
    posts.iter().map(|p| p.slug.clone()).collect()
}

fn sample() -> Vec<Post> {
    vec![
        post("a", "2024-06-01", &["rust"]),
        post("b", "2024-05-01", &["web"]),
        post("c", "2023-04-01", &["rust", "web"]),
        post("d", "2023-03-01", &["go"]),
        post("e", "2022-02-01", &["web"]),
        post("f", "2022-01-01", &[]),
    ]
}

#[test]
fn request_urls_from_headers() {
    let r = build_request(Some("example.com"), Some("https"), Some("/blog/?q=1"), "/blog/");
    assert_eq!(r.url, "https://example.com/blog/?q=1");
    assert_eq!(r.url_root, "https://example.com/");
    assert_eq!(r.base_url, "https://example.com/blog/");
}

#[test]
fn request_urls_default_to_localhost() {
    let r = build_request(None, None, None, "/");
    assert_eq!(r.url, "http://localhost/");
    assert_eq!(r.url_root, "http://localhost/");
    assert_eq!(r.base_url, "http://localhost/");
}

#[test]
fn breadcrumbs() {
    let h = home_crumbs();
    assert_eq!(h.len(), 1);
    assert_eq!((h[0].title.as_str(), h[0].url.as_str()), ("Home", "/"));
    let b = blog_crumbs();
    assert_eq!(b.len(), 2);
    assert_eq!((b[1].title.as_str(), b[1].url.as_str()), ("Blog", "/blog/"));
}

#[test]
fn archive_pages() {
    let t = tag_page("rust");
    assert_eq!((t.title.as_str(), t.slug.as_str(), t.description.as_str()), ("Tag: rust", "tag-rust", "Posts tagged rust"));
    let y = year_page("2024");
    assert_eq!((y.title.as_str(), y.slug.as_str(), y.description.as_str()), ("Year: 2024", "year-2024", "Posts from 2024"));
}

#[test]
fn old_addresses_redirect() {
    assert_eq!(post_redirect_target("my-post"), "/posts/my-post/");
    assert_eq!(post_pdf_redirect_target("my-post"), "/posts/my-post/pdf/");
    assert_eq!(post_md_redirect_target("my-post"), "/posts/my-post/md/");
    assert_eq!(download_disposition("my-post", "pdf"), "filename=\"my-post.pdf\"");
}

#[test]
fn tag_archive_with_extras() {
    let l = tag_listing(&sample(), "rust").expect("rust is used");
    assert_eq!(slugs(&l.posts), vec!["a", "c"]);
    assert_eq!(slugs(&l.extra_posts.expect("fewer than five")), vec!["b", "d", "e", "f"]);
    assert!(tag_listing(&sample(), "nope").is_none());
    assert!(tag_listing(&sample(), "Rust").is_none());
}

#[test]
fn tag_archive_of_five_has_no_extras() {
    let posts: Vec<Post> = (0..6)
        .map(|i| {
            let tags: &[&str] = if i < 5 { &["x"] } else { &[] };
            post(&format!("p{i}"), "2024-01-01", tags)
        })
        .collect();
    let l = tag_listing(&posts, "x").expect("x is used");
    assert_eq!(l.posts.len(), 5);
    assert!(l.extra_posts.is_none());
}

#[test]
fn year_archive() {
    let l = year_listing(&sample(), "2023").expect("2023 has posts");
    assert_eq!(slugs(&l.posts), vec!["c", "d"]);
    assert_eq!(slugs(&l.extra_posts.expect("fewer than five")), vec!["a", "b", "e", "f"]);
    assert!(year_listing(&sample(), "1999").is_none());
}

#[test]
fn random_pick_is_distinct_and_bounded() {
    let posts = sample();
    let picked = random_pick(&posts, 3);
    assert_eq!(picked.len(), 3);
    let mut s = slugs(&picked);
    s.sort();
    s.dedup();
    assert_eq!(s.len(), 3);
    assert_eq!(random_pick(&posts, 10).len(), 6);
    assert!(random_pick(&posts, 0).is_empty());
}

#[test]
fn random_pick_shuffles() {
    let posts: Vec<Post> = (0..8).map(|i| post(&format!("p{i}"), "2024-01-01", &[])).collect();
    let identity = slugs(&posts);
    let mut moved = false;
    for _ in 0..20 {
        let picked = random_pick(&posts, 8);
        let mut sorted = slugs(&picked);
        sorted.sort();
        assert_eq!(sorted, identity);
        if slugs(&picked) != identity {
            moved = true;
        }
    }
    assert!(moved);
}

#[test]
fn home_page_latest_and_others() {
    let posts = sample();
    let h = home_page(&posts);
    assert_eq!(h.latest_post.expect("posts exist").slug, "a");
    assert_eq!(h.random_blog_posts.len(), 3);
    assert!(h.random_blog_posts.iter().all(|p| p.slug != "a"));
    let empty = home_page(&Vec::new());
    assert!(empty.latest_post.is_none());
    assert!(empty.random_blog_posts.is_empty());
}

#[test]
fn home_page_drops_every_post_with_the_latest_slug() {
    let posts = vec![post("x", "2024-02-01", &[]), post("x", "2024-01-01", &[]), post("y", "2023-01-01", &[])];
    let h = home_page(&posts);
    assert_eq!(slugs(&h.random_blog_posts), vec!["y"]);
}

#[test]
fn matching_is_case_insensitive_on_the_post() {
    let p = titled("p", "Hello World", "Some Notes", &["Rust"]);
    assert!(blog::site::matches(&p, "world"));
    assert!(blog::site::matches(&p, "notes"));
    assert!(blog::site::matches(&p, "rust"));
    assert!(!blog::site::matches(&p, "World"));
    assert!(!blog::site::matches(&p, "python"));
    assert!(blog::site::matches(&p, ""));
}

#[test]
fn search_page_with_and_without_query() {
    let posts = vec![
        titled("a", "Rust tips", "", &[]),
        titled("b", "Cooking", "", &["rust"]),
        titled("c", "Gardening", "no match", &[]),
    ];
    let s = search_page(&posts, "RUST");
    assert_eq!(slugs(&s.results), vec!["a", "b"]);
    assert!(s.random_posts.is_none());
    let none = search_page(&posts, "zzz");
    assert!(none.results.is_empty());
    let empty = search_page(&posts, "");
    assert!(empty.results.is_empty());
    assert_eq!(empty.random_posts.expect("random posts").len(), 3);
}

#[test]
fn live_search_first_five() {
    let posts: Vec<Post> = (0..7).map(|i| titled(&format!("p{i}"), "Rust", "", &[])).collect();
    let hits = live_results(&posts, "rust");
    assert_eq!(hits.len(), 5);
    assert_eq!(hits[0].url, "/posts/p0/");
    assert_eq!(hits[4].url, "/posts/p4/");
    assert_eq!(hits[0].title, "Rust");
    assert!(live_results(&posts, "").is_empty());
}

#[test]
fn slug_index_takes_the_last() {
    let posts = vec![post("x", "2024-02-01", &[]), post("y", "2024-01-01", &[]), post("x", "2023-01-01", &[])];
    assert_eq!(slug_index(&posts, "x"), Some(2));
    assert_eq!(slug_index(&posts, "y"), Some(1));
    assert_eq!(slug_index(&posts, "z"), None);
}

#[test]
fn lookup_finds_only_published_posts() {
    let posts = vec![post("old", "2024-01-01", &[]), post("later", "2030-01-01", &[])];
    assert_eq!(lookup_on(&posts, "old", "2025-01-01").expect("published").slug, "old");
    assert!(lookup_on(&posts, "later", "2025-01-01").is_none());
    assert!(lookup_on(&posts, "missing", "2025-01-01").is_none());
    assert!(lookup(&posts, "old").is_some());
    let future = vec![post("f", "9999-12-31", &[])];
    assert!(lookup(&future, "f").is_none());
}

#[test]
fn title_wraps_greedily() {
    assert_eq!(
        wrap_title("The quick brown fox jumps over the lazy dog again and again", 35, 3),
        vec!["The quick brown fox jumps over the", "lazy dog again and again"]
    );
    assert_eq!(wrap_title("aaa bbb ccc", 3, 2), vec!["aaa", "bbb"]);
    assert_eq!(wrap_title("supercalifragilistic", 5, 3), vec!["supercalifragilistic"]);
    assert!(wrap_title("   ", 35, 3).is_empty());
}

#[test]
fn title_width_counts_bytes() {
    assert_eq!(wrap_title("héllo wörld", 11, 3), vec!["héllo", "wörld"]);
    assert_eq!(wrap_title("hello world", 11, 3), vec!["hello world"]);
}

#[test]
fn og_image_of_post_and_fallback() {
    let posts = vec![titled("my-post", "A short title", "", &["rust", "web"])];
    let (lines, tags) = og_image_content(&posts, "my-post.svg", "2025-01-01");
    assert_eq!(lines, vec!["A short title"]);
    assert_eq!(tags, vec!["rust", "web"]);
    let (lines, tags) = og_image_content(&posts, "my-post", "2025-01-01");
    assert_eq!(lines, vec!["A short title"]);
    assert_eq!(tags.len(), 2);
    let (lines, tags) = og_image_content(&posts, "other.svg", "2025-01-01");
    assert_eq!(lines, vec!["Isaac Bythewood's Blog"]);
    assert!(tags.is_empty());
}

#[test]
fn sitemap_dates_are_the_newest() {
    let posts = vec![
        post("a", "2024-03-01", &["rust"]),
        post("b", "2024-05-01", &["rust", "web"]),
        post("c", "2023-01-01", &["web"]),
        post("d", "", &["go"]),
    ];
    let (tags, years) = sitemap_lastmods(&posts);
    assert_eq!(tags.get("rust"), Some("2024-05-01".to_string()));
    assert_eq!(tags.get("web"), Some("2024-05-01".to_string()));
    assert_eq!(tags.get("go"), Some(String::new()));
    assert_eq!(tags.len(), 3);
    assert_eq!(years.get("2024"), Some("2024-05-01".to_string()));
    assert_eq!(years.get("2023"), Some("2023-01-01".to_string()));
    assert_eq!(years.len(), 2);
}

#[test]
fn lowered_texts_match_a_needle() {
    let tags = vec!["rust".to_string(), "web dev".to_string()];
    assert!(matches_lowered("hello", "notes", &tags, "dev"));
    assert!(matches_lowered("hello", "notes", &tags, "ell"));
    assert!(matches_lowered("hello", "notes", &tags, "ote"));
    assert!(!matches_lowered("hello", "notes", &tags, "Hello"));
    assert!(!matches_lowered("", "", &vec![], "x"));
}

#[test]
fn posts_in_a_given_order() {
    let posts = sample();
    assert_eq!(slugs(&posts_in_order(&posts, &vec![5, 0, 2], 2)), vec!["f", "a"]);
    assert_eq!(slugs(&posts_in_order(&posts, &vec![3, 1], 10)), vec!["d", "b"]);
    assert!(posts_in_order(&posts, &vec![1, 2], 0).is_empty());
}

#[test]
fn og_image_hides_unpublished_post() {
    let mut p = titled("soon", "Secret title", "", &["hidden"]);
    p.publish_date = "2030-01-01".to_string();
    let posts = vec![p];
    let (lines, tags) = og_image_content(&posts, "soon.svg", "2025-01-01");
    assert_eq!(lines, vec!["Isaac Bythewood's Blog"]);
    assert!(tags.is_empty());
    let (lines, tags) = og_image_content(&posts, "soon.svg", "2030-01-01");
    assert_eq!(lines, vec!["Secret title"]);
    assert_eq!(tags, vec!["hidden"]);
}

#[test]
fn old_addresses_redirect_permanently() {
    let r = post_redirect("my-post");
    assert_eq!((r.status, r.location.as_str()), (301, "/posts/my-post/"));
    let r = post_pdf_redirect("my-post");
    assert_eq!((r.status, r.location.as_str()), (308, "/posts/my-post/pdf/"));
    let r = post_md_redirect("my-post");
    assert_eq!((r.status, r.location.as_str()), (308, "/posts/my-post/md/"));
}

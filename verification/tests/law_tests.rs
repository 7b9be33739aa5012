use blog::pdf::str_lit;
use blog::posts::{
    build_post, collect_tags, collect_years, is_published_on, published_at, related, sort_newest_first, Post,
};
use blog::site::{
    live_results, lookup_on, og_image_content, search_page, sitemap_lastmods, tag_listing, wrap_title,
    year_listing,
};

fn post(slug: &str, date: &str, publish_date: &str, tags: &[&str]) -> Post {
    Post {
        filename: format!("{slug}.md"),
        title: format!("Post {slug}"),
        slug: slug.to_string(),
        date: date.to_string(),
        publish_date: publish_date.to_string(),
        tags: tags.iter().map(|t| t.to_string()).collect(),
        description: String::new(),
        cover_image: String::new(),
        body_html: String::new(),
        body_typst: String::new(),
        read_time: 1,
    }
}

fn posts() -> Vec<Post> {
    vec![
        post("a", "2024-06-01", "2024-06-01", &["rust", "web"]),
        post("b", "2024-05-01", "2031-01-01", &["rust"]),
        post("c", "2023-04-01", "2023-04-01", &["web"]),
        post("d", "2025-03-01", "2025-03-01", &["go", "rust"]),
        post("e", "2022-02-01", "2022-02-01", &[]),
    ]
}

#[test]
fn law_publication_is_permanent() {
    for p in &posts() {
        for (day, later) in [("2024-01-01", "2024-06-01"), ("2025-03-01", "2031-01-01")] {
            if is_published_on(p, day) {
                assert!(is_published_on(p, later));
            }
        }
    }
}

#[test]
fn law_published_are_exactly_the_due_posts() {
    let all = posts();
    let day = "2024-12-31";
    let got: Vec<String> = published_at(&all, day).iter().map(|p| p.slug.clone()).collect();
    let want: Vec<String> = all.iter().filter(|p| p.publish_date.as_str() <= day).map(|p| p.slug.clone()).collect();
    assert_eq!(got, want);
    assert_eq!(got, vec!["a", "c", "e"]);
}

#[test]
fn law_lookup_finds_only_published() {
    let all = posts();
    assert!(lookup_on(&all, "b", "2024-12-31").is_none());
    let found = lookup_on(&all, "a", "2024-12-31").expect("published");
    assert_eq!(found.slug, "a");
    assert!(is_published_on(&found, "2024-12-31"));
}

#[test]
fn law_read_time_is_positive() {
    assert_eq!(build_post("x.md", "---\ntitle: t\n---\n", String::new()).read_time, 1);
}

#[test]
fn law_string_literal_stays_on_one_line() {
    let s = str_lit("a\"b\nc\rd\te");
    assert!(!s.contains('\n') && !s.contains('\r') && !s.contains('\t'));
    let chars: Vec<char> = s.chars().collect();
    for (i, c) in chars.iter().enumerate() {
        if *c == '"' {
            assert!(i > 0 && chars[i - 1] == '\\');
        }
    }
}

#[test]
fn law_newest_first_is_sorted() {
    let sorted = sort_newest_first(&posts());
    assert_eq!(sorted.len(), 5);
    for w in sorted.windows(2) {
        assert!(w[1].date <= w[0].date);
    }
}

#[test]
fn law_related_excludes_the_post_itself() {
    let all = posts();
    for count in 0..7 {
        let r = related(&all[0], &all, count);
        assert!(r.len() <= count);
        assert!(r.iter().all(|p| p.slug != "a"));
    }
}

#[test]
fn law_tag_count_is_archive_size() {
    let all = posts();
    for entry in collect_tags(&all) {
        let listing = tag_listing(&all, &entry.name).expect("tag is used");
        assert_eq!(listing.posts.len(), entry.count);
    }
}

#[test]
fn law_wrapped_title_fits() {
    let title = "An extraordinarily-long-hyphenated-word and some short words after it";
    let lines = wrap_title(title, 20, 3);
    assert!(lines.len() <= 3);
    let words: Vec<&str> = title.split_whitespace().collect();
    for l in &lines {
        assert!(!l.is_empty());
        assert!(l.len() <= 20 || words.contains(&l.as_str()));
    }
}

#[test]
fn law_search_hits_are_exactly_the_matches() {
    let all = posts();
    let page = search_page(&all, "RUST");
    let want: Vec<String> = all.iter().filter(|p| blog::site::matches(p, "rust")).map(|p| p.slug.clone()).collect();
    let got: Vec<String> = page.results.iter().map(|p| p.slug.clone()).collect();
    assert_eq!(got, want);
    let live = live_results(&all, "RUST");
    assert!(live.len() <= 5);
    for (hit, p) in live.iter().zip(page.results.iter()) {
        assert_eq!(hit.title, p.title);
    }
}

#[test]
fn law_archive_selects_exactly() {
    let all = posts();
    let l = year_listing(&all, "2024").expect("2024 has posts");
    assert!(l.posts.iter().all(|p| p.date.starts_with("2024")));
    assert_eq!(l.posts.len(), all.iter().filter(|p| p.date.starts_with("2024")).count());
    let extra = l.extra_posts.expect("fewer than five");
    assert!(extra.len() <= 4);
    assert!(extra.iter().all(|p| !p.date.starts_with("2024")));
    assert!(tag_listing(&all, "none").is_none());
}

#[test]
fn law_lastmod_is_the_newest_date() {
    let all = posts();
    let (tags, _) = sitemap_lastmods(&all);
    let rust = tags.get("rust").expect("rust is used");
    for p in &all {
        if p.tags.iter().any(|t| t == "rust") {
            assert!(p.date <= rust);
        }
    }
    assert_eq!(rust, "2025-03-01");
}

#[test]
fn law_og_image_hides_unpublished() {
    let all = posts();
    let (lines, tags) = og_image_content(&all, "b.svg", "2024-12-31");
    let (unknown_lines, unknown_tags) = og_image_content(&all, "nothing.svg", "2024-12-31");
    assert_eq!(lines, unknown_lines);
    assert_eq!(tags, unknown_tags);
}

#[test]
fn law_years_unchanged_by_order_and_known_years() {
    let all = posts();
    let mut reordered: Vec<Post> = all.iter().rev().map(|p| p.duplicate()).collect();
    assert_eq!(collect_years(&reordered), collect_years(&all));
    reordered.push(post("f", "", "", &[]));
    reordered.push(post("g", "2023-12-12", "2023-12-12", &[]));
    assert_eq!(collect_years(&reordered), collect_years(&all));
}

#[test]
fn law_shorter_needle_keeps_hit() {
    for p in &posts() {
        if blog::site::matches(p, "post a") {
            assert!(blog::site::matches(p, "post"));
            assert!(blog::site::matches(p, "a"));
        }
    }
    let mut upper = post("A", "2024-01-01", "2024-01-01", &["RUST"]);
    upper.title = "POST A".to_string();
    assert_eq!(blog::site::matches(&upper, "rust"), blog::site::matches(&posts()[0], "rust"));
    assert_eq!(blog::site::matches(&upper, "post a"), blog::site::matches(&posts()[0], "post a"));
}

fn unescape(t: &str) -> String {
    let mut out = String::new();
    let mut it = t.chars();
    while let Some(c) = it.next() {
        if c == '\\' {
            match it.next() {
                Some('n') => out.push('\n'),
                Some('r') => out.push('\r'),
                Some('t') => out.push('\t'),
                Some(d) => out.push(d),
                None => out.push('\\'),
            }
        } else {
            out.push(c);
        }
    }
    out
}

#[test]
fn law_string_literal_round_trip() {
    for s in ["", "plain", "a\"b\\c\nd\re\tf", "\\\\\"\"", "tail\\"] {
        assert_eq!(unescape(&str_lit(s)), s);
    }
    assert_eq!(str_lit("nothing special here"), "nothing special here");
}

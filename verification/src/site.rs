//! The pages of the site: what each route shows, decided from the posts and
//! the request, without the rendering.
use vstd::prelude::*;
use crate::frontmatter::TextMap;
use crate::posts::{
    clock_day, cut_ok, year_of, is_published_on, post_views, posts_at, prefix, published_on, today, Post, PostView,
    views_of_strings,
};
use crate::text::{
    byte_len, byte_len_wide, chars_eq, chars_le, chars_of, contains_chars, lemma_seq_le_total,
    occurs, push_str, seq_lt, slice, starts_with, starts_with_chars, string_of, strip_suffix,
    strip_suffix_chars, views, words, words_of,
};

verus! {

/// The URLs of a request, as the templates see them.
pub struct RequestCtx {
    pub url: String,
    pub url_root: String,
    pub base_url: String,
}

/// `value`, or `default` when there is none.
pub open spec fn or_default(value: Option<Seq<char>>, default: Seq<char>) -> Seq<char> {
    match value {
        Some(v) => v,
        None => default,
    }
}

/// The views of an optional string slice.
pub open spec fn opt_view(o: Option<&str>) -> Option<Seq<char>> {
    match o {
        Some(s) => Some(s@),
        None => None,
    }
}

/// Builds the request URLs from the `Host` and `X-Forwarded-Proto` headers
/// (when present and readable), the path with its query, and the path.
pub fn build_request(
    host: Option<&str>,
    scheme: Option<&str>,
    path_and_query: Option<&str>,
    path: &str,
) -> (r: RequestCtx)
    ensures
        ({
            let origin = or_default(opt_view(scheme), "http"@) + "://"@ + or_default(
                opt_view(host),
                "localhost"@,
            );
            &&& r.url_root@ == origin + "/"@
            &&& r.url@ == origin + or_default(opt_view(path_and_query), "/"@)
            &&& r.base_url@ == origin + path@
        }),
{
    let h = match host {
        Some(h) => h,
        None => "localhost",
    };
    let s = match scheme {
        Some(s) => s,
        None => "http",
    };
    let pq = match path_and_query {
        Some(p) => p,
        None => "/",
    };
    let mut origin = String::new();
    push_str(&mut origin, s);
    push_str(&mut origin, "://");
    push_str(&mut origin, h);
    let mut url_root = origin.clone();
    push_str(&mut url_root, "/");
    let mut url = origin.clone();
    push_str(&mut url, pq);
    let mut base_url = origin;
    push_str(&mut base_url, path);
    RequestCtx { url, url_root, base_url }
}

/// A link in the breadcrumb trail.
pub struct Crumb {
    pub title: String,
    pub url: String,
}

fn crumb(title: &str, url: &str) -> (r: Crumb)
    ensures
        r.title@ == title@,
        r.url@ == url@,
{
    Crumb { title: String::from_str(title), url: String::from_str(url) }
}

/// The trail of the pages directly under the home page.
pub fn home_crumbs() -> (r: Vec<Crumb>)
    ensures
        r.len() == 1,
        r@[0].title@ == "Home"@ && r@[0].url@ == "/"@,
{
    let mut v: Vec<Crumb> = Vec::new();
    v.push(crumb("Home", "/"));
    v
}

/// The trail of the pages under the blog index.
pub fn blog_crumbs() -> (r: Vec<Crumb>)
    ensures
        r.len() == 2,
        r@[0].title@ == "Home"@ && r@[0].url@ == "/"@,
        r@[1].title@ == "Blog"@ && r@[1].url@ == "/blog/"@,
{
    let mut v: Vec<Crumb> = Vec::new();
    v.push(crumb("Home", "/"));
    v.push(crumb("Blog", "/blog/"));
    v
}

/// The title, slug and description of a page.
pub struct PageMeta {
    pub title: String,
    pub slug: String,
    pub description: String,
}

fn concat2(a: &str, b: &str) -> (r: String)
    ensures
        r@ == a@ + b@,
{
    let mut s = String::new();
    push_str(&mut s, a);
    push_str(&mut s, b);
    s
}

fn concat3(a: &str, b: &str, c: &str) -> (r: String)
    ensures
        r@ == a@ + b@ + c@,
{
    let mut s = String::new();
    push_str(&mut s, a);
    push_str(&mut s, b);
    push_str(&mut s, c);
    s
}

/// The page of the archive of a tag.
pub fn tag_page(tag: &str) -> (r: PageMeta)
    ensures
        r.title@ == "Tag: "@ + tag@,
        r.slug@ == "tag-"@ + tag@,
        r.description@ == "Posts tagged "@ + tag@,
{
    PageMeta {
        title: concat2("Tag: ", tag),
        slug: concat2("tag-", tag),
        description: concat2("Posts tagged ", tag),
    }
}

/// The page of the archive of a year.
pub fn year_page(year: &str) -> (r: PageMeta)
    ensures
        r.title@ == "Year: "@ + year@,
        r.slug@ == "year-"@ + year@,
        r.description@ == "Posts from "@ + year@,
{
    PageMeta {
        title: concat2("Year: ", year),
        slug: concat2("year-", year),
        description: concat2("Posts from ", year),
    }
}

/// Where the old `/blog/<slug>/` address of a post redirects to.
pub fn post_redirect_target(slug: &str) -> (r: String)
    ensures
        r@ == "/posts/"@ + slug@ + "/"@,
{
    concat3("/posts/", slug, "/")
}

/// Where the old `/blog/<slug>/pdf/` address of a post redirects to.
pub fn post_pdf_redirect_target(slug: &str) -> (r: String)
    ensures
        r@ == "/posts/"@ + slug@ + "/pdf/"@,
{
    concat3("/posts/", slug, "/pdf/")
}

/// Where the old `/blog/<slug>/md/` address of a post redirects to.
pub fn post_md_redirect_target(slug: &str) -> (r: String)
    ensures
        r@ == "/posts/"@ + slug@ + "/md/"@,
{
    concat3("/posts/", slug, "/md/")
}

/// A redirect: the HTTP status and the address to go to.
pub struct RedirectTo {
    pub status: u16,
    pub location: String,
}

/// The permanent (301) redirect of the old `/blog/<slug>/` address of a post.
pub fn post_redirect(slug: &str) -> (r: RedirectTo)
    ensures
        r.status == 301,
        r.location@ == "/posts/"@ + slug@ + "/"@,
{
    RedirectTo { status: 301, location: post_redirect_target(slug) }
}

/// The permanent redirect (308, which keeps the method) of the old
/// `/blog/<slug>/pdf/` address.
pub fn post_pdf_redirect(slug: &str) -> (r: RedirectTo)
    ensures
        r.status == 308,
        r.location@ == "/posts/"@ + slug@ + "/pdf/"@,
{
    RedirectTo { status: 308, location: post_pdf_redirect_target(slug) }
}

/// The permanent redirect (308, which keeps the method) of the old
/// `/blog/<slug>/md/` address.
pub fn post_md_redirect(slug: &str) -> (r: RedirectTo)
    ensures
        r.status == 308,
        r.location@ == "/posts/"@ + slug@ + "/md/"@,
{
    RedirectTo { status: 308, location: post_md_redirect_target(slug) }
}

/// The `Content-Disposition` value of a download of a post:
/// `filename="<slug>.<ext>"`.
pub fn download_disposition(slug: &str, ext: &str) -> (r: String)
    ensures
        r@ == "filename=\""@ + slug@ + "."@ + ext@ + "\""@,
{
    let mut s = String::new();
    push_str(&mut s, "filename=\"");
    push_str(&mut s, slug);
    push_str(&mut s, ".");
    push_str(&mut s, ext);
    push_str(&mut s, "\"");
    s
}

// ---------------------------------------------------------------------------
// Tag and year archives.

/// The posts of an archive and, when there are fewer than five of them, up
/// to four other posts to show below.
pub struct Listing {
    pub posts: Vec<Post>,
    pub extra_posts: Option<Vec<Post>>,
}

/// The post carries the tag.
pub open spec fn has_tag(p: PostView, tag: Seq<char>) -> bool {
    p.tags.contains(tag)
}

/// The post's date starts with the year.
pub open spec fn in_year(p: PostView, year: Seq<char>) -> bool {
    starts_with(p.date, year)
}

/// What an archive shows of the published posts `ps` for a selection `sel`:
/// nothing (a not-found page) when no post is selected; else the selected
/// posts and, when fewer than five, the first four of the others.
pub open spec fn archive(ps: Seq<PostView>, sel: spec_fn(PostView) -> bool) -> Option<(Seq<PostView>, Option<Seq<PostView>>)> {
    let chosen = ps.filter(sel);
    if chosen.len() == 0 {
        None
    } else {
        Some((chosen, if chosen.len() < 5 {
            Some(prefix(ps.filter(|p: PostView| !sel(p)), 4))
        } else {
            None
        }))
    }
}

/// The selection of the posts carrying a tag.
pub open spec fn tag_sel(tag: Seq<char>) -> spec_fn(PostView) -> bool {
    |p: PostView| has_tag(p, tag)
}

/// The selection of the posts dated in a year.
pub open spec fn year_sel(year: Seq<char>) -> spec_fn(PostView) -> bool {
    |p: PostView| in_year(p, year)
}

/// The listing `l` is what [`archive`] gives.
pub open spec fn listing_is(l: Option<Listing>, a: Option<(Seq<PostView>, Option<Seq<PostView>>)>) -> bool {
    match (l, a) {
        (None, None) => true,
        (Some(l), Some((chosen, extra))) => post_views(l.posts@) == chosen && match (l.extra_posts, extra) {
            (None, None) => true,
            (Some(e), Some(x)) => post_views(e@) == x,
            _ => false,
        },
        _ => false,
    }
}

fn tag_holds(p: &Post, tag: &Vec<char>) -> (r: bool)
    ensures
        r == has_tag(p@, tag@),
{
    let mut i: usize = 0;
    while i < p.tags.len()
        invariant
            i <= p.tags.len(),
            forall|j: int| 0 <= j < i ==> p.tags@[j]@ != tag@,
        decreases p.tags.len() - i,
    {
        if chars_eq(&chars_of(p.tags[i].as_str()), tag) {
            assert(p@.tags[i as int] == tag@);
            return true;
        }
        i += 1;
    }
    assert forall|j: int| 0 <= j < p@.tags.len() implies p@.tags[j] != tag@ by {
        assert(p@.tags[j] == p.tags@[j]@);
    }
    false
}

fn year_holds(p: &Post, year: &Vec<char>) -> (r: bool)
    ensures
        r == in_year(p@, year@),
{
    starts_with_chars(&chars_of(p.date.as_str()), year)
}

/// The posts for which the selection is `want`, and at most `limit` of them.
fn select(posts: &Vec<Post>, key: &Vec<char>, by_tag: bool, want: bool, limit: usize) -> (r: Vec<Post>)
    ensures
        ({
            let sel = if by_tag { tag_sel(key@) } else { year_sel(key@) };
            post_views(r@) == prefix(post_views(posts@).filter(|p: PostView| sel(p) == want), limit as int)
        }),
{
    let ghost ps = post_views(posts@);
    let ghost sel = if by_tag { tag_sel(key@) } else { year_sel(key@) };
    let ghost pred = |p: PostView| sel(p) == want;
    let mut r: Vec<Post> = Vec::new();
    let mut i: usize = 0;
    assert(ps.take(0) =~= seq![]);
    reveal_with_fuel(Seq::filter, 1);
    while i < posts.len() && r.len() < limit
        invariant
            i <= posts.len(),
            ps == post_views(posts@),
            sel == (if by_tag { tag_sel(key@) } else { year_sel(key@) }),
            pred == (|p: PostView| sel(p) == want),
            r.len() <= limit,
            post_views(r@) == ps.take(i as int).filter(pred),
        decreases posts.len() - i,
    {
        assert(ps.take(i + 1).drop_last() =~= ps.take(i as int));
        reveal_with_fuel(Seq::filter, 1);
        let holds = if by_tag { tag_holds(&posts[i], key) } else { year_holds(&posts[i], key) };
        if holds == want {
            let ghost o = post_views(r@);
            r.push(posts[i].duplicate());
            assert(post_views(r@) =~= o.push(ps[i as int]));
        }
        i += 1;
    }
    proof {
        let f = ps.filter(pred);
        assert(ps =~= ps.take(i as int) + ps.skip(i as int));
        Seq::filter_distributes_over_add(ps.take(i as int), ps.skip(i as int), pred);
        if r.len() < limit {
            assert(i == posts.len());
            assert(ps.skip(i as int) =~= seq![]);
            assert(ps.skip(i as int).filter(pred) =~= seq![]);
            assert(f =~= ps.take(i as int).filter(pred));
        } else {
            assert(f.take(limit as int) =~= ps.take(i as int).filter(pred));
        }
    }
    r
}

fn archive_of(published: &Vec<Post>, key: &Vec<char>, by_tag: bool) -> (r: Option<Listing>)
    ensures
        listing_is(r, archive(post_views(published@), if by_tag { tag_sel(key@) } else { year_sel(key@) })),
{
    let ghost ps = post_views(published@);
    let ghost sel = if by_tag { tag_sel(key@) } else { year_sel(key@) };
    let chosen = select(published, key, by_tag, true, published.len());
    proof {
        reveal_with_fuel(Seq::filter, 1);
        ps.lemma_filter_len(|p: PostView| sel(p) == true);
        assert((|p: PostView| sel(p) == true) =~= sel);
        assert(prefix(ps.filter(sel), published.len() as int) == ps.filter(sel));
    }
    if chosen.len() == 0 {
        return None;
    }
    let extra = if chosen.len() < 5 {
        let others = select(published, key, by_tag, false, 4);
        proof {
            assert((|p: PostView| sel(p) == false) =~= (|p: PostView| !sel(p)));
        }
        Some(others)
    } else {
        None
    };
    Some(Listing { posts: chosen, extra_posts: extra })
}

/// The archive of a tag among the published posts; `None` when no post
/// carries it.
pub fn tag_listing(published: &Vec<Post>, tag: &str) -> (r: Option<Listing>)
    ensures
        listing_is(r, archive(post_views(published@), tag_sel(tag@))),
{
    archive_of(published, &chars_of(tag), true)
}

/// The archive of a year among the published posts; `None` when no post is
/// dated in it.
pub fn year_listing(published: &Vec<Post>, year: &str) -> (r: Option<Listing>)
    ensures
        listing_is(r, archive(post_views(published@), year_sel(year@))),
{
    archive_of(published, &chars_of(year), false)
}

// ---------------------------------------------------------------------------
// Random picks.

/// rand's `SliceRandom::shuffle` with the thread-local generator: the items
/// are permuted (a Fisher-Yates shuffle of swaps); which permutation comes
/// out depends on chance.
#[verifier::external_body]
fn shuffle(v: &mut Vec<usize>)
    ensures
        final(v)@.to_multiset() == old(v)@.to_multiset(),
{
    rand::seq::SliceRandom::shuffle(v.as_mut_slice(), &mut rand::thread_rng());
}

/// `idx` picks `min(k, n)` distinct positions below `n`.
pub open spec fn is_pick(idx: Seq<usize>, n: nat, k: nat) -> bool {
    &&& idx.len() == if k < n { k } else { n }
    &&& idx.no_duplicates()
    &&& forall|j: int| 0 <= j < idx.len() ==> #[trigger] idx[j] < n
}

/// Up to `k` of the posts, distinct positions chosen at random.
pub fn random_pick(posts: &Vec<Post>, k: usize) -> (r: Vec<Post>)
    ensures
        exists|idx: Seq<usize>| is_pick(idx, posts.len() as nat, k as nat)
            && post_views(r@) == idx.map_values(|i: usize| post_views(posts@)[i as int]),
{
    let n = posts.len();
    let mut all: Vec<usize> = Vec::new();
    let mut i: usize = 0;
    while i < n
        invariant
            i <= n,
            all.len() == i,
            forall|j: int| 0 <= j < i ==> #[trigger] all@[j] == j,
        decreases n - i,
    {
        all.push(i);
        i += 1;
    }
    let ghost before = all@;
    proof {
        assert(before.no_duplicates());
        before.lemma_multiset_has_no_duplicates();
    }
    shuffle(&mut all);
    proof {
        broadcast use vstd::seq_lib::group_to_multiset_ensures;
        let s = all@;
        assert forall|x: usize| s.to_multiset().contains(x) implies s.to_multiset().count(x) == 1 by {
            assert(before.to_multiset().contains(x));
        }
        s.lemma_multiset_has_no_duplicates_conv();
        assert forall|j: int| 0 <= j < s.len() implies #[trigger] s[j] < n by {
            assert(s.contains(s[j]));
            assert(s.to_multiset().count(s[j]) > 0);
            assert(before.to_multiset().count(s[j]) > 0);
            assert(before.contains(s[j]));
        }
        assert(s.len() == before.len()) by {
            assert(s.len() == s.to_multiset().len());
            assert(before.len() == before.to_multiset().len());
        }
    }
    let r = posts_in_order(posts, &all, k);
    proof {
        let idx = prefix(all@, k as int);
        assert forall|a: int, b: int| 0 <= a < idx.len() && 0 <= b < idx.len() && a != b implies idx[a] != idx[b] by {
            assert(all@[a] != all@[b]);
        }
        assert forall|q: int| 0 <= q < idx.len() implies #[trigger] idx[q] < n by {
            assert(idx[q] == all@[q]);
        }
        assert(is_pick(idx, posts.len() as nat, k as nat));
    }
    r
}

/// The posts at the first `k` positions of `order` (at all of its positions
/// when it has fewer), in that order.
pub fn posts_in_order(posts: &Vec<Post>, order: &Vec<usize>, k: usize) -> (r: Vec<Post>)
    requires
        forall|j: int| 0 <= j < order.len() ==> #[trigger] order@[j] < posts.len(),
    ensures
        post_views(r@) == prefix(order@, k as int).map_values(|i: usize| post_views(posts@)[i as int]),
{
    let mut idx: Vec<usize> = Vec::new();
    let mut j: usize = 0;
    while j < order.len() && j < k
        invariant
            j <= order.len(),
            j <= k,
            idx@ == order@.take(j as int),
        decreases order.len() - j,
    {
        idx.push(order[j]);
        assert(idx@ =~= order@.take(j + 1));
        j += 1;
    }
    if j == order.len() {
        assert(order@.take(j as int) =~= order@);
    }
    assert forall|q: int| 0 <= q < idx.len() implies idx@[q] < posts.len() by {
        assert(idx@[q] == order@[q]);
    }
    let r = posts_at(posts, &idx);
    assert(post_views(r@) =~= prefix(order@, k as int).map_values(|i: usize| post_views(posts@)[i as int]));
    r
}

// ---------------------------------------------------------------------------
// The home page.

/// What the home page shows: the newest post and up to three others.
pub struct HomePage {
    pub latest_post: Option<Post>,
    pub random_blog_posts: Vec<Post>,
}

/// The published posts other than those with the slug of the newest one.
pub open spec fn home_rest(ps: Seq<PostView>) -> Seq<PostView> {
    if ps.len() == 0 {
        seq![]
    } else {
        ps.filter(|p: PostView| p.slug != ps[0].slug)
    }
}

fn without_slug(posts: &Vec<Post>, slug: &Vec<char>) -> (r: Vec<Post>)
    ensures
        post_views(r@) == post_views(posts@).filter(|p: PostView| p.slug != slug@),
{
    let ghost ps = post_views(posts@);
    let ghost pred = |p: PostView| p.slug != slug@;
    let mut r: Vec<Post> = Vec::new();
    let mut i: usize = 0;
    assert(ps.take(0) =~= seq![]);
    reveal_with_fuel(Seq::filter, 1);
    while i < posts.len()
        invariant
            i <= posts.len(),
            ps == post_views(posts@),
            pred == (|p: PostView| p.slug != slug@),
            post_views(r@) == ps.take(i as int).filter(pred),
        decreases posts.len() - i,
    {
        assert(ps.take(i + 1).drop_last() =~= ps.take(i as int));
        reveal_with_fuel(Seq::filter, 1);
        if !chars_eq(&chars_of(posts[i].slug.as_str()), slug) {
            let ghost o = post_views(r@);
            r.push(posts[i].duplicate());
            assert(post_views(r@) =~= o.push(ps[i as int]));
        }
        i += 1;
    }
    assert(ps.take(posts.len() as int) =~= ps);
    r
}

/// The home page of the published posts: the first (newest) post, and up
/// to three of the others at random.
pub fn home_page(published: &Vec<Post>) -> (r: HomePage)
    ensures
        match r.latest_post {
            Some(p) => published.len() > 0 && p@ == published@[0]@,
            None => published.len() == 0,
        },
        exists|idx: Seq<usize>| #[trigger] is_pick(idx, home_rest(post_views(published@)).len(), 3)
            && post_views(r.random_blog_posts@) == idx.map_values(
            |i: usize| home_rest(post_views(published@))[i as int],
        ),
{
    let ghost ps = post_views(published@);
    if published.len() == 0 {
        let none: Vec<Post> = Vec::new();
        let picked = random_pick(&none, 3);
        assert(post_views(none@) =~= home_rest(ps));
        return HomePage { latest_post: None, random_blog_posts: picked };
    }
    let latest = published[0].duplicate();
    let rest = without_slug(published, &chars_of(latest.slug.as_str()));
    assert(post_views(rest@) =~= home_rest(ps));
    let picked = random_pick(&rest, 3);
    HomePage { latest_post: Some(latest), random_blog_posts: picked }
}

// ---------------------------------------------------------------------------
// Search.

/// Unicode lower case of a string, as `str::to_lowercase` gives it.
pub uninterp spec fn lowercase(s: Seq<char>) -> Seq<char>;

/// `str::to_lowercase`; its result is named, not stated.
#[verifier::external_body]
fn to_lowercase(s: &str) -> (r: String)
    ensures
        r@ == lowercase(s@),
{
    s.to_lowercase()
}

/// A post matches a lower-cased needle when its title, its description or
/// one of its tags, lower-cased, contains it.
pub open spec fn post_matches(p: PostView, needle: Seq<char>) -> bool {
    ||| occurs(lowercase(p.title), needle)
    ||| occurs(lowercase(p.description), needle)
    ||| exists|i: int| 0 <= i < p.tags.len() && occurs(lowercase(#[trigger] p.tags[i]), needle)
}

/// A title, a description and tags, already lower-cased, match a needle
/// when one of them contains it.
pub open spec fn lowered_matches(title: Seq<char>, description: Seq<char>, tags: Seq<Seq<char>>, needle: Seq<char>) -> bool {
    ||| occurs(title, needle)
    ||| occurs(description, needle)
    ||| exists|i: int| 0 <= i < tags.len() && occurs(#[trigger] tags[i], needle)
}

/// Whether lower-cased texts of a post match a lower-cased needle.
pub fn matches_lowered(title: &str, description: &str, tags: &Vec<String>, needle: &str) -> (r: bool)
    ensures
        r == lowered_matches(title@, description@, views_of_strings(tags@), needle@),
{
    let n = chars_of(needle);
    if contains_chars(&chars_of(title), &n) {
        return true;
    }
    if contains_chars(&chars_of(description), &n) {
        return true;
    }
    let ghost tv = views_of_strings(tags@);
    let mut i: usize = 0;
    while i < tags.len()
        invariant
            i <= tags.len(),
            n@ == needle@,
            tv == views_of_strings(tags@),
            forall|j: int| 0 <= j < i ==> !occurs(#[trigger] tv[j], needle@),
        decreases tags.len() - i,
    {
        assert(tv[i as int] == tags@[i as int]@);
        if contains_chars(&chars_of(tags[i].as_str()), &n) {
            return true;
        }
        i += 1;
    }
    false
}

/// Whether a post matches a lower-cased search needle.
pub fn matches(post: &Post, needle_lower: &str) -> (r: bool)
    ensures
        r == post_matches(post@, needle_lower@),
{
    let title = to_lowercase(post.title.as_str());
    let description = to_lowercase(post.description.as_str());
    let mut tags: Vec<String> = Vec::new();
    let mut i: usize = 0;
    while i < post.tags.len()
        invariant
            i <= post.tags.len(),
            tags.len() == i,
            forall|j: int| 0 <= j < i ==> #[trigger] tags@[j]@ == lowercase(post@.tags[j]),
        decreases post.tags.len() - i,
    {
        assert(post@.tags[i as int] == post.tags@[i as int]@);
        tags.push(to_lowercase(post.tags[i].as_str()));
        i += 1;
    }
    let r = matches_lowered(title.as_str(), description.as_str(), &tags, needle_lower);
    proof {
        let tv = views_of_strings(tags@);
        assert forall|j: int| 0 <= j < tv.len() implies #[trigger] tv[j] == lowercase(post@.tags[j]) by {
            assert(tv[j] == tags@[j]@);
        }
        if r && !occurs(title@, needle_lower@) && !occurs(description@, needle_lower@) {
            let j = choose|j: int| 0 <= j < tv.len() && occurs(#[trigger] tv[j], needle_lower@);
            assert(occurs(lowercase(post@.tags[j]), needle_lower@));
        }
        if post_matches(post@, needle_lower@) && !occurs(title@, needle_lower@) && !occurs(description@, needle_lower@) {
            let j = choose|j: int| 0 <= j < post@.tags.len() && occurs(lowercase(#[trigger] post@.tags[j]), needle_lower@);
            assert(occurs(tv[j], needle_lower@));
        }
    }
    r
}

/// The published posts that match a query, in order (the query is
/// lower-cased first).
pub open spec fn search_hits(ps: Seq<PostView>, q: Seq<char>) -> Seq<PostView> {
    ps.filter(|p: PostView| post_matches(p, lowercase(q)))
}

fn matching(posts: &Vec<Post>, q: &str, limit: usize) -> (r: Vec<Post>)
    ensures
        post_views(r@) == prefix(search_hits(post_views(posts@), q@), limit as int),
{
    let needle = to_lowercase(q);
    let ghost ps = post_views(posts@);
    let ghost pred = |p: PostView| post_matches(p, lowercase(q@));
    let mut r: Vec<Post> = Vec::new();
    let mut i: usize = 0;
    assert(ps.take(0) =~= seq![]);
    reveal_with_fuel(Seq::filter, 1);
    while i < posts.len() && r.len() < limit
        invariant
            i <= posts.len(),
            ps == post_views(posts@),
            needle@ == lowercase(q@),
            pred == (|p: PostView| post_matches(p, lowercase(q@))),
            r.len() <= limit,
            post_views(r@) == ps.take(i as int).filter(pred),
        decreases posts.len() - i,
    {
        assert(ps.take(i + 1).drop_last() =~= ps.take(i as int));
        reveal_with_fuel(Seq::filter, 1);
        if matches(&posts[i], needle.as_str()) {
            let ghost o = post_views(r@);
            r.push(posts[i].duplicate());
            assert(post_views(r@) =~= o.push(ps[i as int]));
        }
        i += 1;
    }
    proof {
        let f = ps.filter(pred);
        assert(ps =~= ps.take(i as int) + ps.skip(i as int));
        Seq::filter_distributes_over_add(ps.take(i as int), ps.skip(i as int), pred);
        if r.len() < limit {
            assert(ps.skip(i as int) =~= seq![]);
            assert(ps.skip(i as int).filter(pred) =~= seq![]);
            assert(f =~= ps.take(i as int).filter(pred));
        } else {
            assert(f.take(limit as int) =~= ps.take(i as int).filter(pred));
        }
    }
    r
}

/// What the search page shows: the matches of a query, or, with no query,
/// up to six posts at random.
pub struct SearchPage {
    pub results: Vec<Post>,
    pub random_posts: Option<Vec<Post>>,
}

/// The search page for a query among the published posts.
pub fn search_page(published: &Vec<Post>, q: &str) -> (r: SearchPage)
    ensures
        q@.len() > 0 ==> post_views(r.results@) == search_hits(post_views(published@), q@)
            && r.random_posts is None,
        q@.len() == 0 ==> r.results@.len() == 0 && match r.random_posts {
            Some(v) => exists|idx: Seq<usize>| is_pick(idx, published.len() as nat, 6)
                && post_views(v@) == idx.map_values(|i: usize| post_views(published@)[i as int]),
            None => false,
        },
{
    if q.is_empty() {
        let picked = random_pick(published, 6);
        SearchPage { results: Vec::new(), random_posts: Some(picked) }
    } else {
        let results = matching(published, q, published.len());
        proof {
            let ps = post_views(published@);
            ps.lemma_filter_len(|p: PostView| post_matches(p, lowercase(q@)));
        }
        SearchPage { results, random_posts: None }
    }
}

/// A hit of the live search: a post's title, description and address.
pub struct LiveHit {
    pub title: String,
    pub description: String,
    pub url: String,
}

/// `r` holds, for each post of `hits` in order, its title, description and
/// address.
pub open spec fn hits_of(r: Seq<LiveHit>, hits: Seq<PostView>) -> bool {
    &&& r.len() == hits.len()
    &&& forall|i: int| 0 <= i < r.len() ==> {
        &&& #[trigger] r[i].title@ == hits[i].title
        &&& r[i].description@ == hits[i].description
        &&& r[i].url@ == "/posts/"@ + hits[i].slug + "/"@
    }
}

/// The live search results for a query: for a non-empty query, the first
/// five matching posts.
pub fn live_results(published: &Vec<Post>, q: &str) -> (r: Vec<LiveHit>)
    ensures
        q@.len() == 0 ==> r.len() == 0,
        q@.len() > 0 ==> hits_of(r@, prefix(search_hits(post_views(published@), q@), 5)),
{
    let mut out: Vec<LiveHit> = Vec::new();
    if q.is_empty() {
        return out;
    }
    let hits = matching(published, q, 5);
    let mut i: usize = 0;
    while i < hits.len()
        invariant
            i <= hits.len(),
            out.len() == i,
            forall|j: int| 0 <= j < i ==> {
                &&& #[trigger] out@[j].title@ == hits@[j]@.title
                &&& out@[j].description@ == hits@[j]@.description
                &&& out@[j].url@ == "/posts/"@ + hits@[j]@.slug + "/"@
            },
        decreases hits.len() - i,
    {
        let h = &hits[i];
        let url = post_redirect_target(h.slug.as_str());
        let ghost o = out@;
        let title = h.title.clone();
        let description = h.description.clone();
        assert(url@ == "/posts/"@ + hits@[i as int]@.slug + "/"@);
        out.push(LiveHit { title, description, url });
        assert(out@[i as int].url@ == "/posts/"@ + hits@[i as int]@.slug + "/"@);
        assert(out@[i as int].title@ == hits@[i as int]@.title);
        assert forall|j: int| 0 <= j < i + 1 implies {
            &&& #[trigger] out@[j].title@ == hits@[j]@.title
            &&& out@[j].description@ == hits@[j]@.description
            &&& out@[j].url@ == "/posts/"@ + hits@[j]@.slug + "/"@
        } by {
            if j < i {
                assert(out@[j] == o[j]);
            }
        }
        i += 1;
    }
    proof {
        let hv = post_views(hits@);
        let want = prefix(search_hits(post_views(published@), q@), 5);
        assert(hv == want);
        assert(hv.len() == hits.len());
        assert forall|j: int| 0 <= j < out.len() implies {
            &&& #[trigger] out@[j].title@ == want[j].title
            &&& out@[j].description@ == want[j].description
            &&& out@[j].url@ == "/posts/"@ + want[j].slug + "/"@
        } by {
            assert(hv[j] == hits@[j]@);
        }
        assert(hits_of(out@, want));
    }
    out
}

// ---------------------------------------------------------------------------
// Finding a post by its slug.

/// The position of the last post with the slug (the index that maps each
/// slug to a post keeps the last one).
pub open spec fn last_with_slug(ps: Seq<PostView>, slug: Seq<char>) -> Option<int>
    decreases ps.len(),
{
    if ps.len() == 0 {
        None
    } else if ps.last().slug == slug {
        Some(ps.len() - 1)
    } else {
        last_with_slug(ps.drop_last(), slug)
    }
}

/// The position of the last post with the given slug.
pub fn slug_index(posts: &Vec<Post>, slug: &str) -> (r: Option<usize>)
    ensures
        match r {
            Some(i) => last_with_slug(post_views(posts@), slug@) == Some(i as int),
            None => last_with_slug(post_views(posts@), slug@) is None,
        },
        r matches Some(i) ==> i < posts.len(),
{
    let ghost ps = post_views(posts@);
    let s = chars_of(slug);
    let mut found: Option<usize> = None;
    let mut i: usize = 0;
    assert(ps.take(0) =~= seq![]);
    while i < posts.len()
        invariant
            i <= posts.len(),
            ps == post_views(posts@),
            s@ == slug@,
            match found {
                Some(k) => last_with_slug(ps.take(i as int), slug@) == Some(k as int) && k < i,
                None => last_with_slug(ps.take(i as int), slug@) is None,
            },
        decreases posts.len() - i,
    {
        assert(ps.take(i + 1).drop_last() =~= ps.take(i as int));
        if chars_eq(&chars_of(posts[i].slug.as_str()), &s) {
            found = Some(i);
        }
        i += 1;
    }
    assert(ps.take(posts.len() as int) =~= ps);
    found
}

/// What looking a post up by its slug on `day` finds: the last post with
/// the slug, if it is published on that day.
pub open spec fn lookup_spec(ps: Seq<PostView>, slug: Seq<char>, day: Seq<char>) -> Option<PostView> {
    match last_with_slug(ps, slug) {
        Some(i) => if published_on(ps[i], day) {
            Some(ps[i])
        } else {
            None
        },
        None => None,
    }
}

/// The post with the given slug, if it is published on the given day.
pub fn lookup_on(posts: &Vec<Post>, slug: &str, day: &str) -> (r: Option<Post>)
    ensures
        match r {
            Some(p) => lookup_spec(post_views(posts@), slug@, day@) == Some(p@),
            None => lookup_spec(post_views(posts@), slug@, day@) is None,
        },
{
    match slug_index(posts, slug) {
        Some(i) => {
            if is_published_on(&posts[i], day) {
                Some(posts[i].duplicate())
            } else {
                None
            }
        },
        None => None,
    }
}

/// The post with the given slug, if it is published today (a not-found
/// page otherwise).
pub fn lookup(posts: &Vec<Post>, slug: &str) -> (r: Option<Post>)
    ensures
        exists|day: Seq<char>| #[trigger] clock_day(day) && match r {
            Some(p) => lookup_spec(post_views(posts@), slug@, day) == Some(p@),
            None => lookup_spec(post_views(posts@), slug@, day) is None,
        },
{
    let day = today();
    lookup_on(posts, slug, day.as_str())
}

// ---------------------------------------------------------------------------
// Open Graph images.

/// Greedy wrapping of words into lines: a word goes on the current line,
/// after a space, unless the line is non-empty and would exceed `max` bytes.
pub open spec fn wrap_words(ws: Seq<Seq<char>>, max: nat) -> (Seq<Seq<char>>, Seq<char>)
    decreases ws.len(),
{
    if ws.len() == 0 {
        (seq![], seq![])
    } else {
        let (lines, cur) = wrap_words(ws.drop_last(), max);
        let w = ws.last();
        if cur.len() > 0 && byte_len(cur) + byte_len(w) + 1 > max {
            (lines.push(cur), w)
        } else if cur.len() == 0 {
            (lines, w)
        } else {
            (lines, cur + seq![' '] + w)
        }
    }
}

/// The title split into lines of at most `max_chars` bytes where words
/// allow, keeping the first `max_lines` lines.
pub open spec fn wrapped_title(title: Seq<char>, max_chars: nat, max_lines: nat) -> Seq<Seq<char>> {
    let (lines, cur) = wrap_words(words(title), max_chars);
    let all = if cur.len() > 0 {
        lines.push(cur)
    } else {
        lines
    };
    prefix(all, max_lines as int)
}

/// Wraps a title into at most `max_lines` lines of about `max_chars` bytes.
pub fn wrap_title(title: &str, max_chars: usize, max_lines: usize) -> (r: Vec<String>)
    ensures
        views_of_strings(r@) == wrapped_title(title@, max_chars as nat, max_lines as nat),
{
    let ws = words_of(&chars_of(title));
    let ghost wv = views(ws@);
    let mut lines: Vec<Vec<char>> = Vec::new();
    let mut current: Vec<char> = Vec::new();
    let mut i: usize = 0;
    assert(wv.take(0) =~= seq![]);
    while i < ws.len()
        invariant
            i <= ws.len(),
            wv == views(ws@),
            (views(lines@), current@) == wrap_words(wv.take(i as int), max_chars as nat),
        decreases ws.len() - i,
    {
        assert(wv.take(i + 1).drop_last() =~= wv.take(i as int));
        let w = &ws[i];
        assert(wv.take(i + 1).last() == w@);
        let cb = byte_len_wide(&current);
        let wb = byte_len_wide(w);
        if current.len() > 0 && cb + wb + 1 > max_chars as u128 {
            let ghost o = views(lines@);
            lines.push(current);
            assert(views(lines@) =~= o.push(wrap_words(wv.take(i as int), max_chars as nat).1));
            current = slice(w, 0, w.len());
        } else if current.len() == 0 {
            current = slice(w, 0, w.len());
        } else {
            let ghost c0 = current@;
            current.push(' ');
            let mut k: usize = 0;
            while k < w.len()
                invariant
                    k <= w.len(),
                    current@ == c0 + seq![' '] + w@.take(k as int),
                decreases w.len() - k,
            {
                current.push(w[k]);
                assert(current@ =~= c0 + seq![' '] + w@.take(k + 1));
                k += 1;
            }
            assert(w@.take(w.len() as int) =~= w@);
        }
        assert(w@.subrange(0, w.len() as int) =~= w@);
        i += 1;
    }
    assert(wv.take(ws.len() as int) =~= wv);
    let ghost l0 = wrap_words(wv, max_chars as nat).0;
    let ghost c0 = wrap_words(wv, max_chars as nat).1;
    if current.len() > 0 {
        lines.push(current);
        assert(views(lines@) =~= l0.push(c0));
    }
    let ghost all = views(lines@);
    assert(all == if c0.len() > 0 { l0.push(c0) } else { l0 });
    let mut out: Vec<String> = Vec::new();
    let mut j: usize = 0;
    while j < lines.len() && j < max_lines
        invariant
            j <= lines.len(),
            j <= max_lines,
            all == views(lines@),
            views_of_strings(out@) == all.take(j as int),
        decreases lines.len() - j,
    {
        let ghost o = views_of_strings(out@);
        out.push(string_of(&lines[j]));
        assert(views_of_strings(out@) =~= o.push(all[j as int]));
        assert(views_of_strings(out@) =~= all.take(j + 1));
        j += 1;
    }
    if j == lines.len() {
        assert(all.take(j as int) =~= all);
    }
    assert(wv == words(title@));
    assert(wrapped_title(title@, max_chars as nat, max_lines as nat) == prefix(all, max_lines as int));
    assert(views_of_strings(out@) == all.take(j as int));
    assert(views_of_strings(out@) =~= wrapped_title(title@, max_chars as nat, max_lines as nat));
    out
}

/// The title and tags an Open Graph image shows for `/og/<slug_svg>` on
/// `day`: those of the last post with the slug (with a trailing `.svg`
/// removed) when it is published on that day; else, as for an unknown slug,
/// the site's name and no tags.
pub open spec fn og_subject(ps: Seq<PostView>, slug_svg: Seq<char>, day: Seq<char>) -> (Seq<char>, Seq<Seq<char>>) {
    let slug = match strip_suffix(slug_svg, ".svg"@) {
        Some(s) => s,
        None => slug_svg,
    };
    match lookup_spec(ps, slug, day) {
        Some(p) => (p.title, p.tags),
        None => ("Isaac Bythewood's Blog"@, seq![]),
    }
}

/// The title lines and tags of the Open Graph image of a post on `day`; a
/// post not yet published shows nothing of itself.
pub fn og_image_content(posts: &Vec<Post>, slug_svg: &str, day: &str) -> (r: (Vec<String>, Vec<String>))
    ensures
        views_of_strings(r.0@) == wrapped_title(og_subject(post_views(posts@), slug_svg@, day@).0, 35, 3),
        views_of_strings(r.1@) == og_subject(post_views(posts@), slug_svg@, day@).1,
{
    let sv = chars_of(slug_svg);
    let suffix: Vec<char> = vec!['.', 's', 'v', 'g'];
    proof {
        reveal_strlit(".svg");
        assert(suffix@ =~= ".svg"@);
    }
    let slug = match strip_suffix_chars(&sv, &suffix) {
        Some(s) => string_of(&s),
        None => string_of(&sv),
    };
    let (title, tags) = match lookup_on(posts, slug.as_str(), day) {
        Some(p) => (p.title, p.tags),
        None => (String::from_str("Isaac Bythewood's Blog"), Vec::new()),
    };
    proof {
        assert(views_of_strings(tags@) =~= og_subject(post_views(posts@), slug_svg@, day@).1);
    }
    (wrap_title(title.as_str(), 35, 3), tags)
}

// ---------------------------------------------------------------------------
// Sitemap.

/// The date of the newest post seen for each key, given (key, date) pairs in
/// order: a later date replaces an earlier one only when it is greater.
pub open spec fn latest_by_key(pairs: Seq<(Seq<char>, Seq<char>)>) -> Map<Seq<char>, Seq<char>>
    decreases pairs.len(),
{
    if pairs.len() == 0 {
        Map::empty()
    } else {
        let m = latest_by_key(pairs.drop_last());
        let (k, d) = pairs.last();
        m.insert(k, if m.contains_key(k) && !seq_lt(m[k], d) { m[k] } else { d })
    }
}

/// For each post in order, a (tag, date) pair for each of its tags.
pub open spec fn tag_dates(ps: Seq<PostView>) -> Seq<(Seq<char>, Seq<char>)>
    decreases ps.len(),
{
    if ps.len() == 0 {
        seq![]
    } else {
        let p = ps.last();
        tag_dates(ps.drop_last()) + p.tags.map_values(|t: Seq<char>| (t, p.date))
    }
}

/// For each post in order whose date has at least four bytes, a (year, date)
/// pair.
pub open spec fn year_dates(ps: Seq<PostView>) -> Seq<(Seq<char>, Seq<char>)>
    decreases ps.len(),
{
    if ps.len() == 0 {
        seq![]
    } else {
        let p = ps.last();
        year_dates(ps.drop_last()) + if byte_len(p.date) >= 4 {
            seq![(year_of(p.date), p.date)]
        } else {
            seq![]
        }
    }
}

/// Every date of at least four bytes can be cut after four bytes.
pub open spec fn year_cuts_ok(ps: Seq<PostView>) -> bool {
    forall|i: int| 0 <= i < ps.len() && byte_len(ps[i].date) >= 4 ==> cut_ok(#[trigger] ps[i].date, 4)
}

fn note_latest(m: &mut TextMap, key: &Vec<char>, date: &String)
    requires
        old(m).wf(),
    ensures
        final(m).wf(),
        final(m)@ == old(m)@.insert(key@, if old(m)@.contains_key(key@) && !seq_lt(old(m)@[key@], date@) {
            old(m)@[key@]
        } else {
            date@
        }),
{
    let k = string_of(key);
    match m.get(k.as_str()) {
        Some(cur) => {
            if chars_le(&chars_of(date.as_str()), &chars_of(cur.as_str())) {
                proof {
                    lemma_seq_le_total(date@, cur@);
                }
                m.insert(k, cur);
            } else {
                proof {
                    lemma_seq_le_total(date@, cur@);
                }
                m.insert(k, date.clone());
            }
        },
        None => m.insert(k, date.clone()),
    }
}

/// The date of the newest post of each tag, and of each year, among the
/// published posts.
pub fn sitemap_lastmods(published: &Vec<Post>) -> (r: (TextMap, TextMap))
    requires
        year_cuts_ok(post_views(published@)),
    ensures
        r.0.wf() && r.1.wf(),
        r.0@ == latest_by_key(tag_dates(post_views(published@))),
        r.1@ == latest_by_key(year_dates(post_views(published@))),
{
    let ghost ps = post_views(published@);
    let mut tags = TextMap::new();
    let mut years = TextMap::new();
    let mut i: usize = 0;
    assert(ps.take(0) =~= seq![]);
    while i < published.len()
        invariant
            i <= published.len(),
            ps == post_views(published@),
            year_cuts_ok(ps),
            tags.wf() && years.wf(),
            tags@ == latest_by_key(tag_dates(ps.take(i as int))),
            years@ == latest_by_key(year_dates(ps.take(i as int))),
        decreases published.len() - i,
    {
        assert(ps.take(i + 1).drop_last() =~= ps.take(i as int));
        let p = &published[i];
        let ghost before = tag_dates(ps.take(i as int));
        let ghost here = p@.tags.map_values(|t: Seq<char>| (t, p@.date));
        let mut j: usize = 0;
        while j < p.tags.len()
            invariant
                j <= p.tags.len(),
                tags.wf(),
                here == p@.tags.map_values(|t: Seq<char>| (t, p@.date)),
                tags@ == latest_by_key(before + here.take(j as int)),
            decreases p.tags.len() - j,
        {
            assert((before + here.take(j + 1)).drop_last() =~= before + here.take(j as int));
            assert((before + here.take(j + 1)).last() == (p.tags@[j as int]@, p.date@));
            note_latest(&mut tags, &chars_of(p.tags[j].as_str()), &p.date);
            j += 1;
        }
        assert(here.take(p.tags.len() as int) =~= here);
        assert(tag_dates(ps.take(i + 1)) =~= before + here);
        let date = chars_of(p.date.as_str());
        if byte_len_wide(&date) >= 4 {
            assert(ps[i as int].date == date@);
            let y = crate::posts::year_prefix_of(&date);
            assert(year_dates(ps.take(i + 1)) =~= year_dates(ps.take(i as int)).push((year_of(p.date@), p.date@)));
            assert(year_dates(ps.take(i + 1)).drop_last() =~= year_dates(ps.take(i as int)));
            assert(year_dates(ps.take(i + 1)).last() == (year_of(p.date@), p.date@));
            note_latest(&mut years, &y, &p.date);
        } else {
            assert(year_dates(ps.take(i + 1)) =~= year_dates(ps.take(i as int)));
        }
        i += 1;
    }
    assert(ps.take(published.len() as int) =~= ps);
    (tags, years)
}

} // verus!

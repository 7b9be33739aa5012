//! Posts and the listings built from them: what is published, the tag index,
//! the year archive and related posts.
use vstd::prelude::*;
use crate::frontmatter::{frontmatter_of, parse_frontmatter, TextMap};
use crate::markdown::markdown_tree;
use crate::pdf::{block_typst, typst_from_markdown};
use crate::ranking::{is_ranking, lemma_ranking_unique, sorted_by, strict_total_on};
use crate::text::{
    char_width, char_width_of, chars_eq, chars_le, chars_of, slice, lemma_seq_le_refl, lemma_seq_le_total, lemma_seq_le_trans,
    push_chars, push_str, seq_le, seq_lt, split_at_char, split_char, string_of, trim,
    trim_chars, trim_end_all, trim_end_all_chars, views, words, words_of,
};

verus! {

/// A post: its front matter, its rendered body and its reading time.
pub struct Post {
    pub filename: String,
    pub title: String,
    pub slug: String,
    pub date: String,
    pub publish_date: String,
    pub tags: Vec<String>,
    pub description: String,
    pub cover_image: String,
    pub body_html: String,
    pub body_typst: String,
    pub read_time: usize,
}

/// The model of a post: its texts as character sequences.
pub struct PostView {
    pub filename: Seq<char>,
    pub title: Seq<char>,
    pub slug: Seq<char>,
    pub date: Seq<char>,
    pub publish_date: Seq<char>,
    pub tags: Seq<Seq<char>>,
    pub description: Seq<char>,
    pub cover_image: Seq<char>,
    pub body_html: Seq<char>,
    pub body_typst: Seq<char>,
    pub read_time: nat,
}

impl View for Post {
    type V = PostView;

    open spec fn view(&self) -> PostView {
        PostView {
            filename: self.filename@,
            title: self.title@,
            slug: self.slug@,
            date: self.date@,
            publish_date: self.publish_date@,
            tags: views_of_strings(self.tags@),
            description: self.description@,
            cover_image: self.cover_image@,
            body_html: self.body_html@,
            body_typst: self.body_typst@,
            read_time: self.read_time as nat,
        }
    }
}

/// The views of a sequence of strings.
pub open spec fn views_of_strings(v: Seq<String>) -> Seq<Seq<char>> {
    v.map_values(|x: String| x@)
}

/// The models of a sequence of posts.
pub open spec fn post_views(v: Seq<Post>) -> Seq<PostView> {
    v.map_values(|p: Post| p@)
}

impl Post {
    /// A copy of the post.
    pub fn duplicate(&self) -> (r: Post)
        ensures
            r@ == self@,
    {
        Post {
            filename: self.filename.clone(),
            title: self.title.clone(),
            slug: self.slug.clone(),
            date: self.date.clone(),
            publish_date: self.publish_date.clone(),
            tags: copy_strings(&self.tags),
            description: self.description.clone(),
            cover_image: self.cover_image.clone(),
            body_html: self.body_html.clone(),
            body_typst: self.body_typst.clone(),
            read_time: self.read_time,
        }
    }
}

/// A copy of a list of strings.
pub fn copy_strings(v: &Vec<String>) -> (r: Vec<String>)
    ensures
        r@ == v@,
{
    let mut r: Vec<String> = Vec::new();
    let mut i: usize = 0;
    while i < v.len()
        invariant
            i <= v.len(),
            r@ == v@.take(i as int),
        decreases v.len() - i,
    {
        r.push(v[i].clone());
        assert(r@ =~= v@.take(i + 1));
        i += 1;
    }
    assert(v@.take(v.len() as int) =~= v@);
    r
}

/// Copies of the posts at the given indices, in that order.
pub fn posts_at(posts: &Vec<Post>, idx: &Vec<usize>) -> (r: Vec<Post>)
    requires
        forall|k: int| 0 <= k < idx.len() ==> idx@[k] < posts.len(),
    ensures
        post_views(r@) == idx@.map_values(|i: usize| posts@[i as int]@),
{
    let mut r: Vec<Post> = Vec::new();
    let mut k: usize = 0;
    while k < idx.len()
        invariant
            k <= idx.len(),
            forall|j: int| 0 <= j < idx.len() ==> idx@[j] < posts.len(),
            post_views(r@) == idx@.take(k as int).map_values(|i: usize| posts@[i as int]@),
        decreases idx.len() - k,
    {
        let ghost old_v = post_views(r@);
        let d = posts[idx[k]].duplicate();
        r.push(d);
        assert(post_views(r@) =~= old_v.push(posts@[idx@[k as int] as int]@));
        assert(post_views(r@) =~= idx@.take(k + 1).map_values(|i: usize| posts@[i as int]@));
        k += 1;
    }
    assert(idx@.take(idx.len() as int) =~= idx@);
    r
}

/// The form of a date that the clock gives: at least ten characters, each a
/// digit, `-` or `+` (a year of four or more digits, signed when it has more,
/// then `-`, two digits of month, `-`, two digits of day).
pub open spec fn clock_day(d: Seq<char>) -> bool {
    &&& d.len() >= 10
    &&& forall|i: int| 0 <= i < d.len() ==> ('0' <= #[trigger] d[i] <= '9' || d[i] == '-' || d[i] == '+')
}

/// Today's local date, chrono's `Local::now` formatted with `%Y-%m-%d`: the
/// year with at least four digits (with a sign outside 0 to 9999), and
/// two-digit month and day.  Which day it is depends on the clock; only its
/// form is stated.
#[verifier::external_body]
pub fn today() -> (r: String)
    ensures
        clock_day(r@),
{
    chrono::Local::now().date_naive().format("%Y-%m-%d").to_string()
}

/// A post is published on `day` when its publish date does not come after
/// `day` (dates compare as strings).
pub open spec fn published_on(p: PostView, day: Seq<char>) -> bool {
    seq_le(p.publish_date, day)
}

/// The posts published on `day`, in order.
pub open spec fn published_list(ps: Seq<PostView>, day: Seq<char>) -> Seq<PostView> {
    ps.filter(|p: PostView| published_on(p, day))
}

/// Whether a post is published on the given day.
pub fn is_published_on(post: &Post, day: &str) -> (r: bool)
    ensures
        r == published_on(post@, day@),
{
    chars_le(&chars_of(post.publish_date.as_str()), &chars_of(day))
}

/// Whether a post is published today.
pub fn is_published(post: &Post) -> (r: bool)
    ensures
        exists|day: Seq<char>| #[trigger] clock_day(day) && r == published_on(post@, day),
{
    let day = today();
    is_published_on(post, day.as_str())
}

/// The posts published on the given day, in order.
pub fn published_at(posts: &Vec<Post>, day: &str) -> (r: Vec<Post>)
    ensures
        post_views(r@) == published_list(post_views(posts@), day@),
{
    let ghost pred = |p: PostView| published_on(p, day@);
    let mut r: Vec<Post> = Vec::new();
    let mut i: usize = 0;
    assert(post_views(posts@).take(0) =~= seq![]);
    reveal_with_fuel(Seq::filter, 1);
    while i < posts.len()
        invariant
            i <= posts.len(),
            pred == (|p: PostView| published_on(p, day@)),
            post_views(r@) == post_views(posts@).take(i as int).filter(pred),
        decreases posts.len() - i,
    {
        assert(post_views(posts@).take(i + 1).drop_last() =~= post_views(posts@).take(i as int));
        reveal_with_fuel(Seq::filter, 1);
        if is_published_on(&posts[i], day) {
            r.push(posts[i].duplicate());
            assert(post_views(r@) =~= post_views(posts@).take(i + 1).filter(pred));
        } else {
            assert(post_views(r@) =~= post_views(posts@).take(i + 1).filter(pred));
        }
        i += 1;
    }
    assert(post_views(posts@).take(posts.len() as int) =~= post_views(posts@));
    r
}

/// The posts published today, in order.
pub fn published(posts: &Vec<Post>) -> (r: Vec<Post>)
    ensures
        exists|day: Seq<char>| #[trigger] clock_day(day) && post_views(r@) == published_list(post_views(posts@), day),
{
    let day = today();
    published_at(posts, day.as_str())
}

// ---------------------------------------------------------------------------
// The tag index.

/// A tag with the number of posts that carry it and the URL of its archive.
pub struct TagEntry {
    pub name: String,
    pub slug: String,
    pub count: usize,
    pub url: String,
}

/// Bytes that URL encoding leaves as they are: ASCII letters and digits and
/// `-`, `.`, `_`, `~`.
pub open spec fn unreserved(b: u8) -> bool {
    (48 <= b <= 57) || (65 <= b <= 90) || (97 <= b <= 122) || b == 45 || b == 46 || b == 95
        || b == 126
}

/// The upper-case hexadecimal digit for `d < 16`.
pub open spec fn hex_digit(d: u8) -> char {
    if d < 10 {
        (48 + d) as char
    } else {
        (55 + d) as char
    }
}

/// Percent-encoding of bytes: unreserved bytes stay, every other byte `b`
/// becomes `%` and two upper-case hexadecimal digits.
pub open spec fn percent_encoded(bytes: Seq<u8>) -> Seq<char>
    decreases bytes.len(),
{
    if bytes.len() == 0 {
        seq![]
    } else {
        let b = bytes.last();
        percent_encoded(bytes.drop_last()) + if unreserved(b) {
            seq![b as char]
        } else {
            seq!['%', hex_digit(b / 16), hex_digit(b % 16)]
        }
    }
}

/// The URL encoding of a string: the percent-encoding of its UTF-8 bytes.
pub open spec fn url_encoded(s: Seq<char>) -> Seq<char> {
    percent_encoded(vstd::utf8::encode_utf8(s))
}

/// urlencoding's `encode`: percent-encodes every UTF-8 byte of `s` except ASCII
/// letters, digits and `-`, `.`, `_`, `~`, with upper-case hexadecimal digits.
#[verifier::external_body]
fn url_encode(s: &str) -> (r: String)
    ensures
        r@ == url_encoded(s@),
{
    urlencoding::encode(s).into_owned()
}

/// The tags of the posts, post after post, each in its own order.
pub open spec fn all_tags(ps: Seq<PostView>) -> Seq<Seq<char>>
    decreases ps.len(),
{
    if ps.len() == 0 {
        seq![]
    } else {
        all_tags(ps.drop_last()) + ps.last().tags
    }
}

/// How often `t` occurs in `s`.
pub open spec fn occurrences(s: Seq<Seq<char>>, t: Seq<char>) -> nat
    decreases s.len(),
{
    if s.len() == 0 {
        0
    } else {
        occurrences(s.drop_last(), t) + if s.last() == t {
            1nat
        } else {
            0nat
        }
    }
}

/// The URL of the archive of a tag.
pub open spec fn tag_url(name: Seq<char>) -> Seq<char> {
    "/blog/tag/"@ + url_encoded(name) + "/"@
}

/// `names` is in strictly increasing string order.
pub open spec fn strictly_sorted(names: Seq<Seq<char>>) -> bool {
    forall|a: int, b: int| 0 <= a < b < names.len() ==> seq_lt(names[a], names[b])
}

/// The tag index of some posts: one entry per distinct tag, in increasing
/// order of name, with the number of times the tag occurs.
pub open spec fn is_tag_index(es: Seq<TagEntry>, ps: Seq<PostView>) -> bool {
    let all = all_tags(ps);
    &&& strictly_sorted(es.map_values(|e: TagEntry| e.name@))
    &&& forall|t: Seq<char>| all.contains(t) <==> exists|i: int| 0 <= i < es.len() && #[trigger] es[i].name@ == t
    &&& forall|i: int| 0 <= i < es.len() ==> {
        &&& #[trigger] es[i].count == occurrences(all, es[i].name@)
        &&& es[i].slug@ == es[i].name@
        &&& es[i].url@ == tag_url(es[i].name@)
    }
}

proof fn lemma_occurrences_bound(s: Seq<Seq<char>>, t: Seq<char>)
    ensures
        occurrences(s, t) <= s.len(),
        !s.contains(t) ==> occurrences(s, t) == 0,
    decreases s.len(),
{
    if s.len() > 0 {
        lemma_occurrences_bound(s.drop_last(), t);
        if !s.contains(t) {
            assert forall|i: int| 0 <= i < s.drop_last().len() implies s.drop_last()[i] != t by {
                assert(s.drop_last()[i] == s[i]);
            }
            assert(s[s.len() - 1] != t);
        }
    }
}

proof fn lemma_seq_lt_trans(a: Seq<char>, b: Seq<char>, c: Seq<char>)
    requires
        seq_lt(a, b),
        seq_lt(b, c),
    ensures
        seq_lt(a, c),
{
    lemma_seq_le_trans(a, b, c);
    lemma_seq_le_total(a, b);
    lemma_seq_le_total(b, c);
}

proof fn lemma_not_lt(a: Seq<char>, b: Seq<char>)
    requires
        !seq_lt(a, b),
        a != b,
    ensures
        seq_lt(b, a),
{
    lemma_seq_le_total(a, b);
}

fn chars_lt(a: &Vec<char>, b: &Vec<char>) -> (r: bool)
    ensures
        r == seq_lt(a@, b@),
{
    chars_le(a, b) && !chars_eq(a, b)
}

proof fn lemma_contains_push(s: Seq<Seq<char>>, x: Seq<char>, t: Seq<char>)
    ensures
        s.push(x).contains(t) <==> s.contains(t) || t == x,
{
    if s.contains(t) {
        let j = choose|j: int| 0 <= j < s.len() && s[j] == t;
        assert(s.push(x)[j] == t);
    }
    if t == x {
        assert(s.push(x)[s.len() as int] == t);
    }
    if s.push(x).contains(t) {
        let j = choose|j: int| 0 <= j < s.len() + 1 && s.push(x)[j] == t;
        if j < s.len() {
            assert(s[j] == t);
        }
    }
}

proof fn lemma_contains_insert(s: Seq<Seq<char>>, p: int, x: Seq<char>, t: Seq<char>)
    requires
        0 <= p <= s.len(),
    ensures
        s.insert(p, x).contains(t) <==> s.contains(t) || t == x,
{
    let n = s.insert(p, x);
    if s.contains(t) {
        let j = choose|j: int| 0 <= j < s.len() && s[j] == t;
        if j < p {
            assert(n[j] == t);
        } else {
            assert(n[j + 1] == t);
        }
    }
    if t == x {
        assert(n[p] == t);
    }
    if n.contains(t) {
        let j = choose|j: int| 0 <= j < n.len() && n[j] == t;
        if j < p {
            assert(s[j] == t);
        } else if j > p {
            assert(s[j - 1] == t);
        }
    }
}

/// Counts the distinct names of `all`, in increasing order.
fn count_names(all: &Vec<Vec<char>>) -> (r: (Vec<Vec<char>>, Vec<usize>))
    ensures
        r.0.len() == r.1.len(),
        strictly_sorted(views(r.0@)),
        forall|t: Seq<char>| views(all@).contains(t) <==> #[trigger] views(r.0@).contains(t),
        forall|i: int| 0 <= i < r.0.len() ==> #[trigger] r.1@[i] == occurrences(views(all@), r.0@[i]@),
{
    let mut names: Vec<Vec<char>> = Vec::new();
    let mut counts: Vec<usize> = Vec::new();
    let mut k: usize = 0;
    assert(views(all@).take(0) =~= seq![]);
    assert(views(names@) =~= seq![]);
    while k < all.len()
        invariant
            k <= all.len(),
            names.len() == counts.len(),
            strictly_sorted(views(names@)),
            forall|t: Seq<char>| views(all@).take(k as int).contains(t) <==> #[trigger] views(names@).contains(t),
            forall|i: int| 0 <= i < names.len() ==> #[trigger] counts@[i] == occurrences(views(all@).take(k as int), names@[i]@),
        decreases all.len() - k,
    {
        let ghost done = views(all@).take(k as int);
        let ghost next = views(all@).take(k + 1);
        let ghost old_names = views(names@);
        assert(next.drop_last() =~= done);
        assert(next =~= done.push(all@[k as int]@));
        let t = &all[k];
        let mut p: usize = 0;
        while p < names.len() && chars_lt(&names[p], t)
            invariant
                p <= names.len(),
                old_names == views(names@),
                forall|j: int| 0 <= j < p ==> seq_lt(#[trigger] old_names[j], t@),
            decreases names.len() - p,
        {
            p += 1;
        }
        proof {
            lemma_occurrences_bound(done, t@);
            assert forall|t2: Seq<char>| #[trigger] next.contains(t2) <==> done.contains(t2) || t2 == t@ by {
                lemma_contains_push(done, t@, t2);
            }
        }
        if p < names.len() && chars_eq(&names[p], t) {
            assert(counts@[p as int] == occurrences(done, t@));
            let c = counts[p] + 1;
            counts.set(p, c);
            proof {
                assert(old_names[p as int] == t@);
                assert forall|t2: Seq<char>| #[trigger] next.contains(t2) <==> views(names@).contains(t2) by {
                    assert(views(names@) == old_names);
                    if t2 == t@ {
                        assert(old_names[p as int] == t2);
                    }
                }
                assert forall|i: int| 0 <= i < names.len() implies #[trigger] counts@[i] == occurrences(next, names@[i]@) by {
                    assert(old_names[i] == names@[i]@);
                }
            }
        } else {
            proof {
                assert forall|j: int| p <= j < old_names.len() implies seq_lt(t@, #[trigger] old_names[j]) by {
                    lemma_not_lt(old_names[p as int], t@);
                    if j > p {
                        assert(seq_lt(old_names[p as int], old_names[j]));
                        lemma_seq_lt_trans(t@, old_names[p as int], old_names[j]);
                    }
                }
                assert(!done.contains(t@)) by {
                    if done.contains(t@) {
                        assert(old_names.contains(t@));
                        let i = choose|i: int| 0 <= i < old_names.len() && old_names[i] == t@;
                        if i < p {
                            assert(seq_lt(old_names[i], t@));
                        } else {
                            assert(seq_lt(t@, old_names[i]));
                        }
                    }
                }
                lemma_occurrences_bound(done, t@);
            }
            let tc = string_of(t);
            let tv = chars_of(tc.as_str());
            names.insert(p, tv);
            counts.insert(p, 1);
            proof {
                let nn = views(names@);
                assert(nn =~= old_names.insert(p as int, t@));
                assert forall|a: int, b: int| 0 <= a < b < nn.len() implies seq_lt(nn[a], nn[b]) by {
                    if b < p {
                        assert(seq_lt(old_names[a], old_names[b]));
                    } else if a < p && b == p {
                    } else if a < p && b > p {
                        assert(seq_lt(old_names[a], t@));
                        assert(seq_lt(t@, old_names[b - 1]));
                        lemma_seq_lt_trans(nn[a], t@, nn[b]);
                    } else if a == p {
                        assert(seq_lt(t@, old_names[b - 1]));
                    } else {
                        assert(seq_lt(old_names[a - 1], old_names[b - 1]));
                    }
                }
                assert forall|t2: Seq<char>| #[trigger] next.contains(t2) <==> nn.contains(t2) by {
                    lemma_contains_insert(old_names, p as int, t@, t2);
                }
                assert forall|i: int| 0 <= i < names.len() implies #[trigger] counts@[i] == occurrences(next, names@[i]@) by {
                    if i < p {
                        assert(nn[i] == old_names[i]);
                        assert(seq_lt(old_names[i], t@));
                        assert(names@[i]@ != t@);
                    } else if i > p {
                        assert(nn[i] == old_names[i - 1]);
                        assert(seq_lt(t@, old_names[i - 1]));
                        assert(names@[i]@ != t@);
                    }
                }
            }
        }
        k += 1;
    }
    assert(views(all@).take(all.len() as int) =~= views(all@));
    (names, counts)
}

/// All tags of the posts, post after post.
fn flat_tags(posts: &Vec<Post>) -> (r: Vec<Vec<char>>)
    ensures
        views(r@) == all_tags(post_views(posts@)),
{
    let mut r: Vec<Vec<char>> = Vec::new();
    let mut i: usize = 0;
    assert(post_views(posts@).take(0) =~= seq![]);
    while i < posts.len()
        invariant
            i <= posts.len(),
            views(r@) == all_tags(post_views(posts@).take(i as int)),
        decreases posts.len() - i,
    {
        let ghost before = views(r@);
        let tags = &posts[i].tags;
        let mut j: usize = 0;
        while j < tags.len()
            invariant
                j <= tags.len(),
                views(r@) == before + views_of_strings(tags@).take(j as int),
            decreases tags.len() - j,
        {
            let ghost old_r = views(r@);
            r.push(chars_of(tags[j].as_str()));
            assert(views(r@) =~= old_r.push(tags@[j as int]@));
            assert(views(r@) =~= before + views_of_strings(tags@).take(j + 1));
            j += 1;
        }
        assert(views_of_strings(tags@).take(tags.len() as int) =~= posts@[i as int]@.tags);
        assert(post_views(posts@).take(i + 1).drop_last() =~= post_views(posts@).take(i as int));
        i += 1;
    }
    assert(post_views(posts@).take(posts.len() as int) =~= post_views(posts@));
    r
}

/// The tag index of the posts: every distinct tag once, in increasing order
/// of name, with how often it occurs and the URL of its archive.
pub fn collect_tags(posts: &Vec<Post>) -> (r: Vec<TagEntry>)
    ensures
        is_tag_index(r@, post_views(posts@)),
{
    let all = flat_tags(posts);
    let (names, counts) = count_names(&all);
    let ghost full = all_tags(post_views(posts@));
    let mut out: Vec<TagEntry> = Vec::new();
    let mut i: usize = 0;
    while i < names.len()
        invariant
            i <= names.len(),
            names.len() == counts.len(),
            out.len() == i,
            forall|j: int| 0 <= j < i ==> #[trigger] out@[j].name@ == names@[j]@,
            forall|j: int| 0 <= j < i ==> {
                &&& #[trigger] out@[j].count == counts@[j]
                &&& out@[j].slug@ == names@[j]@
                &&& out@[j].url@ == tag_url(names@[j]@)
            },
        decreases names.len() - i,
    {
        let name = string_of(&names[i]);
        let mut url = String::new();
        push_str(&mut url, "/blog/tag/");
        let enc = url_encode(name.as_str());
        push_str(&mut url, enc.as_str());
        push_str(&mut url, "/");
        let name2 = name.clone();
        let ghost old_out = out@;
        out.push(TagEntry { name: name2, slug: name, count: counts[i], url });
        assert(out@[i as int].name@ == names@[i as int]@);
        assert forall|j: int| 0 <= j < i + 1 implies #[trigger] out@[j].name@ == names@[j]@ by {
            if j < i {
                assert(out@[j] == old_out[j]);
                assert(old_out[j].name@ == names@[j]@);
            }
        }
        assert(forall|j: int| 0 <= j < i ==> out@[j] == old_out[j]);
        i += 1;
    }
    proof {
        assert(out@.map_values(|e: TagEntry| e.name@) =~= views(names@));
        assert forall|t: Seq<char>| full.contains(t) <==> exists|i: int| 0 <= i < out@.len() && #[trigger] out@[i].name@ == t by {
            if views(names@).contains(t) {
                let i = choose|i: int| 0 <= i < views(names@).len() && views(names@)[i] == t;
                assert(out@[i].name@ == t);
            }
            if exists|i: int| 0 <= i < out@.len() && #[trigger] out@[i].name@ == t {
                let i = choose|i: int| 0 <= i < out@.len() && #[trigger] out@[i].name@ == t;
                assert(views(names@)[i] == t);
            }
        }
    }
    out
}

// ---------------------------------------------------------------------------
// Newest first.

/// Post `x` comes before post `y` when it is newer, or as new and earlier in
/// the list (a stable sort by date, newest first).
pub open spec fn newer_first(dates: Seq<Seq<char>>) -> spec_fn(usize, usize) -> bool {
    |x: usize, y: usize|
        seq_lt(dates[y as int], dates[x as int]) || (dates[x as int] == dates[y as int] && x < y)
}

/// The indices below `n`.
pub open spec fn below(n: nat) -> spec_fn(usize) -> bool {
    |x: usize| x < n
}

/// The dates of the posts.
pub open spec fn dates_of(ps: Seq<PostView>) -> Seq<Seq<char>> {
    ps.map_values(|p: PostView| p.date)
}

/// The positions of the posts, newest first, ties in list order.
pub open spec fn date_order(ps: Seq<PostView>) -> Seq<usize> {
    choose|r: Seq<usize>| is_ranking(r, below(ps.len()), newer_first(dates_of(ps)))
}

/// The posts, newest first; posts of the same date keep their order.
pub open spec fn newest_first(ps: Seq<PostView>) -> Seq<PostView> {
    date_order(ps).map_values(|i: usize| ps[i as int])
}

/// "Newer first, then earlier in the list" orders the positions of a list
/// totally.
pub proof fn lemma_newer_first_total(dates: Seq<Seq<char>>)
    ensures
        strict_total_on(newer_first(dates), below(dates.len())),
{
    let before = newer_first(dates);
    let member = below(dates.len());
    assert forall|x: usize, y: usize, z: usize|
        member(x) && member(y) && member(z) && #[trigger] before(x, y) && #[trigger] before(y, z)
        implies before(x, z) by {
        let (dx, dy, dz) = (dates[x as int], dates[y as int], dates[z as int]);
        if seq_lt(dy, dx) && seq_lt(dz, dy) {
            lemma_seq_lt_trans(dz, dy, dx);
        }
    }
    assert forall|x: usize, y: usize| #[trigger] member(x) && #[trigger] member(y) && x != y
        implies before(x, y) || before(y, x) by {
        lemma_seq_le_total(dates[x as int], dates[y as int]);
    }
}

/// Positions of the posts ordered newest first, ties in list order.
fn order_by_date(dates: &Vec<Vec<char>>) -> (r: Vec<usize>)
    ensures
        is_ranking(r@, below(dates.len() as nat), newer_first(views(dates@))),
{
    let ghost d = views(dates@);
    let ghost before = newer_first(d);
    let mut idx: Vec<usize> = Vec::new();
    let mut i: usize = 0;
    while i < dates.len()
        invariant
            i <= dates.len(),
            d == views(dates@),
            before == newer_first(d),
            sorted_by(idx@, before),
            forall|x: usize| #[trigger] idx@.contains(x) <==> x < i,
            forall|q: int| 0 <= q < idx.len() ==> #[trigger] idx@[q] < i,
        decreases dates.len() - i,
    {
        let mut p: usize = 0;
        while p < idx.len() && !chars_lt(&dates[idx[p]], &dates[i])
            invariant
                p <= idx.len(),
                i < dates.len(),
                d == views(dates@),
                forall|q: int| 0 <= q < idx.len() ==> #[trigger] idx@[q] < i,
                forall|x: usize| #[trigger] idx@.contains(x) <==> x < i,
                forall|q: int| 0 <= q < p ==> !seq_lt(d[idx@[q] as int], #[trigger] d[i as int]),
            decreases idx.len() - p,
        {
            assert(idx@.contains(idx@[p as int]));
            p += 1;
        }
        let ghost old_idx = idx@;
        proof {
            assert forall|q: int| 0 <= q < p implies before(#[trigger] old_idx[q], i) by {
                assert(old_idx.contains(old_idx[q]));
                if d[old_idx[q] as int] != d[i as int] {
                    lemma_not_lt(d[old_idx[q] as int], d[i as int]);
                }
            }
            assert forall|q: int| p <= q < old_idx.len() implies before(i, #[trigger] old_idx[q]) by {
                assert(seq_lt(d[old_idx[p as int] as int], d[i as int]));
                if q > p {
                    assert(before(old_idx[p as int], old_idx[q]));
                    let (dp, dq) = (d[old_idx[p as int] as int], d[old_idx[q] as int]);
                    if seq_lt(dq, dp) {
                        lemma_seq_lt_trans(dq, dp, d[i as int]);
                    }
                }
            }
        }
        idx.insert(p, i);
        proof {
            let n = idx@;
            assert(n =~= old_idx.insert(p as int, i));
            assert forall|a: int, b: int| 0 <= a < b < n.len() implies #[trigger] before(n[a], n[b]) by {
                if b < p {
                    assert(before(old_idx[a], old_idx[b]));
                } else if a < p && b == p {
                } else if a < p && b > p {
                    assert(before(old_idx[a], old_idx[b - 1]));
                } else if a == p {
                } else {
                    assert(before(old_idx[a - 1], old_idx[b - 1]));
                }
            }
            assert forall|q: int| 0 <= q < n.len() implies #[trigger] n[q] < i + 1 by {
                if q < p {
                    assert(n[q] == old_idx[q]);
                } else if q > p {
                    assert(n[q] == old_idx[q - 1]);
                }
            }
            assert forall|x: usize| #[trigger] n.contains(x) <==> x < i + 1 by {
                if x < i {
                    assert(old_idx.contains(x));
                    let k = choose|k: int| 0 <= k < old_idx.len() && old_idx[k] == x;
                    if k < p {
                        assert(n[k] == x);
                    } else {
                        assert(n[k + 1] == x);
                    }
                }
                if x == i {
                    assert(n[p as int] == x);
                }
                if n.contains(x) {
                    let k = choose|k: int| 0 <= k < n.len() && n[k] == x;
                    if k < p {
                        assert(old_idx[k] == x);
                        assert(old_idx.contains(x));
                    } else if k > p {
                        assert(old_idx[k - 1] == x);
                        assert(old_idx.contains(x));
                    }
                }
            }
        }
        i += 1;
    }
    idx
}

/// The posts ordered newest first; posts of the same date keep their order
/// (a stable sort by date, descending).
pub fn sort_newest_first(posts: &Vec<Post>) -> (r: Vec<Post>)
    ensures
        post_views(r@) == newest_first(post_views(posts@)),
{
    let ghost ps = post_views(posts@);
    let mut dates: Vec<Vec<char>> = Vec::new();
    let mut i: usize = 0;
    while i < posts.len()
        invariant
            i <= posts.len(),
            ps == post_views(posts@),
            views(dates@) == dates_of(ps).take(i as int),
        decreases posts.len() - i,
    {
        let ghost old_d = views(dates@);
        dates.push(chars_of(posts[i].date.as_str()));
        assert(views(dates@) =~= old_d.push(ps[i as int].date));
        assert(views(dates@) =~= dates_of(ps).take(i + 1));
        i += 1;
    }
    assert(dates_of(ps).take(posts.len() as int) =~= dates_of(ps));
    let idx = order_by_date(&dates);
    proof {
        let member = below(ps.len());
        let before = newer_first(dates_of(ps));
        lemma_newer_first_total(dates_of(ps));
        assert(is_ranking(idx@, member, before));
        let c = date_order(ps);
        assert(is_ranking(c, member, before));
        lemma_ranking_unique(idx@, c, member, before);
        assert forall|k: int| 0 <= k < idx.len() implies idx@[k] < posts.len() by {
            assert(idx@.contains(idx@[k]));
        }
    }
    let r = posts_at(posts, &idx);
    assert(post_views(r@) =~= newest_first(ps));
    r
}

// ---------------------------------------------------------------------------
// Related posts.

/// The number of tags of `tags` (counted with repeats) that occur in `of`.
pub open spec fn shared(tags: Seq<Seq<char>>, of: Seq<Seq<char>>) -> nat
    decreases tags.len(),
{
    if tags.len() == 0 {
        0
    } else {
        shared(tags.drop_last(), of) + if of.contains(tags.last()) {
            1nat
        } else {
            0nat
        }
    }
}

/// The first `n` items of `s`, or all of them.
pub open spec fn prefix<A>(s: Seq<A>, n: int) -> Seq<A> {
    if n <= s.len() {
        s.take(n)
    } else {
        s
    }
}

/// The posts that share tags with `post`, other than posts with its slug.
pub open spec fn related_candidate(post: PostView, ps: Seq<PostView>) -> spec_fn(usize) -> bool {
    |i: usize| i < ps.len() && ps[i as int].slug != post.slug && shared(ps[i as int].tags, post.tags) > 0
}

/// More shared tags first; ties in list order.
pub open spec fn more_shared_first(post: PostView, ps: Seq<PostView>) -> spec_fn(usize, usize) -> bool {
    |x: usize, y: usize| {
        let (sx, sy) = (shared(ps[x as int].tags, post.tags), shared(ps[y as int].tags, post.tags));
        sy < sx || (sx == sy && x < y)
    }
}

/// The positions of the candidates for related posts, most shared tags first.
pub open spec fn related_order(post: PostView, ps: Seq<PostView>) -> Seq<usize> {
    choose|r: Seq<usize>| is_ranking(r, related_candidate(post, ps), more_shared_first(post, ps))
}

/// The posts that `related` gives: with no tags, the first `count` posts;
/// else up to `count` posts sharing the most tags (a stable ranking), and if
/// that is fewer than `count`, the list filled up in list order with posts
/// whose slug is neither the post's nor one already taken.
pub open spec fn related_list(post: PostView, ps: Seq<PostView>, count: nat) -> Seq<PostView> {
    if post.tags.len() == 0 {
        prefix(ps, count as int)
    } else {
        let top = prefix(related_order(post, ps), count as int).map_values(|i: usize| ps[i as int]);
        if top.len() < count {
            let have = top.map_values(|p: PostView| p.slug);
            top + prefix(
                ps.filter(|p: PostView| p.slug != post.slug && !have.contains(p.slug)),
                count - top.len(),
            )
        } else {
            top
        }
    }
}

/// "More shared tags first, then earlier in the list" orders the positions
/// totally.
pub proof fn lemma_more_shared_total(post: PostView, ps: Seq<PostView>)
    ensures
        strict_total_on(more_shared_first(post, ps), related_candidate(post, ps)),
{
}

fn contains_text(list: &Vec<Vec<char>>, t: &Vec<char>) -> (r: bool)
    ensures
        r == views(list@).contains(t@),
{
    let mut i: usize = 0;
    while i < list.len()
        invariant
            i <= list.len(),
            forall|j: int| 0 <= j < i ==> list@[j]@ != t@,
        decreases list.len() - i,
    {
        if chars_eq(&list[i], t) {
            assert(views(list@)[i as int] == t@);
            return true;
        }
        i += 1;
    }
    assert forall|j: int| 0 <= j < views(list@).len() implies views(list@)[j] != t@ by {
        assert(views(list@)[j] == list@[j]@);
    }
    false
}

fn text_views(v: &Vec<String>) -> (r: Vec<Vec<char>>)
    ensures
        views(r@) == views_of_strings(v@),
{
    let mut r: Vec<Vec<char>> = Vec::new();
    let mut i: usize = 0;
    while i < v.len()
        invariant
            i <= v.len(),
            views(r@) == views_of_strings(v@).take(i as int),
        decreases v.len() - i,
    {
        let ghost o = views(r@);
        r.push(chars_of(v[i].as_str()));
        assert(views(r@) =~= o.push(v@[i as int]@));
        assert(views(r@) =~= views_of_strings(v@).take(i + 1));
        i += 1;
    }
    assert(views_of_strings(v@).take(v.len() as int) =~= views_of_strings(v@));
    r
}

fn shared_count(tags: &Vec<String>, of: &Vec<Vec<char>>) -> (r: usize)
    ensures
        r == shared(views_of_strings(tags@), views(of@)),
{
    let tv = text_views(tags);
    let ghost ts = views_of_strings(tags@);
    let mut n: usize = 0;
    let mut i: usize = 0;
    while i < tv.len()
        invariant
            i <= tv.len(),
            views(tv@) == ts,
            n == shared(ts.take(i as int), views(of@)),
            n <= i,
        decreases tv.len() - i,
    {
        assert(ts.take(i + 1).drop_last() =~= ts.take(i as int));
        assert(ts[i as int] == tv@[i as int]@);
        if contains_text(of, &tv[i]) {
            n += 1;
        }
        i += 1;
    }
    assert(ts.take(tv.len() as int) =~= ts);
    n
}

/// Positions of the candidates for related posts, most shared tags first.
fn rank_related(post_tags: &Vec<Vec<char>>, slug: &Vec<char>, posts: &Vec<Post>) -> (r: Vec<usize>)
    ensures
        forall|post: PostView| post.tags == views(post_tags@) && post.slug == slug@ ==>
            is_ranking(r@, related_candidate(post, post_views(posts@)), more_shared_first(post, post_views(posts@))),
{
    let ghost ps = post_views(posts@);
    let ghost sc = |i: usize| shared(ps[i as int].tags, views(post_tags@));
    let mut scores: Vec<usize> = Vec::new();
    let mut idx: Vec<usize> = Vec::new();
    let mut i: usize = 0;
    while i < posts.len()
        invariant
            i <= posts.len(),
            ps == post_views(posts@),
            sc == (|i: usize| shared(ps[i as int].tags, views(post_tags@))),
            scores.len() == i,
            forall|j: int| 0 <= j < i ==> #[trigger] scores@[j] == sc(j as usize),
            forall|q: int| 0 <= q < idx.len() ==> #[trigger] idx@[q] < i,
            forall|a: int, b: int| #![trigger idx@[a], idx@[b]] 0 <= a < b < idx.len() ==>
                sc(idx@[b]) < sc(idx@[a]) || (sc(idx@[a]) == sc(idx@[b]) && idx@[a] < idx@[b]),
            forall|x: usize| #[trigger] idx@.contains(x) <==> (x < i && ps[x as int].slug != slug@ && sc(x) > 0),
        decreases posts.len() - i,
    {
        let s = shared_count(&posts[i].tags, post_tags);
        scores.push(s);
        let ps_slug = chars_of(posts[i].slug.as_str());
        if s > 0 && !chars_eq(&ps_slug, slug) {
            let mut p: usize = 0;
            while p < idx.len() && scores[idx[p]] >= s
                invariant
                    p <= idx.len(),
                    scores.len() == i + 1,
                    forall|q: int| 0 <= q < idx.len() ==> #[trigger] idx@[q] < i,
                    forall|q: int| 0 <= q < p ==> scores@[#[trigger] idx@[q] as int] >= s,
                decreases idx.len() - p,
            {
                p += 1;
            }
            let ghost old_idx = idx@;
            idx.insert(p, i);
            proof {
                let n = idx@;
                assert(sc(i) == s);
                assert(n =~= old_idx.insert(p as int, i));
                assert forall|a: int, b: int| #![trigger n[a], n[b]] 0 <= a < b < n.len() implies
                    sc(n[b]) < sc(n[a]) || (sc(n[a]) == sc(n[b]) && n[a] < n[b]) by {
                    if b < p {
                    } else if a < p && b == p {
                        assert(scores@[old_idx[a] as int] >= s);
                        assert(scores@[old_idx[a] as int] == sc(old_idx[a]));
                    } else if a < p && b > p {
                        assert(n[a] == old_idx[a] && n[b] == old_idx[b - 1]);
                    } else if a == p {
                        assert(scores@[old_idx[p as int] as int] < s);
                        assert(scores@[old_idx[p as int] as int] == sc(old_idx[p as int]));
                        assert(n[b] == old_idx[b - 1]);
                        if b - 1 > p {
                            assert(sc(old_idx[b - 1]) < sc(old_idx[p as int]) || (sc(old_idx[p as int]) == sc(old_idx[b - 1]) && old_idx[p as int] < old_idx[b - 1]));
                        }
                    } else {
                        assert(n[a] == old_idx[a - 1] && n[b] == old_idx[b - 1]);
                    }
                }
                assert forall|q: int| 0 <= q < n.len() implies #[trigger] n[q] < i + 1 by {
                    if q < p {
                        assert(n[q] == old_idx[q]);
                    } else if q > p {
                        assert(n[q] == old_idx[q - 1]);
                    }
                }
                assert forall|x: usize| #[trigger] n.contains(x) <==> (x < i + 1 && ps[x as int].slug != slug@ && sc(x) > 0) by {
                    if x < i && ps[x as int].slug != slug@ && sc(x) > 0 {
                        assert(old_idx.contains(x));
                        let k = choose|k: int| 0 <= k < old_idx.len() && old_idx[k] == x;
                        if k < p {
                            assert(n[k] == x);
                        } else {
                            assert(n[k + 1] == x);
                        }
                    }
                    if x == i {
                        assert(n[p as int] == x);
                    }
                    if n.contains(x) {
                        let k = choose|k: int| 0 <= k < n.len() && n[k] == x;
                        if k < p {
                            assert(old_idx[k] == x);
                            assert(old_idx.contains(x));
                        } else if k > p {
                            assert(old_idx[k - 1] == x);
                            assert(old_idx.contains(x));
                        }
                    }
                }
            }
        } else {
            proof {
                assert forall|x: usize| #[trigger] idx@.contains(x) <==> (x < i + 1 && ps[x as int].slug != slug@ && sc(x) > 0) by {
                    if x == i {
                        assert(sc(i) == s);
                        if idx@.contains(x) {
                            let k = choose|k: int| 0 <= k < idx.len() && idx@[k] == x;
                            assert(idx@[k] < i);
                        }
                    }
                }
            }
        }
        i += 1;
    }
    proof {
        assert forall|post: PostView| post.tags == views(post_tags@) && post.slug == slug@ implies
            is_ranking(idx@, related_candidate(post, ps), more_shared_first(post, ps)) by {
            let before = more_shared_first(post, ps);
            assert forall|a: int, b: int| 0 <= a < b < idx@.len() implies #[trigger] before(idx@[a], idx@[b]) by {
            }
            assert forall|x: usize| #[trigger] idx@.contains(x) <==> related_candidate(post, ps)(x) by {
            }
        }
    }
    idx
}

proof fn lemma_filter_take_prefix(s: Seq<PostView>, m: int, pred: spec_fn(PostView) -> bool)
    requires
        0 <= m <= s.len(),
    ensures
        s.filter(pred) == s.take(m).filter(pred) + s.skip(m).filter(pred),
{
    assert(s =~= s.take(m) + s.skip(m));
    Seq::filter_distributes_over_add(s.take(m), s.skip(m), pred);
}

/// Up to `count` posts related to `post` among `posts`: those sharing the
/// most tags first, filled up in list order with other posts.
pub fn related(post: &Post, posts: &Vec<Post>, count: usize) -> (r: Vec<Post>)
    ensures
        post_views(r@) == related_list(post@, post_views(posts@), count as nat),
{
    let ghost ps = post_views(posts@);
    let ghost pv = post@;
    if post.tags.len() == 0 {
        let mut out: Vec<Post> = Vec::new();
        let mut i: usize = 0;
        while i < posts.len() && i < count
            invariant
                i <= posts.len(),
                i <= count,
                ps == post_views(posts@),
                post_views(out@) == ps.take(i as int),
            decreases posts.len() - i,
        {
            let ghost o = post_views(out@);
            out.push(posts[i].duplicate());
            assert(post_views(out@) =~= o.push(ps[i as int]));
            assert(post_views(out@) =~= ps.take(i + 1));
            i += 1;
        }
        assert(post_views(out@) =~= prefix(ps, count as int));
        return out;
    }
    let post_tags = text_views(&post.tags);
    let slug = chars_of(post.slug.as_str());
    let ranked = rank_related(&post_tags, &slug, posts);
    let ghost member = related_candidate(pv, ps);
    let ghost before = more_shared_first(pv, ps);
    proof {
        lemma_more_shared_total(pv, ps);
        let c = related_order(pv, ps);
        assert(is_ranking(c, member, before));
        lemma_ranking_unique(ranked@, c, member, before);
    }
    let mut top_idx: Vec<usize> = Vec::new();
    let mut k: usize = 0;
    while k < ranked.len() && k < count
        invariant
            k <= ranked.len(),
            k <= count,
            top_idx@ == ranked@.take(k as int),
        decreases ranked.len() - k,
    {
        top_idx.push(ranked[k]);
        assert(top_idx@ =~= ranked@.take(k + 1));
        k += 1;
    }
    assert(top_idx@ =~= prefix(ranked@, count as int));
    proof {
        assert forall|q: int| 0 <= q < top_idx.len() implies top_idx@[q] < posts.len() by {
            assert(ranked@.contains(ranked@[q]));
        }
    }
    let mut out = posts_at(posts, &top_idx);
    let ghost top = post_views(out@);
    assert(top =~= prefix(related_order(pv, ps), count as int).map_values(|i: usize| ps[i as int]));
    if out.len() >= count {
        return out;
    }
    let have = {
        let mut h: Vec<Vec<char>> = Vec::new();
        let mut j: usize = 0;
        while j < out.len()
            invariant
                j <= out.len(),
                views(h@) == post_views(out@).map_values(|p: PostView| p.slug).take(j as int),
            decreases out.len() - j,
        {
            let ghost o = views(h@);
            h.push(chars_of(out[j].slug.as_str()));
            assert(views(h@) =~= o.push(out@[j as int].slug@));
            assert(views(h@) =~= post_views(out@).map_values(|p: PostView| p.slug).take(j + 1));
            j += 1;
        }
        h
    };
    let ghost hv = top.map_values(|p: PostView| p.slug);
    assert(views(have@) =~= hv);
    let ghost pred = |p: PostView| p.slug != pv.slug && !hv.contains(p.slug);
    let mut i: usize = 0;
    assert(ps.take(0) =~= seq![]);
    assert(ps.take(posts.len() as int) =~= ps);
    reveal_with_fuel(Seq::filter, 1);
    assert(ps.take(0).filter(pred) =~= seq![]);
    assert(post_views(out@) =~= top + ps.take(0).filter(pred));
    while i < posts.len()
        invariant_except_break
            i <= posts.len(),
            ps == post_views(posts@),
            views(have@) == hv,
            pred == (|p: PostView| p.slug != pv.slug && !hv.contains(p.slug)),
            slug@ == pv.slug,
            out.len() < count,
            ps.take(posts.len() as int) == ps,
            post_views(out@) == top + ps.take(i as int).filter(pred),
        ensures
            post_views(out@) == top + prefix(ps.filter(pred), count - top.len()),
        decreases posts.len() - i,
    {
        let ghost before_i = ps.take(i as int).filter(pred);
        assert(ps.take(i + 1).drop_last() =~= ps.take(i as int));
        reveal_with_fuel(Seq::filter, 1);
        let ps_slug = chars_of(posts[i].slug.as_str());
        if chars_eq(&ps_slug, &slug) || contains_text(&have, &ps_slug) {
            assert(ps.take(i + 1).filter(pred) == before_i);
            i += 1;
            continue;
        }
        let ghost o = post_views(out@);
        out.push(posts[i].duplicate());
        assert(post_views(out@) =~= o.push(ps[i as int]));
        assert(ps.take(i + 1).filter(pred) == before_i.push(ps[i as int]));
        assert(post_views(out@) =~= top + ps.take(i + 1).filter(pred));
        if out.len() >= count {
            proof {
                lemma_filter_take_prefix(ps, i + 1, pred);
                let f = ps.take(i + 1).filter(pred);
                assert(f.len() == count - top.len());
                assert(prefix(ps.filter(pred), count - top.len()) =~= f);
            }
            break;
        }
        i += 1;
    }
    proof {
        if i == posts.len() {
            assert(ps.take(i as int) =~= ps);
        }
    }
    assert(post_views(out@) =~= related_list(pv, ps, count as nat));
    out
}

// ---------------------------------------------------------------------------
// The year archive.

/// The number of characters of `s` that lie within its first `n` bytes.
pub open spec fn chars_within(s: Seq<char>, n: nat) -> nat
    decreases s.len(),
{
    if s.len() == 0 || char_width(s[0]) > n {
        0
    } else {
        1 + chars_within(s.drop_first(), (n - char_width(s[0])) as nat)
    }
}

/// `s` can be cut after its first `n` bytes without splitting a character
/// (a string shorter than `n` bytes can always be).
pub open spec fn cut_ok(s: Seq<char>, n: nat) -> bool
    decreases s.len(),
{
    s.len() == 0 || n == 0 || (char_width(s[0]) <= n && cut_ok(
        s.drop_first(),
        (n - char_width(s[0])) as nat,
    ))
}

/// The year of a date: its first four bytes, or all of it if it is shorter.
pub open spec fn year_of(date: Seq<char>) -> Seq<char> {
    date.take(chars_within(date, 4) as int)
}

/// Every non-empty date of the posts can be cut after four bytes.
pub open spec fn years_cut_ok(ps: Seq<PostView>) -> bool {
    forall|i: int| 0 <= i < ps.len() && ps[i].date.len() > 0 ==> cut_ok(#[trigger] ps[i].date, 4)
}

/// The year of each post with a date, in list order.
pub open spec fn post_years(ps: Seq<PostView>) -> Seq<Seq<char>>
    decreases ps.len(),
{
    if ps.len() == 0 {
        seq![]
    } else if ps.last().date.len() > 0 {
        post_years(ps.drop_last()).push(year_of(ps.last().date))
    } else {
        post_years(ps.drop_last())
    }
}

/// `ys` lists each year of the posts once, newest first.
pub open spec fn is_year_index(ys: Seq<Seq<char>>, ps: Seq<PostView>) -> bool {
    &&& forall|a: int, b: int| 0 <= a < b < ys.len() ==> seq_lt(ys[b], ys[a])
    &&& forall|y: Seq<char>| #[trigger] ys.contains(y) <==> post_years(ps).contains(y)
}

proof fn lemma_chars_within_bound(s: Seq<char>, n: nat)
    ensures
        chars_within(s, n) <= s.len(),
    decreases s.len(),
{
    if s.len() > 0 && char_width(s[0]) <= n {
        lemma_chars_within_bound(s.drop_first(), (n - char_width(s[0])) as nat);
    }
}

/// The first four bytes of a date (all of it when it is shorter).
pub fn year_prefix_of(date: &Vec<char>) -> (r: Vec<char>)
    requires
        cut_ok(date@, 4),
    ensures
        r@ == year_of(date@),
{
    let mut i: usize = 0;
    let mut left: usize = 4;
    assert(date@.skip(0) =~= date@);
    while i < date.len() && char_width_of(date[i]) <= left
        invariant
            i <= date.len(),
            left <= 4,
            chars_within(date@, 4) == i + chars_within(date@.skip(i as int), left as nat),
        decreases date.len() - i,
    {
        assert(date@.skip(i as int).drop_first() =~= date@.skip(i + 1));
        left = left - char_width_of(date[i]);
        i += 1;
    }
    slice(date, 0, i)
}

/// The years of the posts' dates, each once, newest first.
pub fn collect_years(posts: &Vec<Post>) -> (r: Vec<String>)
    requires
        years_cut_ok(post_views(posts@)),
    ensures
        is_year_index(views_of_strings(r@), post_views(posts@)),
{
    let ghost ps = post_views(posts@);
    let mut years: Vec<Vec<char>> = Vec::new();
    let mut i: usize = 0;
    assert(ps.take(0) =~= seq![]);
    while i < posts.len()
        invariant
            i <= posts.len(),
            ps == post_views(posts@),
            years_cut_ok(ps),
            views(years@) == post_years(ps.take(i as int)),
        decreases posts.len() - i,
    {
        assert(ps.take(i + 1).drop_last() =~= ps.take(i as int));
        let date = chars_of(posts[i].date.as_str());
        if date.len() > 0 {
            assert(ps[i as int].date == date@);
            let ghost o = views(years@);
            years.push(year_prefix_of(&date));
            assert(views(years@) =~= o.push(year_of(date@)));
        }
        i += 1;
    }
    assert(ps.take(posts.len() as int) =~= ps);
    let (names, _counts) = count_names(&years);
    let mut out: Vec<String> = Vec::new();
    let mut k: usize = names.len();
    while k > 0
        invariant
            k <= names.len(),
            out.len() == names.len() - k,
            forall|j: int| 0 <= j < out.len() ==> #[trigger] out@[j]@ == names@[names.len() - 1 - j]@,
        decreases k,
    {
        k -= 1;
        let ghost o = out@;
        out.push(string_of(&names[k]));
        assert forall|j: int| 0 <= j < out.len() implies #[trigger] out@[j]@ == names@[names.len() - 1 - j]@ by {
            if j < o.len() {
                assert(out@[j] == o[j]);
            }
        }
    }
    proof {
        let ys = views_of_strings(out@);
        let nv = views(names@);
        assert forall|j: int| 0 <= j < ys.len() implies #[trigger] ys[j] == nv[nv.len() - 1 - j] by {
            assert(out@[j]@ == names@[names.len() - 1 - j]@);
        }
        assert forall|a: int, b: int| 0 <= a < b < ys.len() implies seq_lt(ys[b], ys[a]) by {
            assert(ys[a] == nv[nv.len() - 1 - a]);
            assert(ys[b] == nv[nv.len() - 1 - b]);
        }
        assert forall|y: Seq<char>| #[trigger] ys.contains(y) <==> post_years(ps).contains(y) by {
            if ys.contains(y) {
                let j = choose|j: int| 0 <= j < ys.len() && ys[j] == y;
                assert(nv[nv.len() - 1 - j] == y);
                assert(nv.contains(y));
            }
            if nv.contains(y) {
                let j = choose|j: int| 0 <= j < nv.len() && nv[j] == y;
                assert(ys[nv.len() - 1 - j] == y);
            }
        }
    }
    out
}

// ---------------------------------------------------------------------------
// Building a post from its file.

/// The value of `key`, or `default` when it is not set.
pub open spec fn entry_or(m: Map<Seq<char>, Seq<char>>, key: Seq<char>, default: Seq<char>) -> Seq<char> {
    if m.contains_key(key) {
        m[key]
    } else {
        default
    }
}

/// The text of a `tags:` entry that holds the tags: inside the brackets when
/// it is written as a YAML list `[a, b]`, else all of it.
pub open spec fn tag_source(raw: Seq<char>) -> Seq<char> {
    if raw.len() >= 2 && raw[0] == '[' && raw.last() == ']' {
        raw.subrange(1, raw.len() - 1)
    } else {
        raw
    }
}

/// The tags of a `tags:` entry: comma-separated, trimmed, empty ones dropped.
pub open spec fn tag_list(raw: Seq<char>) -> Seq<Seq<char>> {
    split_at_char(tag_source(raw), ',').map_values(|t: Seq<char>| trim(t)).filter(|t: Seq<char>| t.len() > 0)
}

/// Minutes of reading at 200 words a minute, rounded up, at least one.
pub open spec fn read_time_for(word_count: nat) -> nat {
    let m = word_count / 200 + if word_count % 200 != 0 {
        1nat
    } else {
        0nat
    };
    if m < 1 {
        1
    } else {
        m
    }
}

/// The post that a Markdown file defines: `filename` is the file's name,
/// `text` its content and `html` the HTML of its body.
pub open spec fn post_from(filename: Seq<char>, text: Seq<char>, html: Seq<char>) -> PostView {
    let meta = frontmatter_of(text).0;
    let body = frontmatter_of(text).1;
    let date = entry_or(meta, "date"@, seq![]);
    PostView {
        filename: filename,
        title: entry_or(meta, "title"@, seq![]),
        slug: entry_or(meta, "slug"@, trim_end_all(filename, ".md"@)),
        date: date,
        publish_date: entry_or(meta, "publish_date"@, date),
        tags: if meta.contains_key("tags"@) {
            tag_list(meta["tags"@])
        } else {
            seq![]
        },
        description: entry_or(meta, "description"@, seq![]),
        cover_image: entry_or(meta, "cover_image"@, seq![]),
        body_html: html,
        body_typst: block_typst(markdown_tree(body)),
        read_time: read_time_for(words(body).len()),
    }
}

fn entry_or_default(meta: &TextMap, key: &str, default: String) -> (r: String)
    requires
        meta.wf(),
    ensures
        r@ == entry_or(meta@, key@, default@),
{
    match meta.get(key) {
        Some(v) => v,
        None => default,
    }
}

fn tags_from(raw: &str) -> (r: Vec<String>)
    ensures
        views_of_strings(r@) == tag_list(raw@),
{
    let cs = chars_of(raw);
    let n = cs.len();
    let inner = if n >= 2 && cs[0] == '[' && cs[n - 1] == ']' {
        slice(&cs, 1, n - 1)
    } else {
        slice(&cs, 0, n)
    };
    assert(inner@ =~= tag_source(raw@));
    let parts = split_char(&inner, ',');
    let ghost trimmed = views(parts@).map_values(|t: Seq<char>| trim(t));
    let ghost keep = |t: Seq<char>| t.len() > 0;
    let mut out: Vec<String> = Vec::new();
    let mut i: usize = 0;
    reveal_with_fuel(Seq::filter, 1);
    assert(trimmed.take(0) =~= seq![]);
    while i < parts.len()
        invariant
            i <= parts.len(),
            trimmed == views(parts@).map_values(|t: Seq<char>| trim(t)),
            keep == (|t: Seq<char>| t.len() > 0),
            views_of_strings(out@) == trimmed.take(i as int).filter(keep),
        decreases parts.len() - i,
    {
        assert(trimmed.take(i + 1).drop_last() =~= trimmed.take(i as int));
        reveal_with_fuel(Seq::filter, 1);
        let t = trim_chars(&parts[i]);
        assert(t@ == trimmed[i as int]);
        if t.len() > 0 {
            let ghost o = views_of_strings(out@);
            out.push(string_of(&t));
            assert(views_of_strings(out@) =~= o.push(t@));
        }
        i += 1;
    }
    assert(trimmed.take(parts.len() as int) =~= trimmed);
    out
}

#[verifier::rlimit(40)]
/// Builds a post from a Markdown file: `filename` is the file's name, `text`
/// its content and `body_html` the HTML rendering of its body.
pub fn build_post(filename: &str, text: &str, body_html: String) -> (r: Post)
    ensures
        r@ == post_from(filename@, text@, body_html@),
{
    let (meta, body) = parse_frontmatter(text);
    let ghost m = frontmatter_of(text@).0;
    let ghost b = frontmatter_of(text@).1;
    assert(meta@ == m && body@ == b);
    let tags = match meta.get("tags") {
        Some(raw) => tags_from(raw.as_str()),
        None => Vec::new(),
    };
    let date = entry_or_default(&meta, "date", String::new());
    let publish_date = entry_or_default(&meta, "publish_date", date.clone());
    let body_typst = typst_from_markdown(body.as_str());
    let word_count = words_of(&chars_of(body.as_str())).len();
    let mut read_time = word_count / 200;
    if word_count % 200 != 0 {
        read_time = read_time + 1;
    }
    if read_time < 1 {
        read_time = 1;
    }
    let md: Vec<char> = vec!['.', 'm', 'd'];
    let stem = string_of(&trim_end_all_chars(&chars_of(filename), &md));
    proof {
        reveal_strlit(".md");
        assert(md@ =~= ".md"@);
    }
    let slug = entry_or_default(&meta, "slug", stem);
    let title = entry_or_default(&meta, "title", String::new());
    let description = entry_or_default(&meta, "description", String::new());
    let cover_image = entry_or_default(&meta, "cover_image", String::new());
    let r = Post {
        filename: String::from_str(filename),
        title,
        slug,
        date,
        publish_date,
        tags,
        description,
        cover_image,
        body_html,
        body_typst,
        read_time,
    };
    proof {
        let pv = post_from(filename@, text@, body_html@);
        assert(r@.tags == pv.tags);
        assert(r@.read_time == pv.read_time);
        assert(r@.slug == pv.slug);
        assert(r@.body_typst == pv.body_typst);
    }
    r
}

// ---------------------------------------------------------------------------
// Which files are posts.

/// The position of the last `c` in `s`.
pub open spec fn last_index_of(s: Seq<char>, c: char) -> Option<int>
    decreases s.len(),
{
    if s.len() == 0 {
        None
    } else if s.last() == c {
        Some(s.len() - 1)
    } else {
        last_index_of(s.drop_last(), c)
    }
}

/// The extension of a file name as `Path::extension` gives it: what follows
/// the last `.`, unless there is none, the only one begins the name, or the
/// name is `..`.
pub open spec fn extension(name: Seq<char>) -> Option<Seq<char>> {
    if name == seq!['.', '.'] {
        None
    } else {
        match last_index_of(name, '.') {
            Some(k) => if k > 0 {
                Some(name.skip(k + 1))
            } else {
                None
            },
            None => None,
        }
    }
}

/// One past the position of the last `.` of a name (0 when it has none).
fn last_dot_end(n: &Vec<char>) -> (i: usize)
    ensures
        i <= n.len(),
        last_index_of(n@, '.') == (if i == 0 { None } else { Some(i - 1) }),
{
    let mut i: usize = n.len();
    assert(n@.take(n.len() as int) =~= n@);
    while i > 0 && n[i - 1] != '.'
        invariant
            i <= n.len(),
            last_index_of(n@, '.') == last_index_of(n@.take(i as int), '.'),
        decreases i,
    {
        assert(n@.take(i as int).drop_last() =~= n@.take(i - 1));
        i -= 1;
    }
    if i > 0 {
        assert(n@.take(i as int).last() == '.');
    }
    i
}

/// A file is a post when its extension is `md`.
pub fn is_markdown_file(name: &str) -> (r: bool)
    ensures
        r == (extension(name@) == Some(seq!['m', 'd'])),
{
    let n = chars_of(name);
    let dotdot: Vec<char> = vec!['.', '.'];
    if chars_eq(&n, &dotdot) {
        return false;
    }
    let i = last_dot_end(&n);
    if i <= 1 {
        return false;
    }
    let ext = slice(&n, i, n.len());
    assert(ext@ =~= n@.skip(i as int));
    let md: Vec<char> = vec!['m', 'd'];
    chars_eq(&ext, &md)
}

} // verus!

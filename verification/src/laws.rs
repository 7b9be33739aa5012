//! Properties that hold across the library's functions.
use vstd::prelude::*;
use crate::pdf::{lit_escape_char, lit_escaped, lit_unescaped};
use crate::posts::{
    all_tags, below, date_order, dates_of, lemma_more_shared_total, lemma_newer_first_total,
    more_shared_first, newer_first, newest_first, occurrences, post_from, post_years, prefix,
    published_list, published_on, related_candidate, related_list, related_order, is_year_index,
    year_of, PostView,
};
use crate::ranking::{is_ranking, lemma_ranking_exists};
use crate::site::{
    archive, has_tag, last_with_slug, latest_by_key, lookup_spec, lowercase, og_subject,
    post_matches, search_hits, tag_sel, wrap_words, wrapped_title,
};
use crate::text::{
    byte_len, ends_with, lemma_byte_len_concat, lemma_seq_le_refl, lemma_seq_le_total,
    lemma_seq_le_trans, matches_at, occurs, seq_le, seq_lt, strip_suffix, words,
};

verus! {

/// Publication is permanent: a post published on a day is published on
/// every later day.
pub proof fn lemma_published_stays_published(p: PostView, day: Seq<char>, later: Seq<char>)
    requires
        published_on(p, day),
        seq_le(day, later),
    ensures
        published_on(p, later),
{
    lemma_seq_le_trans(p.publish_date, day, later);
}

/// The published posts of a day are exactly the posts whose publish date
/// has come, in their order.
pub proof fn lemma_published_exactly(ps: Seq<PostView>, day: Seq<char>, p: PostView)
    ensures
        published_list(ps, day).contains(p) <==> ps.contains(p) && published_on(p, day),
{
    let pred = |q: PostView| published_on(q, day);
    if ps.filter(pred).contains(p) {
        ps.lemma_filter_contains_rev(pred, p);
    }
    if ps.contains(p) && published_on(p, day) {
        let i = choose|i: int| 0 <= i < ps.len() && ps[i] == p;
        ps.lemma_filter_contains(pred, i);
    }
    if published_list(ps, day).contains(p) {
        let i = choose|i: int| 0 <= i < ps.filter(pred).len() && ps.filter(pred)[i] == p;
        ps.lemma_filter_pred(pred, i);
    }
}

/// A post whose publish date has not come is not found by its slug: the
/// lookup finds only published posts, and only posts with that slug.
pub proof fn lemma_lookup_only_published(ps: Seq<PostView>, slug: Seq<char>, day: Seq<char>)
    ensures
        lookup_spec(ps, slug, day) matches Some(p) ==> p.slug == slug && published_on(p, day) && ps.contains(p),
        (last_with_slug(ps, slug) matches Some(i) && !published_on(ps[i], day)) ==> lookup_spec(ps, slug, day) is None,
{
    lemma_last_with_slug_found(ps, slug);
    if let Some(i) = last_with_slug(ps, slug) {
        assert(ps.contains(ps[i]));
    }
}

proof fn lemma_last_with_slug_found(ps: Seq<PostView>, slug: Seq<char>)
    ensures
        last_with_slug(ps, slug) matches Some(i) ==> 0 <= i < ps.len() && ps[i].slug == slug,
    decreases ps.len(),
{
    if ps.len() > 0 && ps.last().slug != slug {
        lemma_last_with_slug_found(ps.drop_last(), slug);
    }
}

/// A post's reading time is at least one minute.
pub proof fn lemma_read_time_positive(filename: Seq<char>, text: Seq<char>, html: Seq<char>)
    ensures
        post_from(filename, text, html).read_time >= 1,
{
}

/// An escaped Typst string literal holds no raw line break, carriage return
/// or tab, and no quote that is not preceded by a backslash: it stays one
/// literal on one line.
pub proof fn lemma_string_literal_single_line(s: Seq<char>)
    ensures
        forall|i: int| 0 <= i < lit_escaped(s).len() ==> {
            let c = #[trigger] lit_escaped(s)[i];
            &&& c != '\n'
            &&& c != '\r'
            &&& c != '\t'
            &&& c == '"' ==> i > 0 && lit_escaped(s)[i - 1] == '\\'
        },
    decreases s.len(),
{
    if s.len() > 0 {
        lemma_string_literal_single_line(s.drop_last());
        let a = lit_escaped(s.drop_last());
        let b = lit_escape_char(s.last());
        assert(lit_escaped(s) == a + b);
        assert forall|i: int| 0 <= i < lit_escaped(s).len() implies {
            let c = #[trigger] lit_escaped(s)[i];
            &&& c != '\n'
            &&& c != '\r'
            &&& c != '\t'
            &&& c == '"' ==> i > 0 && lit_escaped(s)[i - 1] == '\\'
        } by {
            if i < a.len() {
                assert(lit_escaped(s)[i] == a[i]);
                if i > 0 {
                    assert(lit_escaped(s)[i - 1] == a[i - 1]);
                }
            } else {
                assert(lit_escaped(s)[i] == b[i - a.len()]);
                if i > a.len() {
                    assert(lit_escaped(s)[i - 1] == b[i - 1 - a.len()]);
                }
            }
        }
    }
}

/// The posts come out newest first: the order lists every position once,
/// and dates never increase along it.
pub proof fn lemma_newest_first_sorted(ps: Seq<PostView>)
    ensures
        is_ranking(date_order(ps), below(ps.len()), newer_first(dates_of(ps))),
        date_order(ps).no_duplicates(),
        forall|a: int, b: int| 0 <= a < b < newest_first(ps).len() ==>
            seq_le(#[trigger] newest_first(ps)[b].date, #[trigger] newest_first(ps)[a].date),
{
    let member = below(ps.len());
    let before = newer_first(dates_of(ps));
    lemma_newer_first_total(dates_of(ps));
    lemma_ranking_exists(member, before, ps.len());
    let r = date_order(ps);
    assert(is_ranking(r, member, before));
    assert forall|a: int, b: int| 0 <= a < r.len() && 0 <= b < r.len() && a != b implies r[a] != r[b] by {
        if a < b {
            assert(before(r[a], r[b]));
        } else {
            assert(before(r[b], r[a]));
        }
    }
    let out = newest_first(ps);
    assert forall|a: int, b: int| 0 <= a < b < out.len() implies
        seq_le(#[trigger] out[b].date, #[trigger] out[a].date) by {
        assert(before(r[a], r[b]));
        assert(r.contains(r[a]) && r.contains(r[b]));
        assert(out[a] == ps[r[a] as int] && out[b] == ps[r[b] as int]);
        assert(dates_of(ps)[r[a] as int] == ps[r[a] as int].date);
        assert(dates_of(ps)[r[b] as int] == ps[r[b] as int].date);
        lemma_seq_le_refl(out[a].date);
    }
}

/// A post with tags is never listed among its own related posts (no related
/// post has its slug), and no more than `count` posts are listed.
pub proof fn lemma_related_excludes_self(post: PostView, ps: Seq<PostView>, count: nat)
    requires
        post.tags.len() > 0,
    ensures
        related_list(post, ps, count).len() <= count,
        forall|i: int| 0 <= i < related_list(post, ps, count).len() ==>
            (#[trigger] related_list(post, ps, count)[i]).slug != post.slug,
{
    let member = related_candidate(post, ps);
    let before = more_shared_first(post, ps);
    lemma_more_shared_total(post, ps);
    lemma_ranking_exists(member, before, ps.len());
    let r = related_order(post, ps);
    assert(is_ranking(r, member, before));
    let top = prefix(r, count as int).map_values(|i: usize| ps[i as int]);
    assert forall|i: int| 0 <= i < top.len() implies (#[trigger] top[i]).slug != post.slug by {
        let pr = prefix(r, count as int);
        assert(pr[i] == r[i]);
        assert(r.contains(r[i]));
    }
    let out = related_list(post, ps, count);
    if top.len() < count {
        let have = top.map_values(|p: PostView| p.slug);
        let pred = |p: PostView| p.slug != post.slug && !have.contains(p.slug);
        let f = ps.filter(pred);
        let extra = prefix(f, count - top.len());
        assert(out == top + extra);
        assert forall|i: int| 0 <= i < out.len() implies (#[trigger] out[i]).slug != post.slug by {
            if i >= top.len() {
                let j = i - top.len();
                assert(extra[j] == f[j]);
                ps.lemma_filter_pred(pred, j);
            } else {
                assert(out[i] == top[i]);
            }
        }
    }
}

proof fn lemma_occurrences_concat(a: Seq<Seq<char>>, b: Seq<Seq<char>>, t: Seq<char>)
    ensures
        occurrences(a + b, t) == occurrences(a, t) + occurrences(b, t),
    decreases b.len(),
{
    if b.len() == 0 {
        assert(a + b =~= a);
    } else {
        assert((a + b).drop_last() =~= a + b.drop_last());
        lemma_occurrences_concat(a, b.drop_last(), t);
    }
}

proof fn lemma_occurrences_distinct(s: Seq<Seq<char>>, t: Seq<char>)
    requires
        s.no_duplicates(),
    ensures
        occurrences(s, t) == if s.contains(t) { 1nat } else { 0nat },
    decreases s.len(),
{
    if s.len() > 0 {
        let d = s.drop_last();
        assert(d.no_duplicates());
        lemma_occurrences_distinct(d, t);
        if d.contains(t) {
            let k = choose|k: int| 0 <= k < d.len() && d[k] == t;
            assert(s[k] == t);
            if s.last() == t {
                assert(s[s.len() - 1] == s[k]);
            }
        }
        if s.contains(t) && s.last() != t {
            let k = choose|k: int| 0 <= k < s.len() && s[k] == t;
            assert(d[k] == t);
        }
    }
}

/// When no post repeats a tag, the count of a tag in the tag index is the
/// number of posts in the tag's archive.
pub proof fn lemma_tag_count_is_archive_size(ps: Seq<PostView>, t: Seq<char>)
    requires
        forall|i: int| 0 <= i < ps.len() ==> (#[trigger] ps[i]).tags.no_duplicates(),
    ensures
        occurrences(all_tags(ps), t) == ps.filter(tag_sel(t)).len(),
    decreases ps.len(),
{
    reveal_with_fuel(Seq::filter, 1);
    if ps.len() > 0 {
        let d = ps.drop_last();
        assert forall|i: int| 0 <= i < d.len() implies (#[trigger] d[i]).tags.no_duplicates() by {
            assert(d[i] == ps[i]);
        }
        lemma_tag_count_is_archive_size(d, t);
        lemma_occurrences_concat(all_tags(d), ps.last().tags, t);
        assert(ps[ps.len() - 1].tags.no_duplicates());
        lemma_occurrences_distinct(ps.last().tags, t);
        assert(tag_sel(t)(ps.last()) == has_tag(ps.last(), t));
    }
}

/// A line of a wrapped title is not empty, and it fits in the width unless
/// it is a single word of the title that is wider by itself.
pub open spec fn line_fits(line: Seq<char>, ws: Seq<Seq<char>>, max: nat) -> bool {
    line.len() > 0 && (byte_len(line) <= max || ws.contains(line))
}

proof fn lemma_wrap_words_fit(ws: Seq<Seq<char>>, max: nat)
    requires
        forall|i: int| 0 <= i < ws.len() ==> (#[trigger] ws[i]).len() > 0,
    ensures
        forall|i: int| 0 <= i < wrap_words(ws, max).0.len() ==>
            line_fits(#[trigger] wrap_words(ws, max).0[i], ws, max),
        wrap_words(ws, max).1.len() > 0 ==> line_fits(wrap_words(ws, max).1, ws, max),
        ws.len() > 0 ==> wrap_words(ws, max).1.len() > 0,
    decreases ws.len(),
{
    if ws.len() > 0 {
        let d = ws.drop_last();
        assert forall|i: int| 0 <= i < d.len() implies (#[trigger] d[i]).len() > 0 by {
            assert(d[i] == ws[i]);
        }
        lemma_wrap_words_fit(d, max);
        let (lines, cur) = wrap_words(d, max);
        let w = ws.last();
        assert(ws[ws.len() - 1] == w);
        assert forall|x: Seq<char>| d.contains(x) implies ws.contains(x) by {
            let k = choose|k: int| 0 <= k < d.len() && d[k] == x;
            assert(ws[k] == x);
        }
        assert(ws.contains(w));
        if cur.len() > 0 && byte_len(cur) + byte_len(w) + 1 > max {
            let out = lines.push(cur);
            assert forall|i: int| 0 <= i < out.len() implies line_fits(#[trigger] out[i], ws, max) by {
                if i < lines.len() {
                    assert(out[i] == lines[i]);
                    assert(line_fits(lines[i], d, max));
                }
            }
        } else if cur.len() == 0 {
            assert forall|i: int| 0 <= i < lines.len() implies line_fits(#[trigger] lines[i], ws, max) by {
                assert(line_fits(lines[i], d, max));
            }
        } else {
            assert forall|i: int| 0 <= i < lines.len() implies line_fits(#[trigger] lines[i], ws, max) by {
                assert(line_fits(lines[i], d, max));
            }
            lemma_byte_len_concat(cur, seq![' ']);
            lemma_byte_len_concat(cur + seq![' '], w);
            assert(seq![' '].drop_last() =~= Seq::<char>::empty());
            assert(seq![' '].last() == ' ');
            assert(crate::text::char_width(' ') == 1);
            assert(byte_len(Seq::<char>::empty()) == 0);
            assert(byte_len(seq![' ']) == 1);
        }
    }
}

/// A wrapped title has at most `max_lines` lines; none is empty, and each
/// fits in `max_chars` bytes unless it is one word of the title that is
/// wider than that by itself.
pub proof fn lemma_wrapped_title_fits(title: Seq<char>, max_chars: nat, max_lines: nat)
    ensures
        wrapped_title(title, max_chars, max_lines).len() <= max_lines,
        forall|i: int| 0 <= i < wrapped_title(title, max_chars, max_lines).len() ==>
            line_fits(#[trigger] wrapped_title(title, max_chars, max_lines)[i], words(title), max_chars),
{
    let ws = words(title);
    let nonempty = |w: Seq<char>| w.len() > 0;
    let parts = crate::text::split_by(title, |c: char| crate::text::is_ws(c));
    assert(ws == parts.filter(nonempty));
    assert forall|i: int| 0 <= i < ws.len() implies (#[trigger] ws[i]).len() > 0 by {
        parts.lemma_filter_pred(nonempty, i);
    }
    lemma_wrap_words_fit(ws, max_chars);
    let (lines, cur) = wrap_words(ws, max_chars);
    let all = if cur.len() > 0 { lines.push(cur) } else { lines };
    assert forall|i: int| 0 <= i < all.len() implies line_fits(#[trigger] all[i], ws, max_chars) by {
        if i < lines.len() {
            assert(all[i] == lines[i]);
        }
    }
    let out = wrapped_title(title, max_chars, max_lines);
    assert forall|i: int| 0 <= i < out.len() implies line_fits(#[trigger] out[i], ws, max_chars) by {
        assert(out[i] == all[i]);
    }
}

/// A post is a search hit exactly when it is one of the posts and its title,
/// description or a tag contains the lower-cased query; the live search
/// shows the first five of these hits, in the same order.
pub proof fn lemma_search_hits_exactly(ps: Seq<PostView>, q: Seq<char>, p: PostView)
    ensures
        search_hits(ps, q).contains(p) <==> ps.contains(p) && post_matches(p, lowercase(q)),
        prefix(search_hits(ps, q), 5).len() <= 5,
        forall|i: int| 0 <= i < prefix(search_hits(ps, q), 5).len() ==>
            #[trigger] prefix(search_hits(ps, q), 5)[i] == search_hits(ps, q)[i],
{
    let pred = |x: PostView| post_matches(x, lowercase(q));
    let hits = ps.filter(pred);
    if hits.contains(p) {
        let i = choose|i: int| 0 <= i < hits.len() && hits[i] == p;
        ps.lemma_filter_pred(pred, i);
        ps.lemma_filter_contains_rev(pred, p);
    }
    if ps.contains(p) && post_matches(p, lowercase(q)) {
        let i = choose|i: int| 0 <= i < ps.len() && ps[i] == p;
        ps.lemma_filter_contains(pred, i);
    }
}

/// An archive is shown exactly when some post is selected; it then lists
/// every selected post and no other, and, only when they are fewer than
/// five, up to four posts that are not selected.
pub proof fn lemma_archive_selects(ps: Seq<PostView>, sel: spec_fn(PostView) -> bool)
    ensures
        archive(ps, sel) is None <==> forall|i: int| 0 <= i < ps.len() ==> !sel(#[trigger] ps[i]),
        archive(ps, sel) matches Some((chosen, extra)) ==> {
            &&& forall|p: PostView| #[trigger] chosen.contains(p) <==> ps.contains(p) && sel(p)
            &&& extra is Some <==> chosen.len() < 5
            &&& extra matches Some(x) ==> x.len() <= 4
                && forall|j: int| 0 <= j < x.len() ==> !sel(#[trigger] x[j]) && ps.contains(x[j])
        },
{
    let chosen = ps.filter(sel);
    assert forall|p: PostView| #[trigger] chosen.contains(p) <==> ps.contains(p) && sel(p) by {
        if chosen.contains(p) {
            ps.lemma_filter_contains_rev(sel, p);
            let i = choose|i: int| 0 <= i < chosen.len() && chosen[i] == p;
            ps.lemma_filter_pred(sel, i);
        }
        if ps.contains(p) && sel(p) {
            let i = choose|i: int| 0 <= i < ps.len() && ps[i] == p;
            ps.lemma_filter_contains(sel, i);
        }
    }
    if chosen.len() == 0 {
        assert forall|i: int| 0 <= i < ps.len() implies !sel(#[trigger] ps[i]) by {
            if sel(ps[i]) {
                ps.lemma_filter_contains(sel, i);
            }
        }
    } else {
        assert(chosen.contains(chosen[0]));
        let others = |p: PostView| !sel(p);
        let f = ps.filter(others);
        let x = prefix(f, 4);
        assert forall|j: int| 0 <= j < x.len() implies !sel(#[trigger] x[j]) && ps.contains(x[j]) by {
            assert(x[j] == f[j]);
            ps.lemma_filter_pred(others, j);
            ps.lemma_filter_contains_rev(others, f[j]);
            assert(f.contains(f[j]));
        }
    }
}

/// The sitemap's date for a key is the newest date paired with it: it is
/// one of the key's dates and no date of the key is later.
pub proof fn lemma_lastmod_is_newest(pairs: Seq<(Seq<char>, Seq<char>)>, k: Seq<char>, d: Seq<char>)
    requires
        pairs.contains((k, d)),
    ensures
        latest_by_key(pairs).contains_key(k),
        seq_le(d, latest_by_key(pairs)[k]),
        pairs.contains((k, latest_by_key(pairs)[k])),
    decreases pairs.len(),
{
    let rest = pairs.drop_last();
    let m = latest_by_key(rest);
    let (lk, ld) = pairs.last();
    assert(pairs.last() == pairs[pairs.len() - 1]);
    assert forall|x: (Seq<char>, Seq<char>)| rest.contains(x) implies pairs.contains(x) by {
        let j = choose|j: int| 0 <= j < rest.len() && rest[j] == x;
        assert(pairs[j] == x);
    }
    if lk != k {
        let j = choose|j: int| 0 <= j < pairs.len() && pairs[j] == (k, d);
        assert(j != pairs.len() - 1);
        assert(rest[j] == (k, d));
        lemma_lastmod_is_newest(rest, k, d);
    } else {
        lemma_seq_le_total(m.index(k), ld);
        if (k, d) == pairs.last() {
            if m.contains_key(k) {
                let kd0 = (k, m[k]);
                assert(rest.contains(kd0)) by {
                    lemma_lastmod_present(rest, k);
                }
                lemma_seq_le_refl(ld);
            } else {
                lemma_seq_le_refl(ld);
            }
        } else {
            let j = choose|j: int| 0 <= j < pairs.len() && pairs[j] == (k, d);
            assert(j != pairs.len() - 1);
            assert(rest[j] == (k, d));
            lemma_lastmod_is_newest(rest, k, d);
            if !seq_lt(m[k], ld) {
                lemma_seq_le_refl(m[k]);
            } else {
                lemma_seq_le_trans(d, m[k], ld);
            }
        }
        if m.contains_key(k) {
            lemma_lastmod_present(rest, k);
        }
    }
}

proof fn lemma_lastmod_present(pairs: Seq<(Seq<char>, Seq<char>)>, k: Seq<char>)
    requires
        latest_by_key(pairs).contains_key(k),
    ensures
        pairs.contains((k, latest_by_key(pairs)[k])),
    decreases pairs.len(),
{
    let rest = pairs.drop_last();
    let m = latest_by_key(rest);
    assert(pairs.last() == pairs[pairs.len() - 1]);
    assert forall|x: (Seq<char>, Seq<char>)| rest.contains(x) implies pairs.contains(x) by {
        let j = choose|j: int| 0 <= j < rest.len() && rest[j] == x;
        assert(pairs[j] == x);
    }
    if pairs.last().0 != k || (m.contains_key(k) && !seq_lt(m[k], pairs.last().1)) {
        lemma_lastmod_present(rest, k);
    }
}

/// The Open Graph image of a post that is not published on the day shows
/// nothing of it: it is the image of an unknown slug, with the site's name
/// and no tags.
pub proof fn lemma_og_hides_unpublished(ps: Seq<PostView>, slug: Seq<char>, day: Seq<char>)
    requires
        last_with_slug(ps, slug) matches Some(i) && !published_on(ps[i], day),
    ensures
        og_subject(ps, slug + ".svg"@, day) == og_subject(seq![], slug + ".svg"@, day),
        og_subject(ps, slug + ".svg"@, day) == ("Isaac Bythewood's Blog"@, Seq::<Seq<char>>::empty()),
{
    reveal_strlit(".svg");
    let sv = slug + ".svg"@;
    assert(sv.skip(sv.len() - 4) =~= ".svg"@);
    assert(ends_with(sv, ".svg"@));
    assert(sv.take(sv.len() - 4) =~= slug);
    assert(strip_suffix(sv, ".svg"@) == Some(slug));
}

/// Two lists of strings in strictly decreasing order with the same items are
/// equal.
proof fn lemma_decreasing_unique(a: Seq<Seq<char>>, b: Seq<Seq<char>>)
    requires
        forall|i: int, j: int| 0 <= i < j < a.len() ==> seq_lt(#[trigger] a[j], #[trigger] a[i]),
        forall|i: int, j: int| 0 <= i < j < b.len() ==> seq_lt(#[trigger] b[j], #[trigger] b[i]),
        forall|y: Seq<char>| a.contains(y) <==> b.contains(y),
    ensures
        a == b,
    decreases a.len(),
{
    if a.len() == 0 {
        if b.len() > 0 {
            assert(b.contains(b[0]));
        }
        assert(a =~= b);
    } else {
        assert(a.contains(a[0]));
        assert(b.len() > 0);
        assert(b.contains(b[0]));
        let x = a[0];
        let y = b[0];
        let k = choose|k: int| 0 <= k < a.len() && a[k] == y;
        let m = choose|m: int| 0 <= m < b.len() && b[m] == x;
        if x != y {
            assert(k > 0 && m > 0);
            assert(seq_lt(a[k], a[0]));
            assert(seq_lt(b[m], b[0]));
            lemma_seq_le_total(x, y);
        }
        let a1 = a.drop_first();
        let b1 = b.drop_first();
        assert forall|z: Seq<char>| a1.contains(z) implies b1.contains(z) by {
            let j = choose|j: int| 0 <= j < a1.len() && a1[j] == z;
            assert(a[j + 1] == z);
            assert(a.contains(z));
            let n = choose|n: int| 0 <= n < b.len() && b[n] == z;
            if n == 0 {
                assert(seq_lt(a[j + 1], a[0]));
            } else {
                assert(b1[n - 1] == z);
            }
        }
        assert forall|z: Seq<char>| b1.contains(z) implies a1.contains(z) by {
            let j = choose|j: int| 0 <= j < b1.len() && b1[j] == z;
            assert(b[j + 1] == z);
            assert(b.contains(z));
            let n = choose|n: int| 0 <= n < a.len() && a[n] == z;
            if n == 0 {
                assert(seq_lt(b[j + 1], b[0]));
            } else {
                assert(a1[n - 1] == z);
            }
        }
        assert forall|i: int, j: int| 0 <= i < j < a1.len() implies seq_lt(#[trigger] a1[j], #[trigger] a1[i]) by {
            assert(a1[j] == a[j + 1] && a1[i] == a[i + 1]);
        }
        assert forall|i: int, j: int| 0 <= i < j < b1.len() implies seq_lt(#[trigger] b1[j], #[trigger] b1[i]) by {
            assert(b1[j] == b[j + 1] && b1[i] == b[i + 1]);
        }
        lemma_decreasing_unique(a1, b1);
        assert(a =~= seq![x] + a1);
        assert(b =~= seq![y] + b1);
    }
}

/// The years of the posts are the years of the posts with a date.
proof fn lemma_post_years_contains(ps: Seq<PostView>, y: Seq<char>)
    ensures
        post_years(ps).contains(y) <==> exists|i: int|
            0 <= i < ps.len() && (#[trigger] ps[i]).date.len() > 0 && year_of(ps[i].date) == y,
    decreases ps.len(),
{
    if ps.len() > 0 {
        let d = ps.drop_last();
        lemma_post_years_contains(d, y);
        let n = ps.len() - 1;
        assert(ps[n] == ps.last());
        if post_years(ps).contains(y) {
            let k = choose|k: int| 0 <= k < post_years(ps).len() && post_years(ps)[k] == y;
            if k < post_years(d).len() {
                assert(post_years(d)[k] == y);
                assert(post_years(d).contains(y));
                let i = choose|i: int| 0 <= i < d.len() && (#[trigger] d[i]).date.len() > 0 && year_of(d[i].date) == y;
                assert(ps[i] == d[i]);
            }
        }
        if exists|i: int| 0 <= i < ps.len() && (#[trigger] ps[i]).date.len() > 0 && year_of(ps[i].date) == y {
            let i = choose|i: int| 0 <= i < ps.len() && (#[trigger] ps[i]).date.len() > 0 && year_of(ps[i].date) == y;
            if i < n {
                assert(d[i] == ps[i]);
                assert(post_years(d).contains(y));
                let k = choose|k: int| 0 <= k < post_years(d).len() && post_years(d)[k] == y;
                assert(post_years(ps)[k] == y);
            } else {
                assert(post_years(ps).last() == y);
                assert(post_years(ps)[post_years(ps).len() - 1] == y);
            }
        }
    }
}

/// The year index does not change when the posts are reordered, or when
/// posts are added whose date is empty or whose year already occurs: it
/// depends only on which years occur.
pub proof fn lemma_years_unchanged(ps: Seq<PostView>, qs: Seq<PostView>, ys: Seq<Seq<char>>, zs: Seq<Seq<char>>)
    requires
        is_year_index(ys, ps),
        is_year_index(zs, qs),
        forall|p: PostView| ps.contains(p) ==> qs.contains(p),
        forall|p: PostView| #[trigger] qs.contains(p) ==> ps.contains(p) || p.date.len() == 0
            || post_years(ps).contains(year_of(p.date)),
    ensures
        ys == zs,
{
    assert forall|y: Seq<char>| post_years(ps).contains(y) <==> post_years(qs).contains(y) by {
        lemma_post_years_contains(ps, y);
        lemma_post_years_contains(qs, y);
        if post_years(ps).contains(y) {
            let i = choose|i: int| 0 <= i < ps.len() && (#[trigger] ps[i]).date.len() > 0 && year_of(ps[i].date) == y;
            assert(ps.contains(ps[i]));
            let j = choose|j: int| 0 <= j < qs.len() && qs[j] == ps[i];
            assert(qs[j].date.len() > 0 && year_of(qs[j].date) == y);
        }
        if post_years(qs).contains(y) {
            let j = choose|j: int| 0 <= j < qs.len() && (#[trigger] qs[j]).date.len() > 0 && year_of(qs[j].date) == y;
            assert(qs.contains(qs[j]));
            if ps.contains(qs[j]) {
                let i = choose|i: int| 0 <= i < ps.len() && ps[i] == qs[j];
                assert(ps[i].date.len() > 0 && year_of(ps[i].date) == y);
            }
        }
    }
    lemma_decreasing_unique(ys, zs);
}

proof fn lemma_occurs_trans(s: Seq<char>, n: Seq<char>, m: Seq<char>)
    requires
        occurs(s, n),
        occurs(n, m),
    ensures
        occurs(s, m),
{
    let i = choose|i: int| matches_at(s, n, i);
    let j = choose|j: int| matches_at(n, m, j);
    assert(s.subrange(i + j, i + j + m.len()) =~= n.subrange(j, j + m.len()));
    assert(matches_at(s, m, i + j));
}

/// A shorter needle never loses a hit: a post that matches a needle matches
/// every part of it.
pub proof fn lemma_shorter_needle_keeps_hit(p: PostView, n: Seq<char>, m: Seq<char>)
    requires
        post_matches(p, n),
        occurs(n, m),
    ensures
        post_matches(p, m),
{
    if occurs(lowercase(p.title), n) {
        lemma_occurs_trans(lowercase(p.title), n, m);
    } else if occurs(lowercase(p.description), n) {
        lemma_occurs_trans(lowercase(p.description), n, m);
    } else {
        let i = choose|i: int| 0 <= i < p.tags.len() && occurs(lowercase(#[trigger] p.tags[i]), n);
        lemma_occurs_trans(lowercase(p.tags[i]), n, m);
    }
}

/// Matching looks at the lower-cased texts only: two posts whose title,
/// description and tags lower-case alike match the same needles.
pub proof fn lemma_match_sees_lower_case(p: PostView, q: PostView, n: Seq<char>)
    requires
        lowercase(p.title) == lowercase(q.title),
        lowercase(p.description) == lowercase(q.description),
        p.tags.len() == q.tags.len(),
        forall|i: int| 0 <= i < p.tags.len() ==> lowercase(#[trigger] p.tags[i]) == lowercase(q.tags[i]),
    ensures
        post_matches(p, n) == post_matches(q, n),
{
    if exists|i: int| 0 <= i < p.tags.len() && occurs(lowercase(#[trigger] p.tags[i]), n) {
        let i = choose|i: int| 0 <= i < p.tags.len() && occurs(lowercase(#[trigger] p.tags[i]), n);
        assert(occurs(lowercase(q.tags[i]), n));
    }
    if exists|i: int| 0 <= i < q.tags.len() && occurs(lowercase(#[trigger] q.tags[i]), n) {
        let i = choose|i: int| 0 <= i < q.tags.len() && occurs(lowercase(#[trigger] q.tags[i]), n);
        assert(lowercase(p.tags[i]) == lowercase(q.tags[i]));
        assert(occurs(lowercase(p.tags[i]), n));
    }
}

proof fn lemma_lit_escaped_concat(a: Seq<char>, b: Seq<char>)
    ensures
        lit_escaped(a + b) == lit_escaped(a) + lit_escaped(b),
    decreases b.len(),
{
    if b.len() == 0 {
        assert(a + b =~= a);
        assert(lit_escaped(a) + lit_escaped(b) =~= lit_escaped(a));
    } else {
        assert((a + b).drop_last() =~= a + b.drop_last());
        assert((a + b).last() == b.last());
        lemma_lit_escaped_concat(a, b.drop_last());
        assert(lit_escaped(a) + lit_escaped(b) =~= lit_escaped(a) + lit_escaped(b.drop_last()) + lit_escape_char(b.last()));
    }
}

proof fn lemma_lit_unescape_step(c: char, rest: Seq<char>)
    ensures
        lit_unescaped(lit_escape_char(c) + rest) == seq![c] + lit_unescaped(rest),
{
    let t = lit_escape_char(c) + rest;
    if c == '\\' || c == '"' || c == '\n' || c == '\r' || c == '\t' {
        assert(t[0] == '\\' && t.len() >= 2);
        assert(t.skip(2) =~= rest);
    } else {
        assert(t[0] == c);
        assert(t.skip(1) =~= rest);
    }
}

/// Reading back an escaped Typst string literal gives the string: every
/// backslash, quote, line feed, carriage return and tab comes back as it was.
pub proof fn lemma_string_literal_round_trip(s: Seq<char>)
    ensures
        lit_unescaped(lit_escaped(s)) == s,
    decreases s.len(),
{
    if s.len() > 0 {
        let c = s[0];
        let rest = s.drop_first();
        assert(s =~= seq![c] + rest);
        lemma_lit_escaped_concat(seq![c], rest);
        assert(seq![c].drop_last() =~= Seq::<char>::empty());
        assert(seq![c].last() == c);
        assert(lit_escaped(Seq::<char>::empty()) =~= Seq::<char>::empty());
        assert(lit_escaped(seq![c]) =~= lit_escape_char(c));
        lemma_lit_unescape_step(c, lit_escaped(rest));
        lemma_string_literal_round_trip(rest);
        assert(seq![c] + rest =~= s);
    } else {
        assert(lit_escaped(s) =~= Seq::<char>::empty());
    }
}

/// A string with no backslash, quote, line feed, carriage return or tab is
/// its own escaped literal.
pub proof fn lemma_string_literal_plain(s: Seq<char>)
    requires
        forall|i: int| 0 <= i < s.len() ==> {
            let c = #[trigger] s[i];
            c != '\\' && c != '"' && c != '\n' && c != '\r' && c != '\t'
        },
    ensures
        lit_escaped(s) == s,
    decreases s.len(),
{
    if s.len() > 0 {
        let d = s.drop_last();
        assert forall|i: int| 0 <= i < d.len() implies {
            let c = #[trigger] d[i];
            c != '\\' && c != '"' && c != '\n' && c != '\r' && c != '\t'
        } by {
            assert(d[i] == s[i]);
        }
        lemma_string_literal_plain(d);
        assert(s[s.len() - 1] == s.last());
        assert(d.push(s.last()) =~= s);
    }
}

} // verus!

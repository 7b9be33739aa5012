//! YAML-style front matter at the head of a Markdown post.
//!
//! A post may begin with a block fenced by `---` lines; each line of the
//! block of the form `key: value` defines an entry, and a later line with the
//! same key replaces an earlier one.
use vstd::prelude::*;
use crate::text::{
    chars_of, find, find_spec, lines, lines_of, matches_at, occurs, slice, split_once, split_once_chars,
    starts_with, starts_with_chars, string_of, trim, trim_chars, trim_start_set,
    trim_start_set_chars, views,
};

verus! {

/// A map from strings to strings (what `HashMap<String, String>` holds):
/// a list of entries whose keys are distinct.
pub struct TextMap {
    entries: Vec<(String, String)>,
}

/// The map that a list of entries denotes; a later entry for a key wins.
pub open spec fn entries_map(s: Seq<(String, String)>) -> Map<Seq<char>, Seq<char>>
    decreases s.len(),
{
    if s.len() == 0 {
        Map::empty()
    } else {
        entries_map(s.drop_last()).insert(s.last().0@, s.last().1@)
    }
}

/// No two entries share a key.
pub open spec fn distinct_keys(s: Seq<(String, String)>) -> bool {
    forall|i: int, j: int| 0 <= i < s.len() && 0 <= j < s.len() && i != j ==> s[i].0@ != s[j].0@
}

proof fn lemma_entries_map(s: Seq<(String, String)>)
    requires
        distinct_keys(s),
    ensures
        forall|k: Seq<char>|
            #![trigger entries_map(s).dom().contains(k)]
            entries_map(s).dom().contains(k) <==> exists|i: int| 0 <= i < s.len() && s[i].0@ == k,
        forall|i: int| 0 <= i < s.len() ==> #[trigger] entries_map(s)[s[i].0@] == s[i].1@,
    decreases s.len(),
{
    if s.len() > 0 {
        let t = s.drop_last();
        let n = s.len() - 1;
        assert(distinct_keys(t));
        lemma_entries_map(t);
        assert(entries_map(s) == entries_map(t).insert(s[n].0@, s[n].1@));
        assert forall|k: Seq<char>| #![trigger entries_map(s).dom().contains(k)]
            entries_map(s).dom().contains(k) <==> exists|i: int| 0 <= i < s.len() && s[i].0@ == k by {
            if entries_map(s).dom().contains(k) {
                if k == s[n].0@ {
                    assert(0 <= n < s.len() && s[n].0@ == k);
                } else {
                    assert(entries_map(t).dom().contains(k));
                    let i = choose|i: int| 0 <= i < t.len() && t[i].0@ == k;
                    assert(t[i] == s[i]);
                    assert(0 <= i < s.len() && s[i].0@ == k);
                }
            }
            if exists|i: int| 0 <= i < s.len() && s[i].0@ == k {
                let i = choose|i: int| 0 <= i < s.len() && s[i].0@ == k;
                if i < n {
                    assert(t[i] == s[i]);
                    assert(0 <= i < t.len() && t[i].0@ == k);
                    assert(entries_map(t).dom().contains(k));
                }
            }
        }
        assert forall|i: int| 0 <= i < s.len() implies #[trigger] entries_map(s)[s[i].0@] == s[i].1@ by {
            if i < n {
                assert(t[i] == s[i]);
                assert(s[i].0@ != s[n].0@);
                assert(entries_map(t)[t[i].0@] == t[i].1@);
            }
        }
    }
}

impl View for TextMap {
    type V = Map<Seq<char>, Seq<char>>;

    closed spec fn view(&self) -> Map<Seq<char>, Seq<char>> {
        entries_map(self.entries@)
    }
}

impl TextMap {
    /// The entries are well formed: their keys are distinct.
    pub closed spec fn wf(&self) -> bool {
        distinct_keys(self.entries@)
    }

    /// An empty map.
    pub fn new() -> (r: TextMap)
        ensures
            r.wf(),
            r@ == Map::<Seq<char>, Seq<char>>::empty(),
    {
        TextMap { entries: Vec::new() }
    }

    /// Sets `key` to `value`, replacing an earlier value (`HashMap::insert`).
    pub fn insert(&mut self, key: String, value: String)
        requires
            old(self).wf(),
        ensures
            final(self).wf(),
            final(self)@ == old(self)@.insert(key@, value@),
    {
        let ghost old_entries = self.entries@;
        proof {
            lemma_entries_map(old_entries);
        }
        let mut i: usize = 0;
        while i < self.entries.len()
            invariant
                self.entries@ == old_entries,
                old(self)@ == entries_map(old_entries),
                distinct_keys(old_entries),
                i <= self.entries.len(),
                forall|j: int| 0 <= j < i ==> self.entries@[j].0@ != key@,
            decreases self.entries.len() - i,
        {
            if self.entries[i].0 == key {
                let ghost k = key@;
                let ghost v = value@;
                self.entries.set(i, (key, value));
                proof {
                    lemma_entries_map(old_entries);
                    let s = self.entries@;
                    assert(s == old_entries.update(i as int, (s[i as int].0, s[i as int].1)));
                    assert(s[i as int].0@ == k && s[i as int].1@ == v);
                    assert(old_entries[i as int].0@ == k);
                    assert(distinct_keys(s)) by {
                        assert forall|a: int, b: int|
                            0 <= a < s.len() && 0 <= b < s.len() && a != b implies s[a].0@ != s[b].0@ by {
                            assert(old_entries[a].0@ != old_entries[b].0@);
                        }
                    }
                    lemma_entries_map(s);
                    assert forall|kk: Seq<char>| entries_map(s).dom().contains(kk) <==> entries_map(old_entries).insert(k, v).dom().contains(kk) by {
                        if entries_map(old_entries).dom().contains(kk) && kk != k {
                            let j = choose|j: int| 0 <= j < old_entries.len() && old_entries[j].0@ == kk;
                            assert(s[j].0@ == kk);
                        }
                        if entries_map(s).dom().contains(kk) {
                            let j = choose|j: int| 0 <= j < s.len() && s[j].0@ == kk;
                            if j != i {
                                assert(old_entries[j].0@ == kk);
                            }
                        }
                        if kk == k {
                            assert(s[i as int].0@ == kk);
                        }
                    }
                    assert forall|kk: Seq<char>| entries_map(s).dom().contains(kk) implies entries_map(s)[kk] == entries_map(old_entries).insert(k, v)[kk] by {
                        let j = choose|j: int| 0 <= j < s.len() && s[j].0@ == kk;
                        assert(entries_map(s)[s[j].0@] == s[j].1@);
                        if j != i {
                            assert(old_entries[j] == s[j]);
                            assert(entries_map(old_entries)[old_entries[j].0@] == old_entries[j].1@);
                        }
                    }
                    assert(entries_map(s) =~= entries_map(old_entries).insert(k, v));
                }
                assert(self@ == entries_map(old_entries).insert(k, v));
                assert(old(self)@ == entries_map(old_entries));
                assert(k == key@ && v == value@);
                return;
            }
            i += 1;
        }
        self.entries.push((key, value));
        proof {
            let s = self.entries@;
            assert(s.drop_last() =~= old_entries);
            assert(distinct_keys(s)) by {
                assert forall|a: int, b: int|
                    0 <= a < s.len() && 0 <= b < s.len() && a != b implies s[a].0@ != s[b].0@ by {
                    if a < old_entries.len() && b < old_entries.len() {
                        assert(old_entries[a].0@ != old_entries[b].0@);
                    }
                }
            }
        }
    }

    /// The value of `key`, if set (`HashMap::get`).
    pub fn get(&self, key: &str) -> (r: Option<String>)
        requires
            self.wf(),
        ensures
            match r {
                Some(v) => self@.contains_key(key@) && self@[key@] == v@,
                None => !self@.contains_key(key@),
            },
    {
        let k = String::from_str(key);
        let mut i: usize = 0;
        while i < self.entries.len()
            invariant
                i <= self.entries.len(),
                k@ == key@,
                self.wf(),
                forall|j: int| 0 <= j < i ==> self.entries@[j].0@ != key@,
            decreases self.entries.len() - i,
        {
            if self.entries[i].0 == k {
                proof {
                    lemma_entries_map(self.entries@);
                }
                return Some(self.entries[i].1.clone());
            }
            i += 1;
        }
        proof {
            lemma_entries_map(self.entries@);
        }
        None
    }

    /// The number of entries.
    pub fn len(&self) -> (r: usize)
        requires
            self.wf(),
        ensures
            r == self@.len(),
    {
        proof {
            lemma_entries_map(self.entries@);
            lemma_entries_len(self.entries@);
        }
        self.entries.len()
    }
}

proof fn lemma_entries_len(s: Seq<(String, String)>)
    requires
        distinct_keys(s),
    ensures
        entries_map(s).dom().finite(),
        entries_map(s).len() == s.len(),
    decreases s.len(),
{
    if s.len() > 0 {
        let t = s.drop_last();
        assert(distinct_keys(t));
        lemma_entries_len(t);
        lemma_entries_map(t);
        assert(!entries_map(t).dom().contains(s.last().0@)) by {
            if entries_map(t).dom().contains(s.last().0@) {
                let i = choose|i: int| 0 <= i < t.len() && t[i].0@ == s.last().0@;
                assert(s[i].0@ == s[s.len() - 1].0@);
            }
        }
    }
}

/// The entries that the lines of a block define, in order.
pub open spec fn meta_of(ls: Seq<Seq<char>>) -> Map<Seq<char>, Seq<char>>
    decreases ls.len(),
{
    if ls.len() == 0 {
        Map::empty()
    } else {
        let m = meta_of(ls.drop_last());
        match split_once(ls.last(), seq![':', ' ']) {
            Some((k, v)) => m.insert(trim(k), trim(v)),
            None => m,
        }
    }
}

/// The fence line of a front matter block.
pub open spec fn fence() -> Seq<char> {
    seq!['-', '-', '-']
}

/// The characters skipped between the closing fence and the body.
pub open spec fn body_gap() -> Seq<char> {
    seq!['\r', '\n', ' ', '\t']
}

/// What `parse_frontmatter` returns for `text`: the entries of the block and
/// the body after it.  Without an opening fence at the very start, or without
/// a closing fence, there are no entries and the body is the whole text.
pub open spec fn frontmatter_of(text: Seq<char>) -> (Map<Seq<char>, Seq<char>>, Seq<char>) {
    if !starts_with(text, fence()) {
        (Map::empty(), text)
    } else {
        let after = text.skip(3);
        match find_spec(after, fence()) {
            None => (Map::empty(), text),
            Some(e) => (
                meta_of(lines(trim(after.take(e)))),
                trim_start_set(text.skip(3 + e + 3), body_gap()),
            ),
        }
    }
}

/// Splits a post into its front matter entries and its body.
pub fn parse_frontmatter(text: &str) -> (r: (TextMap, String))
    ensures
        r.0.wf(),
        (r.0@, r.1@) == frontmatter_of(text@),
{
    let t = chars_of(text);
    let dash: Vec<char> = vec!['-', '-', '-'];
    assert(dash@ =~= fence());
    let mut meta = TextMap::new();
    if !starts_with_chars(&t, &dash) {
        return (meta, string_of(&t));
    }
    let after = slice(&t, 3, t.len());
    assert(after@ =~= t@.skip(3));
    let end_rel = match find(&after, &dash) {
        Some(e) => e,
        None => {
            return (meta, string_of(&t));
        },
    };
    assert(matches_at(after@, dash@, end_rel as int));
    let block = slice(&after, 0, end_rel);
    assert(block@ =~= after@.take(end_rel as int));
    let body_start = 3 + end_rel + 3;
    let rest = slice(&t, body_start, t.len());
    assert(rest@ =~= t@.skip(body_start as int));
    let gap: Vec<char> = vec!['\r', '\n', ' ', '\t'];
    assert(gap@ =~= body_gap());
    let body = trim_start_set_chars(&rest, &gap);
    let trimmed = trim_chars(&block);
    let ls = lines_of(&trimmed);
    let sep: Vec<char> = vec![':', ' '];
    assert(sep@ =~= seq![':', ' ']);
    let mut i: usize = 0;
    while i < ls.len()
        invariant
            i <= ls.len(),
            meta.wf(),
            sep@ == seq![':', ' '],
            meta@ == meta_of(views(ls@).take(i as int)),
        decreases ls.len() - i,
    {
        assert(views(ls@).take(i + 1).drop_last() =~= views(ls@).take(i as int));
        assert(views(ls@).take(i + 1).last() == ls@[i as int]@);
        match split_once_chars(&ls[i], &sep) {
            Some((k, v)) => {
                let kt = trim_chars(&k);
                let vt = trim_chars(&v);
                meta.insert(string_of(&kt), string_of(&vt));
            },
            None => {},
        }
        i += 1;
    }
    assert(views(ls@).take(ls.len() as int) =~= views(ls@));
    (meta, string_of(&body))
}

// ---------------------------------------------------------------------------
// Laws.

proof fn lemma_find_first(s: Seq<char>, p: Seq<char>, i: int)
    requires
        matches_at(s, p, i),
        forall|j: int| 0 <= j < i ==> !matches_at(s, p, j),
    ensures
        find_spec(s, p) == Some(i),
{
    assert(occurs(s, p));
    let c = choose|k: int| matches_at(s, p, k) && forall|j: int| 0 <= j < k ==> !matches_at(s, p, j);
    if c < i {
        assert(!matches_at(s, p, c));
    }
    if c > i {
        assert(!matches_at(s, p, i));
    }
}

/// `k` holds no `: `.
pub open spec fn no_separator(k: Seq<char>) -> bool {
    forall|j: int| 0 <= j < k.len() - 1 ==> !(#[trigger] k[j] == ':' && k[j + 1] == ' ')
}

/// `b` holds no `---`.
pub open spec fn no_fence(b: Seq<char>) -> bool {
    forall|j: int| 0 <= j < b.len() - 2 ==> !(#[trigger] b[j] == '-' && b[j + 1] == '-' && b[j + 2] == '-')
}

/// The front matter line `key: value`.
#[verifier::opaque]
pub open spec fn entry_line(k: Seq<char>, v: Seq<char>) -> Seq<char> {
    k + seq![':', ' '] + v
}

proof fn lemma_first_separator(k: Seq<char>, v: Seq<char>)
    requires
        no_separator(k),
    ensures
        matches_at(entry_line(k, v), seq![':', ' '], k.len() as int),
        forall|j: int| 0 <= j < k.len() ==> !matches_at(entry_line(k, v), seq![':', ' '], j),
        entry_line(k, v).take(k.len() as int) == k,
        entry_line(k, v).skip(k.len() as int + 2) == v,
{
    reveal(entry_line);
    let sep = seq![':', ' '];
    let l = k + sep + v;
    let n = k.len() as int;
    assert(l.subrange(n, n + 2) =~= sep);
    assert forall|j: int| 0 <= j < n implies !matches_at(l, sep, j) by {
        if matches_at(l, sep, j) {
            assert(l.subrange(j, j + 2)[0] == l[j]);
            assert(l.subrange(j, j + 2)[1] == l[j + 1]);
            if j + 1 < n {
                assert(l[j] == k[j] && l[j + 1] == k[j + 1]);
            } else {
                assert(l[j + 1] == ':');
            }
        }
    }
    assert(l.take(n) =~= k);
    assert(l.skip(n + 2) =~= v);
}

/// A front matter line `key: value` whose key holds no `: ` sets the
/// trimmed key to the trimmed value, all of what follows the first `: `
/// (a value may itself hold `: `); it replaces what earlier lines set.
pub proof fn lemma_front_matter_line(ls: Seq<Seq<char>>, k: Seq<char>, v: Seq<char>)
    requires
        no_separator(k),
    ensures
        meta_of(ls.push(entry_line(k, v))).contains_key(trim(k)),
        meta_of(ls.push(entry_line(k, v)))[trim(k)] == trim(v),
{
    let l = entry_line(k, v);
    lemma_first_separator(k, v);
    lemma_find_first(l, seq![':', ' '], k.len() as int);
    assert(split_once(l, seq![':', ' ']) == Some((k, v)));
    assert(ls.push(l).drop_last() =~= ls);
    assert(ls.push(l).last() == l);
}

/// A text made of a front matter block between two `---` fences, then the
/// rest of the text.
#[verifier::opaque]
pub open spec fn fenced(block: Seq<char>, rest: Seq<char>) -> Seq<char> {
    fence() + block + fence() + rest
}

proof fn lemma_closing_fence(block: Seq<char>, rest: Seq<char>)
    requires
        no_fence(block),
        block.len() == 0 || block.last() != '-',
    ensures
        starts_with(fenced(block, rest), fence()),
        matches_at(fenced(block, rest).skip(3), fence(), block.len() as int),
        forall|j: int| 0 <= j < block.len() ==> !matches_at(fenced(block, rest).skip(3), fence(), j),
        fenced(block, rest).skip(3).take(block.len() as int) == block,
        fenced(block, rest).skip(block.len() as int + 6) == rest,
{
    reveal(fenced);
    let f = fence();
    let text = f + block + f + rest;
    let after = block + f + rest;
    let n = block.len() as int;
    assert(text.take(3) =~= f);
    assert(text.skip(3) =~= after);
    assert(after.subrange(n, n + 3) =~= f);
    assert forall|j: int| 0 <= j < n implies !matches_at(after, f, j) by {
        if matches_at(after, f, j) {
            assert(after.subrange(j, j + 3)[0] == after[j]);
            assert(after.subrange(j, j + 3)[1] == after[j + 1]);
            assert(after.subrange(j, j + 3)[2] == after[j + 2]);
            if j + 2 < n {
                assert(after[j] == block[j] && after[j + 1] == block[j + 1] && after[j + 2] == block[j + 2]);
            } else {
                assert(after[n - 1] == block[n - 1]);
                assert(block[n - 1] == block.last());
            }
        }
    }
    assert(after.take(n) =~= block);
    assert(text.skip(n + 6) =~= rest);
}

/// A text that opens with `---`, then a block free of `---` that does not
/// end in `-`, then `---`, has the entries of the block's lines, and the
/// rest, after line breaks, spaces and tabs, as its body.
pub proof fn lemma_front_matter_block(block: Seq<char>, rest: Seq<char>)
    requires
        no_fence(block),
        block.len() == 0 || block.last() != '-',
    ensures
        frontmatter_of(fenced(block, rest))
            == (meta_of(lines(trim(block))), trim_start_set(rest, body_gap())),
{
    lemma_closing_fence(block, rest);
    lemma_find_first(fenced(block, rest).skip(3), fence(), block.len() as int);
}

} // verus!

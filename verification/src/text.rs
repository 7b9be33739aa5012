//! Character-level text primitives on which the rest of the library is built.
//!
//! Strings are handled as sequences of Unicode scalar values (`char`).  Where
//! the standard library counts in UTF-8 bytes (`str::len`) the byte count is
//! given by [`byte_len`].
use vstd::prelude::*;

verus! {

/// Appends one character to a string (`String::push`).
#[verifier::external_body]
pub(crate) fn push_char(s: &mut String, c: char)
    ensures
        final(s)@ == old(s)@.push(c),
{
    s.push(c);
}

/// The characters of a string slice, in order.
pub fn chars_of(s: &str) -> (r: Vec<char>)
    ensures
        r@ == s@,
{
    let mut r: Vec<char> = Vec::new();
    for c in it: s.chars()
        invariant
            r@ == it.seq().take(it.index() as int),
            it.seq() == s@,
    {
        r.push(c);
    }
    r
}

/// Appends characters to a string.
pub fn push_chars(out: &mut String, cs: &Vec<char>)
    ensures
        final(out)@ == old(out)@ + cs@,
{
    let mut i: usize = 0;
    while i < cs.len()
        invariant
            i <= cs.len(),
            out@ == old(out)@ + cs@.take(i as int),
        decreases cs.len() - i,
    {
        push_char(out, cs[i]);
        assert(cs@.take(i as int).push(cs@[i as int]) =~= cs@.take(i + 1));
        i += 1;
    }
    assert(cs@.take(cs.len() as int) =~= cs@);
}

/// Appends a string slice to a string.
pub fn push_str(out: &mut String, s: &str)
    ensures
        final(out)@ == old(out)@ + s@,
{
    out.append(s);
}

/// A string holding the given characters.
pub fn string_of(cs: &Vec<char>) -> (r: String)
    ensures
        r@ == cs@,
{
    let mut r = String::new();
    push_chars(&mut r, cs);
    r
}

/// The characters `s[a..b]`.
pub fn slice(s: &Vec<char>, a: usize, b: usize) -> (r: Vec<char>)
    requires
        a <= b <= s.len(),
    ensures
        r@ == s@.subrange(a as int, b as int),
{
    let mut r: Vec<char> = Vec::new();
    let mut i = a;
    while i < b
        invariant
            a <= i <= b <= s.len(),
            r@ == s@.subrange(a as int, i as int),
        decreases b - i,
    {
        r.push(s[i]);
        assert(s@.subrange(a as int, i as int).push(s@[i as int]) =~= s@.subrange(a as int, i + 1));
        i += 1;
    }
    r
}

/// Unicode `White_Space`, the set `char::is_whitespace` tests.
pub open spec fn is_ws(c: char) -> bool {
    let u = c as u32;
    ||| 0x09 <= u <= 0x0d
    ||| u == 0x20
    ||| u == 0x85
    ||| u == 0xa0
    ||| u == 0x1680
    ||| 0x2000 <= u <= 0x200a
    ||| u == 0x2028
    ||| u == 0x2029
    ||| u == 0x202f
    ||| u == 0x205f
    ||| u == 0x3000
}

/// Executable [`is_ws`].
pub fn is_whitespace(c: char) -> (r: bool)
    ensures
        r == is_ws(c),
{
    let u = c as u32;
    (0x09 <= u && u <= 0x0d) || u == 0x20 || u == 0x85 || u == 0xa0 || u == 0x1680 || (0x2000
        <= u && u <= 0x200a) || u == 0x2028 || u == 0x2029 || u == 0x202f || u == 0x205f || u
        == 0x3000
}

/// Number of leading characters of `s` that satisfy `is_ws`.
pub open spec fn lead_ws(s: Seq<char>) -> nat
    decreases s.len(),
{
    if s.len() > 0 && is_ws(s[0]) {
        1 + lead_ws(s.drop_first())
    } else {
        0
    }
}

/// Number of trailing characters of `s` that satisfy `is_ws`.
pub open spec fn trail_ws(s: Seq<char>) -> nat
    decreases s.len(),
{
    if s.len() > 0 && is_ws(s.last()) {
        1 + trail_ws(s.drop_last())
    } else {
        0
    }
}

/// `s` without leading whitespace (`str::trim_start`).
pub open spec fn trim_start(s: Seq<char>) -> Seq<char> {
    s.skip(lead_ws(s) as int)
}

/// `s` without trailing whitespace (`str::trim_end`).
pub open spec fn trim_end(s: Seq<char>) -> Seq<char> {
    s.take(s.len() - trail_ws(s))
}

/// `s` without leading and trailing whitespace (`str::trim`).
pub open spec fn trim(s: Seq<char>) -> Seq<char> {
    trim_end(trim_start(s))
}

/// The leading whitespace of `s` is its first `i` characters when those are
/// whitespace and the next is not.
pub proof fn lemma_lead_ws(s: Seq<char>, i: int)
    requires
        0 <= i <= s.len(),
        forall|j: int| 0 <= j < i ==> is_ws(#[trigger] s[j]),
        i == s.len() || !is_ws(s[i]),
    ensures
        lead_ws(s) == i,
    decreases i,
{
    if i > 0 {
        let t = s.drop_first();
        assert forall|j: int| 0 <= j < i - 1 implies is_ws(#[trigger] t[j]) by {
            assert(t[j] == s[j + 1]);
        }
        lemma_lead_ws(t, i - 1);
    }
}

/// The trailing whitespace of `s` is what follows index `i` when that is all
/// whitespace and the character before `i` is not.
pub proof fn lemma_trail_ws(s: Seq<char>, i: int)
    requires
        0 <= i <= s.len(),
        forall|j: int| i <= j < s.len() ==> is_ws(#[trigger] s[j]),
        i == 0 || !is_ws(s[i - 1]),
    ensures
        trail_ws(s) == s.len() - i,
    decreases s.len() - i,
{
    if i < s.len() {
        let t = s.drop_last();
        assert forall|j: int| i <= j < t.len() implies is_ws(#[trigger] t[j]) by {
            assert(t[j] == s[j]);
        }
        lemma_trail_ws(t, i);
    }
}

/// Index of the first non-whitespace character (or the length).
fn first_non_ws(s: &Vec<char>) -> (r: usize)
    ensures
        r <= s.len(),
        r == lead_ws(s@),
{
    let mut i: usize = 0;
    while i < s.len() && is_whitespace(s[i])
        invariant
            i <= s.len(),
            forall|j: int| 0 <= j < i ==> is_ws(#[trigger] s@[j]),
        decreases s.len() - i,
    {
        i += 1;
    }
    proof {
        lemma_lead_ws(s@, i as int);
    }
    i
}

/// `str::trim_start` on characters.
pub fn trim_start_chars(s: &Vec<char>) -> (r: Vec<char>)
    ensures
        r@ == trim_start(s@),
{
    let i = first_non_ws(s);
    slice(s, i, s.len())
}

/// `str::trim` on characters.
pub fn trim_chars(s: &Vec<char>) -> (r: Vec<char>)
    ensures
        r@ == trim(s@),
{
    let t = trim_start_chars(s);
    let mut e: usize = t.len();
    while e > 0 && is_whitespace(t[e - 1])
        invariant
            e <= t.len(),
            forall|j: int| e <= j < t.len() ==> is_ws(#[trigger] t@[j]),
        decreases e,
    {
        e -= 1;
    }
    proof {
        lemma_trail_ws(t@, e as int);
    }
    slice(&t, 0, e)
}

/// `true` when `p` occurs in `s` at index `i`.
pub open spec fn matches_at(s: Seq<char>, p: Seq<char>, i: int) -> bool {
    0 <= i && i + p.len() <= s.len() && s.subrange(i, i + p.len()) == p
}

/// `true` when `p` occurs in `s` (`str::contains`).
pub open spec fn occurs(s: Seq<char>, p: Seq<char>) -> bool {
    exists|i: int| matches_at(s, p, i)
}

/// Index of the first occurrence of `p` in `s` (`str::find`).
pub open spec fn find_spec(s: Seq<char>, p: Seq<char>) -> Option<int> {
    if occurs(s, p) {
        Some(choose|i: int| matches_at(s, p, i) && forall|j: int| 0 <= j < i ==> !matches_at(s, p, j))
    } else {
        None
    }
}

/// `s` begins with `p` (`str::starts_with`).
pub open spec fn starts_with(s: Seq<char>, p: Seq<char>) -> bool {
    p.len() <= s.len() && s.take(p.len() as int) == p
}

/// `s` ends with `p` (`str::ends_with`).
pub open spec fn ends_with(s: Seq<char>, p: Seq<char>) -> bool {
    p.len() <= s.len() && s.skip(s.len() - p.len()) == p
}

fn match_at(s: &Vec<char>, p: &Vec<char>, i: usize) -> (r: bool)
    requires
        i + p.len() <= s.len(),
    ensures
        r == matches_at(s@, p@, i as int),
{
    let mut k: usize = 0;
    while k < p.len()
        invariant
            k <= p.len(),
            i + p.len() <= s.len(),
            forall|j: int| 0 <= j < k ==> s@[i + j] == p@[j],
        decreases p.len() - k,
    {
        if s[i + k] != p[k] {
            assert(s@.subrange(i as int, i + p.len())[k as int] != p@[k as int]);
            return false;
        }
        k += 1;
    }
    assert(s@.subrange(i as int, i + p.len()) =~= p@);
    true
}

/// Executable [`find_spec`].
pub fn find(s: &Vec<char>, p: &Vec<char>) -> (r: Option<usize>)
    ensures
        r matches Some(i) ==> find_spec(s@, p@) == Some(i as int),
        r is None ==> find_spec(s@, p@) is None,
        r matches Some(i) ==> matches_at(s@, p@, i as int) && forall|j: int|
            0 <= j < i ==> !matches_at(s@, p@, j),
        r is None ==> !occurs(s@, p@),
{
    if p.len() > s.len() {
        assert(!occurs(s@, p@));
        return None;
    }
    let n = s.len() - p.len();
    let mut i: usize = 0;
    loop
        invariant
            p.len() <= s.len(),
            n == s.len() - p.len(),
            i <= n,
            forall|j: int| 0 <= j < i ==> !matches_at(s@, p@, j),
        ensures
            forall|j: int| 0 <= j <= n ==> !matches_at(s@, p@, j),
        decreases n - i,
    {
        if match_at(s, p, i) {
            proof {
                let ii = i as int;
                assert(occurs(s@, p@));
                let c = choose|k: int| matches_at(s@, p@, k) && forall|j: int| 0 <= j < k ==> !matches_at(s@, p@, j);
                assert(c == ii);
            }
            return Some(i);
        }
        if i == n {
            break;
        }
        i += 1;
    }
    assert(!occurs(s@, p@));
    None
}

/// Executable [`starts_with`].
pub fn starts_with_chars(s: &Vec<char>, p: &Vec<char>) -> (r: bool)
    ensures
        r == starts_with(s@, p@),
{
    if p.len() > s.len() {
        return false;
    }
    let r = match_at(s, p, 0);
    assert(s@.subrange(0, p.len() as int) =~= s@.take(p.len() as int));
    r
}

/// Executable [`ends_with`].
pub fn ends_with_chars(s: &Vec<char>, p: &Vec<char>) -> (r: bool)
    ensures
        r == ends_with(s@, p@),
{
    if p.len() > s.len() {
        return false;
    }
    let r = match_at(s, p, s.len() - p.len());
    assert(s@.subrange(s.len() - p.len(), s.len() as int) =~= s@.skip(s.len() - p.len()));
    r
}

/// Executable [`occurs`].
pub fn contains_chars(s: &Vec<char>, p: &Vec<char>) -> (r: bool)
    ensures
        r == occurs(s@, p@),
{
    find(s, p).is_some()
}

/// Lexicographic order on code points, which is the byte order of the UTF-8
/// encodings (the order `str` compares by).
pub open spec fn seq_le(a: Seq<char>, b: Seq<char>) -> bool
    decreases a.len(),
{
    if a.len() == 0 {
        true
    } else if b.len() == 0 {
        false
    } else if a[0] != b[0] {
        a[0] < b[0]
    } else {
        seq_le(a.drop_first(), b.drop_first())
    }
}

/// Strict lexicographic order.
pub open spec fn seq_lt(a: Seq<char>, b: Seq<char>) -> bool {
    seq_le(a, b) && a != b
}

/// The string order is total and antisymmetric.
pub proof fn lemma_seq_le_total(a: Seq<char>, b: Seq<char>)
    ensures
        seq_le(a, b) || seq_le(b, a),
        seq_le(a, b) && seq_le(b, a) ==> a == b,
    decreases a.len(),
{
    if a.len() > 0 && b.len() > 0 && a[0] == b[0] {
        lemma_seq_le_total(a.drop_first(), b.drop_first());
        if seq_le(a, b) && seq_le(b, a) {
            assert(a =~= seq![a[0]] + a.drop_first());
            assert(b =~= seq![b[0]] + b.drop_first());
        }
    }
}

/// The string order is transitive.
pub proof fn lemma_seq_le_trans(a: Seq<char>, b: Seq<char>, c: Seq<char>)
    requires
        seq_le(a, b),
        seq_le(b, c),
    ensures
        seq_le(a, c),
    decreases a.len(),
{
    if a.len() > 0 && b.len() > 0 && c.len() > 0 && a[0] == b[0] && b[0] == c[0] {
        lemma_seq_le_trans(a.drop_first(), b.drop_first(), c.drop_first());
    }
}

/// The string order is reflexive.
pub proof fn lemma_seq_le_refl(a: Seq<char>)
    ensures
        seq_le(a, a),
    decreases a.len(),
{
    if a.len() > 0 {
        lemma_seq_le_refl(a.drop_first());
    }
}

/// Executable [`seq_le`].
pub fn chars_le(a: &Vec<char>, b: &Vec<char>) -> (r: bool)
    ensures
        r == seq_le(a@, b@),
{
    let mut i: usize = 0;
    assert(a@.skip(0) =~= a@);
    assert(b@.skip(0) =~= b@);
    while i < a.len() && i < b.len() && a[i] == b[i]
        invariant
            i <= a.len(),
            i <= b.len(),
            seq_le(a@, b@) == seq_le(a@.skip(i as int), b@.skip(i as int)),
        decreases a.len() - i,
    {
        assert(a@.skip(i as int).drop_first() =~= a@.skip(i + 1));
        assert(b@.skip(i as int).drop_first() =~= b@.skip(i + 1));
        i += 1;
    }
    if i == a.len() {
        true
    } else if i == b.len() {
        false
    } else {
        a[i] < b[i]
    }
}

/// Executable equality of character sequences.
pub fn chars_eq(a: &Vec<char>, b: &Vec<char>) -> (r: bool)
    ensures
        r == (a@ == b@),
{
    if a.len() != b.len() {
        return false;
    }
    let mut i: usize = 0;
    while i < a.len()
        invariant
            a.len() == b.len(),
            i <= a.len(),
            forall|j: int| 0 <= j < i ==> a@[j] == b@[j],
        decreases a.len() - i,
    {
        if a[i] != b[i] {
            return false;
        }
        i += 1;
    }
    assert(a@ =~= b@);
    true
}

/// Number of bytes of the UTF-8 encoding of `c`.
pub open spec fn char_width(c: char) -> nat {
    let u = c as u32;
    if u < 0x80 {
        1
    } else if u < 0x800 {
        2
    } else if u < 0x10000 {
        3
    } else {
        4
    }
}

/// Number of bytes of the UTF-8 encoding of `s` (what `str::len` returns).
pub open spec fn byte_len(s: Seq<char>) -> nat
    decreases s.len(),
{
    if s.len() == 0 {
        0
    } else {
        byte_len(s.drop_last()) + char_width(s.last())
    }
}

/// Executable [`char_width`].
pub fn char_width_of(c: char) -> (r: usize)
    ensures
        r == char_width(c),
{
    let u = c as u32;
    if u < 0x80 {
        1
    } else if u < 0x800 {
        2
    } else if u < 0x10000 {
        3
    } else {
        4
    }
}

/// A string takes between one and four bytes a character.
pub proof fn lemma_byte_len_bounds(s: Seq<char>)
    ensures
        s.len() <= byte_len(s) <= 4 * s.len(),
    decreases s.len(),
{
    if s.len() > 0 {
        lemma_byte_len_bounds(s.drop_last());
    }
}

/// The bytes of a concatenation are those of its parts.
pub proof fn lemma_byte_len_concat(a: Seq<char>, b: Seq<char>)
    ensures
        byte_len(a + b) == byte_len(a) + byte_len(b),
    decreases b.len(),
{
    if b.len() > 0 {
        assert((a + b).drop_last() =~= a + b.drop_last());
        lemma_byte_len_concat(a, b.drop_last());
    } else {
        assert(a + b =~= a);
    }
}

/// The decimal digit for `d < 10`.
pub open spec fn digit(d: nat) -> char {
    if d == 0 { '0' } else if d == 1 { '1' } else if d == 2 { '2' } else if d == 3 { '3' }
    else if d == 4 { '4' } else if d == 5 { '5' } else if d == 6 { '6' } else if d == 7 { '7' }
    else if d == 8 { '8' } else { '9' }
}

/// The decimal representation of `n`, as `format!("{}", n)` writes it.
pub open spec fn decimal(n: nat) -> Seq<char>
    decreases n,
{
    if n < 10 {
        seq![digit(n)]
    } else {
        decimal(n / 10).push(digit(n % 10))
    }
}

fn digit_char(d: usize) -> (r: char)
    requires
        d < 10,
    ensures
        r == digit(d as nat),
{
    if d == 0 { '0' } else if d == 1 { '1' } else if d == 2 { '2' } else if d == 3 { '3' }
    else if d == 4 { '4' } else if d == 5 { '5' } else if d == 6 { '6' } else if d == 7 { '7' }
    else if d == 8 { '8' } else { '9' }
}

/// Appends the decimal representation of `n`.
pub fn push_decimal(out: &mut String, n: usize)
    ensures
        final(out)@ == old(out)@ + decimal(n as nat),
    decreases n,
{
    if n < 10 {
        push_char(out, digit_char(n));
        assert(old(out)@.push(digit(n as nat)) =~= old(out)@ + seq![digit(n as nat)]);
    } else {
        push_decimal(out, n / 10);
        push_char(out, digit_char(n % 10));
        assert(old(out)@ + decimal((n / 10) as nat) + seq![digit((n % 10) as nat)] =~= old(out)@ + decimal(n as nat));
    }
}

/// The views of a sequence of character vectors.
pub open spec fn views(v: Seq<Vec<char>>) -> Seq<Seq<char>> {
    v.map_values(|x: Vec<char>| x@)
}

/// The pieces of `s` between separator characters (`str::split` with a
/// character predicate); there is always at least one piece.
pub open spec fn split_by(s: Seq<char>, sep: spec_fn(char) -> bool) -> Seq<Seq<char>>
    decreases s.len(),
{
    if s.len() == 0 {
        seq![seq![]]
    } else {
        let parts = split_by(s.drop_last(), sep);
        if sep(s.last()) {
            parts.push(seq![])
        } else {
            parts.update(parts.len() - 1, parts.last().push(s.last()))
        }
    }
}

/// Splitting yields at least one piece.
pub proof fn lemma_split_by_len(s: Seq<char>, sep: spec_fn(char) -> bool)
    ensures
        split_by(s, sep).len() >= 1,
    decreases s.len(),
{
    if s.len() > 0 {
        lemma_split_by_len(s.drop_last(), sep);
    }
}

/// `true` for the line feed character.
pub open spec fn is_lf(c: char) -> bool {
    c == '\n'
}

/// `l` without one trailing carriage return.
pub open spec fn strip_cr(l: Seq<char>) -> Seq<char> {
    if l.len() > 0 && l.last() == '\r' {
        l.drop_last()
    } else {
        l
    }
}

/// The lines of `s` as `str::lines` yields them: split at `\n`, one `\r`
/// before each `\n` removed, and no empty line after a final `\n`.
pub open spec fn lines(s: Seq<char>) -> Seq<Seq<char>> {
    let parts = split_by(s, |c: char| is_lf(c));
    let n = parts.len();
    let closed = parts.take(n - 1).map_values(|l: Seq<char>| strip_cr(l));
    if parts[n - 1].len() == 0 {
        closed
    } else {
        closed.push(parts[n - 1])
    }
}

fn strip_cr_chars(l: Vec<char>) -> (r: Vec<char>)
    ensures
        r@ == strip_cr(l@),
{
    let mut l = l;
    if l.len() > 0 && l[l.len() - 1] == '\r' {
        l.pop();
    }
    l
}

/// Executable [`lines`].
pub fn lines_of(s: &Vec<char>) -> (r: Vec<Vec<char>>)
    ensures
        views(r@) == lines(s@),
{
    let ghost sep = |c: char| is_lf(c);
    let mut out: Vec<Vec<char>> = Vec::new();
    let mut cur: Vec<char> = Vec::new();
    let mut i: usize = 0;
    assert(s@.take(0) =~= seq![]);
    while i < s.len()
        invariant
            i <= s.len(),
            sep == (|c: char| is_lf(c)),
            split_by(s@.take(i as int), sep).len() == out@.len() + 1,
            views(out@) == split_by(s@.take(i as int), sep).take(out@.len() as int).map_values(
                |l: Seq<char>| strip_cr(l),
            ),
            cur@ == split_by(s@.take(i as int), sep).last(),
        decreases s.len() - i,
    {
        let ghost parts = split_by(s@.take(i as int), sep);
        assert(s@.take(i + 1).drop_last() =~= s@.take(i as int));
        let c = s[i];
        if c == '\n' {
            let ghost old_views = views(out@);
            let line = strip_cr_chars(cur);
            out.push(line);
            cur = Vec::new();
            proof {
                let np = split_by(s@.take(i + 1), sep);
                assert(np == parts.push(seq![]));
                assert(views(out@) =~= old_views.push(strip_cr(parts.last())));
                assert(np.take(out@.len() as int) =~= parts);
                assert(parts =~= parts.take(parts.len() - 1).push(parts.last()));
                assert(views(out@) =~= np.take(out@.len() as int).map_values(|l: Seq<char>| strip_cr(l)));
            }
        } else {
            cur.push(c);
            proof {
                let np = split_by(s@.take(i + 1), sep);
                assert(np == parts.update(parts.len() - 1, parts.last().push(c)));
                assert(views(out@) =~= np.take(out@.len() as int).map_values(|l: Seq<char>| strip_cr(l)));
            }
        }
        i += 1;
    }
    assert(s@.take(s.len() as int) =~= s@);
    if cur.len() > 0 {
        out.push(cur);
        assert(views(out@) =~= lines(s@));
    } else {
        assert(views(out@) =~= lines(s@));
    }
    out
}

/// `s` split once at the first occurrence of `p` (`str::split_once`).
pub open spec fn split_once(s: Seq<char>, p: Seq<char>) -> Option<(Seq<char>, Seq<char>)> {
    match find_spec(s, p) {
        Some(i) => Some((s.take(i), s.skip(i + p.len()))),
        None => None,
    }
}

/// Executable [`split_once`].
pub fn split_once_chars(s: &Vec<char>, p: &Vec<char>) -> (r: Option<(Vec<char>, Vec<char>)>)
    ensures
        match r {
            Some((a, b)) => split_once(s@, p@) == Some((a@, b@)),
            None => split_once(s@, p@) is None,
        },
{
    match find(s, p) {
        Some(i) => {
            assert(matches_at(s@, p@, i as int));
            assert(i + p.len() <= s.len());
            let a = slice(s, 0, i);
            let b = slice(s, i + p.len(), s.len());
            assert(a@ =~= s@.take(i as int));
            assert(b@ =~= s@.skip(i + p.len()));
            Some((a, b))
        },
        None => None,
    }
}

/// The whitespace-separated words of `s` (`str::split_whitespace`).
pub open spec fn words(s: Seq<char>) -> Seq<Seq<char>> {
    split_by(s, |c: char| is_ws(c)).filter(|w: Seq<char>| w.len() > 0)
}

/// Executable [`words`].
pub fn words_of(s: &Vec<char>) -> (r: Vec<Vec<char>>)
    ensures
        views(r@) == words(s@),
{
    let ghost sep = |c: char| is_ws(c);
    let ghost nonempty = |w: Seq<char>| w.len() > 0;
    let mut out: Vec<Vec<char>> = Vec::new();
    let mut cur: Vec<char> = Vec::new();
    let mut i: usize = 0;
    assert(s@.take(0) =~= seq![]);
    proof { lemma_split_by_len(s@.take(0), sep); }
    assert(split_by(s@.take(0), sep).drop_last() =~= seq![]);
    while i < s.len()
        invariant
            i <= s.len(),
            sep == (|c: char| is_ws(c)),
            nonempty == (|w: Seq<char>| w.len() > 0),
            split_by(s@.take(i as int), sep).len() >= 1,
            views(out@) == split_by(s@.take(i as int), sep).drop_last().filter(nonempty),
            cur@ == split_by(s@.take(i as int), sep).last(),
        decreases s.len() - i,
    {
        let ghost parts = split_by(s@.take(i as int), sep);
        assert(s@.take(i + 1).drop_last() =~= s@.take(i as int));
        let c = s[i];
        if is_whitespace(c) {
            let ghost old_out = views(out@);
            if cur.len() > 0 {
                out.push(cur);
            }
            cur = Vec::new();
            proof {
                let np = split_by(s@.take(i + 1), sep);
                assert(np == parts.push(seq![]));
                assert(np.drop_last() =~= parts);
                assert(parts =~= parts.drop_last().push(parts.last()));
                reveal_with_fuel(Seq::filter, 2);
                assert(views(out@) =~= np.drop_last().filter(nonempty));
            }
        } else {
            cur.push(c);
            proof {
                let np = split_by(s@.take(i + 1), sep);
                assert(np == parts.update(parts.len() - 1, parts.last().push(c)));
                assert(np.drop_last() =~= parts.drop_last());
            }
        }
        proof { lemma_split_by_len(s@.take(i + 1), sep); }
        i += 1;
    }
    assert(s@.take(s.len() as int) =~= s@);
    proof {
        let parts = split_by(s@, sep);
        assert(parts =~= parts.drop_last().push(parts.last()));
        reveal_with_fuel(Seq::filter, 2);
    }
    if cur.len() > 0 {
        out.push(cur);
    }
    assert(views(out@) =~= words(s@));
    out
}

/// `s` with every leading character in `set` removed (`str::trim_start_matches`
/// with a character array).
pub open spec fn trim_start_set(s: Seq<char>, set: Seq<char>) -> Seq<char>
    decreases s.len(),
{
    if s.len() > 0 && set.contains(s[0]) {
        trim_start_set(s.drop_first(), set)
    } else {
        s
    }
}

fn in_set(set: &Vec<char>, c: char) -> (r: bool)
    ensures
        r == set@.contains(c),
{
    let mut i: usize = 0;
    while i < set.len()
        invariant
            i <= set.len(),
            forall|j: int| 0 <= j < i ==> set@[j] != c,
        decreases set.len() - i,
    {
        if set[i] == c {
            assert(set@[i as int] == c);
            return true;
        }
        i += 1;
    }
    false
}

/// Executable [`trim_start_set`].
pub fn trim_start_set_chars(s: &Vec<char>, set: &Vec<char>) -> (r: Vec<char>)
    ensures
        r@ == trim_start_set(s@, set@),
{
    let mut i: usize = 0;
    assert(s@.skip(0) =~= s@);
    while i < s.len() && in_set(set, s[i])
        invariant
            i <= s.len(),
            trim_start_set(s@, set@) == trim_start_set(s@.skip(i as int), set@),
        decreases s.len() - i,
    {
        assert(s@.skip(i as int).drop_first() =~= s@.skip(i + 1));
        i += 1;
    }
    slice(s, i, s.len())
}

/// `s` with the suffix `p` removed as often as it occurs
/// (`str::trim_end_matches` with a string pattern).
pub open spec fn trim_end_all(s: Seq<char>, p: Seq<char>) -> Seq<char>
    decreases s.len(),
{
    if p.len() > 0 && ends_with(s, p) {
        trim_end_all(s.take(s.len() - p.len()), p)
    } else {
        s
    }
}

/// Executable [`trim_end_all`].
pub fn trim_end_all_chars(s: &Vec<char>, p: &Vec<char>) -> (r: Vec<char>)
    ensures
        r@ == trim_end_all(s@, p@),
{
    let mut cur = slice(s, 0, s.len());
    assert(cur@ =~= s@);
    while p.len() > 0 && ends_with_chars(&cur, p)
        invariant
            trim_end_all(s@, p@) == trim_end_all(cur@, p@),
        decreases cur.len(),
    {
        cur = slice(&cur, 0, cur.len() - p.len());
    }
    cur
}

/// `s` without the prefix `p`, or `None` (`str::strip_prefix`).
pub open spec fn strip_prefix(s: Seq<char>, p: Seq<char>) -> Option<Seq<char>> {
    if starts_with(s, p) { Some(s.skip(p.len() as int)) } else { None }
}

/// `s` without the suffix `p`, or `None` (`str::strip_suffix`).
pub open spec fn strip_suffix(s: Seq<char>, p: Seq<char>) -> Option<Seq<char>> {
    if ends_with(s, p) { Some(s.take(s.len() - p.len())) } else { None }
}

/// Executable [`strip_prefix`].
pub fn strip_prefix_chars(s: &Vec<char>, p: &Vec<char>) -> (r: Option<Vec<char>>)
    ensures
        match r {
            Some(t) => strip_prefix(s@, p@) == Some(t@),
            None => strip_prefix(s@, p@) is None,
        },
{
    if starts_with_chars(s, p) {
        Some(slice(s, p.len(), s.len()))
    } else {
        None
    }
}

/// Executable [`strip_suffix`].
pub fn strip_suffix_chars(s: &Vec<char>, p: &Vec<char>) -> (r: Option<Vec<char>>)
    ensures
        match r {
            Some(t) => strip_suffix(s@, p@) == Some(t@),
            None => strip_suffix(s@, p@) is None,
        },
{
    if ends_with_chars(s, p) {
        let t = slice(s, 0, s.len() - p.len());
        assert(t@ =~= s@.take(s.len() - p.len()));
        Some(t)
    } else {
        None
    }
}

/// The pieces of `s` between the separator character `sep` (`str::split`).
pub open spec fn split_at_char(s: Seq<char>, sep: char) -> Seq<Seq<char>> {
    split_by(s, char_is(sep))
}

/// The predicate "is the character `sep`".
pub open spec fn char_is(sep: char) -> spec_fn(char) -> bool {
    |c: char| c == sep
}

/// Executable [`split_at_char`].
pub fn split_char(s: &Vec<char>, sep: char) -> (r: Vec<Vec<char>>)
    ensures
        views(r@) == split_at_char(s@, sep),
{
    let ghost f = char_is(sep);
    let mut out: Vec<Vec<char>> = Vec::new();
    let mut cur: Vec<char> = Vec::new();
    let mut i: usize = 0;
    assert(s@.take(0) =~= seq![]);
    while i < s.len()
        invariant
            i <= s.len(),
            f == char_is(sep),
            split_by(s@.take(i as int), f).len() == out@.len() + 1,
            views(out@) == split_by(s@.take(i as int), f).take(out@.len() as int),
            cur@ == split_by(s@.take(i as int), f).last(),
        decreases s.len() - i,
    {
        let ghost parts = split_by(s@.take(i as int), f);
        assert(s@.take(i + 1).drop_last() =~= s@.take(i as int));
        let c = s[i];
        let ghost old_views = views(out@);
        if c == sep {
            out.push(cur);
            cur = Vec::new();
            proof {
                let np = split_by(s@.take(i + 1), f);
                assert(np == parts.push(seq![]));
                assert(views(out@) =~= old_views.push(parts.last()));
                assert(parts =~= parts.take(parts.len() - 1).push(parts.last()));
                assert(views(out@) =~= np.take(out@.len() as int));
            }
        } else {
            cur.push(c);
            proof {
                let np = split_by(s@.take(i + 1), f);
                assert(np == parts.update(parts.len() - 1, parts.last().push(c)));
                assert(views(out@) =~= np.take(out@.len() as int));
            }
        }
        i += 1;
    }
    assert(s@.take(s.len() as int) =~= s@);
    let ghost parts = split_by(s@, f);
    let ghost old_views = views(out@);
    out.push(cur);
    assert(views(out@) =~= old_views.push(parts.last()));
    assert(parts =~= parts.take(parts.len() - 1).push(parts.last()));
    assert(views(out@) =~= split_at_char(s@, sep));
    out
}

/// Executable [`byte_len`], counted in `u128` so that it cannot overflow.
pub fn byte_len_wide(s: &Vec<char>) -> (r: u128)
    ensures
        r == byte_len(s@),
        r <= 4 * s.len(),
{
    let mut n: u128 = 0;
    let mut i: usize = 0;
    while i < s.len()
        invariant
            i <= s.len(),
            n == byte_len(s@.take(i as int)),
            n <= 4 * i,
        decreases s.len() - i,
    {
        assert(s@.take(i + 1).drop_last() =~= s@.take(i as int));
        n = n + char_width_of(s[i]) as u128;
        i += 1;
    }
    assert(s@.take(s.len() as int) =~= s@);
    n
}

} // verus!

//! Character sequences: the small vocabulary of text operations that the
//! parser and the writer are stated in.
//!
//! Every specification here speaks of `Seq<char>`, the view of `str` and
//! `String`; the executable functions work on `Vec<char>`.

use vstd::prelude::*;

verus! {

/// `String::push` appends the character to the end of the string.
pub assume_specification[ String::push ](s: &mut String, ch: char)
    ensures
        final(s)@ == old(s)@.push(ch),
;

/// The characters that carry the Unicode `White_Space` property.
pub open spec fn is_whitespace(c: char) -> bool {
    let n = c as u32;
    ||| 0x09 <= n <= 0x0D
    ||| n == 0x20
    ||| n == 0x85
    ||| n == 0xA0
    ||| n == 0x1680
    ||| 0x2000 <= n <= 0x200A
    ||| n == 0x2028
    ||| n == 0x2029
    ||| n == 0x202F
    ||| n == 0x205F
    ||| n == 0x3000
}

/// How many whitespace characters stand at the front of `s`.
pub open spec fn leading_whitespace(s: Seq<char>) -> nat
    decreases s.len(),
{
    if s.len() > 0 && is_whitespace(s[0]) {
        1 + leading_whitespace(s.skip(1))
    } else {
        0
    }
}

/// How many whitespace characters stand at the back of `s`.
pub open spec fn trailing_whitespace(s: Seq<char>) -> nat
    decreases s.len(),
{
    if s.len() > 0 && is_whitespace(s.last()) {
        1 + trailing_whitespace(s.drop_last())
    } else {
        0
    }
}

/// `s` without its leading whitespace.
pub open spec fn trim_start(s: Seq<char>) -> Seq<char> {
    s.skip(leading_whitespace(s) as int)
}

/// `s` without its trailing whitespace.
pub open spec fn trim_end(s: Seq<char>) -> Seq<char> {
    s.take(s.len() - trailing_whitespace(s))
}

/// `s` without the whitespace at either end.
pub open spec fn trim(s: Seq<char>) -> Seq<char> {
    trim_end(trim_start(s))
}

/// The leading whitespace of `s` ends at `k`.
pub(crate) proof fn lemma_leading_whitespace(s: Seq<char>, k: int)
    requires
        0 <= k <= s.len(),
        forall|i: int| 0 <= i < k ==> is_whitespace(#[trigger] s[i]),
        k < s.len() ==> !is_whitespace(s[k]),
    ensures
        leading_whitespace(s) == k,
    decreases k,
{
    if k > 0 {
        let t = s.skip(1);
        assert forall|i: int| 0 <= i < k - 1 implies is_whitespace(#[trigger] t[i]) by {
            assert(t[i] == s[i + 1]);
        }
        lemma_leading_whitespace(t, k - 1);
    }
}

/// The trailing whitespace of `s` starts at `k`.
pub(crate) proof fn lemma_trailing_whitespace(s: Seq<char>, k: int)
    requires
        0 <= k <= s.len(),
        forall|i: int| k <= i < s.len() ==> is_whitespace(#[trigger] s[i]),
        k > 0 ==> !is_whitespace(s[k - 1]),
    ensures
        trailing_whitespace(s) == s.len() - k,
    decreases s.len() - k,
{
    if k < s.len() {
        let t = s.drop_last();
        assert forall|i: int| k <= i < t.len() implies is_whitespace(#[trigger] t[i]) by {
            assert(t[i] == s[i]);
        }
        lemma_trailing_whitespace(t, k);
    }
}

/// Decides [`is_whitespace`].
pub fn char_is_whitespace(c: char) -> (b: bool)
    ensures
        b == is_whitespace(c),
{
    let n: u32 = c as u32;
    (0x09 <= n && n <= 0x0D) || n == 0x20 || n == 0x85 || n == 0xA0 || n == 0x1680 || (0x2000 <= n
        && n <= 0x200A) || n == 0x2028 || n == 0x2029 || n == 0x202F || n == 0x205F || n == 0x3000
}

/// The characters of a string slice, in order.
pub fn chars_of(s: &str) -> (v: Vec<char>)
    ensures
        v@ == s@,
{
    broadcast use vstd::string::group_string_axioms;

    let mut v: Vec<char> = Vec::new();
    for c in it: s.chars()
        invariant
            it.seq() == s@,
            v@ == s@.take(it.index()),
    {
        v.push(c);
    }
    v
}

/// The string that holds the given characters.
pub fn string_of(v: &Vec<char>) -> (s: String)
    ensures
        s@ == v@,
{
    let mut s = String::new();
    let mut i: usize = 0;
    while i < v.len()
        invariant
            i <= v.len(),
            s@ == v@.take(i as int),
        decreases v.len() - i,
    {
        s.push(v[i]);
        i += 1;
        assert(v@.take(i as int) == v@.take(i - 1).push(v@[i - 1]));
    }
    assert(v@.take(v.len() as int) == v@);
    s
}

/// The characters of `v` from `lo` up to `hi`.
pub(crate) fn subvec(v: &Vec<char>, lo: usize, hi: usize) -> (r: Vec<char>)
    requires
        lo <= hi <= v.len(),
    ensures
        r@ == v@.subrange(lo as int, hi as int),
{
    let mut r: Vec<char> = Vec::new();
    let mut i: usize = lo;
    while i < hi
        invariant
            lo <= i <= hi <= v.len(),
            r@ == v@.subrange(lo as int, i as int),
        decreases hi - i,
    {
        r.push(v[i]);
        i += 1;
    }
    r
}

/// The index at which the leading whitespace of `v[lo..hi]` ends.
pub(crate) fn skip_whitespace(v: &Vec<char>, lo: usize, hi: usize) -> (k: usize)
    requires
        lo <= hi <= v.len(),
    ensures
        lo <= k <= hi,
        k - lo == leading_whitespace(v@.subrange(lo as int, hi as int)),
{
    let mut k: usize = lo;
    while k < hi && char_is_whitespace(v[k])
        invariant
            lo <= k <= hi <= v.len(),
            forall|i: int| lo <= i < k ==> is_whitespace(#[trigger] v@[i]),
        decreases hi - k,
    {
        k += 1;
    }
    proof {
        lemma_leading_whitespace(v@.subrange(lo as int, hi as int), k - lo);
    }
    k
}

/// The index at which the trailing whitespace of `v[lo..hi]` starts.
pub(crate) fn skip_whitespace_back(v: &Vec<char>, lo: usize, hi: usize) -> (k: usize)
    requires
        lo <= hi <= v.len(),
    ensures
        lo <= k <= hi,
        hi - k == trailing_whitespace(v@.subrange(lo as int, hi as int)),
{
    let mut k: usize = hi;
    while k > lo && char_is_whitespace(v[k - 1])
        invariant
            lo <= k <= hi <= v.len(),
            forall|i: int| k <= i < hi ==> is_whitespace(#[trigger] v@[i]),
        decreases k - lo,
    {
        k -= 1;
    }
    proof {
        lemma_trailing_whitespace(v@.subrange(lo as int, hi as int), k - lo);
    }
    k
}

/// The bounds of `trim(v[lo..hi])` inside `v`.
pub(crate) fn trim_bounds(v: &Vec<char>, lo: usize, hi: usize) -> (r: (usize, usize))
    requires
        lo <= hi <= v.len(),
    ensures
        lo <= r.0 <= r.1 <= hi,
        v@.subrange(r.0 as int, r.1 as int) == trim(v@.subrange(lo as int, hi as int)),
{
    let a = skip_whitespace(v, lo, hi);
    let b = skip_whitespace_back(v, a, hi);
    proof {
        let s = v@.subrange(lo as int, hi as int);
        assert(trim_start(s) == v@.subrange(a as int, hi as int));
        assert(v@.subrange(a as int, hi as int).take(b - a) == v@.subrange(a as int, b as int));
    }
    (a, b)
}

/// `trim` of the whole vector, as a vector of its own.
pub fn trimmed(v: &Vec<char>) -> (r: Vec<char>)
    ensures
        r@ == trim(v@),
{
    let (a, b) = trim_bounds(v, 0, v.len());
    assert(v@.subrange(0, v.len() as int) == v@);
    subvec(v, a, b)
}

/// The views of a list of character vectors.
pub open spec fn texts(list: Seq<Vec<char>>) -> Seq<Seq<char>> {
    Seq::new(list.len(), |i: int| list[i]@)
}

/// The pieces into which the separators cut `s`: one more piece than there
/// are separators in `s`, none of which holds a separator.
pub open spec fn split(s: Seq<char>, seps: Seq<char>) -> Seq<Seq<char>>
    decreases s.len(),
{
    if s.len() == 0 {
        seq![Seq::empty()]
    } else {
        let before = split(s.drop_last(), seps);
        if seps.contains(s.last()) {
            before.push(Seq::empty())
        } else {
            before.drop_last().push(before.last().push(s.last()))
        }
    }
}

/// The pieces written one after the other, with `sep` between neighbours.
pub open spec fn join(parts: Seq<Seq<char>>, sep: Seq<char>) -> Seq<char>
    decreases parts.len(),
{
    if parts.len() == 0 {
        Seq::empty()
    } else if parts.len() == 1 {
        parts[0]
    } else {
        join(parts.drop_last(), sep) + sep + parts.last()
    }
}

/// `s` read from left to right with every occurrence of `pat` left out; an
/// occurrence that begins inside an earlier one does not count.
pub open spec fn remove_all(s: Seq<char>, pat: Seq<char>) -> Seq<char>
    decreases s.len(),
{
    if s.len() == 0 || pat.len() == 0 {
        s
    } else if pat.is_prefix_of(s) {
        remove_all(s.skip(pat.len() as int), pat)
    } else {
        seq![s[0]] + remove_all(s.skip(1), pat)
    }
}

/// The first index at or after `from` at which `pat` occurs in `s`.
pub open spec fn find(s: Seq<char>, pat: Seq<char>, from: int) -> Option<int>
    decreases s.len() - from,
{
    if from < 0 || from > s.len() {
        None
    } else if pat.is_prefix_of(s.skip(from)) {
        Some(from)
    } else if from == s.len() {
        None
    } else {
        find(s, pat, from + 1)
    }
}

/// Whether `c` is one of `set`.
pub(crate) fn contains_char(set: &Vec<char>, c: char) -> (b: bool)
    ensures
        b == set@.contains(c),
{
    let mut i: usize = 0;
    while i < set.len()
        invariant
            i <= set.len(),
            forall|j: int| 0 <= j < i ==> set@[j] != c,
        decreases set.len() - i,
    {
        if set[i] == c {
            return true;
        }
        i += 1;
    }
    false
}

/// Cuts `v` at every character of `seps`.
pub(crate) fn split_chars(v: &Vec<char>, seps: &Vec<char>) -> (r: Vec<Vec<char>>)
    ensures
        texts(r@) == split(v@, seps@),
{
    let mut done: Vec<Vec<char>> = Vec::new();
    let mut piece: Vec<char> = Vec::new();
    let mut i: usize = 0;
    assert(texts(done@).push(piece@) =~= split(v@.take(0), seps@));
    while i < v.len()
        invariant
            i <= v.len(),
            texts(done@).push(piece@) == split(v@.take(i as int), seps@),
        decreases v.len() - i,
    {
        let c = v[i];
        let ghost before = split(v@.take(i as int), seps@);
        let ghost old_done = texts(done@);
        let ghost old_piece = piece@;
        if contains_char(seps, c) {
            done.push(piece);
            piece = Vec::new();
            assert(texts(done@) =~= old_done.push(old_piece));
        } else {
            piece.push(c);
            assert(before.drop_last() =~= old_done);
        }
        i += 1;
        proof {
            let now = v@.take(i as int);
            assert(now.drop_last() == v@.take(i - 1));
            assert(now.last() == c);
        }
    }
    assert(v@.take(v.len() as int) == v@);
    let ghost old_done = texts(done@);
    let ghost last = piece@;
    done.push(piece);
    assert(texts(done@) =~= old_done.push(last));
    done
}

/// Joins the pieces `parts[lo..hi]` with `sep` between neighbours.
pub(crate) fn join_range(parts: &Vec<Vec<char>>, lo: usize, hi: usize, sep: &Vec<char>) -> (r: Vec<
    char,
>)
    requires
        lo <= hi <= parts.len(),
    ensures
        r@ == join(texts(parts@).subrange(lo as int, hi as int), sep@),
{
    let mut r: Vec<char> = Vec::new();
    let mut i: usize = lo;
    let ghost all = texts(parts@);
    while i < hi
        invariant
            lo <= i <= hi <= parts.len(),
            all == texts(parts@),
            r@ == join(all.subrange(lo as int, i as int), sep@),
        decreases hi - i,
    {
        if i > lo {
            push_all(&mut r, sep);
        }
        push_all(&mut r, &parts[i]);
        i += 1;
        proof {
            let now = all.subrange(lo as int, i as int);
            assert(now.drop_last() == all.subrange(lo as int, i - 1));
            assert(now.last() == parts@[i - 1]@);
        }
    }
    r
}

/// Appends the characters of `more` to `out`.
pub(crate) fn push_all(out: &mut Vec<char>, more: &Vec<char>)
    ensures
        final(out)@ == old(out)@ + more@,
{
    let mut i: usize = 0;
    while i < more.len()
        invariant
            i <= more.len(),
            out@ == old(out)@ + more@.take(i as int),
        decreases more.len() - i,
    {
        out.push(more[i]);
        i += 1;
        assert(more@.take(i as int) == more@.take(i - 1).push(more@[i - 1]));
    }
    assert(more@.take(more.len() as int) == more@);
}

/// Whether `pat` stands in `v` at index `at`.
pub(crate) fn occurs_at(v: &Vec<char>, at: usize, pat: &Vec<char>) -> (b: bool)
    requires
        at <= v.len(),
    ensures
        b == pat@.is_prefix_of(v@.skip(at as int)),
{
    if pat.len() > v.len() - at {
        return false;
    }
    let mut i: usize = 0;
    while i < pat.len()
        invariant
            at + pat.len() <= v.len(),
            i <= pat.len(),
            forall|j: int| 0 <= j < i ==> pat@[j] == v@[at + j],
        decreases pat.len() - i,
    {
        if pat[i] != v[at + i] {
            proof {
                let rest = v@.skip(at as int);
                assert(rest.subrange(0, pat@.len() as int)[i as int] == v@[at + i]);
            }
            return false;
        }
        i += 1;
    }
    assert(pat@ =~= v@.skip(at as int).subrange(0, pat@.len() as int));
    true
}

/// `v` with every occurrence of `pat` left out.
pub(crate) fn without(v: &Vec<char>, pat: &Vec<char>) -> (r: Vec<char>)
    ensures
        r@ == remove_all(v@, pat@),
{
    let mut r: Vec<char> = Vec::new();
    if pat.len() == 0 {
        push_all(&mut r, v);
        return r;
    }
    let mut i: usize = 0;
    assert(v@.skip(0) == v@);
    while i < v.len()
        invariant
            i <= v.len(),
            pat.len() > 0,
            r@ + remove_all(v@.skip(i as int), pat@) == remove_all(v@, pat@),
        decreases v.len() - i,
    {
        let ghost rest = v@.skip(i as int);
        if occurs_at(v, i, pat) {
            assert(rest.skip(pat.len() as int) == v@.skip(i + pat.len()));
            i += pat.len();
        } else {
            r.push(v[i]);
            assert(rest.skip(1) == v@.skip(i + 1));
            assert(r@ + remove_all(v@.skip(i + 1), pat@) == (r@.drop_last() + (seq![rest[0]]
                + remove_all(rest.skip(1), pat@))));
            i += 1;
        }
    }
    assert(remove_all(v@.skip(v.len() as int), pat@) == Seq::<char>::empty());
    assert(r@ + Seq::<char>::empty() == r@);
    r
}

/// The first index at or after `from` at which `pat` occurs in `v`.
pub(crate) fn find_from(v: &Vec<char>, pat: &Vec<char>, from: usize) -> (r: Option<usize>)
    requires
        from <= v.len(),
    ensures
        match r {
            Some(i) => find(v@, pat@, from as int) == Some(i as int) && from <= i <= v.len(),
            None => find(v@, pat@, from as int) is None,
        },
{
    let mut i: usize = from;
    loop
        invariant
            from <= i <= v.len(),
            find(v@, pat@, from as int) == find(v@, pat@, i as int),
        decreases v.len() - i,
    {
        if occurs_at(v, i, pat) {
            return Some(i);
        }
        if i == v.len() {
            return None;
        }
        i += 1;
    }
}

/// The ten characters `0` to `9`.
pub open spec fn is_ascii_digit(c: char) -> bool {
    0x30 <= c as u32 <= 0x39
}

/// The number that a digit stands for; 0 for any other character.
pub open spec fn digit_value(c: char) -> nat {
    if is_ascii_digit(c) {
        (c as u32 - 0x30) as nat
    } else {
        0
    }
}

/// The digit that stands for a number below ten.
pub open spec fn digit_char(d: nat) -> char {
    ((0x30 + d) as u8) as char
}

/// Whether `d` holds digits `0` to `9` only.
pub open spec fn all_ascii_digits(d: Seq<char>) -> bool {
    forall|i: int| 0 <= i < d.len() ==> is_ascii_digit(#[trigger] d[i])
}

/// The number that a run of digits writes in base ten.
pub open spec fn decimal_number(d: Seq<char>) -> nat
    decreases d.len(),
{
    if d.len() == 0 {
        0
    } else {
        decimal_number(d.drop_last()) * 10 + digit_value(d.last())
    }
}

/// What `d` denotes as a `usize`: the number it writes in base ten, where
/// `d` is a run of at least one digit `0` to `9` and the number fits.
pub open spec fn decimal_value(d: Seq<char>) -> Option<usize> {
    if d.len() > 0 && all_ascii_digits(d) && decimal_number(d) <= usize::MAX {
        Some(decimal_number(d) as usize)
    } else {
        None
    }
}

/// `n` written in base ten, without leading zeros.
pub open spec fn decimal(n: nat) -> Seq<char>
    decreases n,
{
    if n < 10 {
        seq![digit_char(n)]
    } else {
        decimal(n / 10).push(digit_char(n % 10))
    }
}

/// A longer run of digits writes no smaller a number.
pub(crate) proof fn lemma_decimal_number_grows(d: Seq<char>, k: int)
    requires
        0 <= k <= d.len(),
    ensures
        decimal_number(d.take(k)) <= decimal_number(d),
    decreases d.len() - k,
{
    if k < d.len() {
        lemma_decimal_number_grows(d.drop_last(), k);
        assert(d.drop_last().take(k) == d.take(k));
    } else {
        assert(d.take(k) == d);
    }
}

/// Reads a run of digits as a `usize`.
pub(crate) fn parse_decimal(d: &Vec<char>) -> (r: Option<usize>)
    ensures
        r == decimal_value(d@),
{
    if d.len() == 0 {
        return None;
    }
    let mut n: usize = 0;
    let mut i: usize = 0;
    assert(d@.take(0).len() == 0);
    while i < d.len()
        invariant
            i <= d.len(),
            all_ascii_digits(d@.take(i as int)),
            n == decimal_number(d@.take(i as int)),
        decreases d.len() - i,
    {
        let c: u32 = d[i] as u32;
        if c < 0x30 || c > 0x39 {
            assert(!is_ascii_digit(d@[i as int]));
            return None;
        }
        let digit: usize = (c - 0x30) as usize;
        proof {
            let next = d@.take(i + 1);
            assert(next.drop_last() == d@.take(i as int));
            assert(next.last() == d@[i as int]);
            assert(decimal_number(next) == n * 10 + digit);
            lemma_decimal_number_grows(d@, i + 1);
            assert forall|j: int| 0 <= j < next.len() implies is_ascii_digit(#[trigger] next[j]) by {
                if j < i {
                    assert(d@.take(i as int)[j] == next[j]);
                }
            }
        }
        let tens = match n.checked_mul(10) {
            Some(t) => t,
            None => {
                return None;
            },
        };
        n = match tens.checked_add(digit) {
            Some(t) => t,
            None => {
                return None;
            },
        };
        i += 1;
    }
    assert(d@.take(d.len() as int) == d@);
    Some(n)
}

/// Writes `n` in base ten.
pub(crate) fn decimal_of(n: usize) -> (r: Vec<char>)
    ensures
        r@ == decimal(n as nat),
    decreases n,
{
    if n < 10 {
        let mut r: Vec<char> = Vec::new();
        r.push((0x30u8 + n as u8) as char);
        assert(r@ == seq![digit_char(n as nat)]);
        r
    } else {
        let mut r = decimal_of(n / 10);
        r.push((0x30u8 + (n % 10) as u8) as char);
        r
    }
}

/// The first index at or after `from` whose character is one of `set`; the
/// length of `s` where there is none.
pub open spec fn first_of(s: Seq<char>, set: Seq<char>, from: int) -> int
    decreases s.len() - from,
{
    if from < 0 || from >= s.len() {
        s.len() as int
    } else if set.contains(s[from]) {
        from
    } else {
        first_of(s, set, from + 1)
    }
}

/// Finds [`first_of`].
pub(crate) fn find_any(v: &Vec<char>, set: &Vec<char>, from: usize) -> (k: usize)
    requires
        from <= v.len(),
    ensures
        from <= k <= v.len(),
        k == first_of(v@, set@, from as int),
{
    let mut k: usize = from;
    while k < v.len() && !contains_char(set, v[k])
        invariant
            from <= k <= v.len(),
            first_of(v@, set@, from as int) == first_of(v@, set@, k as int),
        decreases v.len() - k,
    {
        k += 1;
    }
    k
}

/// Whether `c` stands in `v[lo..hi]`.
pub(crate) fn contains_between(v: &Vec<char>, lo: usize, hi: usize, c: char) -> (b: bool)
    requires
        lo <= hi <= v.len(),
    ensures
        b == v@.subrange(lo as int, hi as int).contains(c),
{
    let ghost part = v@.subrange(lo as int, hi as int);
    let mut i: usize = lo;
    while i < hi
        invariant
            lo <= i <= hi <= v.len(),
            part == v@.subrange(lo as int, hi as int),
            forall|j: int| 0 <= j < i - lo ==> part[j] != c,
        decreases hi - i,
    {
        if v[i] == c {
            assert(part[i - lo] == c);
            return true;
        }
        i += 1;
    }
    false
}

/// Whether two vectors hold the same characters.
pub(crate) fn same_text(a: &Vec<char>, b: &Vec<char>) -> (r: bool)
    ensures
        r == (a@ == b@),
{
    if a.len() != b.len() {
        return false;
    }
    let r = occurs_at(a, 0, b);
    proof {
        assert(a@.skip(0) == a@);
        assert(a@.subrange(0, a@.len() as int) == a@);
    }
    r
}

/// Where `find` finds something, it lies at or after `from`, inside `s`,
/// and `pat` stands there.
pub(crate) proof fn lemma_find(s: Seq<char>, pat: Seq<char>, from: int)
    ensures
        find(s, pat, from) matches Some(i) ==> from <= i <= s.len() && 0 <= from
            && pat.is_prefix_of(s.skip(i)),
    decreases s.len() - from,
{
    if !(from < 0 || from > s.len()) && !pat.is_prefix_of(s.skip(from)) && from != s.len() {
        lemma_find(s, pat, from + 1);
    }
}

} // verus!

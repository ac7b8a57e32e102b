use vstd::prelude::*;

verus! {

/// Relies on `String::push`: the character is added at the end.
#[verifier::external_body]
fn push_char(s: &mut String, c: char)
    ensures
        final(s)@ == old(s)@.push(c),
{
    s.push(c)
}

/// The characters of `s`, in order.
pub fn to_chars(s: &str) -> (r: Vec<char>)
    ensures
        r@ == s@,
{
    let mut r: Vec<char> = Vec::new();
    for c in it: s.chars()
        invariant
            r@ == it.seq().take(it.index() as int),
            it.seq() == s@,
    {
        r.push(c);
    }
    r
}

/// The string made of `v[lo..hi]`.
pub fn from_chars(v: &Vec<char>, lo: usize, hi: usize) -> (r: String)
    requires
        lo <= hi <= v.len(),
    ensures
        r@ == v@.subrange(lo as int, hi as int),
{
    let mut r = String::new();
    let mut i = lo;
    while i < hi
        invariant
            lo <= i <= hi <= v.len(),
            r@ == v@.subrange(lo as int, i as int),
        decreases hi - i,
    {
        push_char(&mut r, v[i]);
        assert(v@.subrange(lo as int, i + 1) == v@.subrange(lo as int, i as int).push(v@[i as int]));
        i = i + 1;
    }
    r
}

/// Whether a character carries Unicode's `White_Space` property.
pub uninterp spec fn white_space(c: char) -> bool;

/// Relies on `char::is_whitespace`: it tests Unicode's `White_Space` property,
/// which among ASCII characters holds of the space and of `\t` through `\r` alone.
#[verifier::external_body]
fn is_white(c: char) -> (r: bool)
    ensures
        r == white_space(c),
        c as u32 <= 0x7f ==> (r <==> (c == ' ' || (0x09 <= c as u32 && c as u32 <= 0x0d))),
{
    c.is_whitespace()
}

/// `s` without its leading whitespace.
pub open spec fn trim_start(s: Seq<char>) -> Seq<char>
    decreases s.len(),
{
    if s.len() > 0 && white_space(s[0]) {
        trim_start(s.drop_first())
    } else {
        s
    }
}

/// `s` without its trailing whitespace.
pub open spec fn trim_end(s: Seq<char>) -> Seq<char>
    decreases s.len(),
{
    if s.len() > 0 && white_space(s.last()) {
        trim_end(s.drop_last())
    } else {
        s
    }
}

/// `s` without leading and trailing whitespace.
pub open spec fn trimmed(s: Seq<char>) -> Seq<char> {
    trim_end(trim_start(s))
}

/// The text of `s` without leading and trailing whitespace.
pub fn trim(s: &str) -> (r: String)
    ensures
        r@ == trimmed(s@),
{
    let v = to_chars(s);
    let n = v.len();
    let mut lo: usize = 0;
    assert(v@.subrange(0, n as int) == v@);
    while lo < n && is_white(v[lo])
        invariant
            lo <= n == v@.len(),
            trim_start(v@) == trim_start(v@.subrange(lo as int, n as int)),
        decreases n - lo,
    {
        assert(v@.subrange(lo as int, n as int).drop_first() == v@.subrange(lo + 1, n as int));
        lo = lo + 1;
    }
    let ghost front = v@.subrange(lo as int, n as int);
    assert(trim_start(front) == front);
    let mut hi: usize = n;
    while hi > lo && is_white(v[hi - 1])
        invariant
            lo <= hi <= n == v@.len(),
            trim_end(front) == trim_end(v@.subrange(lo as int, hi as int)),
        decreases hi - lo,
    {
        assert(v@.subrange(lo as int, hi as int).drop_last() == v@.subrange(lo as int, hi - 1));
        hi = hi - 1;
    }
    assert(trim_end(v@.subrange(lo as int, hi as int)) == v@.subrange(lo as int, hi as int));
    from_chars(&v, lo, hi)
}

/// Whether the two-tilde sentinel starts at position `i` of `s`.
pub open spec fn sentinel_at(s: Seq<char>, i: int) -> bool {
    0 <= i && i + 1 < s.len() && s[i] == '~' && s[i + 1] == '~'
}

/// The first position at or after `i` where the sentinel starts, or `s.len()` if none does.
pub open spec fn sentinel_from(s: Seq<char>, i: int) -> int
    decreases s.len() - i,
{
    if i < 0 || i + 1 >= s.len() {
        s.len() as int
    } else if sentinel_at(s, i) {
        i
    } else {
        sentinel_from(s, i + 1)
    }
}

/// The first position where the sentinel starts in `s`, or `s.len()` if it never does.
pub open spec fn first_sentinel(s: Seq<char>) -> int {
    sentinel_from(s, 0)
}

/// Whether the sentinel occurs anywhere in `s`.
pub open spec fn has_sentinel(s: Seq<char>) -> bool {
    exists|i: int| sentinel_at(s, i)
}

/// `sentinel_from` finds the first occurrence at or after `i`.
pub proof fn lemma_sentinel_from(s: Seq<char>, i: int)
    requires
        0 <= i,
    ensures
        sentinel_from(s, i) <= s.len(),
        i <= s.len() ==> i <= sentinel_from(s, i),
        sentinel_from(s, i) < s.len() ==> sentinel_at(s, sentinel_from(s, i)),
        forall|j: int| i <= j < sentinel_from(s, i) ==> !sentinel_at(s, j),
        sentinel_from(s, i) == s.len() ==> forall|j: int| i <= j ==> !sentinel_at(s, j),
    decreases s.len() - i,
{
    if i + 1 < s.len() && !sentinel_at(s, i) {
        lemma_sentinel_from(s, i + 1);
    }
}

/// `has_sentinel` holds exactly when the first occurrence lies inside `s`.
pub proof fn lemma_first_sentinel(s: Seq<char>)
    ensures
        0 <= first_sentinel(s) <= s.len(),
        has_sentinel(s) <==> first_sentinel(s) < s.len(),
        first_sentinel(s) < s.len() ==> first_sentinel(s) + 2 <= s.len(),
{
    lemma_sentinel_from(s, 0);
    if first_sentinel(s) < s.len() {
        assert(sentinel_at(s, first_sentinel(s)));
    }
}

/// The position of the first sentinel in `v`, or its length if there is none.
pub fn find_sentinel(v: &Vec<char>) -> (r: usize)
    ensures
        r == first_sentinel(v@),
{
    let n = v.len();
    let mut i: usize = 0;
    while i < n && i + 1 < n && !(v[i] == '~' && v[i + 1] == '~')
        invariant
            i <= n == v@.len(),
            sentinel_from(v@, 0) == sentinel_from(v@, i as int),
        decreases n - i,
    {
        i = i + 1;
    }
    if i < n && i + 1 < n {
        i
    } else {
        n
    }
}

/// Whether the text of `s` holds the sentinel.
pub fn contains_sentinel(s: &str) -> (r: bool)
    ensures
        r == has_sentinel(s@),
{
    let v = to_chars(s);
    let p = find_sentinel(&v);
    proof {
        lemma_first_sentinel(v@);
    }
    p < v.len()
}

/// `s` with one trailing carriage return removed.
pub open spec fn strip_cr(s: Seq<char>) -> Seq<char> {
    if s.len() > 0 && s.last() == '\r' {
        s.drop_last()
    } else {
        s
    }
}

/// The first position at or after `i` holding a line feed, or `s.len()` if none does.
pub open spec fn newline_from(s: Seq<char>, i: int) -> int
    decreases s.len() - i,
{
    if i < 0 || i >= s.len() {
        s.len() as int
    } else if s[i] == '\n' {
        i
    } else {
        newline_from(s, i + 1)
    }
}

proof fn lemma_newline_from(s: Seq<char>, i: int)
    requires
        0 <= i <= s.len(),
    ensures
        i <= newline_from(s, i) <= s.len(),
    decreases s.len() - i,
{
    if i < s.len() && s[i] != '\n' {
        lemma_newline_from(s, i + 1);
    }
}

/// The lines of `s` from position `start` on. A line ends at a line feed, which is
/// not part of it, and loses a carriage return just before that line feed. A line feed
/// at the very end opens no further line.
pub open spec fn lines_from(s: Seq<char>, start: int) -> Seq<Seq<char>>
    decreases s.len() - start,
{
    if start < 0 || start >= s.len() {
        seq![]
    } else {
        let e = newline_from(s, start);
        if e < s.len() && e >= start {
            seq![strip_cr(s.subrange(start, e))] + lines_from(s, e + 1)
        } else {
            seq![s.subrange(start, s.len() as int)]
        }
    }
}

/// The lines of a text.
pub open spec fn lines_of(s: Seq<char>) -> Seq<Seq<char>> {
    lines_from(s, 0)
}

/// Splits a text into its lines.
pub fn split_lines(s: &str) -> (r: Vec<String>)
    ensures
        r@.map_values(|l: String| l@) == lines_of(s@),
{
    let v = to_chars(s);
    let n = v.len();
    let mut r: Vec<String> = Vec::new();
    let mut start: usize = 0;
    while start < n
        invariant
            start <= n == v@.len(),
            v@ == s@,
            r@.map_values(|l: String| l@) + lines_from(v@, start as int) == lines_of(v@),
        decreases n - start,
    {
        let mut e = start;
        while e < n && v[e] != '\n'
            invariant
                start <= e <= n == v@.len(),
                newline_from(v@, start as int) == newline_from(v@, e as int),
            decreases n - e,
        {
            e = e + 1;
        }
        proof {
            lemma_newline_from(v@, e as int);
        }
        let ghost old_r = r@;
        if e < n {
            let mut end = e;
            if end > start && v[end - 1] == '\r' {
                end = end - 1;
            }
            let line = from_chars(&v, start, end);
            assert(line@ == strip_cr(v@.subrange(start as int, e as int)));
            r.push(line);
            assert(r@.map_values(|l: String| l@) == old_r.map_values(|l: String| l@).push(line@));
            assert(lines_from(v@, start as int) == seq![line@] + lines_from(v@, e + 1));
            assert(r@.map_values(|l: String| l@) + lines_from(v@, e + 1) == old_r.map_values(
                |l: String| l@,
            ) + lines_from(v@, start as int));
            start = e + 1;
        } else {
            let line = from_chars(&v, start, n);
            r.push(line);
            assert(r@.map_values(|l: String| l@) == old_r.map_values(|l: String| l@).push(line@));
            assert(lines_from(v@, start as int) == seq![line@]);
            assert(lines_from(v@, n as int) == Seq::<Seq<char>>::empty());
            assert(r@.map_values(|l: String| l@) + lines_from(v@, n as int) == old_r.map_values(
                |l: String| l@,
            ) + lines_from(v@, start as int));
            start = n;
        }
    }
    assert(lines_from(v@, start as int) == Seq::<Seq<char>>::empty());
    assert(r@.map_values(|l: String| l@) + Seq::<Seq<char>>::empty() == r@.map_values(
        |l: String| l@,
    ));
    r
}

} // verus!

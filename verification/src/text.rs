//! Byte-level text utilities: whitespace trimming, prefix tests, and
//! splitting a byte buffer into lines.

use vstd::prelude::*;

verus! {

/// ASCII whitespace: the bytes stripped when a line is trimmed.
pub open spec fn is_ws(b: u8) -> bool {
    b == 32 || b == 9 || b == 10 || b == 11 || b == 12 || b == 13
}

/// `s` without its leading whitespace bytes.
pub open spec fn trim_front(s: Seq<u8>) -> Seq<u8>
    decreases s.len(),
{
    if s.len() > 0 && is_ws(s[0]) {
        trim_front(s.drop_first())
    } else {
        s
    }
}

/// `s` without its trailing whitespace bytes.
pub open spec fn trim_back(s: Seq<u8>) -> Seq<u8>
    decreases s.len(),
{
    if s.len() > 0 && is_ws(s.last()) {
        trim_back(s.drop_last())
    } else {
        s
    }
}

/// `s` without leading and trailing whitespace.
pub open spec fn trimmed(s: Seq<u8>) -> Seq<u8> {
    trim_back(trim_front(s))
}

/// `p` is an initial segment of `s`.
pub open spec fn has_prefix(s: Seq<u8>, p: Seq<u8>) -> bool {
    p.len() <= s.len() && s.subrange(0, p.len() as int) == p
}

/// The views of a sequence of byte vectors.
pub open spec fn views_of(vs: Seq<Vec<u8>>) -> Seq<Seq<u8>> {
    Seq::new(vs.len(), |i: int| vs[i]@)
}

/// Index of the first newline byte of `s` (or `s`'s length when none
/// occurs).
pub open spec fn line_break(s: Seq<u8>) -> nat
    decreases s.len(),
{
    if s.len() == 0 {
        0
    } else if s[0] == 10 {
        0
    } else {
        line_break(s.drop_first()) + 1
    }
}

/// A line as the source's line reader yields it: the segment before the
/// newline with one carriage return, if present, removed from its end.
pub open spec fn strip_cr(seg: Seq<u8>) -> Seq<u8> {
    if seg.len() > 0 && seg.last() == 13 {
        seg.drop_last()
    } else {
        seg
    }
}

/// The lines of a byte buffer: the segments between newline bytes, each
/// with a carriage return before the newline removed. A final segment
/// without a terminator is a line too; a trailing newline adds no empty
/// final line.
pub open spec fn lines_of(s: Seq<u8>) -> Seq<Seq<u8>>
    decreases s.len(),
{
    if s.len() == 0 {
        Seq::empty()
    } else {
        let i = line_break(s) as int;
        if i >= s.len() {
            seq![s]
        } else {
            seq![strip_cr(s.take(i))] + lines_of(s.skip(i + 1))
        }
    }
}

proof fn lemma_trim_front_skip(s: Seq<u8>, i: int)
    requires
        0 <= i <= s.len(),
        forall|j: int| 0 <= j < i ==> is_ws(s[j]),
        i == s.len() || !is_ws(s[i]),
    ensures
        trim_front(s) == s.skip(i),
    decreases i,
{
    if i == 0 {
        assert(s.skip(0) =~= s);
    } else {
        assert(is_ws(s[0]));
        lemma_trim_front_skip(s.drop_first(), i - 1);
        assert(s.drop_first().skip(i - 1) =~= s.skip(i));
    }
}

proof fn lemma_trim_back_take(s: Seq<u8>, j: int)
    requires
        0 <= j <= s.len(),
        forall|k: int| j <= k < s.len() ==> is_ws(s[k]),
        j == 0 || !is_ws(s[j - 1]),
    ensures
        trim_back(s) == s.take(j),
    decreases s.len(),
{
    if j == s.len() {
        assert(s.take(j) =~= s);
    } else {
        assert(is_ws(s.last()));
        lemma_trim_back_take(s.drop_last(), j);
        assert(s.drop_last().take(j) =~= s.take(j));
    }
}

fn is_ws_byte(b: u8) -> (r: bool)
    ensures
        r == is_ws(b),
{
    b == 32 || b == 9 || b == 10 || b == 11 || b == 12 || b == 13
}

/// The bounds of the trimmed portion of `line`: everything before the first
/// bound and from the second bound on is whitespace, and the bytes between
/// the bounds are exactly `trimmed(line@)`.
pub fn trim_bounds(line: &[u8]) -> (r: (usize, usize))
    ensures
        r.0 <= r.1 <= line@.len(),
        trimmed(line@) == line@.subrange(r.0 as int, r.1 as int),
        forall|j: int| 0 <= j < r.0 ==> is_ws(line@[j]),
        forall|j: int| r.1 <= j < line@.len() ==> is_ws(line@[j]),
{
    let n = line.len();
    let mut a: usize = 0;
    while a < n && is_ws_byte(line[a])
        invariant
            a <= n,
            n == line@.len(),
            forall|j: int| 0 <= j < a ==> is_ws(line@[j]),
        decreases n - a,
    {
        a = a + 1;
    }
    let mut b: usize = n;
    while b > a && is_ws_byte(line[b - 1])
        invariant
            a <= b <= n,
            n == line@.len(),
            forall|k: int| b <= k < n ==> is_ws(line@[k]),
        decreases b,
    {
        b = b - 1;
    }
    proof {
        lemma_trim_front_skip(line@, a as int);
        lemma_trim_back_take(line@.skip(a as int), b - a);
        assert(line@.skip(a as int).take(b - a) =~= line@.subrange(a as int, b as int));
    }
    (a, b)
}

/// Whether `p` is an initial segment of `s`.
pub fn has_prefix_bytes(s: &[u8], p: &[u8]) -> (r: bool)
    ensures
        r == has_prefix(s@, p@),
{
    if p.len() > s.len() {
        return false;
    }
    let mut i: usize = 0;
    while i < p.len()
        invariant
            i <= p@.len() <= s@.len(),
            forall|j: int| 0 <= j < i ==> s@[j] == p@[j],
        decreases p@.len() - i,
    {
        if s[i] != p[i] {
            proof {
                assert(s@.subrange(0, p@.len() as int)[i as int] == s@[i as int]);
            }
            return false;
        }
        i = i + 1;
    }
    proof {
        assert(s@.subrange(0, p@.len() as int) =~= p@);
    }
    true
}

/// Copies `src[from..to]` into a fresh vector.
pub fn copy_range(src: &[u8], from: usize, to: usize) -> (v: Vec<u8>)
    requires
        from <= to <= src@.len(),
    ensures
        v@ == src@.subrange(from as int, to as int),
{
    let mut v: Vec<u8> = Vec::new();
    let mut j: usize = from;
    proof {
        assert(v@ =~= src@.subrange(from as int, from as int));
    }
    while j < to
        invariant
            from <= j <= to <= src@.len(),
            v@ == src@.subrange(from as int, j as int),
        decreases to - j,
    {
        v.push(src[j]);
        proof {
            assert(src@.subrange(from as int, j as int).push(src@[j as int]) =~= src@.subrange(
                from as int,
                j + 1,
            ));
        }
        j = j + 1;
    }
    v
}

proof fn lemma_line_break_at(s: Seq<u8>, i: int)
    requires
        0 <= i <= s.len(),
        forall|k: int| 0 <= k < i ==> s[k] != 10,
        i == s.len() || s[i] == 10,
    ensures
        line_break(s) == i,
    decreases i,
{
    if i > 0 {
        lemma_line_break_at(s.drop_first(), i - 1);
    }
}

/// Splits a byte buffer into its lines: segments between newline bytes,
/// each with a carriage return before the newline removed; a final
/// unterminated segment is a line, and a trailing newline adds none.
pub fn split_lines(src: &Vec<u8>) -> (r: Vec<Vec<u8>>)
    ensures
        views_of(r@) == lines_of(src@),
{
    let n: usize = src.len();
    let mut r: Vec<Vec<u8>> = Vec::new();
    let mut start: usize = 0;
    let mut j: usize = 0;
    proof {
        assert(views_of(r@) =~= Seq::<Seq<u8>>::empty());
        assert(src@.skip(0) =~= src@);
        assert(views_of(r@) + lines_of(src@) =~= lines_of(src@));
    }
    while j < n
        invariant
            start <= j <= n,
            n == src@.len(),
            forall|k: int| start <= k < j ==> src@[k] != 10,
            lines_of(src@) == views_of(r@) + lines_of(src@.skip(start as int)),
        decreases n - j,
    {
        if src[j] == 10 {
            let end: usize = if j > start && src[j - 1] == 13 {
                j - 1
            } else {
                j
            };
            let line = copy_range(src.as_slice(), start, end);
            let ghost views0: Seq<Seq<u8>> = views_of(r@);
            r.push(line);
            proof {
                let tail = src@.skip(start as int);
                assert forall|k: int| 0 <= k < j - start implies tail[k] != 10 by {
                    assert(tail[k] == src@[start + k]);
                }
                assert(tail[j - start] == src@[j as int]);
                lemma_line_break_at(tail, j - start);
                assert(tail.take(j - start) =~= src@.subrange(start as int, j as int));
                assert(strip_cr(tail.take(j - start)) =~= line@);
                assert(tail.skip(j - start + 1) =~= src@.skip(j + 1));
                assert(lines_of(tail) == seq![line@] + lines_of(src@.skip(j + 1)));
                assert(views_of(r@) =~= views0.push(line@));
                assert(views0.push(line@) + lines_of(src@.skip(j + 1)) =~= views0 + lines_of(
                    tail,
                ));
            }
            start = j + 1;
        }
        j = j + 1;
    }
    if start < n {
        let line = copy_range(src.as_slice(), start, n);
        let ghost views0: Seq<Seq<u8>> = views_of(r@);
        r.push(line);
        proof {
            let tail = src@.skip(start as int);
            assert forall|k: int| 0 <= k < tail.len() implies tail[k] != 10 by {
                assert(tail[k] == src@[start + k]);
            }
            lemma_line_break_at(tail, tail.len() as int);
            assert(line@ =~= tail);
            assert(lines_of(tail) == seq![tail]);
            assert(views_of(r@) =~= views0.push(tail));
            assert(views0.push(tail) =~= views0 + seq![tail]);
            assert(views_of(r@) =~= lines_of(src@));
        }
    } else {
        proof {
            assert(src@.skip(start as int) =~= Seq::<u8>::empty());
            assert(lines_of(Seq::<u8>::empty()) =~= Seq::<Seq<u8>>::empty());
            assert(views_of(r@) + Seq::<Seq<u8>>::empty() =~= views_of(r@));
        }
    }
    r
}

/// Whether the two byte sequences are equal.
pub fn bytes_eq(x: &[u8], y: &[u8]) -> (r: bool)
    ensures
        r == (x@ == y@),
{
    if x.len() != y.len() {
        return false;
    }
    let mut i: usize = 0;
    while i < x.len()
        invariant
            i <= x@.len(),
            x@.len() == y@.len(),
            forall|j: int| 0 <= j < i ==> x@[j] == y@[j],
        decreases x@.len() - i,
    {
        if x[i] != y[i] {
            return false;
        }
        i = i + 1;
    }
    proof {
        assert(x@ =~= y@);
    }
    true
}

} // verus!

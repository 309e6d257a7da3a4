//! Byte-level text scanning: delimiter and line-break search, whitespace
//! trimming, the opt-out marker, and leading-indentation extraction.

use vstd::prelude::*;

verus! {

/// A double-quote byte; three in a row form a region delimiter.
pub const QUOTE: u8 = 34;

/// Line feed.
pub const NL: u8 = 10;

/// Carriage return.
pub const CR: u8 = 13;

/// Space.
pub const SP: u8 = 32;

/// Horizontal tab.
pub const TAB: u8 = 9;

/// Statement terminator `;`.
pub const SEMI: u8 = 59;

/// Vertical tab.
pub const VT: u8 = 11;

/// Form feed.
pub const FF: u8 = 12;

/// Lower-case interpolation prefix `f`.
pub const INTERP_LOWER: u8 = 102;

/// Upper-case interpolation prefix `F`.
pub const INTERP_UPPER: u8 = 70;

/// The triple-quote delimiter that fences a candidate region.
pub open spec fn delim() -> Seq<u8> {
    seq![QUOTE, QUOTE, QUOTE]
}

/// The opt-out marker `--poppy-ignore`: its presence anywhere in a body
/// disables formatting of that body.
pub open spec fn marker() -> Seq<u8> {
    seq![45u8, 45u8, 112u8, 111u8, 112u8, 112u8, 121u8, 45u8, 105u8, 103u8, 110u8, 111u8, 114u8, 101u8]
}

/// A triple-quote delimiter starts at index `i` of `s`.
pub open spec fn is_delim_at(s: Seq<u8>, i: int) -> bool {
    &&& 0 <= i
    &&& i + 3 <= s.len()
    &&& s[i] == QUOTE
    &&& s[i + 1] == QUOTE
    &&& s[i + 2] == QUOTE
}

/// Index of the first triple-quote delimiter of `s`; when `s` holds none,
/// the result is `s.len()` (so `first_delim(s) + 3 <= s.len()` tells whether
/// a delimiter was found).
pub open spec fn first_delim(s: Seq<u8>) -> nat
    decreases s.len(),
{
    if s.len() < 3 {
        s.len()
    } else if is_delim_at(s, 0) {
        0
    } else {
        1 + first_delim(s.drop_first())
    }
}

/// `first_delim` finds the first delimiter: a delimiter stands at the returned
/// index if one exists at all, and none stands earlier.
pub proof fn lemma_first_delim(s: Seq<u8>)
    ensures
        first_delim(s) <= s.len(),
        first_delim(s) + 3 <= s.len() ==> is_delim_at(s, first_delim(s) as int),
        forall|j: int| 0 <= j < first_delim(s) ==> !is_delim_at(s, j),
        first_delim(s) + 3 > s.len() ==> forall|j: int| !is_delim_at(s, j),
    decreases s.len(),
{
    if s.len() < 3 {
        assert(forall|j: int| !is_delim_at(s, j));
    } else if is_delim_at(s, 0) {
    } else {
        let t = s.drop_first();
        lemma_first_delim(t);
        assert(forall|j: int| 1 <= j < s.len() ==> is_delim_at(s, j) == is_delim_at(t, j - 1));
        if first_delim(s) + 3 > s.len() {
            assert forall|j: int| !is_delim_at(s, j) by {
                if 1 <= j {
                    assert(!is_delim_at(t, j - 1));
                }
            }
        }
    }
}

/// Exec search for the first triple-quote delimiter.
pub fn find_delim(s: &[u8]) -> (r: Option<usize>)
    ensures
        match r {
            Some(i) => i as nat == first_delim(s@) && i + 3 <= s@.len(),
            None => first_delim(s@) + 3 > s@.len(),
        },
{
    proof {
        lemma_first_delim(s@);
    }
    if s.len() < 3 {
        return None;
    }
    let mut i: usize = 0;
    while i <= s.len() - 3
        invariant
            3 <= s@.len(),
            i <= s@.len(),
            forall|j: int| 0 <= j < i ==> !is_delim_at(s@, j),
        decreases s@.len() - i,
    {
        if s[i] == QUOTE && s[i + 1] == QUOTE && s[i + 2] == QUOTE {
            proof {
                lemma_first_delim(s@);
                assert(is_delim_at(s@, i as int));
                // the characterization pins the first index down to `i`
                if first_delim(s@) + 3 <= s@.len() {
                    assert(first_delim(s@) == i as nat);
                }
            }
            return Some(i);
        }
        i = i + 1;
    }
    proof {
        assert(forall|j: int| i <= j ==> !is_delim_at(s@, j));
        assert(forall|j: int| !is_delim_at(s@, j));
        if first_delim(s@) + 3 <= s@.len() {
            assert(is_delim_at(s@, first_delim(s@) as int));
        }
    }
    None
}

/// Index of the first line feed of `s`; `s.len()` when `s` holds none.
pub open spec fn first_nl(s: Seq<u8>) -> nat
    decreases s.len(),
{
    if s.len() == 0 {
        0
    } else if s[0] == NL {
        0
    } else {
        1 + first_nl(s.drop_first())
    }
}

/// `first_nl` finds the first line feed, or returns `s.len()`.
pub proof fn lemma_first_nl(s: Seq<u8>)
    ensures
        first_nl(s) <= s.len(),
        first_nl(s) < s.len() ==> s[first_nl(s) as int] == NL,
        forall|j: int| 0 <= j < first_nl(s) ==> s[j] != NL,
    decreases s.len(),
{
    if s.len() == 0 {
    } else if s[0] == NL {
    } else {
        let t = s.drop_first();
        lemma_first_nl(t);
        assert forall|j: int| 0 <= j < first_nl(s) implies s[j] != NL by {
            if j >= 1 {
                assert(t[j - 1] != NL);
                assert(s[j] == t[j - 1]);
            }
        }
    }
}

/// Exec search for the first line feed.
pub fn find_nl(s: &[u8]) -> (r: Option<usize>)
    ensures
        match r {
            Some(i) => i as nat == first_nl(s@) && i < s@.len(),
            None => first_nl(s@) == s@.len(),
        },
{
    proof {
        lemma_first_nl(s@);
    }
    let mut i: usize = 0;
    while i < s.len()
        invariant
            i <= s@.len(),
            forall|j: int| 0 <= j < i ==> s@[j] != NL,
        decreases s@.len() - i,
    {
        if s[i] == NL {
            proof {
                lemma_first_nl(s@);
                if (first_nl(s@) as int) < i as int {
                    assert(s@[first_nl(s@) as int] != NL);
                }
                if (first_nl(s@) as int) > i as int {
                    assert(s@[i as int] != NL);
                }
            }
            return Some(i);
        }
        i = i + 1;
    }
    proof {
        if first_nl(s@) < s@.len() {
            assert(s@[first_nl(s@) as int] != NL);
        }
    }
    None
}

/// The lines of `s`, split at line feeds; a line break ends a line rather
/// than starting a new one, so a final line break adds no empty line.
pub open spec fn lines_of(s: Seq<u8>) -> Seq<Seq<u8>>
    decreases s.len(),
{
    if s.len() == 0 {
        Seq::empty()
    } else {
        let k = first_nl(s);
        if k < s.len() {
            seq![s.subrange(0, k as int)].add(lines_of(s.subrange(k as int + 1, s.len() as int)))
        } else {
            seq![s]
        }
    }
}

/// When `s` is a line-feed-free piece, a line feed, and a remainder, its
/// first line feed is the one between them.
pub proof fn lemma_first_nl_of_concat(a: Seq<u8>, y: Seq<u8>)
    requires
        forall|k: int| 0 <= k < a.len() ==> a[k] != NL,
    ensures
        first_nl(a + seq![NL] + y) == a.len(),
{
    let x = a + seq![NL] + y;
    lemma_first_nl(x);
    assert(x[a.len() as int] == NL);
    if (first_nl(x) as int) < a.len() as int {
        assert(x[first_nl(x) as int] == NL);
        assert(x[first_nl(x) as int] == a[first_nl(x) as int]);
    }
    if (first_nl(x) as int) > a.len() as int {
        assert(x[a.len() as int] != NL);
    }
}

/// Bytes that right-trimming removes before the statement-terminator test:
/// ASCII whitespace.
pub open spec fn is_trim_ws(b: u8) -> bool {
    b == SP || b == TAB || b == NL || b == CR || b == VT || b == FF
}

/// Whether `s`, with trailing whitespace removed, ends in `;`.
pub open spec fn ends_semi_after_trim(s: Seq<u8>) -> bool
    decreases s.len(),
{
    if s.len() == 0 {
        false
    } else if is_trim_ws(s.last()) {
        ends_semi_after_trim(s.drop_last())
    } else {
        s.last() == SEMI
    }
}

/// Exec test that the right-trimmed input ends in `;`.
pub fn ends_semi_trimmed(s: &[u8]) -> (r: bool)
    ensures
        r == ends_semi_after_trim(s@),
{
    let mut i: usize = s.len();
    proof {
        assert(s@.subrange(0, s@.len() as int) =~= s@);
    }
    while i > 0 && is_trim_ws_exec(s[i - 1])
        invariant
            i <= s@.len(),
            ends_semi_after_trim(s@.subrange(0, i as int)) == ends_semi_after_trim(s@),
        decreases i,
    {
        proof {
            let sub = s@.subrange(0, i as int);
            assert(sub.drop_last() =~= s@.subrange(0, i - 1));
        }
        i = i - 1;
    }
    if i == 0 {
        false
    } else {
        proof {
            let sub = s@.subrange(0, i as int);
            assert(sub.last() == s@[i - 1]);
        }
        s[i - 1] == SEMI
    }
}

/// Exec form of `is_trim_ws`.
fn is_trim_ws_exec(b: u8) -> (r: bool)
    ensures
        r == is_trim_ws(b),
{
    b == SP || b == TAB || b == NL || b == CR || b == VT || b == FF
}

/// The opt-out marker occurs at index `i` of `s`.
pub open spec fn marker_at(s: Seq<u8>, i: int) -> bool {
    &&& 0 <= i
    &&& i + marker().len() <= s.len()
    &&& s.subrange(i, i + marker().len() as int) == marker()
}

/// The opt-out marker occurs somewhere in `s`.
pub open spec fn contains_marker(s: Seq<u8>) -> bool {
    exists|i: int| marker_at(s, i)
}

/// The opt-out marker as bytes.
fn marker_bytes() -> (v: Vec<u8>)
    ensures
        v@ == marker(),
{
    let mut v: Vec<u8> = Vec::new();
    v.push(45);
    v.push(45);
    v.push(112);
    v.push(111);
    v.push(112);
    v.push(112);
    v.push(121);
    v.push(45);
    v.push(105);
    v.push(103);
    v.push(110);
    v.push(111);
    v.push(114);
    v.push(101);
    proof {
        assert(v@ =~= marker());
    }
    v
}

/// Exec test for the opt-out marker anywhere in `s`.
pub fn has_marker(s: &[u8]) -> (r: bool)
    ensures
        r == contains_marker(s@),
{
    let m = marker_bytes();
    let mlen: usize = m.len();
    if s.len() < mlen {
        proof {
            assert(forall|i: int| !marker_at(s@, i));
        }
        return false;
    }
    let mut i: usize = 0;
    while i <= s.len() - mlen
        invariant
            mlen == marker().len(),
            m@ == marker(),
            mlen <= s@.len(),
            i <= s@.len(),
            forall|j: int| 0 <= j < i ==> !marker_at(s@, j),
        decreases s@.len() - i,
    {
        let mut k: usize = 0;
        let mut same: bool = true;
        while k < mlen
            invariant
                mlen == marker().len(),
                m@ == marker(),
                i + mlen <= s@.len(),
                s@.len() <= usize::MAX,
                k <= mlen,
                same ==> (forall|t: int| 0 <= t < k ==> s@[i + t] == marker()[t]),
                !same ==> (exists|t: int| 0 <= t < mlen && s@[i + t] != marker()[t]),
            decreases mlen - k,
        {
            if s[i + k] != m[k] {
                proof {
                    assert(s@[i + k as int] != marker()[k as int]);
                }
                same = false;
                k = mlen;
            } else {
                proof {
                    assert(s@[i + k as int] == marker()[k as int]);
                }
                k = k + 1;
            }
        }
        if same {
            proof {
                assert(s@.subrange(i as int, i + marker().len() as int) =~= marker());
                assert(marker_at(s@, i as int));
            }
            return true;
        }
        proof {
            if marker_at(s@, i as int) {
                let t = choose|t: int| 0 <= t < mlen && s@[i + t] != marker()[t];
                assert(s@.subrange(i as int, i + marker().len() as int)[t] == marker()[t]);
            }
        }
        i = i + 1;
    }
    proof {
        assert forall|j: int| !marker_at(s@, j) by {
            if 0 <= j < i {
            } else if j >= i {
                assert(j + marker().len() > s@.len());
            }
        }
    }
    false
}

/// `p` without one trailing line feed, if it has one. A prefix that ends in a
/// line break still counts the text before that break as its last line.
pub open spec fn chop_trailing_nl(p: Seq<u8>) -> Seq<u8> {
    if p.len() > 0 && p.last() == NL {
        p.drop_last()
    } else {
        p
    }
}

/// The text after the last line feed of `q` (all of `q` when it has none).
pub open spec fn tail_line(q: Seq<u8>) -> Seq<u8>
    decreases q.len(),
{
    if q.len() == 0 {
        Seq::empty()
    } else if q.last() == NL {
        Seq::empty()
    } else {
        tail_line(q.drop_last()).push(q.last())
    }
}

/// A byte that counts as indentation: space or tab.
pub open spec fn is_indent_ws(b: u8) -> bool {
    b == SP || b == TAB
}

/// The leading run of spaces and tabs of `l`.
pub open spec fn leading_ws(l: Seq<u8>) -> Seq<u8>
    decreases l.len(),
{
    if l.len() > 0 && is_indent_ws(l[0]) {
        seq![l[0]].add(leading_ws(l.drop_first()))
    } else {
        Seq::empty()
    }
}

/// The indentation of the line on which `p` ends: the leading whitespace run
/// of the last line of `p`.
pub open spec fn indent_of(p: Seq<u8>) -> Seq<u8> {
    leading_ws(tail_line(chop_trailing_nl(p)))
}

/// `tail_line` is the suffix of `q` that follows its last line feed.
pub proof fn lemma_tail_line(q: Seq<u8>, j: int)
    requires
        0 <= j <= q.len(),
        forall|k: int| j <= k < q.len() ==> q[k] != NL,
        j > 0 ==> q[j - 1] == NL,
    ensures
        tail_line(q) == q.subrange(j, q.len() as int),
    decreases q.len(),
{
    if q.len() == 0 {
        assert(tail_line(q) =~= q.subrange(0, 0));
    } else if j == q.len() {
        assert(q.last() == NL);
        assert(tail_line(q) =~= q.subrange(j, q.len() as int));
    } else {
        assert(q.last() != NL);
        lemma_tail_line(q.drop_last(), j);
        assert(q.drop_last().subrange(j, q.len() - 1).push(q.last()) =~= q.subrange(
            j,
            q.len() as int,
        ));
    }
}

/// `leading_ws` is the prefix of `l` that ends at its first non-indentation byte.
proof fn lemma_leading_ws(l: Seq<u8>, k: int)
    requires
        0 <= k <= l.len(),
        forall|m: int| 0 <= m < k ==> is_indent_ws(l[m]),
        k < l.len() ==> !is_indent_ws(l[k]),
    ensures
        leading_ws(l) == l.subrange(0, k),
    decreases l.len(),
{
    if k == 0 {
        assert(leading_ws(l) =~= l.subrange(0, 0));
    } else {
        let t = l.drop_first();
        assert(forall|m: int| 0 <= m < k - 1 ==> is_indent_ws(t[m]));
        lemma_leading_ws(t, k - 1);
        assert(seq![l[0]].add(t.subrange(0, k - 1)) =~= l.subrange(0, k));
    }
}

/// `leading_ws` yields nothing but spaces and tabs.
pub proof fn lemma_leading_ws_only_ws(l: Seq<u8>)
    ensures
        forall|k: int| 0 <= k < leading_ws(l).len() ==> is_indent_ws(#[trigger] leading_ws(l)[k]),
    decreases l.len(),
{
    if l.len() > 0 && is_indent_ws(l[0]) {
        let t = l.drop_first();
        lemma_leading_ws_only_ws(t);
        assert forall|k: int| 0 <= k < leading_ws(l).len() implies is_indent_ws(
            #[trigger] leading_ws(l)[k],
        ) by {
            if k == 0 {
                assert(leading_ws(l)[0] == l[0]);
            } else {
                assert(leading_ws(l)[k] == leading_ws(t)[k - 1]);
            }
        }
    }
}

/// An extracted indentation holds no line feed (it is spaces and tabs only).
pub proof fn lemma_indent_of_nl_free(p: Seq<u8>)
    ensures
        forall|k: int| 0 <= k < indent_of(p).len() ==> indent_of(p)[k] != NL,
{
    lemma_leading_ws_only_ws(tail_line(chop_trailing_nl(p)));
}

/// Exec extraction of the indentation of the line on which `prefix` ends.
pub fn leading_indent(prefix: &[u8]) -> (v: Vec<u8>)
    ensures
        v@ == indent_of(prefix@),
{
    let n: usize = prefix.len();
    let chop_end: usize = if n > 0 && prefix[n - 1] == NL {
        n - 1
    } else {
        n
    };
    let ghost q = chop_trailing_nl(prefix@);
    proof {
        assert(q =~= prefix@.subrange(0, chop_end as int));
    }
    let mut j: usize = chop_end;
    while j > 0 && prefix[j - 1] != NL
        invariant
            j <= chop_end <= n == prefix@.len(),
            q == prefix@.subrange(0, chop_end as int),
            forall|k: int| j <= k < chop_end ==> prefix@[k] != NL,
        decreases j,
    {
        j = j - 1;
    }
    proof {
        assert(forall|k: int| j <= k < q.len() ==> q[k] == prefix@[k]);
        lemma_tail_line(q, j as int);
    }
    let ghost line = tail_line(q);
    proof {
        assert(line =~= prefix@.subrange(j as int, chop_end as int));
    }
    let mut v: Vec<u8> = Vec::new();
    let mut k: usize = j;
    while k < chop_end && (prefix[k] == SP || prefix[k] == TAB)
        invariant
            j <= k <= chop_end <= prefix@.len(),
            line == prefix@.subrange(j as int, chop_end as int),
            forall|m: int| j <= m < k ==> is_indent_ws(prefix@[m]),
            v@ == prefix@.subrange(j as int, k as int),
        decreases chop_end - k,
    {
        v.push(prefix[k]);
        proof {
            assert(v@ =~= prefix@.subrange(j as int, k + 1));
        }
        k = k + 1;
    }
    proof {
        assert(forall|m: int| 0 <= m < k - j ==> is_indent_ws(line[m]));
        assert((k as int) - (j as int) < line.len() ==> !is_indent_ws(line[(k - j) as int]));
        lemma_leading_ws(line, k - j);
        assert(line.subrange(0, k - j) =~= prefix@.subrange(j as int, k as int));
    }
    v
}

/// `s` ends with `suffix`.
pub open spec fn has_suffix_spec(s: Seq<u8>, suffix: Seq<u8>) -> bool {
    suffix.len() <= s.len() && s.subrange(s.len() - suffix.len(), s.len() as int) == suffix
}

/// Exec test that `s` ends with `suffix`; used to recognize file kinds by
/// their name's extension.
pub fn has_suffix(s: &[u8], suffix: &[u8]) -> (r: bool)
    ensures
        r == has_suffix_spec(s@, suffix@),
{
    let m: usize = suffix.len();
    let n: usize = s.len();
    if m > n {
        return false;
    }
    let base: usize = n - m;
    let mut k: usize = 0;
    while k < m
        invariant
            m <= n == s@.len(),
            base == n - m,
            k <= m == suffix@.len(),
            forall|t: int| 0 <= t < k ==> s@[base + t] == suffix@[t],
        decreases m - k,
    {
        if s[base + k] != suffix[k] {
            proof {
                if has_suffix_spec(s@, suffix@) {
                    assert(s@.subrange(s@.len() - suffix@.len(), s@.len() as int)[k as int]
                        == suffix@[k as int]);
                }
            }
            return false;
        }
        k = k + 1;
    }
    proof {
        assert(s@.subrange(s@.len() - suffix@.len(), s@.len() as int) =~= suffix@);
    }
    true
}

} // verus!

//! Line index: scanning a block of text for line terminators.
//!
//! Offsets count characters (Unicode scalar values). A line terminator is a
//! bare carriage return, a bare line feed, or a carriage return immediately
//! followed by a line feed, the pair consumed as a single unit.

use vstd::prelude::*;

verus! {

/// Offsets one past each line terminator of `s` at or after position `i`, in
/// scan order. A CR directly followed by LF is one terminator whose recorded
/// end lies one past the LF.
pub open spec fn break_ends_from(s: Seq<char>, i: int) -> Seq<int>
    decreases s.len() - i,
{
    if i < 0 || i >= s.len() {
        Seq::empty()
    } else if s[i] == '\r' {
        if i + 1 < s.len() && s[i + 1] == '\n' {
            seq![i + 2] + break_ends_from(s, i + 2)
        } else {
            seq![i + 1] + break_ends_from(s, i + 1)
        }
    } else if s[i] == '\n' {
        seq![i + 1] + break_ends_from(s, i + 1)
    } else {
        break_ends_from(s, i + 1)
    }
}

/// Number of line terminators in `s`, counting a CRLF pair once.
pub open spec fn line_break_count(s: Seq<char>) -> int {
    break_ends_from(s, 0).len() as int
}

/// The offset of the first character of every line of `s`: line 0 starts at
/// offset 0 even for empty text, and each terminator opens one further line.
pub open spec fn line_starts_spec(s: Seq<char>) -> Seq<int> {
    seq![0] + break_ends_from(s, 0)
}

/// Counts of (bare CR, bare LF, CRLF) terminators of `s` at or after `i`.
pub open spec fn break_kinds_from(s: Seq<char>, i: int) -> (int, int, int)
    decreases s.len() - i,
{
    if i < 0 || i >= s.len() {
        (0, 0, 0)
    } else if s[i] == '\r' {
        if i + 1 < s.len() && s[i + 1] == '\n' {
            let t = break_kinds_from(s, i + 2);
            (t.0, t.1, t.2 + 1)
        } else {
            let t = break_kinds_from(s, i + 1);
            (t.0 + 1, t.1, t.2)
        }
    } else if s[i] == '\n' {
        let t = break_kinds_from(s, i + 1);
        (t.0, t.1 + 1, t.2)
    } else {
        break_kinds_from(s, i + 1)
    }
}

/// Every character of `s` is in the ASCII range.
pub open spec fn all_ascii(s: Seq<char>) -> bool {
    forall|k: int| 0 <= k < s.len() ==> (s[k] as u32) < 128
}

/// Each recorded terminator end lies in `(i, s.len()]`, sits right after a
/// CR or LF, and the ends are strictly increasing.
pub proof fn lemma_break_ends_props(s: Seq<char>, i: int)
    ensures
        forall|k: int|
            0 <= k < break_ends_from(s, i).len() ==> i + 1 <= #[trigger] break_ends_from(s, i)[k]
                <= s.len(),
        forall|k: int|
            0 <= k < break_ends_from(s, i).len() ==> (s[#[trigger] break_ends_from(s, i)[k] - 1]
                == '\n' || s[break_ends_from(s, i)[k] - 1] == '\r'),
        forall|k: int|
            0 <= k && k + 1 < break_ends_from(s, i).len() ==> #[trigger] break_ends_from(s, i)[k]
                < break_ends_from(s, i)[k + 1],
    decreases s.len() - i,
{
    let bef = break_ends_from(s, i);
    if i < 0 || i >= s.len() {
    } else if (s[i] == '\r' || s[i] == '\n') {
        let d: int = if s[i] == '\r' && i + 1 < s.len() && s[i + 1] == '\n' {
            2
        } else {
            1
        };
        lemma_break_ends_props(s, i + d);
        let rest = break_ends_from(s, i + d);
        assert(bef == seq![i + d] + rest);
        assert forall|k: int| 0 <= k < bef.len() implies i + 1 <= #[trigger] bef[k] <= s.len() && (
        s[bef[k] - 1] == '\n' || s[bef[k] - 1] == '\r') by {
            if k == 0 {
                assert(bef[0] == i + d);
            } else {
                assert(bef[k] == rest[k - 1]);
            }
        }
        assert forall|k: int| 0 <= k && k + 1 < bef.len() implies #[trigger] bef[k] < bef[k + 1] by {
            if k == 0 {
                assert(bef[0] == i + d);
                assert(bef[1] == rest[0]);
            } else {
                assert(bef[k] == rest[k - 1]);
                assert(bef[k + 1] == rest[k]);
            }
        }
    } else {
        lemma_break_ends_props(s, i + 1);
        assert(bef == break_ends_from(s, i + 1));
    }
}

/// Scanning the concatenation `a + b` from a position inside `b` finds
/// exactly the terminators of `b`, shifted by `a`'s length.
pub proof fn lemma_break_ends_shift(a: Seq<char>, b: Seq<char>, j: int)
    requires
        0 <= j,
    ensures
        break_ends_from(a + b, a.len() + j).len() == break_ends_from(b, j).len(),
        forall|k: int|
            0 <= k < break_ends_from(b, j).len() ==> #[trigger] break_ends_from(a + b, a.len() + j)[k]
                == break_ends_from(b, j)[k] + a.len(),
    decreases b.len() - j,
{
    let s = a + b;
    if j >= b.len() {
    } else {
        assert(s[a.len() + j] == b[j]);
        if b[j] == '\r' && j + 1 < b.len() && b[j + 1] == '\n' {
            assert(s[a.len() + j + 1] == b[j + 1]);
            lemma_break_ends_shift(a, b, j + 2);
        } else {
            if j + 1 < b.len() {
                assert(s[a.len() + j + 1] == b[j + 1]);
            }
            lemma_break_ends_shift(a, b, j + 1);
        }
    }
}

/// Splitting a scan at a boundary that does not divide a CRLF pair: the
/// terminators of `a + b` are those of `a` followed by those of `b` shifted.
pub proof fn lemma_break_ends_concat(a: Seq<char>, b: Seq<char>, i: int)
    requires
        0 <= i <= a.len(),
        a.len() > 0 && b.len() > 0 ==> !(a[a.len() - 1] == '\r' && b[0] == '\n'),
    ensures
        break_ends_from(a + b, i).len() == break_ends_from(a, i).len() + break_ends_from(
            b,
            0,
        ).len(),
        forall|k: int|
            0 <= k < break_ends_from(a, i).len() ==> #[trigger] break_ends_from(a + b, i)[k]
                == break_ends_from(a, i)[k],
        forall|k: int|
            0 <= k < break_ends_from(b, 0).len() ==> #[trigger] break_ends_from(a + b, i)[
                break_ends_from(a, i).len() + k] == break_ends_from(b, 0)[k] + a.len(),
    decreases a.len() - i,
{
    let s = a + b;
    if i == a.len() {
        lemma_break_ends_shift(a, b, 0);
    } else {
        assert(s[i] == a[i]);
        if a[i] == '\r' || a[i] == '\n' {
            let d: int = if a[i] == '\r' && i + 1 < a.len() && a[i + 1] == '\n' {
                2
            } else {
                1
            };
            if i + 1 < a.len() {
                assert(s[i + 1] == a[i + 1]);
            }
            if i + 1 == a.len() && b.len() > 0 {
                assert(s[i + 1] == b[0]);
                if a[i] == '\r' {
                    assert(b[0] != '\n');
                }
            }
            lemma_break_ends_concat(a, b, i + d);
            let befs = break_ends_from(s, i);
            let befa = break_ends_from(a, i);
            let rests = break_ends_from(s, i + d);
            let resta = break_ends_from(a, i + d);
            let befb = break_ends_from(b, 0);
            assert(befs == seq![i + d] + rests);
            assert(befa == seq![i + d] + resta);
            assert forall|k: int| 0 <= k < befa.len() implies #[trigger] befs[k] == befa[k] by {
                if k > 0 {
                    assert(befs[k] == rests[k - 1]);
                    assert(befa[k] == resta[k - 1]);
                }
            }
            assert forall|k: int| 0 <= k < befb.len() implies #[trigger] befs[befa.len() + k]
                == befb[k] + a.len() by {
                assert(befs[befa.len() + k] == rests[resta.len() + k]);
            }
        } else {
            lemma_break_ends_concat(a, b, i + 1);
            assert(break_ends_from(s, i) == break_ends_from(s, i + 1));
            assert(break_ends_from(a, i) == break_ends_from(a, i + 1));
        }
    }
}

/// Terminator counting distributes over a concatenation whose boundary does
/// not divide a CRLF pair.
pub proof fn lemma_line_break_count_concat(a: Seq<char>, b: Seq<char>)
    requires
        a.len() > 0 && b.len() > 0 ==> !(a[a.len() - 1] == '\r' && b[0] == '\n'),
    ensures
        line_break_count(a + b) == line_break_count(a) + line_break_count(b),
{
    lemma_break_ends_concat(a, b, 0);
}

/// A scan from `i` finds at most one terminator per remaining character.
pub proof fn lemma_break_count_bound(s: Seq<char>, i: int)
    requires
        0 <= i <= s.len(),
    ensures
        break_ends_from(s, i).len() <= s.len() - i,
    decreases s.len() - i,
{
    if i >= s.len() {
    } else if s[i] == '\r' && i + 1 < s.len() && s[i + 1] == '\n' {
        lemma_break_count_bound(s, i + 2);
    } else {
        lemma_break_count_bound(s, i + 1);
    }
}

/// The three terminator kinds together account for every terminator, and
/// each kind count is non-negative.
pub proof fn lemma_break_kinds_total(s: Seq<char>, i: int)
    requires
        0 <= i,
    ensures
        break_kinds_from(s, i).0 >= 0,
        break_kinds_from(s, i).1 >= 0,
        break_kinds_from(s, i).2 >= 0,
        break_kinds_from(s, i).0 + break_kinds_from(s, i).1 + break_kinds_from(s, i).2
            == break_ends_from(s, i).len(),
    decreases s.len() - i,
{
    if i >= s.len() {
    } else if s[i] == '\r' && i + 1 < s.len() && s[i + 1] == '\n' {
        lemma_break_kinds_total(s, i + 2);
    } else {
        lemma_break_kinds_total(s, i + 1);
    }
}

/// How many of the recorded terminator ends lie at or before `off`.
pub open spec fn ends_at_or_before(es: Seq<int>, off: int) -> int
    decreases es.len(),
{
    if es.len() == 0 {
        0
    } else {
        (if es[0] <= off {
            1int
        } else {
            0int
        }) + ends_at_or_before(es.drop_first(), off)
    }
}

/// The index of the line containing offset `off` of `s`: the number of
/// terminators that end at or before `off`.
pub open spec fn line_of(s: Seq<char>, off: int) -> int {
    ends_at_or_before(break_ends_from(s, 0), off)
}

/// The content of line `i` of `s`: from its start to its terminator (a
/// CRLF pair, or one character) or to the end of the text.
pub open spec fn line_content_spec(s: Seq<char>, i: int) -> Seq<char> {
    let ls = line_starts_spec(s);
    if i + 1 < ls.len() {
        let e = ls[i + 1];
        let term: int = if s[e - 1] == '\n' && e - 2 >= ls[i] && s[e - 2] == '\r' {
            2
        } else {
            1
        };
        s.subrange(ls[i], e - term)
    } else {
        s.subrange(ls[i], s.len() as int)
    }
}

/// In a strictly increasing end list, the ends at or before `off` are
/// exactly an initial segment, whose length the count gives.
pub proof fn lemma_ends_count_split(es: Seq<int>, off: int, c: int)
    requires
        0 <= c <= es.len(),
        forall|m: int| 0 <= m < c ==> #[trigger] es[m] <= off,
        forall|m: int| c <= m < es.len() ==> #[trigger] es[m] > off,
    ensures
        ends_at_or_before(es, off) == c,
    decreases es.len(),
{
    if es.len() == 0 {
    } else if c == 0 {
        assert(es[0] > off);
        assert(forall|m: int|
            0 <= m < es.drop_first().len() ==> #[trigger] es.drop_first()[m] == es[m + 1]);
        lemma_ends_count_split(es.drop_first(), off, 0);
    } else {
        assert(es[0] <= off);
        assert(forall|m: int|
            0 <= m < es.drop_first().len() ==> #[trigger] es.drop_first()[m] == es[m + 1]);
        lemma_ends_count_split(es.drop_first(), off, c - 1);
    }
}

/// The line index of a cut offset equals the terminator count of the text
/// before the cut, except that a cut falling between the CR and LF of one
/// pair sees that pair's CR counted in the prefix but not yet ended.
#[verifier::spinoff_prover]
#[verifier::rlimit(100)]
pub proof fn lemma_line_of_prefix(s: Seq<char>, r: int)
    requires
        0 <= r <= s.len(),
    ensures
        ({
            let cut = r > 0 && r < s.len() && s[r - 1] == '\r' && s[r] == '\n';
            let part = line_break_count(s.subrange(0, r));
            &&& (cut ==> part >= 1)
            &&& line_of(s, r) == part - (if cut {
                1int
            } else {
                0int
            })
            &&& 0 <= line_of(s, r) <= line_break_count(s)
            &&& line_starts_spec(s)[line_of(s, r)] <= r
        }),
{
    let cut = r > 0 && r < s.len() && s[r - 1] == '\r' && s[r] == '\n';
    let full = break_ends_from(s, 0);
    lemma_break_ends_props(s, 0);
    if cut {
        let a = s.subrange(0, r - 1);
        let b = s.subrange(r - 1, s.len() as int);
        assert(s =~= a + b);
        assert(b[0] == '\r');
        lemma_break_ends_concat(a, b, 0);
        lemma_break_ends_props(a, 0);
        lemma_break_ends_props(b, 0);
        let befa = break_ends_from(a, 0);
        let befb = break_ends_from(b, 0);
        // The prefix ends with a bare CR, one more terminator than `a` has.
        let p = s.subrange(0, r);
        let one = seq!['\r'];
        assert(p =~= a + one);
        lemma_break_ends_concat(a, one, 0);
        assert(break_ends_from(one, 1) =~= Seq::<int>::empty());
        assert(seq![1int] + Seq::<int>::empty() =~= seq![1int]);
        assert(break_ends_from(one, 0) =~= seq![1int]);
        assert(line_break_count(p) == line_break_count(a) + 1);
        // In the full text the pair ends past the LF, after the cut.
        assert(b.len() >= 2 && b[1] == '\n');
        assert(befb[0] == 2);
        assert forall|m: int| 0 <= m < full.len() implies (m < befa.len() ==> #[trigger] full[m]
            <= r) && (m >= befa.len() ==> full[m] > r) by {
            if m < befa.len() {
                assert(full[m] == befa[m]);
            } else {
                let k = m - befa.len();
                assert(full[befa.len() + k] == befb[k] + a.len());
                if k > 0 {
                    lemma_ends_sorted_trans(befb, 0, k);
                }
            }
        }
        lemma_ends_count_split(full, r, befa.len() as int);
    } else {
        let a = s.subrange(0, r);
        let b = s.subrange(r, s.len() as int);
        assert(s =~= a + b);
        if a.len() > 0 && b.len() > 0 {
            assert(a[a.len() - 1] == s[r - 1] && b[0] == s[r]);
        }
        lemma_break_ends_concat(a, b, 0);
        lemma_break_ends_props(a, 0);
        lemma_break_ends_props(b, 0);
        let befa = break_ends_from(a, 0);
        let befb = break_ends_from(b, 0);
        assert forall|m: int| 0 <= m < full.len() implies (m < befa.len() ==> #[trigger] full[m]
            <= r) && (m >= befa.len() ==> full[m] > r) by {
            if m < befa.len() {
                assert(full[m] == befa[m]);
            } else {
                let k = m - befa.len();
                assert(full[befa.len() + k] == befb[k] + a.len());
            }
        }
        lemma_ends_count_split(full, r, befa.len() as int);
    }
    assert(line_starts_spec(s)[line_of(s, r)] <= r) by {
        let c = line_of(s, r);
        if c == 0 {
            assert(line_starts_spec(s)[0] == 0);
        } else {
            assert(line_starts_spec(s)[c] == full[c - 1]);
        }
    }
}

/// Strictly increasing end lists are ordered across any distance.
pub proof fn lemma_ends_sorted_trans(es: Seq<int>, m1: int, m2: int)
    requires
        forall|k: int| 0 <= k && k + 1 < es.len() ==> #[trigger] es[k] < es[k + 1],
        0 <= m1 <= m2 < es.len(),
    ensures
        es[m1] <= es[m2],
    decreases m2 - m1,
{
    if m1 < m2 {
        lemma_ends_sorted_trans(es, m1 + 1, m2);
    }
}

/// The view of a vector of unsigned offsets, as mathematical integers.
pub open spec fn as_ints(v: Seq<usize>) -> Seq<int> {
    v.map_values(|u: usize| u as int)
}

/// Computes the offset of every line start of `text`, in one grapheme-exact
/// left-to-right scan that consumes a CRLF pair as a single terminator.
pub fn compute_line_starts(text: &Vec<char>) -> (r: Vec<usize>)
    ensures
        as_ints(r@) == line_starts_spec(text@),
        r@.len() == line_starts_spec(text@).len(),
{
    let ghost s = text@;
    let mut r: Vec<usize> = Vec::new();
    r.push(0);
    proof {
        assert(as_ints(r@) =~= seq![0int]);
    }
    let mut i: usize = 0;
    while i < text.len()
        invariant
            i <= s.len(),
            s == text@,
            as_ints(r@) + break_ends_from(s, i as int) =~= line_starts_spec(s),
        decreases s.len() - i,
    {
        let c = text[i];
        if c == '\r' {
            if i + 1 < text.len() && text[i + 1] == '\n' {
                proof {
                    assert(as_ints(r@.push((i + 2) as usize)) =~= as_ints(r@) + seq![i + 2int]);
                }
                r.push(i + 2);
                i = i + 2;
            } else {
                proof {
                    assert(as_ints(r@.push((i + 1) as usize)) =~= as_ints(r@) + seq![i + 1int]);
                }
                r.push(i + 1);
                i = i + 1;
            }
        } else if c == '\n' {
            proof {
                assert(as_ints(r@.push((i + 1) as usize)) =~= as_ints(r@) + seq![i + 1int]);
            }
            r.push(i + 1);
            i = i + 1;
        } else {
            i = i + 1;
        }
    }
    proof {
        assert(as_ints(r@) + break_ends_from(s, i as int) =~= as_ints(r@));
    }
    r
}

/// Counts the line terminators of `text` within the character range
/// `[from, to)`, a CRLF pair split by neither bound counting once; a CR at
/// `to - 1` whose LF lies outside the range counts as a bare CR.
pub fn count_line_breaks(text: &Vec<char>, from: usize, to: usize) -> (r: usize)
    requires
        from <= to <= text@.len(),
    ensures
        r as int == line_break_count(text@.subrange(from as int, to as int)),
{
    let ghost sub = text@.subrange(from as int, to as int);
    let n = to - from;
    let mut cnt: usize = 0;
    let mut j: usize = 0;
    while j < n
        invariant
            from + n <= text@.len(),
            n == to - from,
            sub == text@.subrange(from as int, to as int),
            j <= n,
            cnt <= j,
            cnt as int + break_ends_from(sub, j as int).len() == line_break_count(sub),
        decreases n - j,
    {
        let c = text[from + j];
        assert(c == sub[j as int]);
        if c == '\r' {
            if j + 1 < n && text[from + j + 1] == '\n' {
                assert(text@[from + j + 1] == sub[j + 1int]);
                cnt = cnt + 1;
                j = j + 2;
            } else {
                if j + 1 < n {
                    assert(text@[from + j + 1] == sub[j + 1int]);
                }
                cnt = cnt + 1;
                j = j + 1;
            }
        } else if c == '\n' {
            cnt = cnt + 1;
            j = j + 1;
        } else {
            j = j + 1;
        }
    }
    cnt
}

/// Counts the bare-CR, bare-LF and CRLF terminators of `text`, classifying
/// each occurrence in one scan.
pub fn count_break_kinds(text: &Vec<char>) -> (r: (usize, usize, usize))
    ensures
        r.0 as int == break_kinds_from(text@, 0).0,
        r.1 as int == break_kinds_from(text@, 0).1,
        r.2 as int == break_kinds_from(text@, 0).2,
{
    let ghost s = text@;
    let mut cr: usize = 0;
    let mut lf: usize = 0;
    let mut crlf: usize = 0;
    let mut i: usize = 0;
    while i < text.len()
        invariant
            i <= s.len(),
            s == text@,
            cr <= i && lf <= i && crlf <= i,
            cr as int + break_kinds_from(s, i as int).0 == break_kinds_from(s, 0).0,
            lf as int + break_kinds_from(s, i as int).1 == break_kinds_from(s, 0).1,
            crlf as int + break_kinds_from(s, i as int).2 == break_kinds_from(s, 0).2,
        decreases s.len() - i,
    {
        let c = text[i];
        if c == '\r' {
            if i + 1 < text.len() && text[i + 1] == '\n' {
                crlf = crlf + 1;
                i = i + 2;
            } else {
                cr = cr + 1;
                i = i + 1;
            }
        } else if c == '\n' {
            lf = lf + 1;
            i = i + 1;
        } else {
            i = i + 1;
        }
    }
    (cr, lf, crlf)
}

/// Decides whether every character of `text` is ASCII.
pub fn check_all_ascii(text: &Vec<char>) -> (r: bool)
    ensures
        r == all_ascii(text@),
{
    let mut i: usize = 0;
    while i < text.len()
        invariant
            i <= text@.len(),
            forall|k: int| 0 <= k < i ==> (text@[k] as u32) < 128,
        decreases text@.len() - i,
    {
        if (text[i] as u32) >= 128 {
            return false;
        }
        i = i + 1;
    }
    true
}

} // verus!

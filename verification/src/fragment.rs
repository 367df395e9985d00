//! Measuring a raw line and cutting its content into bounded fragments.

use crate::ascii::{LF, NUL};
use vstd::prelude::*;

verus! {

/// The number of content bytes of a raw line: everything before the first
/// NUL byte; without a NUL, everything but one trailing line feed.
pub open spec fn logical_length(line: Seq<u8>) -> nat {
    match line.index_of_first(NUL) {
        Some(at) => at as nat,
        None => if line.len() > 0 && line.last() == LF {
            (line.len() - 1) as nat
        } else {
            line.len()
        },
    }
}

/// The number of fragments that `len` content bytes are cut into when no
/// fragment may hold more than `max` bytes: `len / max`, rounded up.
pub open spec fn fragment_count(len: nat, max: nat) -> nat
    recommends
        max > 0,
{
    len / max + if len % max > 0 { 1nat } else { 0nat }
}

/// The byte range `(start, end)` of fragment `k`, counted from zero: it
/// starts after `k` full fragments and ends `max` bytes later, or where the
/// content ends.
pub open spec fn fragment_range(len: nat, max: nat, k: int) -> (int, int) {
    (k * max, if (k + 1) * max < len { (k + 1) * max } else { len as int })
}

/// The index of the fragment that holds the content byte at `offset`.
pub open spec fn fragment_of(offset: int, max: nat) -> int
    recommends
        max > 0,
{
    offset / max as int
}

/// All fragments of `len` content bytes, in order.
pub open spec fn fragments(len: nat, max: nat) -> Seq<(int, int)> {
    Seq::new(fragment_count(len, max), |k: int| fragment_range(len, max, k))
}

/// Measures the content of a raw line.
pub fn measure(line: &[u8]) -> (len: usize)
    ensures
        len == logical_length(line@),
        len <= line@.len(),
{
    let mut i: usize = 0;
    while i < line.len()
        invariant
            i <= line.len(),
            forall|j: int| 0 <= j < i ==> line@[j] != NUL,
        decreases line.len() - i,
    {
        if line[i] == NUL {
            proof {
                line@.index_of_first_ensures(NUL);
            }
            return i;
        }
        i += 1;
    }
    proof {
        line@.index_of_first_ensures(NUL);
    }
    if i > 0 && line[i - 1] == LF {
        i - 1
    } else {
        i
    }
}

/// Counts the fragments of `len` content bytes.
pub fn count_fragments(len: usize, max: usize) -> (total: usize)
    requires
        max > 0,
    ensures
        total == fragment_count(len as nat, max as nat),
{
    let chunks = len / max;
    let rem = len % max;
    if rem == 0 {
        chunks
    } else {
        proof {
            lemma_count_bounds(len as nat, max as nat);
        }
        chunks + 1
    }
}

/// Cuts `len` content bytes into fragments of at most `max` bytes and
/// returns their byte ranges in order.
pub fn split(len: usize, max: usize) -> (ranges: Vec<(usize, usize)>)
    requires
        max > 0,
    ensures
        ranges@.len() == fragments(len as nat, max as nat).len(),
        forall|k: int|
            0 <= k < ranges@.len() ==> ((#[trigger] ranges@[k]).0 as int, ranges@[k].1 as int)
                == fragments(len as nat, max as nat)[k],
{
    let total = count_fragments(len, max);
    let mut ranges: Vec<(usize, usize)> = Vec::new();
    let mut start: usize = 0;
    let mut n: usize = 0;
    while n < total
        invariant
            max > 0,
            total == fragment_count(len as nat, max as nat),
            n <= total,
            start <= len,
            n < total ==> start == n * max,
            ranges@.len() == n,
            forall|k: int|
                0 <= k < n ==> (ranges@[k].0 as int, ranges@[k].1 as int)
                    == #[trigger] fragment_range(len as nat, max as nat, k),
        decreases total - n,
    {
        proof {
            lemma_fragment_index(len as nat, max as nat, n as int);
            lemma_fragment_index(len as nat, max as nat, n + 1);
            assert((n + 1) * max == n * max + max) by (nonlinear_arith);
        }
        let remainder = len - start;
        let end = if remainder > max { start + max } else { len };
        ranges.push((start, end));
        start = end;
        n += 1;
    }
    ranges
}

/// The content of a line holds no NUL. Where the line holds one, the content
/// ends at the first; where it holds none, the content is the line without
/// one trailing line feed.
pub proof fn lemma_logical_length(line: Seq<u8>)
    ensures
        logical_length(line) <= line.len(),
        forall|j: int| 0 <= j < logical_length(line) ==> line[j] != NUL,
        line.contains(NUL) ==> line[logical_length(line) as int] == NUL,
        !line.contains(NUL) && line.len() > 0 && line.last() == LF ==> logical_length(line)
            == line.len() - 1,
        !line.contains(NUL) && !(line.len() > 0 && line.last() == LF) ==> logical_length(line)
            == line.len(),
{
    line.index_of_first_ensures(NUL);
    if !line.contains(NUL) {
        assert forall|j: int| 0 <= j < line.len() implies line[j] != NUL by {
            assert(line.contains(line[j]));
        }
    }
}

/// Fragment `k` exists exactly when the `k` full fragments before it leave
/// content over.
pub proof fn lemma_fragment_index(len: nat, max: nat, k: int)
    requires
        max > 0,
        0 <= k,
    ensures
        k < fragment_count(len, max) <==> k * max < len,
{
    let q = len / max;
    let r = len % max;
    assert(len == q * max + r && 0 <= r < max) by (nonlinear_arith)
        requires
            q == len / max,
            r == len % max,
            max > 0,
    ;
    if k < q {
        assert(k * max + max <= q * max) by (nonlinear_arith)
            requires
                k < q,
                max > 0,
        ;
    } else if k == q {
    } else {
        assert(k * max >= q * max + max) by (nonlinear_arith)
            requires
                k > q,
                max > 0,
        ;
    }
}

/// A fragment is not empty, holds at most `max` bytes, and lies within the
/// content.
pub proof fn lemma_fragment_bounds(len: nat, max: nat, k: int)
    requires
        max > 0,
        0 <= k < fragment_count(len, max),
    ensures
        0 <= fragment_range(len, max, k).0 < fragment_range(len, max, k).1 <= len,
        fragment_range(len, max, k).1 - fragment_range(len, max, k).0 <= max,
{
    lemma_fragment_index(len, max, k);
    assert((k + 1) * max == k * max + max) by (nonlinear_arith);
    assert(0 <= k * max) by (nonlinear_arith)
        requires
            0 <= k,
            max > 0,
    ;
}

/// The fragment count is the quotient rounded up: that many fragments of
/// `max` bytes hold the content, and one fewer do not.
pub proof fn lemma_count_bounds(len: nat, max: nat)
    requires
        max > 0,
    ensures
        fragment_count(len, max) * max >= len,
        len > 0 ==> (fragment_count(len, max) - 1) * max < len,
        len == 0 ==> fragment_count(len, max) == 0,
        fragment_count(len, max) <= len,
{
    let n = fragment_count(len, max) as int;
    lemma_fragment_index(len, max, n);
    if len > 0 {
        lemma_fragment_index(len, max, 0);
        lemma_fragment_index(len, max, n - 1);
        assert((n - 1) * max >= n - 1) by (nonlinear_arith)
            requires
                n >= 1,
                max > 0,
        ;
    } else {
        lemma_fragment_index(len, max, 0);
    }
}

/// The fragments of a line partition its content. There are `len / max`
/// of them, rounded up; they are not empty and hold at most `max` bytes,
/// all but the last exactly `max`; the first starts at 0, each starts where
/// the one before it ends, and the last ends at `len`; no two overlap, and
/// every content byte lies in one of them.
pub proof fn lemma_fragments_partition(len: nat, max: nat)
    requires
        max > 0,
    ensures
        ({
            let f = fragments(len, max);
            &&& f.len() * max >= len
            &&& len > 0 ==> (f.len() - 1) * max < len
            &&& len == 0 ==> f.len() == 0
            &&& f.len() > 0 ==> f.first().0 == 0 && f.last().1 == len
            &&& forall|k: int|
                0 <= k < f.len() ==> 0 <= (#[trigger] f[k]).0 < f[k].1 <= len && f[k].1 - f[k].0
                    <= max
            &&& forall|k: int|
                0 <= k < f.len() - 1 ==> (#[trigger] f[k]).1 == f[k + 1].0 && f[k].1 - f[k].0
                    == max
            &&& forall|j: int, k: int|
                0 <= j < k < f.len() ==> (#[trigger] f[j]).1 <= (#[trigger] f[k]).0
            &&& forall|b: int|
                0 <= b < len ==> 0 <= #[trigger] fragment_of(b, max) < f.len() && f[fragment_of(
                    b,
                    max,
                )].0 <= b < f[fragment_of(b, max)].1
        }),
{
    let f = fragments(len, max);
    let n = f.len() as int;
    lemma_count_bounds(len, max);
    lemma_fragment_index(len, max, n);
    assert forall|k: int| 0 <= k < n implies 0 <= (#[trigger] f[k]).0 < f[k].1 <= len && f[k].1
        - f[k].0 <= max && (k < n - 1 ==> f[k].1 == f[k + 1].0 && f[k].1 - f[k].0 == max) by {
        lemma_fragment_index(len, max, k);
        lemma_fragment_index(len, max, k + 1);
        assert((k + 1) * max == k * max + max) by (nonlinear_arith);
        assert(0 <= k * max) by (nonlinear_arith)
            requires
                0 <= k,
                max > 0,
        ;
    }
    assert forall|j: int, k: int| 0 <= j < k < n implies (#[trigger] f[j]).1 <= (#[trigger] f[k]).0 by {
        assert((j + 1) * max <= k * max) by (nonlinear_arith)
            requires
                j + 1 <= k,
                max > 0,
        ;
    }
    assert forall|b: int| 0 <= b < len implies 0 <= #[trigger] fragment_of(b, max) < n
        && f[fragment_of(b, max)].0 <= b < f[fragment_of(b, max)].1 by {
        let k = fragment_of(b, max);
        assert(k * max <= b < (k + 1) * max && 0 <= k) by (nonlinear_arith)
            requires
                k == b / max as int,
                0 <= b,
                max > 0,
        ;
        lemma_fragment_index(len, max, k);
    }
    if n > 0 {
        lemma_fragment_index(len, max, n - 1);
        assert(n * max == (n - 1) * max + max) by (nonlinear_arith);
    }
}

} // verus!

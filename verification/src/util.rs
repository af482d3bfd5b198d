//! Generic utility functions: combining fallible results and counting lines.

use vstd::prelude::*;

verus! {

/// Number of occurrences of the byte `b` in `s`.
pub open spec fn count_byte(s: Seq<u8>, b: u8) -> nat
    decreases s.len(),
{
    if s.len() == 0 {
        0
    } else {
        count_byte(s.drop_last(), b) + if s.last() == b {
            1nat
        } else {
            0nat
        }
    }
}

/// A buffer has no more occurrences of a byte than it has bytes.
pub proof fn lemma_count_byte_le(s: Seq<u8>, b: u8)
    ensures
        count_byte(s, b) <= s.len(),
    decreases s.len(),
{
    if s.len() > 0 {
        lemma_count_byte_le(s.drop_last(), b);
    }
}

/// Combine two results with `f`, or return the first error (the left one wins
/// when both sides failed).
pub fn bind<A, B, F: Fn(A, A) -> A>(a: Result<A, B>, b: Result<A, B>, f: F) -> (r: Result<A, B>)
    requires
        a is Ok && b is Ok ==> f.requires((a->Ok_0, b->Ok_0)),
    ensures
        a is Err ==> r == a,
        a is Ok && b is Err ==> r == b,
        a is Ok && b is Ok ==> r is Ok && f.ensures((a->Ok_0, b->Ok_0), r->Ok_0),
{
    match (a, b) {
        (Ok(va), Ok(vb)) => Ok(f(va, vb)),
        (Err(ea), _) => Err(ea),
        (_, Err(eb)) => Err(eb),
    }
}

/// Number of lines in the buffer: one more than the number of end-of-line
/// bytes, so even an empty buffer counts as a single line.
pub fn lines(buf: &[u8], eol: u8) -> (n: usize)
    requires
        buf@.len() < usize::MAX,
    ensures
        n == count_byte(buf@, eol) + 1,
{
    let mut count: usize = 0;
    let mut i: usize = 0;
    while i < buf.len()
        invariant
            0 <= i <= buf@.len(),
            count <= i,
            buf@.len() < usize::MAX,
            count == count_byte(buf@.take(i as int), eol),
        decreases buf@.len() - i,
    {
        proof {
            assert(buf@.take(i + 1).drop_last() =~= buf@.take(i as int));
            assert(buf@.take(i + 1).last() == buf@[i as int]);
        }
        if buf[i] == eol {
            count = count + 1;
        }
        i = i + 1;
    }
    proof {
        assert(buf@.take(buf@.len() as int) =~= buf@);
    }
    count + 1
}

} // verus!

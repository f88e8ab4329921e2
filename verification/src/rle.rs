//! Run-length encoding: a sequence of bytes as a sequence of runs, each a byte
//! value and the number of times that it is repeated.

use vstd::prelude::*;
use crate::huffman::header::{table_byte, table_bytes};

verus! {

/// The bytes that a sequence of runs stands for.
pub open spec fn expand(runs: Seq<(u8, u32)>) -> Seq<u8>
    decreases runs.len(),
{
    if runs.len() == 0 {
        Seq::empty()
    } else {
        expand(runs.drop_last()) + run(runs.last().0, runs.last().1)
    }
}

/// Whether no run is empty and no run goes on in the next one: the runs are
/// as long as they can be.
pub open spec fn maximal(runs: Seq<(u8, u32)>) -> bool {
    &&& forall|i: int| 0 <= i < runs.len() ==> (#[trigger] runs[i]).1 > 0
    &&& forall|i: int| 0 < i < runs.len() ==> runs[i - 1].0 != (#[trigger] runs[i]).0
}

/// Whether the positions from `from` up to `to` hold one byte value.
pub open spec fn constant(s: Seq<u8>, from: int, to: int) -> bool {
    forall|k: int| from <= k < to ==> s[k] == s[from]
}

/// Whether the length of every run of `s` fits the 32 bits of a count.
pub open spec fn runs_fit(s: Seq<u8>) -> bool {
    forall|from: int, to: int|
        0 <= from <= to <= s.len() && #[trigger] constant(s, from, to) ==> to - from <= u32::MAX
}

/// One run of `count` bytes of the value `byte`.
pub open spec fn run(byte: u8, count: u32) -> Seq<u8> {
    Seq::new(count as nat, |k: int| byte)
}

/// Splits `bytes` into its runs: each byte value with the number of positions
/// in a row that hold it, from the first position on.
pub fn compress(bytes: &[u8]) -> (compressed: Vec<(u8, u32)>)
    requires
        runs_fit(bytes@),
    ensures
        expand(compressed@) == bytes@,
        maximal(compressed@),
{
    let mut compressed: Vec<(u8, u32)> = Vec::new();
    let mut i: usize = 0;
    assert(bytes@.take(0) =~= expand(compressed@));
    while i < bytes.len()
        invariant
            i <= bytes.len(),
            runs_fit(bytes@),
            expand(compressed@) == bytes@.take(i as int),
            maximal(compressed@),
            0 < i < bytes.len() ==> compressed@.len() > 0 && compressed@.last().0 != bytes@[
                i as int],
            i > 0 ==> compressed@.len() > 0,
        decreases bytes.len() - i,
    {
        let current: u8 = bytes[i];
        let mut counter: usize = 1;
        while counter < bytes.len() - i && bytes[i + counter] == current
            invariant
                i < bytes.len(),
                1 <= counter <= bytes.len() - i,
                current == bytes@[i as int],
                constant(bytes@, i as int, i + counter),
            decreases bytes.len() - i - counter,
        {
            counter += 1;
        }
        assert(counter <= u32::MAX);
        let ghost before = compressed@;
        compressed.push((current, counter as u32));
        proof {
            assert(compressed@.drop_last() == before);
            assert(bytes@.take(i + counter) =~= bytes@.take(i as int) + run(
                current,
                counter as u32,
            ));
        }
        i += counter;
    }
    assert(bytes@.take(i as int) == bytes@);
    compressed
}

/// Maximal runs without their last run are maximal runs.
proof fn lemma_maximal_front(runs: Seq<(u8, u32)>)
    requires
        maximal(runs),
        runs.len() > 0,
    ensures
        maximal(runs.drop_last()),
{
    let front = runs.drop_last();
    assert forall|i: int| 0 <= i < front.len() implies (#[trigger] front[i]).1 > 0 by {
        assert(front[i] == runs[i]);
    }
    assert forall|i: int| 0 < i < front.len() implies front[i - 1].0 != (#[trigger] front[i]).0 by {
        assert(front[i] == runs[i]);
        assert(front[i - 1] == runs[i - 1]);
    }
}

/// The bytes that maximal runs stand for end with the byte value of the last
/// run.
proof fn lemma_expand_last(runs: Seq<(u8, u32)>)
    requires
        maximal(runs),
        runs.len() > 0,
    ensures
        expand(runs).len() > 0,
        expand(runs).last() == runs.last().0,
{
    assert(runs[runs.len() - 1].1 > 0);
}

/// A sequence of bytes has one sequence of maximal runs.
pub proof fn lemma_runs_unique(first: Seq<(u8, u32)>, second: Seq<(u8, u32)>)
    requires
        maximal(first),
        maximal(second),
        expand(first) == expand(second),
    ensures
        first == second,
    decreases first.len(),
{
    let bytes = expand(first);
    if first.len() == 0 {
        if second.len() > 0 {
            lemma_expand_last(second);
        }
        assert(first =~= second);
    } else {
        lemma_expand_last(first);
        if second.len() == 0 {
            assert(expand(second).len() == 0);
        }
        lemma_expand_last(second);
        let a = first.last();
        let b = second.last();
        let first_front = first.drop_last();
        let second_front = second.drop_last();
        lemma_maximal_front(first);
        lemma_maximal_front(second);
        let f = expand(first_front);
        let g = expand(second_front);
        assert(bytes == f + run(a.0, a.1));
        assert(bytes == g + run(b.0, b.1));
        assert(a.0 == b.0);
        if a.1 < b.1 {
            assert(f.len() > g.len());
            lemma_expand_last(first_front);
            assert(first[first.len() - 2].0 != first[first.len() - 1].0);
            assert(first_front.last() == first[first.len() - 2]);
            assert((f + run(a.0, a.1))[f.len() - 1] == f.last());
            assert((g + run(b.0, b.1))[f.len() - 1] == b.0);
            assert(false);
        }
        if b.1 < a.1 {
            assert(g.len() > f.len());
            lemma_expand_last(second_front);
            assert(second[second.len() - 2].0 != second[second.len() - 1].0);
            assert(second_front.last() == second[second.len() - 2]);
            assert((g + run(b.0, b.1))[g.len() - 1] == g.last());
            assert((f + run(a.0, a.1))[g.len() - 1] == a.0);
            assert(false);
        }
        assert(a == b);
        assert(f =~= g) by {
            assert(f.len() == g.len());
            assert forall|k: int| 0 <= k < f.len() implies f[k] == g[k] by {
                assert((f + run(a.0, a.1))[k] == f[k]);
                assert((g + run(b.0, b.1))[k] == g[k]);
            }
        }
        lemma_runs_unique(first_front, second_front);
        assert(first =~= first_front.push(a));
        assert(second =~= second_front.push(b));
    }
}

/// The runs as a file holds them: five bytes per run, the byte value and then
/// its count in four bytes, the least significant first.
pub fn write_compressed(compressed_bytes: &Vec<(u8, u32)>) -> (file: Vec<u8>)
    ensures
        file@ == table_bytes(compressed_bytes@),
{
    let mut file: Vec<u8> = Vec::new();
    let mut i: usize = 0;
    while i < compressed_bytes.len()
        invariant
            i <= compressed_bytes.len(),
            file@ == table_bytes(compressed_bytes@.take(i as int)),
        decreases compressed_bytes.len() - i,
    {
        let run: (u8, u32) = compressed_bytes[i];
        let count: u32 = run.1;
        file.push(run.0);
        file.push((count % 256) as u8);
        file.push(((count / 256) % 256) as u8);
        file.push(((count / 65536) % 256) as u8);
        file.push((count / 16777216) as u8);
        proof {
            let before = compressed_bytes@.take(i as int);
            let after = compressed_bytes@.take(i + 1);
            assert(run == after[i as int]);
            assert forall|k: int| 0 <= k < 5 * i implies table_byte(after, k) == table_byte(
                before,
                k,
            ) by {
                assert(after[k / 5] == before[k / 5]);
            }
            assert(file@ =~= table_bytes(after));
        }
        i += 1;
    }
    assert(compressed_bytes@.take(i as int) == compressed_bytes@);
    file
}

} // verus!

//! Counting how often each byte value occurs in an input.

use vstd::prelude::*;

verus! {

/// The number of positions of `s` that hold the byte `b`.
pub open spec fn count(s: Seq<u8>, b: u8) -> nat
    decreases s.len(),
{
    if s.len() == 0 {
        0
    } else {
        count(s.drop_last(), b) + if s.last() == b { 1nat } else { 0nat }
    }
}

/// The entries of the frequency table of `s` for the byte values below `n`:
/// one pair per byte value that occurs, in increasing order of byte value.
pub open spec fn table_below(s: Seq<u8>, n: int) -> Seq<(u8, u32)>
    decreases n,
{
    if n <= 0 {
        Seq::empty()
    } else if count(s, (n - 1) as u8) > 0 {
        table_below(s, n - 1).push(((n - 1) as u8, count(s, (n - 1) as u8) as u32))
    } else {
        table_below(s, n - 1)
    }
}

/// The frequency table of `s`: each byte value that occurs in `s`, paired with
/// the number of its occurrences, in increasing order of byte value.
pub open spec fn frequency_table(s: Seq<u8>) -> Seq<(u8, u32)> {
    table_below(s, 256)
}

/// A frequency table is well formed when its byte values strictly increase
/// from entry to entry: no byte value has two entries, and a mapping from
/// byte values to counts has exactly one such table.
pub open spec fn increasing(table: Seq<(u8, u32)>) -> bool {
    forall|i: int, j: int| 0 <= i < j < table.len() ==> table[i].0 < table[j].0
}

/// Whether `table` has an entry for the byte value `b`.
pub open spec fn has_entry(table: Seq<(u8, u32)>, b: u8) -> bool {
    exists|i: int| 0 <= i < table.len() && #[trigger] table[i].0 == b
}

/// Whether `table` has an entry for every byte of `s`.
pub open spec fn covers(table: Seq<(u8, u32)>, s: Seq<u8>) -> bool {
    forall|k: int| 0 <= k < s.len() ==> has_entry(table, #[trigger] s[k])
}

/// The sum of the counts of `table`.
pub open spec fn total(table: Seq<(u8, u32)>) -> nat
    decreases table.len(),
{
    if table.len() == 0 {
        0
    } else {
        total(table.drop_last()) + table.last().1 as nat
    }
}

/// Whether `table` is a frequency table of `s` for the byte values below `n`:
/// its byte values strictly increase and are below `n`, each entry holds the
/// number of occurrences of its byte value in `s`, which is not 0, and every
/// byte value below `n` that occurs in `s` has an entry.
pub open spec fn counts_below(table: Seq<(u8, u32)>, s: Seq<u8>, n: int) -> bool {
    &&& increasing(table)
    &&& forall|i: int|
        0 <= i < table.len() ==> {
            &&& (#[trigger] table[i]).0 < n
            &&& table[i].1 == count(s, table[i].0)
            &&& table[i].1 > 0
        }
    &&& forall|b: u8| b < n && count(s, b) > 0 ==> has_entry(table, b)
}

/// Whether `table` is a frequency table of `s`: its byte values strictly
/// increase, each entry holds the number of occurrences of its byte value in
/// `s`, which is not 0, and every byte value that occurs in `s` has an entry.
pub open spec fn counts_of(table: Seq<(u8, u32)>, s: Seq<u8>) -> bool {
    counts_below(table, s, 256)
}

/// The number of positions of `s` that hold a byte value below `n`.
pub open spec fn count_below(s: Seq<u8>, n: int) -> nat
    decreases n,
{
    if n <= 0 {
        0
    } else {
        count_below(s, n - 1) + count(s, (n - 1) as u8)
    }
}

/// Counts the occurrences of each byte value in `file_bytes`.
///
/// The counts are 32 bits wide, as they are in a compressed file's header, so
/// no byte value may occur more than `u32::MAX` times.
pub fn get_freq(file_bytes: &[u8]) -> (char_freq: Vec<(u8, u32)>)
    requires
        forall|b: u8| count(file_bytes@, b) <= u32::MAX,
    ensures
        char_freq@ == frequency_table(file_bytes@),
        counts_of(char_freq@, file_bytes@),
        covers(char_freq@, file_bytes@),
        total(char_freq@) == file_bytes@.len(),
        file_bytes@.len() == 0 ==> char_freq@.len() == 0,
{
    proof {
        lemma_frequency_table(file_bytes@);
    }
    let mut counts: Vec<u32> = Vec::new();
    let mut k: usize = 0;
    while k < 256
        invariant
            k <= 256,
            counts.len() == k,
            forall|j: int| 0 <= j < k ==> counts[j] == 0,
        decreases 256 - k,
    {
        counts.push(0);
        k += 1;
    }
    let mut i: usize = 0;
    while i < file_bytes.len()
        invariant
            i <= file_bytes.len(),
            counts.len() == 256,
            forall|b: u8| count(file_bytes@, b) <= u32::MAX,
            forall|b: u8| counts[b as int] == count(file_bytes@.take(i as int), b),
        decreases file_bytes.len() - i,
    {
        let byte: u8 = file_bytes[i];
        proof {
            assert(file_bytes@.take(i + 1).drop_last() == file_bytes@.take(i as int));
            lemma_count_take_le(file_bytes@, i + 1, byte);
        }
        let old_count: u32 = counts[byte as usize];
        counts.set(byte as usize, old_count + 1);
        i += 1;
    }
    assert(file_bytes@.take(i as int) == file_bytes@);
    let mut char_freq: Vec<(u8, u32)> = Vec::new();
    let mut n: usize = 0;
    while n < 256
        invariant
            n <= 256,
            counts.len() == 256,
            forall|b: u8| counts[b as int] == count(file_bytes@, b),
            char_freq@ == table_below(file_bytes@, n as int),
        decreases 256 - n,
    {
        if counts[n] > 0 {
            char_freq.push((n as u8, counts[n]));
        }
        n += 1;
    }
    char_freq
}

/// A prefix of `s` holds `b` no more often than `s` does.
pub proof fn lemma_count_take_le(s: Seq<u8>, n: int, b: u8)
    requires
        0 <= n <= s.len(),
    ensures
        count(s.take(n), b) <= count(s, b),
    decreases s.len() - n,
{
    if n < s.len() {
        assert(s.take(n + 1).drop_last() == s.take(n));
        lemma_count_take_le(s, n + 1, b);
    } else {
        assert(s.take(n) == s);
    }
}

/// No byte value occurs more often than the sequence is long.
pub proof fn lemma_count_le_len(s: Seq<u8>, b: u8)
    ensures
        count(s, b) <= s.len(),
    decreases s.len(),
{
    if s.len() > 0 {
        lemma_count_le_len(s.drop_last(), b);
    }
}

/// A byte that occurs in `s` is counted at least once.
pub proof fn lemma_count_positive(s: Seq<u8>, k: int)
    requires
        0 <= k < s.len(),
    ensures
        count(s, s[k]) > 0,
    decreases s.len(),
{
    if k < s.len() - 1 {
        lemma_count_positive(s.drop_last(), k);
    }
}

/// One more byte at the end of `s` is one more position below `n`, if the
/// byte is below `n`.
proof fn lemma_count_below_step(s: Seq<u8>, n: int)
    requires
        s.len() > 0,
        0 <= n <= 256,
    ensures
        count_below(s, n) == count_below(s.drop_last(), n) + if s.last() < n { 1nat } else { 0nat },
    decreases n,
{
    if n > 0 {
        lemma_count_below_step(s, n - 1);
    }
}

/// Every position of `s` holds a byte value below 256.
pub proof fn lemma_count_below_all(s: Seq<u8>)
    ensures
        count_below(s, 256) == s.len(),
    decreases s.len(),
{
    if s.len() > 0 {
        lemma_count_below_all(s.drop_last());
        lemma_count_below_step(s, 256);
    } else {
        lemma_count_below_empty(s, 256);
    }
}

/// The empty sequence has no position.
proof fn lemma_count_below_empty(s: Seq<u8>, n: int)
    requires
        s.len() == 0,
    ensures
        count_below(s, n) == 0,
    decreases n,
{
    if n > 0 {
        lemma_count_below_empty(s, n - 1);
    }
}

/// `table_below` is a frequency table for the byte values below `n`, and its
/// counts sum to the number of positions that hold those byte values.
pub proof fn lemma_table_below(s: Seq<u8>, n: int)
    requires
        0 <= n <= 256,
        forall|b: u8| count(s, b) <= u32::MAX,
    ensures
        counts_below(table_below(s, n), s, n),
        total(table_below(s, n)) == count_below(s, n),
    decreases n,
{
    if n > 0 {
        lemma_table_below(s, n - 1);
        let before = table_below(s, n - 1);
        let table = table_below(s, n);
        let byte = (n - 1) as u8;
        if count(s, byte) > 0 {
            assert(table.drop_last() == before);
            assert forall|i: int, j: int| 0 <= i < j < table.len() implies table[i].0
                < table[j].0 by {
                assert(table[i] == before[i]);
                if j < before.len() {
                    assert(table[j] == before[j]);
                }
            }
            assert forall|i: int| 0 <= i < table.len() implies {
                &&& (#[trigger] table[i]).0 < n
                &&& table[i].1 == count(s, table[i].0)
                &&& table[i].1 > 0
            } by {
                if i < before.len() {
                    assert(table[i] == before[i]);
                }
            }
            assert forall|b: u8| b < n && count(s, b) > 0 implies has_entry(table, b) by {
                if b < n - 1 {
                    assert(has_entry(before, b));
                    let i = choose|i: int| 0 <= i < before.len() && #[trigger] before[i].0 == b;
                    assert(table[i] == before[i]);
                    assert(table[i].0 == b);
                } else {
                    assert(table[table.len() - 1].0 == b);
                }
            }
        } else {
            assert forall|b: u8| b < n && count(s, b) > 0 implies has_entry(table, b) by {
                assert(b < n - 1);
                assert(has_entry(before, b));
            }
        }
    }
}

/// The frequency table of `s` is a frequency table of `s`: it has an entry for
/// every byte of `s`, and its counts sum to the length of `s`.
pub proof fn lemma_frequency_table(s: Seq<u8>)
    requires
        forall|b: u8| count(s, b) <= u32::MAX,
    ensures
        counts_of(frequency_table(s), s),
        increasing(frequency_table(s)),
        covers(frequency_table(s), s),
        total(frequency_table(s)) == s.len(),
        s.len() == 0 ==> frequency_table(s).len() == 0,
{
    if s.len() == 0 && frequency_table(s).len() > 0 {
        lemma_table_below(s, 256);
        assert(frequency_table(s)[0].1 > 0);
    }
    lemma_table_below(s, 256);
    lemma_count_below_all(s);
    let table = frequency_table(s);
    assert forall|k: int| 0 <= k < s.len() implies has_entry(table, #[trigger] s[k]) by {
        lemma_count_positive(s, k);
    }
}

/// A sequence of bytes has one frequency table for the byte values below `n`.
pub proof fn lemma_counts_below_unique(
    s: Seq<u8>,
    n: int,
    first: Seq<(u8, u32)>,
    second: Seq<(u8, u32)>,
)
    requires
        counts_below(first, s, n),
        counts_below(second, s, n),
    ensures
        first == second,
    decreases first.len(),
{
    if first.len() == 0 {
        if second.len() > 0 {
            assert(has_entry(first, second[0].0));
        }
        assert(first =~= second);
    } else {
        let a = first.last();
        assert(has_entry(second, a.0));
        let j = choose|j: int| 0 <= j < second.len() && #[trigger] second[j].0 == a.0;
        let b = second.last();
        assert(has_entry(first, b.0));
        let i = choose|i: int| 0 <= i < first.len() && #[trigger] first[i].0 == b.0;
        assert(a.0 == b.0);
        assert(a == b);
        let first_front = first.drop_last();
        let second_front = second.drop_last();
        lemma_counts_below_front(s, n, first);
        lemma_counts_below_front(s, n, second);
        lemma_counts_below_unique(s, a.0 as int, first_front, second_front);
        assert(first =~= first_front.push(a));
        assert(second =~= second_front.push(b));
    }
}

/// Without its last entry, a frequency table for the byte values below `n` is
/// one for the byte values below that of the entry.
proof fn lemma_counts_below_front(s: Seq<u8>, n: int, table: Seq<(u8, u32)>)
    requires
        counts_below(table, s, n),
        table.len() > 0,
    ensures
        counts_below(table.drop_last(), s, table.last().0 as int),
{
    let front = table.drop_last();
    let top = table.last().0;
    assert forall|i: int, j: int| 0 <= i < j < front.len() implies front[i].0 < front[j].0 by {
        assert(front[i] == table[i] && front[j] == table[j]);
    }
    assert forall|i: int| 0 <= i < front.len() implies {
        &&& (#[trigger] front[i]).0 < top
        &&& front[i].1 == count(s, front[i].0)
        &&& front[i].1 > 0
    } by {
        assert(front[i] == table[i]);
    }
    assert forall|b: u8| b < top && count(s, b) > 0 implies has_entry(front, b) by {
        assert(has_entry(table, b));
        let i = choose|i: int| 0 <= i < table.len() && #[trigger] table[i].0 == b;
        assert(front[i].0 == b);
    }
}

/// Counting is a function of the input: two frequency tables of one sequence of
/// bytes are the same table.
pub proof fn lemma_counts_unique(s: Seq<u8>, first: Seq<(u8, u32)>, second: Seq<(u8, u32)>)
    requires
        counts_of(first, s),
        counts_of(second, s),
    ensures
        first == second,
{
    lemma_counts_below_unique(s, 256, first, second);
}

/// Whether the byte values of `table` strictly increase from entry to entry.
pub fn is_increasing(table: &Vec<(u8, u32)>) -> (ok: bool)
    ensures
        ok == increasing(table@),
{
    let mut i: usize = 1;
    while i < table.len()
        invariant
            1 <= i,
            forall|a: int|
                0 < a < i && a < table.len() ==> table@[a - 1].0 < (#[trigger] table@[a]).0,
        decreases table.len() - i,
    {
        if table[i - 1].0 >= table[i].0 {
            return false;
        }
        i += 1;
    }
    proof {
        assert forall|a: int, b: int| 0 <= a < b < table.len() implies table@[a].0
            < table@[b].0 by {
            lemma_steps_increase(table@, a, b);
        }
    }
    true
}

/// A table in which every entry has a greater byte value than the entry before
/// it has strictly increasing byte values.
proof fn lemma_steps_increase(table: Seq<(u8, u32)>, a: int, b: int)
    requires
        forall|i: int| 0 < i < table.len() ==> table[i - 1].0 < (#[trigger] table[i]).0,
        0 <= a < b < table.len(),
    ensures
        table[a].0 < table[b].0,
    decreases b - a,
{
    if a + 1 < b {
        lemma_steps_increase(table, a, b - 1);
    }
}

/// The sum of the counts of a well-formed table.
pub fn total_of(table: &Vec<(u8, u32)>) -> (sum: u64)
    requires
        increasing(table@),
    ensures
        sum == total(table@),
{
    let mut sum: u64 = 0;
    let mut i: usize = 0;
    proof {
        lemma_increasing_len(table@);
    }
    while i < table.len()
        invariant
            i <= table.len() <= 256,
            sum == total(table@.take(i as int)),
            sum <= i * 0xffff_ffff,
        decreases table.len() - i,
    {
        proof {
            assert(table@.take(i + 1).drop_last() == table@.take(i as int));
        }
        sum = sum + table[i].1 as u64;
        i += 1;
    }
    assert(table@.take(i as int) == table@);
    sum
}

/// Whether `table` has an entry for every byte of `bytes`.
pub fn has_entries_for(table: &Vec<(u8, u32)>, bytes: &[u8]) -> (ok: bool)
    ensures
        ok == covers(table@, bytes@),
{
    let mut present: Vec<bool> = Vec::new();
    let mut n: usize = 0;
    while n < 256
        invariant
            n <= 256,
            present.len() == n,
            forall|b: int| 0 <= b < n ==> !present[b],
        decreases 256 - n,
    {
        present.push(false);
        n += 1;
    }
    let mut i: usize = 0;
    while i < table.len()
        invariant
            i <= table.len(),
            present.len() == 256,
            forall|b: u8| present[b as int] == has_entry(table@.take(i as int), b),
        decreases table.len() - i,
    {
        let ghost before = table@.take(i as int);
        let ghost after = table@.take(i + 1);
        let key: u8 = table[i].0;
        present.set(key as usize, true);
        proof {
            assert forall|b: u8| present[b as int] == has_entry(after, b) by {
                if has_entry(before, b) {
                    let k = choose|k: int| 0 <= k < before.len() && #[trigger] before[k].0 == b;
                    assert(after[k].0 == b);
                }
                if b == key {
                    assert(after[i as int].0 == b);
                }
                if has_entry(after, b) && b != key {
                    let k = choose|k: int| 0 <= k < after.len() && #[trigger] after[k].0 == b;
                    assert(before[k].0 == b);
                }
            }
        }
        i += 1;
    }
    assert(table@.take(i as int) == table@);
    let mut k: usize = 0;
    while k < bytes.len()
        invariant
            k <= bytes.len(),
            present.len() == 256,
            forall|b: u8| present[b as int] == has_entry(table@, b),
            forall|j: int| 0 <= j < k ==> has_entry(table@, #[trigger] bytes@[j]),
        decreases bytes.len() - k,
    {
        if !present[bytes[k] as usize] {
            return false;
        }
        k += 1;
    }
    true
}

/// A table whose byte values strictly increase has at most 256 entries.
pub proof fn lemma_increasing_len(table: Seq<(u8, u32)>)
    requires
        increasing(table),
    ensures
        table.len() <= 256,
        forall|i: int| 0 <= i < table.len() ==> (#[trigger] table[i]).0 >= i,
    decreases table.len(),
{
    if table.len() > 0 {
        let front = table.drop_last();
        assert(increasing(front)) by {
            assert forall|i: int, j: int| 0 <= i < j < front.len() implies front[i].0
                < front[j].0 by {
                assert(front[i] == table[i] && front[j] == table[j]);
            }
        }
        lemma_increasing_len(front);
        assert forall|i: int| 0 <= i < table.len() implies (#[trigger] table[i]).0 >= i by {
            if i < front.len() {
                assert(front[i] == table[i]);
            } else if i > 0 {
                assert(front[i - 1] == table[i - 1]);
            }
        }
        assert(table[table.len() - 1].0 >= table.len() - 1);
    }
}

/// The counts of a table sum to no more than its length allows.
pub proof fn lemma_total_bound(table: Seq<(u8, u32)>)
    ensures
        total(table) <= table.len() * 0xffff_ffff,
    decreases table.len(),
{
    if table.len() > 0 {
        lemma_total_bound(table.drop_last());
    }
}

} // verus!

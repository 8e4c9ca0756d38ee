//! Facts about sums over a buffer.

use crate::model::{total, Entry};
use crate::token::Measure;
use vstd::prelude::*;

verus! {

/// Appending an entry adds its share.
pub proof fn lemma_total_push(measure: Measure, buf: Seq<Entry>, entry: Entry)
    ensures
        total(measure, buf.push(entry)) == total(measure, buf) + entry.token.measure(measure),
{
    assert(buf.push(entry).drop_last() =~= buf);
}

/// Taking the newest entry away takes its share away.
pub proof fn lemma_total_drop_last(measure: Measure, buf: Seq<Entry>)
    requires
        buf.len() > 0,
    ensures
        total(measure, buf.drop_last()) == total(measure, buf) - buf.last().token.measure(measure),
{
}

/// Taking the oldest entry away takes its share away.
pub proof fn lemma_total_drop_first(measure: Measure, buf: Seq<Entry>)
    requires
        buf.len() > 0,
    ensures
        total(measure, buf.drop_first()) == total(measure, buf) - buf[0].token.measure(measure),
    decreases buf.len(),
{
    if buf.len() == 1 {
        assert(buf.drop_first() =~= Seq::<Entry>::empty());
        assert(buf.drop_last() =~= Seq::<Entry>::empty());
    } else {
        lemma_total_drop_first(measure, buf.drop_last());
        assert(buf.drop_last().drop_first() =~= buf.drop_first().drop_last());
    }
}

/// The sum over the first `k + 1` entries is the sum over the first `k`
/// and the share of the entry after them.
pub proof fn lemma_total_take_next(measure: Measure, buf: Seq<Entry>, k: int)
    requires
        0 <= k < buf.len(),
    ensures
        total(measure, buf.take(k + 1)) == total(measure, buf.take(k)) + buf[k].token.measure(
            measure,
        ),
{
    assert(buf.take(k + 1).drop_last() =~= buf.take(k));
}

/// The sum over all entries is the sum over the prefix that holds them all.
pub proof fn lemma_total_take_all(measure: Measure, buf: Seq<Entry>)
    ensures
        total(measure, buf.take(buf.len() as int)) == total(measure, buf),
{
    assert(buf.take(buf.len() as int) =~= buf);
}

/// Widths and reaches are not negative, so their sums over prefixes grow
/// with the prefix.
pub proof fn lemma_total_take_grows(measure: Measure, buf: Seq<Entry>, i: int, j: int)
    requires
        0 <= i <= j <= buf.len(),
        !(measure is Nesting),
    ensures
        0 <= total(measure, buf.take(i)) <= total(measure, buf.take(j)),
    decreases j,
{
    if j == 0 {
        assert(buf.take(0) =~= Seq::<Entry>::empty());
    } else if i == j {
        lemma_total_take_grows(measure, buf, 0, j - 1);
        lemma_total_take_next(measure, buf, j - 1);
    } else {
        lemma_total_take_grows(measure, buf, i, j - 1);
        lemma_total_take_next(measure, buf, j - 1);
    }
}

/// A sum of widths or of reaches is not negative, and no entry's share is
/// larger than the sum.
pub proof fn lemma_total_bounds(measure: Measure, buf: Seq<Entry>, k: int)
    requires
        0 <= k < buf.len(),
        !(measure is Nesting),
    ensures
        0 <= buf[k].token.measure(measure) <= total(measure, buf),
{
    lemma_total_take_grows(measure, buf, 0, k);
    lemma_total_take_next(measure, buf, k);
    lemma_total_take_grows(measure, buf, k + 1, buf.len() as int);
    lemma_total_take_all(measure, buf);
}

/// A sum of widths or of reaches is not negative.
pub proof fn lemma_total_nonnegative(measure: Measure, buf: Seq<Entry>)
    requires
        !(measure is Nesting),
    ensures
        0 <= total(measure, buf),
{
    lemma_total_take_grows(measure, buf, 0, buf.len() as int);
    lemma_total_take_all(measure, buf);
}

/// The sum over a prefix depends on the shares of its tokens alone.
pub proof fn lemma_total_take_same(measure: Measure, a: Seq<Entry>, b: Seq<Entry>, k: int)
    requires
        0 <= k <= a.len(),
        k <= b.len(),
        forall|i: int|
            0 <= i < k ==> (#[trigger] a[i]).token.measure(measure) == b[i].token.measure(measure),
    ensures
        total(measure, a.take(k)) == total(measure, b.take(k)),
    decreases k,
{
    if k == 0 {
        assert(a.take(0) =~= Seq::<Entry>::empty());
        assert(b.take(0) =~= Seq::<Entry>::empty());
    } else {
        lemma_total_take_same(measure, a, b, k - 1);
        lemma_total_take_next(measure, a, k - 1);
        lemma_total_take_next(measure, b, k - 1);
    }
}

/// The sum over a prefix of a buffer without its oldest entry.
pub proof fn lemma_total_take_shift(measure: Measure, buf: Seq<Entry>, k: int)
    requires
        0 <= k < buf.len(),
    ensures
        total(measure, buf.drop_first().take(k)) == total(measure, buf.take(k + 1))
            - buf[0].token.measure(measure),
{
    assert(buf.take(k + 1).drop_first() =~= buf.drop_first().take(k));
    lemma_total_drop_first(measure, buf.take(k + 1));
}

/// Two buffers whose tokens have the same shares have the same sums.
pub proof fn lemma_total_same(measure: Measure, a: Seq<Entry>, b: Seq<Entry>)
    requires
        a.len() == b.len(),
        forall|i: int|
            0 <= i < a.len() ==> (#[trigger] a[i]).token.measure(measure) == b[i].token.measure(
                measure,
            ),
    ensures
        total(measure, a) == total(measure, b),
{
    lemma_total_take_same(measure, a, b, a.len() as int);
    lemma_total_take_all(measure, a);
    lemma_total_take_all(measure, b);
}

} // verus!

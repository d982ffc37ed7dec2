//! Sums over the rows of a table: files, bytes and lines.

use vstd::prelude::*;
use crate::domain::{ExtensionContentInfo, ExtensionMetadata};

verus! {

/// The sum of a number that each value carries.
pub open spec fn total_of<V>(values: Seq<V>, weigh: spec_fn(V) -> usize) -> nat
    decreases values.len(),
{
    if values.len() == 0 {
        0
    } else {
        total_of(values.drop_last(), weigh) + weigh(values.last()) as nat
    }
}

/// The file count of a counter.
pub open spec fn by_files() -> spec_fn(ExtensionMetadata) -> usize {
    |m: ExtensionMetadata| m.files
}

/// The byte count of a counter.
pub open spec fn by_bytes() -> spec_fn(ExtensionMetadata) -> usize {
    |m: ExtensionMetadata| m.bytes
}

/// The line count of totals.
pub open spec fn by_lines() -> spec_fn(ExtensionContentInfo) -> usize {
    |c: ExtensionContentInfo| c.lines
}

/// The sum over the first few values is no more than the sum over all.
pub proof fn lemma_total_prefix<V>(values: Seq<V>, i: int, weigh: spec_fn(V) -> usize)
    requires
        0 <= i <= values.len(),
    ensures
        total_of(values.take(i), weigh) <= total_of(values, weigh),
    decreases values.len() - i,
{
    if i < values.len() {
        lemma_total_prefix(values, i + 1, weigh);
        assert(values.take(i + 1).drop_last() =~= values.take(i));
    } else {
        assert(values.take(i) =~= values);
    }
}

/// Replacing one value changes the sum by the difference of what the two
/// values carry, and no value carries more than the sum.
pub proof fn lemma_total_update<V>(values: Seq<V>, i: int, v: V, weigh: spec_fn(V) -> usize)
    requires
        0 <= i < values.len(),
    ensures
        total_of(values.update(i, v), weigh) == total_of(values, weigh) - weigh(values[i]) + weigh(
            v,
        ),
        weigh(values[i]) <= total_of(values, weigh),
    decreases values.len(),
{
    let updated = values.update(i, v);
    if i == values.len() - 1 {
        assert(updated.drop_last() =~= values.drop_last());
    } else {
        lemma_total_update(values.drop_last(), i, v, weigh);
        assert(updated.drop_last() =~= values.drop_last().update(i, v));
    }
}

/// Values that carry nothing sum to nothing.
pub proof fn lemma_total_zero<V>(values: Seq<V>, weigh: spec_fn(V) -> usize)
    requires
        forall|i: int| 0 <= i < values.len() ==> weigh(#[trigger] values[i]) == 0,
    ensures
        total_of(values, weigh) == 0,
    decreases values.len(),
{
    if values.len() > 0 {
        lemma_total_zero(values.drop_last(), weigh);
    }
}

} // verus!

//! What one line of a text contributes, and the fail-fast collection of
//! those contributions over all lines.

use vstd::prelude::*;
use crate::error::ErrorView;

verus! {

/// What one line contributes: nothing, an item, or a failure.
pub enum LineOutcome<T> {
    Skip,
    Item(T),
    Fail(ErrorView),
}

/// The items of `outs` in order, or the first failure among them.
pub open spec fn collect<T>(outs: Seq<LineOutcome<T>>) -> Result<Seq<T>, ErrorView>
    decreases outs.len(),
{
    if outs.len() == 0 {
        Ok(Seq::empty())
    } else {
        match collect(outs.drop_last()) {
            Err(e) => Err(e),
            Ok(items) => match outs.last() {
                LineOutcome::Skip => Ok(items),
                LineOutcome::Item(x) => Ok(items.push(x)),
                LineOutcome::Fail(e) => Err(e),
            },
        }
    }
}

/// A failure among the first `k` outcomes is the failure of all of them.
pub proof fn lemma_collect_prefix_failure<T>(outs: Seq<LineOutcome<T>>, k: int)
    requires
        0 <= k <= outs.len(),
        collect(outs.subrange(0, k)) is Err,
    ensures
        collect(outs) == collect(outs.subrange(0, k)),
    decreases outs.len(),
{
    if k == outs.len() {
        assert(outs.subrange(0, k) =~= outs);
    } else {
        assert(outs.drop_last().subrange(0, k) =~= outs.subrange(0, k));
        lemma_collect_prefix_failure(outs.drop_last(), k);
    }
}

/// A line that contributes nothing changes nothing, wherever it stands.
pub proof fn lemma_collect_skip<T>(outs: Seq<LineOutcome<T>>, i: int)
    requires
        0 <= i <= outs.len(),
    ensures
        collect(outs.insert(i, LineOutcome::Skip)) == collect(outs),
    decreases outs.len(),
{
    let ins = outs.insert(i, LineOutcome::Skip);
    if i == outs.len() {
        assert(ins.drop_last() =~= outs);
    } else {
        assert(ins.drop_last() =~= outs.drop_last().insert(i, LineOutcome::Skip));
        assert(ins.last() == outs.last());
        lemma_collect_skip(outs.drop_last(), i);
    }
}

/// Where no outcome before position `i` fails and the one at `i` does, its
/// failure is the failure of all of them.
pub proof fn lemma_collect_first_failure<T>(outs: Seq<LineOutcome<T>>, i: int)
    requires
        0 <= i < outs.len(),
        forall|j: int| 0 <= j < i ==> !(#[trigger] outs[j] is Fail),
        outs[i] is Fail,
    ensures
        collect(outs) == Err::<Seq<T>, _>(outs[i]->Fail_0),
{
    lemma_collect_no_failure(outs.subrange(0, i));
    assert(outs.subrange(0, i + 1).drop_last() =~= outs.subrange(0, i));
    lemma_collect_prefix_failure(outs, i + 1);
}

/// Outcomes none of which fails collect to their items.
proof fn lemma_collect_no_failure<T>(outs: Seq<LineOutcome<T>>)
    requires
        forall|j: int| 0 <= j < outs.len() ==> !(#[trigger] outs[j] is Fail),
    ensures
        collect(outs) is Ok,
    decreases outs.len(),
{
    if outs.len() > 0 {
        assert forall|j: int| 0 <= j < outs.drop_last().len() implies !(
        #[trigger] outs.drop_last()[j] is Fail) by {
            assert(outs.drop_last()[j] == outs[j]);
        }
        lemma_collect_no_failure(outs.drop_last());
    }
}

/// Outcomes that are all items collect to those items, in order.
pub proof fn lemma_collect_items<T>(outs: Seq<LineOutcome<T>>)
    requires
        forall|j: int| 0 <= j < outs.len() ==> #[trigger] outs[j] is Item,
    ensures
        collect(outs) == Ok::<_, ErrorView>(Seq::new(outs.len(), |j: int| outs[j]->Item_0)),
    decreases outs.len(),
{
    if outs.len() > 0 {
        let pre = outs.drop_last();
        assert forall|j: int| 0 <= j < pre.len() implies #[trigger] pre[j] is Item by {
            assert(pre[j] == outs[j]);
        }
        lemma_collect_items(pre);
        assert(Seq::new(pre.len(), |j: int| pre[j]->Item_0).push(outs.last()->Item_0) =~= Seq::new(
            outs.len(),
            |j: int| outs[j]->Item_0,
        ));
    } else {
        assert(Seq::new(0, |j: int| outs[j]->Item_0) =~= Seq::<T>::empty());
    }
}

} // verus!

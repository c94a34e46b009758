//! What holds of a whole run, proved from the parts: a worker that hands its
//! input back changes no record, whatever the batch size; and the order in
//! which the partial results arrive decides neither which records the merge
//! holds nor whether it warns.

use crate::accumulate::{accumulated, gathered, lemma_merged_records, mismatches, Warning};
use crate::batch::{batch_plan, lemma_batch_plan_is_batching};
use crate::dataset::{added, distinct_keys, records_of, DatasetModel, FilterModel, GroupModel};
use crate::pipeline::fragment_of;
use crate::split::{flattened, lemma_flattened_records};
use vstd::prelude::*;
use vstd::seq_lib::{lemma_multiset_commutative, to_multiset_remove};

verus! {

/// What workers hand back that print their input: for each batch, the
/// fragment that went out for it.
pub open spec fn echoes<R>(
    batches: Seq<GroupModel<R>>,
    provenance: Seq<FilterModel>,
    typ: Seq<char>,
) -> Seq<DatasetModel<R>> {
    batches.map_values(|batch: GroupModel<R>| fragment_of(batch, provenance, typ))
}

/// The outcome of a run over `dataset` with batches of up to `size` records
/// in which every worker hands its input back.
pub open spec fn echoed<R>(dataset: DatasetModel<R>, size: nat) -> DatasetModel<R> {
    accumulated(
        dataset,
        echoes(batch_plan(flattened(dataset.groups), size), dataset.provenance, dataset.typ),
    )
}

/// Two datasets disagree where their histories or their tags differ.
pub open spec fn disagree<R>(a: DatasetModel<R>, b: DatasetModel<R>) -> bool {
    a.provenance != b.provenance || a.typ != b.typ
}

/// Fragments handed back as they went out hold under each key what the
/// batches hold under it.
proof fn lemma_gathered_echoes<R>(
    batches: Seq<GroupModel<R>>,
    provenance: Seq<FilterModel>,
    typ: Seq<char>,
    key: Seq<char>,
)
    ensures
        gathered(echoes(batches, provenance, typ), key) == records_of(batches, key),
    decreases batches.len(),
{
    let partials = echoes(batches, provenance, typ);
    if batches.len() > 0 {
        lemma_gathered_echoes(batches.drop_last(), provenance, typ, key);
        assert(partials.drop_last() =~= echoes(batches.drop_last(), provenance, typ));
        let only = seq![batches.last()];
        assert(partials.last().groups == only);
        assert(only.drop_last() =~= Seq::<GroupModel<R>>::empty());
        assert(records_of(only.drop_last(), key) =~= Seq::<R>::empty());
        assert(records_of(only, key) =~= added(batches.last().key, batches.last().records, key));
        assert(gathered(partials, key) =~= records_of(batches, key));
    }
}

/// Fragments that went out under one history and tag give no warning.
proof fn lemma_echoes_agree<R>(
    batches: Seq<GroupModel<R>>,
    provenance: Seq<FilterModel>,
    typ: Seq<char>,
)
    ensures
        mismatches(echoes(batches, provenance, typ)) == Seq::<Warning>::empty(),
    decreases batches.len(),
{
    let partials = echoes(batches, provenance, typ);
    if batches.len() > 1 {
        lemma_echoes_agree(batches.drop_last(), provenance, typ);
        assert(partials.drop_last() =~= echoes(batches.drop_last(), provenance, typ));
    }
}

/// Round trip. Where every worker hands its input back, the run gives,
/// under each key, the records that the dataset held under it, in their
/// order; it keeps the dataset's history and tag; and it warns of nothing.
/// This holds for every batch size from 1 on, so also where one batch takes
/// all records.
pub proof fn lemma_round_trip<R>(dataset: DatasetModel<R>, size: nat)
    requires
        size >= 1,
    ensures
        forall|key: Seq<char>|
            #[trigger] records_of(echoed(dataset, size).groups, key) == records_of(
                dataset.groups,
                key,
            ),
        echoed(dataset, size).provenance == dataset.provenance,
        echoed(dataset, size).typ == dataset.typ,
        mismatches(
            echoes(batch_plan(flattened(dataset.groups), size), dataset.provenance, dataset.typ),
        ) == Seq::<Warning>::empty(),
{
    let tagged = flattened(dataset.groups);
    let batches = batch_plan(tagged, size);
    let partials = echoes(batches, dataset.provenance, dataset.typ);
    lemma_batch_plan_is_batching(tagged, size);
    lemma_echoes_agree(batches, dataset.provenance, dataset.typ);
    if batches.len() > 0 {
        lemma_merged_records(partials);
        assert forall|key: Seq<char>|
            records_of(echoed(dataset, size).groups, key) == records_of(dataset.groups, key) by {
            lemma_gathered_echoes(batches, dataset.provenance, dataset.typ, key);
            lemma_flattened_records(batches, key);
            lemma_flattened_records(dataset.groups, key);
        }
    }
}

/// Batch-size invariance. Where every worker hands its input back, two runs
/// with different batch sizes give the same records under every key.
pub proof fn lemma_batch_size_invariance<R>(dataset: DatasetModel<R>, one: nat, other: nat)
    requires
        one >= 1,
        other >= 1,
    ensures
        forall|key: Seq<char>|
            #[trigger] records_of(echoed(dataset, one).groups, key) == records_of(
                echoed(dataset, other).groups,
                key,
            ),
{
    lemma_round_trip(dataset, one);
    lemma_round_trip(dataset, other);
}

/// Empty dataset. A dataset without groups makes no batch, whatever the
/// batch size, and the merge of no partial result is the dataset itself.
pub proof fn lemma_empty_dataset<R>(dataset: DatasetModel<R>, size: nat)
    requires
        dataset.groups.len() == 0,
    ensures
        flattened(dataset.groups).len() == 0,
        batch_plan(flattened(dataset.groups), size).len() == 0,
        accumulated(dataset, Seq::empty()) == dataset,
{
}

/// The records under a key can be counted with any one dataset taken out
/// and counted apart.
proof fn lemma_gathered_without<R>(partials: Seq<DatasetModel<R>>, at: int, key: Seq<char>)
    requires
        0 <= at < partials.len(),
    ensures
        gathered(partials, key).to_multiset() == gathered(
            partials.remove(at),
            key,
        ).to_multiset().add(records_of(partials[at].groups, key).to_multiset()),
    decreases partials.len(),
{
    let front = partials.drop_last();
    let last = records_of(partials.last().groups, key);
    lemma_multiset_commutative(gathered(front, key), last);
    if at == partials.len() - 1 {
        assert(partials.remove(at) =~= front);
    } else {
        lemma_gathered_without(front, at, key);
        let rest = partials.remove(at);
        assert(rest.drop_last() =~= front.remove(at));
        assert(rest.last() == partials.last());
        lemma_multiset_commutative(gathered(front.remove(at), key), last);
        assert(gathered(partials, key).to_multiset() =~= gathered(rest, key).to_multiset().add(
            records_of(partials[at].groups, key).to_multiset(),
        ));
    }
}

/// The records under a key are the same, each as often, in whatever order
/// the datasets come.
proof fn lemma_gathered_any_order<R>(
    one: Seq<DatasetModel<R>>,
    other: Seq<DatasetModel<R>>,
    key: Seq<char>,
)
    requires
        one.to_multiset() == other.to_multiset(),
    ensures
        gathered(one, key).to_multiset() == gathered(other, key).to_multiset(),
    decreases one.len(),
{
    one.to_multiset_ensures();
    other.to_multiset_ensures();
    if one.len() == 0 {
        assert(other.len() == 0);
        assert(one =~= other);
    } else {
        let last = one.last();
        let front = one.drop_last();
        assert(one.contains(last));
        assert(one.to_multiset().count(last) > 0);
        assert(other.to_multiset().count(last) > 0);
        assert(other.contains(last));
        let at = choose|at: int| 0 <= at < other.len() && other[at] == last;
        let rest = other.remove(at);
        assert(front =~= one.remove(one.len() - 1));
        to_multiset_remove(one, one.len() - 1);
        to_multiset_remove(other, at);
        lemma_gathered_any_order(front, rest, key);
        lemma_gathered_without(one, one.len() - 1, key);
        lemma_gathered_without(other, at, key);
    }
}

/// A merge warns exactly where some partial result disagrees with the
/// first.
proof fn lemma_warned<R>(partials: Seq<DatasetModel<R>>)
    ensures
        mismatches(partials).len() > 0 <==> exists|i: int|
            0 <= i < partials.len() && disagree(partials[0], #[trigger] partials[i]),
    decreases partials.len(),
{
    if partials.len() > 1 {
        let front = partials.drop_last();
        lemma_warned(front);
        assert(front[0] == partials[0]);
        if mismatches(front).len() > 0 {
            let i = choose|i: int| 0 <= i < front.len() && disagree(front[0], #[trigger] front[i]);
            assert(disagree(partials[0], partials[i]));
        }
        if disagree(partials[0], partials.last()) {
            assert(disagree(partials[0], partials[partials.len() - 1]));
        }
        if exists|i: int| 0 <= i < partials.len() && disagree(partials[0], #[trigger] partials[i]) {
            let i = choose|i: int|
                0 <= i < partials.len() && disagree(partials[0], #[trigger] partials[i]);
            if i < front.len() {
                assert(disagree(front[0], front[i]));
            }
        }
    }
}

/// A merge warns exactly where two of the partial results disagree.
pub proof fn lemma_warns_iff_disagreement<R>(partials: Seq<DatasetModel<R>>)
    ensures
        mismatches(partials).len() > 0 <==> exists|i: int, j: int|
            0 <= i < partials.len() && 0 <= j < partials.len() && disagree(
                #[trigger] partials[i],
                #[trigger] partials[j],
            ),
{
    lemma_warned(partials);
    if exists|i: int, j: int|
        0 <= i < partials.len() && 0 <= j < partials.len() && disagree(
            #[trigger] partials[i],
            #[trigger] partials[j],
        ) {
        let (i, j) = choose|i: int, j: int|
            0 <= i < partials.len() && 0 <= j < partials.len() && disagree(
                #[trigger] partials[i],
                #[trigger] partials[j],
            );
        assert(disagree(partials[0], partials[i]) || disagree(partials[0], partials[j]));
    }
    if mismatches(partials).len() > 0 {
        let i = choose|i: int|
            0 <= i < partials.len() && disagree(partials[0], #[trigger] partials[i]);
        assert(disagree(partials[0], partials[i]));
    }
}

/// Arrival order. Two lists of the same partial results, in any two
/// orders, merge into datasets that hold the same records under every key,
/// each as often as the other; and one merge warns exactly if the other
/// does.
pub proof fn lemma_merge_any_order<R>(
    input: DatasetModel<R>,
    one: Seq<DatasetModel<R>>,
    other: Seq<DatasetModel<R>>,
)
    requires
        one.to_multiset() == other.to_multiset(),
        forall|i: int| 0 <= i < one.len() ==> distinct_keys(#[trigger] one[i].groups),
    ensures
        forall|key: Seq<char>|
            #[trigger] records_of(accumulated(input, one).groups, key).to_multiset()
                == records_of(accumulated(input, other).groups, key).to_multiset(),
        mismatches(one).len() > 0 <==> mismatches(other).len() > 0,
{
    one.to_multiset_ensures();
    other.to_multiset_ensures();
    assert(one.len() == other.len());
    if one.len() > 0 {
        assert(other.contains(other[0]));
        assert(other.to_multiset().count(other[0]) > 0);
        assert(one.to_multiset().count(other[0]) > 0);
        assert(one.contains(other[0]));
        let first = choose|i: int| 0 <= i < one.len() && one[i] == other[0];
        assert(distinct_keys(one[first].groups));
        lemma_merged_records(one);
        lemma_merged_records(other);
        assert forall|key: Seq<char>|
            #[trigger] records_of(accumulated(input, one).groups, key).to_multiset()
                == records_of(accumulated(input, other).groups, key).to_multiset() by {
            lemma_gathered_any_order(one, other, key);
        }
    }
    lemma_warns_iff_disagreement(one);
    lemma_warns_iff_disagreement(other);
    if mismatches(one).len() > 0 {
        let (i, j) = choose|i: int, j: int|
            0 <= i < one.len() && 0 <= j < one.len() && disagree(
                #[trigger] one[i],
                #[trigger] one[j],
            );
        assert(one.contains(one[i]) && one.contains(one[j]));
        assert(one.to_multiset().count(one[i]) > 0 && one.to_multiset().count(one[j]) > 0);
        assert(other.to_multiset().count(one[i]) > 0 && other.to_multiset().count(one[j]) > 0);
        assert(other.contains(one[i]) && other.contains(one[j]));
        let a = choose|a: int| 0 <= a < other.len() && other[a] == one[i];
        let b = choose|b: int| 0 <= b < other.len() && other[b] == one[j];
        assert(disagree(other[a], other[b]));
    }
    if mismatches(other).len() > 0 {
        let (i, j) = choose|i: int, j: int|
            0 <= i < other.len() && 0 <= j < other.len() && disagree(
                #[trigger] other[i],
                #[trigger] other[j],
            );
        assert(other.contains(other[i]) && other.contains(other[j]));
        assert(other.to_multiset().count(other[i]) > 0 && other.to_multiset().count(other[j]) > 0);
        assert(one.to_multiset().count(other[i]) > 0 && one.to_multiset().count(other[j]) > 0);
        assert(one.contains(other[i]) && one.contains(other[j]));
        let a = choose|a: int| 0 <= a < one.len() && one[a] == other[i];
        let b = choose|b: int| 0 <= b < one.len() && one[b] == other[j];
        assert(disagree(one[a], one[b]));
    }
}

} // verus!

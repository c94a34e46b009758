//! The accumulator: the partial results of all workers merged into one
//! dataset, with a warning for each disagreement over history or tag.

use crate::dataset::{
    added, distinct_keys, extended, group_models, lemma_position, position, records_of, Dataset,
    DatasetModel, Group, GroupModel, Provenance,
};
use vstd::prelude::*;

verus! {

/// What two partial results can disagree on without stopping the merge.
#[derive(Debug, Clone, Copy, PartialEq, Eq, Structural)]
pub enum Mismatch {
    Provenance,
    Type,
}

/// A disagreement between the first partial result and a later one.
#[derive(Debug, Clone, Copy, PartialEq, Eq, Structural)]
pub struct Warning {
    /// The place of the later partial result among those handed in.
    pub partial: usize,
    pub mismatch: Mismatch,
}

impl Warning {
    /// The line that tells a person of the disagreement.
    pub open spec fn text(self) -> Seq<char> {
        match self.mismatch {
            Mismatch::Provenance => "warning: provenance mismatch within datasets"@,
            Mismatch::Type => "warning: type mismatch within datasets"@,
        }
    }

    /// The line that tells a person of the disagreement.
    pub fn message(&self) -> (line: String)
        ensures
            line@ == self.text(),
    {
        match self.mismatch {
            Mismatch::Provenance => "warning: provenance mismatch within datasets".to_owned(),
            Mismatch::Type => "warning: type mismatch within datasets".to_owned(),
        }
    }
}

/// A merged dataset and the warnings that its merge gave rise to.
#[derive(Debug, PartialEq, Eq)]
pub struct Accumulated<R> {
    pub dataset: Dataset<R>,
    pub warnings: Vec<Warning>,
}

/// What a list of datasets holds, dataset by dataset.
pub open spec fn dataset_models<R>(datasets: Seq<Dataset<R>>) -> Seq<DatasetModel<R>> {
    datasets.map_values(|d: Dataset<R>| d@)
}

/// `groups` after each group of `incoming`, in order, is filed into it.
pub open spec fn absorbed<R>(groups: Seq<GroupModel<R>>, incoming: Seq<GroupModel<R>>) -> Seq<
    GroupModel<R>,
>
    decreases incoming.len(),
{
    if incoming.len() == 0 {
        groups
    } else {
        extended(
            absorbed(groups, incoming.drop_last()),
            incoming.last().key,
            incoming.last().records,
        )
    }
}

/// The groups of the first partial result after those of every later one,
/// in order, are filed into them.
pub open spec fn merged_groups<R>(partials: Seq<DatasetModel<R>>) -> Seq<GroupModel<R>>
    decreases partials.len(),
{
    if partials.len() == 0 {
        Seq::empty()
    } else if partials.len() == 1 {
        partials[0].groups
    } else {
        absorbed(merged_groups(partials.drop_last()), partials.last().groups)
    }
}

/// The outcome of a merge: the input where there is no partial result;
/// else the merged groups under the history and tag of the first partial
/// result.
pub open spec fn accumulated<R>(
    input: DatasetModel<R>,
    partials: Seq<DatasetModel<R>>,
) -> DatasetModel<R> {
    if partials.len() == 0 {
        input
    } else {
        DatasetModel {
            groups: merged_groups(partials),
            provenance: partials[0].provenance,
            typ: partials[0].typ,
        }
    }
}

/// The warnings that one later partial result gives rise to: one where its
/// history differs from the first one's, then one where its tag does.
pub open spec fn disagreements<R>(
    first: DatasetModel<R>,
    later: DatasetModel<R>,
    at: usize,
) -> Seq<Warning> {
    let history: Seq<Warning> = if later.provenance != first.provenance {
        seq![Warning { partial: at, mismatch: Mismatch::Provenance }]
    } else {
        Seq::empty()
    };
    let tag: Seq<Warning> = if later.typ != first.typ {
        seq![Warning { partial: at, mismatch: Mismatch::Type }]
    } else {
        Seq::empty()
    };
    history + tag
}

/// The warnings of a merge: those of each partial result after the first,
/// in the order of the partial results.
pub open spec fn mismatches<R>(partials: Seq<DatasetModel<R>>) -> Seq<Warning>
    decreases partials.len(),
{
    if partials.len() <= 1 {
        Seq::empty()
    } else {
        mismatches(partials.drop_last()) + disagreements(
            partials[0],
            partials.last(),
            (partials.len() - 1) as usize,
        )
    }
}

/// Where the one group with a key grows at its end, that key's records grow
/// by as much, and no other key's records change.
proof fn lemma_grown<R>(groups: Seq<GroupModel<R>>, at: int, extra: Seq<R>, other: Seq<char>)
    requires
        distinct_keys(groups),
        0 <= at < groups.len(),
    ensures
        records_of(
            groups.update(
                at,
                GroupModel { key: groups[at].key, records: groups[at].records + extra },
            ),
            other,
        ) == records_of(groups, other) + added(groups[at].key, extra, other),
    decreases groups.len(),
{
    let grown = GroupModel { key: groups[at].key, records: groups[at].records + extra };
    let after = groups.update(at, grown);
    let front = groups.drop_last();
    if at == groups.len() - 1 {
        assert(after.drop_last() =~= front);
    } else {
        lemma_grown(front, at, extra, other);
        assert(after.drop_last() =~= front.update(at, grown));
    }
}

/// Filing records under a key keeps the keys unique and puts the records
/// after those that the key had; no other key's records change.
pub proof fn lemma_extended<R>(groups: Seq<GroupModel<R>>, key: Seq<char>, records: Seq<R>)
    requires
        distinct_keys(groups),
    ensures
        distinct_keys(extended(groups, key, records)),
        forall|other: Seq<char>|
            #[trigger] records_of(extended(groups, key, records), other) == records_of(
                groups,
                other,
            ) + added(key, records, other),
{
    lemma_position(groups, key);
    let at = position(groups, key);
    let after = extended(groups, key, records);
    if at < groups.len() {
        assert forall|other: Seq<char>|
            records_of(after, other) == records_of(groups, other) + added(
                key,
                records,
                other,
            ) by {
            lemma_grown(groups, at, records, other);
        }
    } else {
        assert(after.drop_last() =~= groups);
    }
}

/// Filing a list of groups keeps the keys unique and adds, under each key,
/// the records that the list holds for it, in the list's order.
pub proof fn lemma_absorbed<R>(groups: Seq<GroupModel<R>>, incoming: Seq<GroupModel<R>>)
    requires
        distinct_keys(groups),
    ensures
        distinct_keys(absorbed(groups, incoming)),
        forall|key: Seq<char>|
            #[trigger] records_of(absorbed(groups, incoming), key) == records_of(groups, key)
                + records_of(incoming, key),
    decreases incoming.len(),
{
    if incoming.len() > 0 {
        let front = incoming.drop_last();
        let last = incoming.last();
        lemma_absorbed(groups, front);
        lemma_extended(absorbed(groups, front), last.key, last.records);
    }
}

/// The records that a list of datasets holds under `key`: those of the
/// first dataset, then those of the second, and so on.
pub open spec fn gathered<R>(partials: Seq<DatasetModel<R>>, key: Seq<char>) -> Seq<R>
    decreases partials.len(),
{
    if partials.len() == 0 {
        Seq::empty()
    } else {
        gathered(partials.drop_last(), key) + records_of(partials.last().groups, key)
    }
}

/// A merge holds under each key the records of the first partial result,
/// then those of the second, and so on; and its keys are unique.
pub proof fn lemma_merged_records<R>(partials: Seq<DatasetModel<R>>)
    requires
        partials.len() >= 1,
        distinct_keys(partials[0].groups),
    ensures
        distinct_keys(merged_groups(partials)),
        forall|key: Seq<char>|
            #[trigger] records_of(merged_groups(partials), key) == gathered(partials, key),
    decreases partials.len(),
{
    if partials.len() == 1 {
        assert forall|key: Seq<char>|
            records_of(merged_groups(partials), key) == gathered(partials, key) by {
            assert(gathered(partials.drop_last(), key) =~= Seq::<R>::empty());
        }
    } else {
        let front = partials.drop_last();
        lemma_merged_records(front);
        lemma_absorbed(merged_groups(front), partials.last().groups);
    }
}

impl<R> Dataset<R> {
    /// Files every group of `partial` into this dataset and hands back the
    /// history and tag that `partial` carried.
    fn absorb(&mut self, partial: Dataset<R>) -> (carried: (Provenance, String))
        ensures
            final(self)@ == (DatasetModel {
                groups: absorbed(old(self)@.groups, partial@.groups),
                ..old(self)@
            }),
            carried.0@ == partial@.provenance,
            carried.1@ == partial@.typ,
    {
        let ghost base = self@;
        let ghost incoming = partial@.groups;
        let (groups, provenance, typ) = partial.into_parts();
        let ghost held = groups@;
        for group in walk: groups
            invariant
                walk.seq() == held,
                incoming == group_models(held),
                self@ == (DatasetModel {
                    groups: absorbed(base.groups, incoming.take(walk.index())),
                    ..base
                }),
        {
            let ghost at = walk.index();
            assert(incoming.take(at + 1).drop_last() =~= incoming.take(at));
            let Group { key, records } = group;
            self.extend_group(key, records);
        }
        assert(incoming.take(incoming.len() as int) =~= incoming);
        (provenance, typ)
    }

    /// Merges the partial results of the workers into one dataset.
    ///
    /// With no partial result, the merge is this dataset, unchanged. With
    /// one, it is that partial result, unchanged. With more, the first is the
    /// base: under each key of each later partial result, in order, the
    /// records are put after those that the base has for the key, a key that
    /// is new to the base coming last. The base keeps its history and tag;
    /// where a later partial result has another history or another tag, a
    /// warning says so and the merge goes on. No record is dropped and none
    /// is compared with another.
    pub fn accumulate(self, results: Vec<Dataset<R>>) -> (merged: Accumulated<R>)
        ensures
            merged.dataset@ == accumulated(self@, dataset_models(results@)),
            merged.warnings@ == mismatches(dataset_models(results@)),
            results.len() == 0 ==> merged.dataset@ == self@ && merged.warnings@.len() == 0,
            results.len() == 1 ==> merged.dataset@ == results[0]@ && merged.warnings@.len() == 0,
            results.len() >= 1 ==> forall|key: Seq<char>|
                #[trigger] records_of(merged.dataset@.groups, key) == gathered(
                    dataset_models(results@),
                    key,
                ),
    {
        let ghost partials = dataset_models(results@);
        let mut warnings: Vec<Warning> = Vec::new();
        if results.len() == 0 {
            return Accumulated { dataset: self, warnings };
        }
        let mut results = results;
        let ghost all = results@;
        let mut base = results.remove(0);
        let ghost first = base@;
        let ghost rest = results@;
        proof {
            use_type_invariant(&base);
            lemma_merged_records(partials);
        }
        let mut place: usize = 0;
        for partial in walk: results
            invariant
                walk.seq() == rest,
                rest.len() <= usize::MAX,
                rest == all.remove(0),
                place == walk.index(),
                all.len() >= 1,
                partials == dataset_models(all),
                first == partials[0],
                base@ == (DatasetModel {
                    groups: merged_groups(partials.take(walk.index() + 1)),
                    ..first
                }),
                warnings@ == mismatches(partials.take(walk.index() + 1)),
        {
            let ghost at = walk.index();
            let ghost upto = partials.take(at + 2);
            assert(upto.drop_last() =~= partials.take(at + 1));
            let (provenance, typ) = base.absorb(partial);
            place += 1;
            if !base.provenance().matches(&provenance) {
                warnings.push(Warning { partial: place, mismatch: Mismatch::Provenance });
            }
            if *base.typ() != typ {
                warnings.push(Warning { partial: place, mismatch: Mismatch::Type });
            }
        }
        assert(partials.take(partials.len() as int) =~= partials);
        Accumulated { dataset: base, warnings }
    }
}

} // verus!

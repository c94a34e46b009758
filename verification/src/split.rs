//! The group splitter: a dataset laid out as one flat run of records, each
//! tagged with the key of its group.

use crate::dataset::{added, group_models, records_of, Dataset, Group, GroupModel};
use vstd::prelude::*;

verus! {

/// A record with the key of the group it belongs to.
#[derive(Debug, Clone, PartialEq, Eq)]
pub struct Tagged<R> {
    pub key: String,
    pub record: R,
}

/// What a [`Tagged`] record holds.
#[verifier::ext_equal]
pub struct TaggedModel<R> {
    pub key: Seq<char>,
    pub record: R,
}

impl<R> View for Tagged<R> {
    type V = TaggedModel<R>;

    open spec fn view(&self) -> TaggedModel<R> {
        TaggedModel { key: self.key@, record: self.record }
    }
}

/// What a list of tagged records holds, item by item.
pub open spec fn tagged_models<R>(items: Seq<Tagged<R>>) -> Seq<TaggedModel<R>> {
    items.map_values(|t: Tagged<R>| t@)
}

/// Each of `records`, in order, tagged with `key`.
pub open spec fn tag_all<R>(key: Seq<char>, records: Seq<R>) -> Seq<TaggedModel<R>> {
    records.map_values(|record: R| TaggedModel { key, record })
}

/// The records of all groups as one run: group after group, and inside a
/// group in the group's order, each record with its group's key.
pub open spec fn flattened<R>(groups: Seq<GroupModel<R>>) -> Seq<TaggedModel<R>>
    decreases groups.len(),
{
    if groups.len() == 0 {
        Seq::empty()
    } else {
        flattened(groups.drop_last()) + tag_all(groups.last().key, groups.last().records)
    }
}

/// The records that carry `key` in a run of tagged records, in order.
pub open spec fn tagged_under<R>(tagged: Seq<TaggedModel<R>>, key: Seq<char>) -> Seq<R>
    decreases tagged.len(),
{
    if tagged.len() == 0 {
        Seq::empty()
    } else if tagged.last().key == key {
        tagged_under(tagged.drop_last(), key).push(tagged.last().record)
    } else {
        tagged_under(tagged.drop_last(), key)
    }
}

/// The records under a key in two runs laid end to end are those of the
/// first run, then those of the second.
proof fn lemma_tagged_under_concat<R>(
    a: Seq<TaggedModel<R>>,
    b: Seq<TaggedModel<R>>,
    key: Seq<char>,
)
    ensures
        tagged_under(a + b, key) == tagged_under(a, key) + tagged_under(b, key),
    decreases b.len(),
{
    if b.len() > 0 {
        lemma_tagged_under_concat(a, b.drop_last(), key);
        assert((a + b).drop_last() =~= a + b.drop_last());
    }
}

/// Records that were all tagged with one key are found under that key, and
/// under no other.
proof fn lemma_tagged_under_tag_all<R>(under: Seq<char>, records: Seq<R>, key: Seq<char>)
    ensures
        tagged_under(tag_all(under, records), key) == added(under, records, key),
    decreases records.len(),
{
    if records.len() > 0 {
        lemma_tagged_under_tag_all(under, records.drop_last(), key);
        assert(tag_all(under, records).drop_last() =~= tag_all(under, records.drop_last()));
    }
}

/// Laid out as one run, a list of groups holds under each key the records
/// that its groups hold under it.
pub proof fn lemma_flattened_records<R>(groups: Seq<GroupModel<R>>, key: Seq<char>)
    ensures
        tagged_under(flattened(groups), key) == records_of(groups, key),
    decreases groups.len(),
{
    if groups.len() > 0 {
        let last = groups.last();
        lemma_flattened_records(groups.drop_last(), key);
        lemma_tagged_under_concat(
            flattened(groups.drop_last()),
            tag_all(last.key, last.records),
            key,
        );
        lemma_tagged_under_tag_all(last.key, last.records, key);
    }
}

impl<R> Dataset<R> {
    /// Takes the dataset apart into its records, each tagged with the key of
    /// its group. Every record comes out once: group after group in the
    /// dataset's order, and under each key the records that the dataset
    /// holds under it, in their order. A dataset without records gives an
    /// empty run.
    pub fn split(self) -> (tagged: Vec<Tagged<R>>)
        ensures
            tagged_models(tagged@) == flattened(self@.groups),
            forall|key: Seq<char>|
                #[trigger] tagged_under(tagged_models(tagged@), key) == records_of(
                    self@.groups,
                    key,
                ),
    {
        let ghost model = self@.groups;
        proof {
            assert forall|key: Seq<char>|
                #[trigger] tagged_under(flattened(model), key) == records_of(model, key) by {
                lemma_flattened_records(model, key);
            }
        }
        let (groups, _, _) = self.into_parts();
        let ghost held = groups@;
        let mut tagged: Vec<Tagged<R>> = Vec::new();
        for group in walk: groups
            invariant
                walk.seq() == held,
                model == group_models(held),
                tagged_models(tagged@) == flattened(model.take(walk.index())),
        {
            let ghost at = walk.index();
            let ghost before = tagged_models(tagged@);
            let Group { key, records } = group;
            let ghost listed = records@;
            for record in inner: records
                invariant
                    inner.seq() == listed,
                    tagged_models(tagged@) == before + tag_all(key@, listed.take(inner.index())),
            {
                let ghost earlier = tagged@;
                let item = Tagged { key: key.clone(), record };
                tagged.push(item);
                assert(tagged_models(tagged@) =~= tagged_models(earlier).push(item@));
            }
            assert(model.take(at + 1).drop_last() =~= model.take(at));
        }
        assert(model.take(model.len() as int) =~= model);
        tagged
    }
}

} // verus!

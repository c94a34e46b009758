//! The batch builder: a run of tagged records cut into batches, the units of
//! work that one worker takes.

use crate::dataset::{group_models, Group, GroupModel};
use crate::error::{FailureModel, FilterError};
use crate::split::{flattened, tag_all, tagged_models, Tagged, TaggedModel};
use vstd::prelude::*;

verus! {

/// A batch is a key with some of the records of that key's group, in the
/// group's order.
pub type Batch<R> = Group<R>;

/// The batches after one more record: it joins the last batch where that
/// batch has the record's key and has room, and opens a new batch otherwise.
pub open spec fn placed<R>(batches: Seq<GroupModel<R>>, item: TaggedModel<R>, size: nat) -> Seq<
    GroupModel<R>,
> {
    if batches.len() > 0 && batches.last().key == item.key && batches.last().records.len() < size {
        batches.update(
            batches.len() - 1,
            GroupModel { key: item.key, records: batches.last().records.push(item.record) },
        )
    } else {
        batches.push(GroupModel { key: item.key, records: seq![item.record] })
    }
}

/// The batches that a run of tagged records is cut into: each batch as long
/// as the records go on under one key and the batch holds fewer than `size`.
pub open spec fn batch_plan<R>(tagged: Seq<TaggedModel<R>>, size: nat) -> Seq<GroupModel<R>>
    decreases tagged.len(),
{
    if tagged.len() == 0 {
        Seq::empty()
    } else {
        placed(batch_plan(tagged.drop_last(), size), tagged.last(), size)
    }
}

/// `batches` cut `tagged` into consecutive pieces: laid end to end they are
/// `tagged`; none is empty or longer than `size`; and a batch is followed by
/// another only where it is full or the key changes.
pub open spec fn is_batching<R>(
    tagged: Seq<TaggedModel<R>>,
    size: nat,
    batches: Seq<GroupModel<R>>,
) -> bool {
    &&& flattened(batches) == tagged
    &&& forall|i: int| 0 <= i < batches.len() ==> 1 <= (#[trigger] batches[i]).records.len() <= size
    &&& forall|i: int|
        0 <= i < batches.len() - 1 ==> (#[trigger] batches[i]).records.len() == size
            || batches[i].key != batches[i + 1].key
}

/// Laying groups end to end goes group by group.
pub proof fn lemma_flattened_push<R>(groups: Seq<GroupModel<R>>, last: GroupModel<R>)
    ensures
        flattened(groups.push(last)) == flattened(groups) + tag_all(last.key, last.records),
{
    assert(groups.push(last).drop_last() =~= groups);
}

/// The plan is a batching of the records it was made from.
pub proof fn lemma_batch_plan_is_batching<R>(tagged: Seq<TaggedModel<R>>, size: nat)
    requires
        size >= 1,
    ensures
        is_batching(tagged, size, batch_plan(tagged, size)),
    decreases tagged.len(),
{
    if tagged.len() > 0 {
        let before = tagged.drop_last();
        let item = tagged.last();
        let earlier = batch_plan(before, size);
        let now = batch_plan(tagged, size);
        lemma_batch_plan_is_batching(before, size);
        assert(tagged =~= before.push(item));
        if earlier.len() > 0 && earlier.last().key == item.key && earlier.last().records.len()
            < size {
            let head = earlier.drop_last();
            let grown = GroupModel {
                key: item.key,
                records: earlier.last().records.push(item.record),
            };
            assert(now =~= head.push(grown));
            assert(earlier =~= head.push(earlier.last()));
            lemma_flattened_push(head, grown);
            lemma_flattened_push(head, earlier.last());
            assert(flattened(now) =~= tagged);
        } else {
            let opened = GroupModel { key: item.key, records: seq![item.record] };
            assert(now =~= earlier.push(opened));
            lemma_flattened_push(earlier, opened);
            assert(flattened(now) =~= tagged);
        }
    } else {
        assert(flattened(batch_plan(tagged, size)) =~= tagged);
    }
}

/// Laid end to end, a list of groups starts with the records of its first
/// group.
proof fn lemma_flattened_first<R>(groups: Seq<GroupModel<R>>)
    requires
        groups.len() > 0,
    ensures
        flattened(groups) == tag_all(groups[0].key, groups[0].records) + flattened(groups.skip(1)),
    decreases groups.len(),
{
    if groups.len() == 1 {
        assert(groups.drop_last() =~= Seq::<GroupModel<R>>::empty());
        assert(groups.skip(1) =~= Seq::<GroupModel<R>>::empty());
    } else {
        let front = groups.drop_last();
        lemma_flattened_first(front);
        assert(front.skip(1) =~= groups.skip(1).drop_last());
    }
}

/// Without its first batch, a batching cuts the records that follow that
/// batch.
proof fn lemma_batching_rest<R>(tagged: Seq<TaggedModel<R>>, size: nat, batches: Seq<GroupModel<R>>)
    requires
        is_batching(tagged, size, batches),
        batches.len() > 0,
    ensures
        batches[0].records.len() <= tagged.len(),
        tagged.take(batches[0].records.len() as int) == tag_all(
            batches[0].key,
            batches[0].records,
        ),
        is_batching(tagged.skip(batches[0].records.len() as int), size, batches.skip(1)),
{
    let first = tag_all(batches[0].key, batches[0].records);
    let rest = batches.skip(1);
    lemma_flattened_first(batches);
    assert(tagged.skip(first.len() as int) =~= flattened(rest));
}

/// There is one way only to cut a run of records into batches: two
/// batchings of the same records with the same size are the same.
pub proof fn lemma_batching_is_unique<R>(
    tagged: Seq<TaggedModel<R>>,
    size: nat,
    one: Seq<GroupModel<R>>,
    other: Seq<GroupModel<R>>,
)
    requires
        is_batching(tagged, size, one),
        is_batching(tagged, size, other),
    ensures
        one == other,
    decreases tagged.len(),
{
    if one.len() == 0 || other.len() == 0 {
        if one.len() > 0 {
            lemma_batching_rest(tagged, size, one);
            assert(one[0].records.len() >= 1);
        }
        if other.len() > 0 {
            lemma_batching_rest(tagged, size, other);
            assert(other[0].records.len() >= 1);
        }
        assert(one =~= other);
    } else {
        lemma_batching_rest(tagged, size, one);
        lemma_batching_rest(tagged, size, other);
        let a = one[0];
        let b = other[0];
        let an = a.records.len() as int;
        let bn = b.records.len() as int;
        assert(an >= 1 && bn >= 1);
        assert(tagged.take(an)[0] == tagged[0]);
        assert(tagged.take(bn)[0] == tagged[0]);
        assert(a.key == tagged[0].key);
        assert(b.key == tagged[0].key);
        assert forall|i: int| 0 <= i < an implies (#[trigger] tagged[i]).key == tagged[0].key by {
            assert(tagged.take(an)[i].key == a.key);
        }
        assert forall|i: int| 0 <= i < bn implies (#[trigger] tagged[i]).key == tagged[0].key by {
            assert(tagged.take(bn)[i].key == b.key);
        }
        lemma_first_batch_is_long(tagged, size, one, bn);
        lemma_first_batch_is_long(tagged, size, other, an);
        assert(a.records =~= b.records) by {
            assert forall|i: int| 0 <= i < an implies a.records[i] == b.records[i] by {
                assert(tagged.take(an)[i].record == a.records[i]);
                assert(tagged.take(bn)[i].record == b.records[i]);
            }
        }
        lemma_batching_is_unique(tagged.skip(an), size, one.skip(1), other.skip(1));
        assert(one =~= seq![a] + one.skip(1));
        assert(other =~= seq![b] + other.skip(1));
    }
}

/// The first batch of a batching is not shorter than a stretch of at most
/// `size` records at the start that all carry one key.
proof fn lemma_first_batch_is_long<R>(
    tagged: Seq<TaggedModel<R>>,
    size: nat,
    batches: Seq<GroupModel<R>>,
    stretch: int,
)
    requires
        is_batching(tagged, size, batches),
        batches.len() > 0,
        1 <= stretch <= size,
        stretch <= tagged.len(),
        forall|i: int| 0 <= i < stretch ==> (#[trigger] tagged[i]).key == tagged[0].key,
    ensures
        batches[0].records.len() >= stretch,
{
    let first = batches[0];
    let n = first.records.len() as int;
    if n < stretch {
        lemma_batching_rest(tagged, size, batches);
        let rest = batches.skip(1);
        let left = tagged.skip(n);
        assert(left.len() > 0);
        assert(rest.len() > 0) by {
            if rest.len() == 0 {
                assert(flattened(rest) =~= Seq::<TaggedModel<R>>::empty());
            }
        }
        lemma_batching_rest(left, size, rest);
        assert(rest[0].records.len() >= 1);
        assert(left.take(rest[0].records.len() as int)[0] == left[0]);
        assert(rest[0].key == left[0].key);
        assert(left[0] == tagged[n]);
        assert(tagged.take(n)[0] == tagged[0]);
        assert(first.key == tagged[0].key);
        assert(batches[1] == rest[0]);
        assert(batches[0].records.len() == size || batches[0].key != batches[1].key);
    }
}

/// Where all records carry one key, every batch but the last is full.
pub proof fn lemma_one_key_batches_are_full<R>(tagged: Seq<TaggedModel<R>>, size: nat)
    requires
        size >= 1,
        forall|i: int, j: int|
            0 <= i < tagged.len() && 0 <= j < tagged.len() ==> tagged[i].key == tagged[j].key,
    ensures
        forall|i: int|
            0 <= i < batch_plan(tagged, size).len() - 1 ==> (#[trigger] batch_plan(
                tagged,
                size,
            )[i]).records.len() == size,
{
    let batches = batch_plan(tagged, size);
    lemma_batch_plan_is_batching(tagged, size);
    assert forall|i: int| 0 <= i < batches.len() - 1 implies (#[trigger] batches[i]).records.len()
        == size by {
        lemma_batch_keys(batches, i);
        lemma_batch_keys(batches, i + 1);
        let a = choose|a: int|
            0 <= a < tagged.len() && flattened(batches)[a].key == batches[i].key;
        let b = choose|b: int|
            0 <= b < tagged.len() && flattened(batches)[b].key == batches[i + 1].key;
        assert(tagged[a].key == tagged[b].key);
    }
}

/// A batch that is not empty has its key on one of the records laid out.
proof fn lemma_batch_keys<R>(batches: Seq<GroupModel<R>>, at: int)
    requires
        0 <= at < batches.len(),
        batches[at].records.len() >= 1,
    ensures
        exists|i: int|
            0 <= i < flattened(batches).len() && flattened(batches)[i].key == batches[at].key,
    decreases batches.len(),
{
    let front = flattened(batches.drop_last());
    let last = tag_all(batches.last().key, batches.last().records);
    if at == batches.len() - 1 {
        assert(flattened(batches)[front.len() as int] == last[0]);
        assert(last[0].key == batches[at].key);
    } else {
        lemma_batch_keys(batches.drop_last(), at);
        let i = choose|i: int|
            0 <= i < front.len() && front[i].key == batches.drop_last()[at].key;
        assert(flattened(batches)[i] == front[i]);
    }
}

/// Cuts a run of tagged records into batches of up to `batch_size` records
/// each. A batch holds consecutive records of one key; it ends where it is
/// full or where the next record has another key, so among the batches cut
/// from one stretch of a key only the last may hold fewer than `batch_size`.
///
/// A batch size of zero is refused, whatever the records.
pub fn build_batches<R>(tagged: Vec<Tagged<R>>, batch_size: usize) -> (result: Result<
    Vec<Batch<R>>,
    FilterError,
>)
    ensures
        result is Err <==> batch_size == 0,
        result matches Err(e) ==> e@ == FailureModel::InvalidBatchSize,
        result matches Ok(batches) ==> {
            &&& group_models(batches@) == batch_plan(tagged_models(tagged@), batch_size as nat)
            &&& is_batching(tagged_models(tagged@), batch_size as nat, group_models(batches@))
        },
{
    if batch_size == 0 {
        return Err(FilterError::InvalidBatchSize);
    }
    let ghost all = tagged_models(tagged@);
    let ghost held = tagged@;
    let mut batches: Vec<Batch<R>> = Vec::new();
    for item in walk: tagged
        invariant
            walk.seq() == held,
            all == tagged_models(held),
            batch_size >= 1,
            group_models(batches@) == batch_plan(all.take(walk.index()), batch_size as nat),
    {
        let ghost at = walk.index();
        assert(all.take(at + 1).drop_last() =~= all.take(at));
        let Tagged { key, record } = item;
        let count = batches.len();
        if count > 0 && batches[count - 1].key == key && batches[count - 1].records.len()
            < batch_size {
            batches[count - 1].records.push(record);
        } else {
            let mut records: Vec<R> = Vec::new();
            records.push(record);
            batches.push(Group { key, records });
        }
    }
    proof {
        assert(all.take(all.len() as int) =~= all);
        lemma_batch_plan_is_batching(all, batch_size as nat);
    }
    Ok(batches)
}

} // verus!

//! The dataset: records grouped under unique keys, with the history of the
//! filters applied to it and a tag naming the kind of record it holds.
//!
//! A record is never looked into. The library is generic over the record
//! type and only moves, groups and counts records.

use vstd::prelude::*;

verus! {

/// One applied filter: the filter's kind and its parameters, each written
/// out as text.
#[derive(Debug, PartialEq, Eq)]
pub struct FilterDescriptor {
    pub kind: String,
    pub parameters: Vec<String>,
}

/// What a [`FilterDescriptor`] holds.
#[verifier::ext_equal]
pub struct FilterModel {
    pub kind: Seq<char>,
    pub parameters: Seq<Seq<char>>,
}

impl View for FilterDescriptor {
    type V = FilterModel;

    open spec fn view(&self) -> FilterModel {
        FilterModel { kind: self.kind@, parameters: self.parameters.deep_view() }
    }
}

/// Tells whether two lists of strings hold the same text in the same order.
fn same_strings(a: &Vec<String>, b: &Vec<String>) -> (same: bool)
    ensures
        same == (a.deep_view() == b.deep_view()),
{
    if a.len() != b.len() {
        assert(a.deep_view().len() != b.deep_view().len());
        return false;
    }
    let mut i: usize = 0;
    while i < a.len()
        invariant
            i <= a.len(),
            a.len() == b.len(),
            forall|j: int| 0 <= j < i ==> a[j]@ == b[j]@,
        decreases a.len() - i,
    {
        if a[i] != b[i] {
            assert(a.deep_view()[i as int] != b.deep_view()[i as int]);
            return false;
        }
        i += 1;
    }
    assert(a.deep_view() =~= b.deep_view());
    true
}

/// Copies a list of strings.
fn copy_strings(a: &Vec<String>) -> (copy: Vec<String>)
    ensures
        copy.deep_view() == a.deep_view(),
{
    let mut copy: Vec<String> = Vec::new();
    let mut i: usize = 0;
    while i < a.len()
        invariant
            i <= a.len(),
            copy.len() == i,
            forall|j: int| 0 <= j < i ==> copy[j]@ == a[j]@,
        decreases a.len() - i,
    {
        copy.push(a[i].clone());
        i += 1;
    }
    copy
}

impl FilterDescriptor {
    /// Tells whether two descriptors name the same kind with the same
    /// parameters.
    pub fn matches(&self, other: &FilterDescriptor) -> (same: bool)
        ensures
            same == (self@ == other@),
    {
        self.kind == other.kind && same_strings(&self.parameters, &other.parameters)
    }
}

impl Clone for FilterDescriptor {
    fn clone(&self) -> (copy: Self)
        ensures
            copy@ == self@,
    {
        FilterDescriptor { kind: self.kind.clone(), parameters: copy_strings(&self.parameters) }
    }
}

/// The ordered history of the filters applied to a dataset.
#[derive(Debug, PartialEq, Eq)]
pub struct Provenance {
    pub applied_filters: Vec<FilterDescriptor>,
}

/// What a list of descriptors holds, descriptor by descriptor.
pub open spec fn filter_models(filters: Seq<FilterDescriptor>) -> Seq<FilterModel> {
    filters.map_values(|f: FilterDescriptor| f@)
}

impl View for Provenance {
    type V = Seq<FilterModel>;

    open spec fn view(&self) -> Seq<FilterModel> {
        filter_models(self.applied_filters@)
    }
}

impl Provenance {
    /// Tells whether two histories list the same filters in the same order.
    pub fn matches(&self, other: &Provenance) -> (same: bool)
        ensures
            same == (self@ == other@),
    {
        if self.applied_filters.len() != other.applied_filters.len() {
            assert(self@.len() != other@.len());
            return false;
        }
        let mut i: usize = 0;
        while i < self.applied_filters.len()
            invariant
                i <= self.applied_filters.len(),
                self.applied_filters.len() == other.applied_filters.len(),
                forall|j: int| 0 <= j < i ==> self.applied_filters[j]@ == other.applied_filters[j]@,
            decreases self.applied_filters.len() - i,
        {
            if !self.applied_filters[i].matches(&other.applied_filters[i]) {
                assert(self@[i as int] != other@[i as int]);
                return false;
            }
            i += 1;
        }
        assert(self@ =~= other@);
        true
    }
}

impl Clone for Provenance {
    fn clone(&self) -> (copy: Self)
        ensures
            copy@ == self@,
    {
        let mut filters: Vec<FilterDescriptor> = Vec::new();
        let mut i: usize = 0;
        while i < self.applied_filters.len()
            invariant
                i <= self.applied_filters.len(),
                filters.len() == i,
                forall|j: int| 0 <= j < i ==> filters[j]@ == self.applied_filters[j]@,
            decreases self.applied_filters.len() - i,
        {
            filters.push(self.applied_filters[i].clone());
            i += 1;
        }
        Provenance { applied_filters: filters }
    }
}

/// The records filed under one key.
#[derive(Debug, Clone, PartialEq, Eq)]
pub struct Group<R> {
    pub key: String,
    pub records: Vec<R>,
}

/// What a [`Group`] holds.
#[verifier::ext_equal]
pub struct GroupModel<R> {
    pub key: Seq<char>,
    pub records: Seq<R>,
}

impl<R> View for Group<R> {
    type V = GroupModel<R>;

    open spec fn view(&self) -> GroupModel<R> {
        GroupModel { key: self.key@, records: self.records@ }
    }
}

/// What a list of groups holds, group by group.
pub open spec fn group_models<R>(groups: Seq<Group<R>>) -> Seq<GroupModel<R>> {
    groups.map_values(|g: Group<R>| g@)
}

/// No key heads two groups.
pub open spec fn distinct_keys<R>(groups: Seq<GroupModel<R>>) -> bool {
    forall|i: int, j: int| 0 <= i < j < groups.len() ==> groups[i].key != groups[j].key
}

/// Some group is filed under `key`.
pub open spec fn has_key<R>(groups: Seq<GroupModel<R>>, key: Seq<char>) -> bool {
    exists|i: int| 0 <= i < groups.len() && #[trigger] groups[i].key == key
}

/// The index of the first group filed under `key`; the number of groups
/// where there is none.
pub open spec fn position<R>(groups: Seq<GroupModel<R>>, key: Seq<char>) -> int
    decreases groups.len(),
{
    if groups.len() == 0 {
        0
    } else if groups[0].key == key {
        0
    } else {
        1 + position(groups.skip(1), key)
    }
}

/// The records filed under `key`, in order; none where no group has the key.
pub open spec fn records_of<R>(groups: Seq<GroupModel<R>>, key: Seq<char>) -> Seq<R>
    decreases groups.len(),
{
    if groups.len() == 0 {
        Seq::empty()
    } else if groups.last().key == key {
        records_of(groups.drop_last(), key) + groups.last().records
    } else {
        records_of(groups.drop_last(), key)
    }
}

/// The groups after `records` are filed under `key`: appended to the group
/// that has the key, or to a new, last group.
pub open spec fn extended<R>(groups: Seq<GroupModel<R>>, key: Seq<char>, records: Seq<R>) -> Seq<
    GroupModel<R>,
> {
    let at = position(groups, key);
    if at < groups.len() {
        groups.update(at, GroupModel { key, records: groups[at].records + records })
    } else {
        groups.push(GroupModel { key, records })
    }
}

/// The records that filing `records` under `key` adds for `other`: the
/// records themselves where `other` is `key`, none otherwise.
pub open spec fn added<R>(key: Seq<char>, records: Seq<R>, other: Seq<char>) -> Seq<R> {
    if other == key {
        records
    } else {
        Seq::empty()
    }
}

/// `position` finds the first group with the key, and runs to the end
/// exactly when no group has it.
pub proof fn lemma_position<R>(groups: Seq<GroupModel<R>>, key: Seq<char>)
    ensures
        0 <= position(groups, key) <= groups.len(),
        position(groups, key) < groups.len() ==> groups[position(groups, key)].key == key,
        forall|i: int| 0 <= i < position(groups, key) ==> groups[i].key != key,
        position(groups, key) < groups.len() <==> has_key(groups, key),
    decreases groups.len(),
{
    if groups.len() > 0 && groups[0].key != key {
        let rest = groups.skip(1);
        lemma_position(rest, key);
        assert forall|i: int| 0 <= i < position(groups, key) implies groups[i].key != key by {
            if i > 0 {
                assert(rest[i - 1] == groups[i]);
            }
        }
        if has_key(groups, key) {
            let i = choose|i: int| 0 <= i < groups.len() && #[trigger] groups[i].key == key;
            assert(rest[i - 1].key == key);
        }
        if has_key(rest, key) {
            let i = choose|i: int| 0 <= i < rest.len() && #[trigger] rest[i].key == key;
            assert(groups[i + 1].key == key);
        }
    }
}

/// A dataset: groups of records under unique keys, the history of the
/// filters applied, and a tag for the kind of record held.
#[derive(Debug, PartialEq, Eq)]
pub struct Dataset<R> {
    groups: Vec<Group<R>>,
    provenance: Provenance,
    typ: String,
}

/// What a [`Dataset`] holds.
#[verifier::ext_equal]
pub struct DatasetModel<R> {
    pub groups: Seq<GroupModel<R>>,
    pub provenance: Seq<FilterModel>,
    pub typ: Seq<char>,
}

impl<R> View for Dataset<R> {
    type V = DatasetModel<R>;

    closed spec fn view(&self) -> DatasetModel<R> {
        DatasetModel {
            groups: group_models(self.groups@),
            provenance: self.provenance@,
            typ: self.typ@,
        }
    }
}

impl<R> Dataset<R> {
    /// What holds of every dataset: no key heads two groups.
    #[verifier::type_invariant]
    pub open spec fn well_formed(&self) -> bool {
        distinct_keys(self@.groups)
    }

    /// A dataset without groups.
    pub fn new(provenance: Provenance, typ: String) -> (dataset: Self)
        ensures
            dataset@ == (DatasetModel::<R> {
                groups: Seq::empty(),
                provenance: provenance@,
                typ: typ@,
            }),
    {
        let groups: Vec<Group<R>> = Vec::new();
        Dataset { groups, provenance, typ }
    }

    /// The history of the filters applied.
    pub fn provenance(&self) -> (provenance: &Provenance)
        ensures
            provenance@ == self@.provenance,
    {
        &self.provenance
    }

    /// The tag for the kind of record held.
    pub fn typ(&self) -> (typ: &String)
        ensures
            typ@ == self@.typ,
    {
        &self.typ
    }

    /// The groups, in the dataset's order.
    pub fn groups(&self) -> (groups: &Vec<Group<R>>)
        ensures
            group_models(groups@) == self@.groups,
            distinct_keys(self@.groups),
    {
        proof {
            use_type_invariant(self);
        }
        &self.groups
    }

    /// The groups, the history and the tag, handed out.
    pub fn into_parts(self) -> (parts: (Vec<Group<R>>, Provenance, String))
        ensures
            group_models(parts.0@) == self@.groups,
            distinct_keys(self@.groups),
            parts.1@ == self@.provenance,
            parts.2@ == self@.typ,
    {
        proof {
            use_type_invariant(&self);
        }
        (self.groups, self.provenance, self.typ)
    }

    /// The index of the first group filed under `key`; the number of groups
    /// where there is none.
    fn find(&self, key: &String) -> (at: usize)
        ensures
            at == position(self@.groups, key@),
            at <= self.groups.len(),
    {
        let mut at: usize = 0;
        while at < self.groups.len() && self.groups[at].key != *key
            invariant
                at <= self.groups.len(),
                forall|i: int| 0 <= i < at ==> self@.groups[i].key != key@,
            decreases self.groups.len() - at,
        {
            at += 1;
        }
        proof {
            lemma_position(self@.groups, key@);
            let found = position(self@.groups, key@);
            if at < found {
                assert(self@.groups[at as int].key == key@);
            }
        }
        at
    }

    /// Files `records` under `key`: after the records that the key already
    /// has, or as a new, last group.
    pub fn extend_group(&mut self, key: String, records: Vec<R>)
        ensures
            final(self)@ == (DatasetModel {
                groups: extended(old(self)@.groups, key@, records@),
                ..old(self)@
            }),
    {
        proof {
            use_type_invariant(&*self);
            lemma_position(self@.groups, key@);
        }
        let at = self.find(&key);
        let ghost added = records@;
        let mut records = records;
        let mut groups: Vec<Group<R>> = Vec::new();
        std::mem::swap(&mut groups, &mut self.groups);
        if at < groups.len() {
            groups[at].records.append(&mut records);
        } else {
            groups.push(Group { key, records });
        }
        let ghost after = group_models(groups@);
        assert(after =~= extended(old(self)@.groups, key@, added));
        assert(distinct_keys(after));
        self.groups = groups;
    }
}

impl<R: Clone> Clone for Dataset<R> {
    /// A copy with the same keys, history and tag, holding under each key a
    /// clone of each record.
    fn clone(&self) -> (copy: Self)
        ensures
            copy@.provenance == self@.provenance,
            copy@.typ == self@.typ,
            copy@.groups.len() == self@.groups.len(),
            forall|i: int|
                0 <= i < self@.groups.len() ==> {
                    &&& (#[trigger] copy@.groups[i]).key == self@.groups[i].key
                    &&& copy@.groups[i].records.len() == self@.groups[i].records.len()
                },
            forall|i: int, j: int|
                0 <= i < self@.groups.len() && 0 <= j < self@.groups[i].records.len() ==> cloned(
                    self@.groups[i].records[j],
                    #[trigger] copy@.groups[i].records[j],
                ),
    {
        proof {
            use_type_invariant(self);
        }
        let mut groups: Vec<Group<R>> = Vec::new();
        let mut i: usize = 0;
        while i < self.groups.len()
            invariant
                i <= self.groups.len(),
                groups.len() == i,
                forall|k: int|
                    0 <= k < i ==> {
                        &&& (#[trigger] groups[k]).key@ == self.groups[k].key@
                        &&& groups[k].records.len() == self.groups[k].records.len()
                    },
                forall|k: int, j: int|
                    0 <= k < i && 0 <= j < self.groups[k].records.len() ==> cloned(
                        self.groups[k].records[j],
                        #[trigger] groups[k].records[j],
                    ),
            decreases self.groups.len() - i,
        {
            let key = self.groups[i].key.clone();
            let records = self.groups[i].records.clone();
            groups.push(Group { key, records });
            i += 1;
        }
        let ghost copied = group_models(groups@);
        assert(distinct_keys(copied)) by {
            assert forall|a: int, b: int| 0 <= a < b < copied.len() implies copied[a].key
                != copied[b].key by {
                assert(groups[a].key@ == self@.groups[a].key);
                assert(groups[b].key@ == self@.groups[b].key);
            }
        }
        Dataset { groups, provenance: self.provenance.clone(), typ: self.typ.clone() }
    }
}

} // verus!

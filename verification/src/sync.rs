use vstd::prelude::*;

use std::collections::HashMap;
use std::hash::Hash;

use vstd::std_specs::cmp::PartialEqSpec;
use vstd::std_specs::hash::obeys_key_model;

use crate::airtable::batching::batch_count;
use crate::airtable::{AirtableError, ExistingRecord};

verus! {

/// An object of the application that is mirrored into an Airtable table.
pub trait DataObject {
    /// What identifies an object.
    type Id: PartialEq + Eq + Hash;

    /// The id of this object.
    fn get_id(&self) -> Self::Id;
}

/// The fields of an Airtable record that mirrors an object: they name the id
/// of the object they mirror.
pub trait DataMirror {
    /// The kind of object mirrored.
    type Object: DataObject;

    /// The id of the object that these fields mirror.
    fn get_mirror_id(&self) -> <Self::Object as DataObject>::Id;
}

/// The error that the function building an object's fields reports. It keeps
/// the rendering of the underlying error.
#[derive(Debug)]
pub struct CreateFieldsError {
    message: String,
}

impl CreateFieldsError {
    /// The rendering of the underlying error.
    pub closed spec fn rendering(&self) -> String {
        self.message
    }

    /// The rendering of the underlying error, as characters.
    pub open spec fn message(&self) -> Seq<char> {
        self.rendering()@
    }

    /// Wraps an error reported while building an object's fields.
    pub fn new<E: std::fmt::Display>(error: E) -> (e: Self)
        ensures
            vstd::string::to_string_from_display_ensures::<E>(&error, e.rendering()),
    {
        let message = error.to_string();
        CreateFieldsError { message }
    }

    /// An error that reports `message` as it is.
    pub fn from_message(message: &str) -> (e: Self)
        ensures
            e.message() == message@,
    {
        CreateFieldsError { message: String::from_str(message) }
    }

    /// The rendering of the underlying error.
    pub fn to_string(&self) -> (s: String)
        ensures
            s@ == self.message(),
    {
        self.message.clone()
    }
}

/// What can make a sync fail.
#[allow(inconsistent_fields)]
#[derive(Debug)]
pub enum SyncObjectsError {
    /// A request to Airtable failed.
    Airtable { source: AirtableError },
    /// Building the fields of an object failed.
    CreateFields { source: CreateFieldsError },
}

impl From<AirtableError> for SyncObjectsError {
    fn from(source: AirtableError) -> (e: Self) {
        SyncObjectsError::Airtable { source }
    }
}

impl vstd::std_specs::convert::FromSpecImpl<AirtableError> for SyncObjectsError {
    open spec fn obeys_from_spec() -> bool {
        true
    }

    open spec fn from_spec(source: AirtableError) -> Self {
        SyncObjectsError::Airtable { source }
    }
}

impl From<CreateFieldsError> for SyncObjectsError {
    fn from(source: CreateFieldsError) -> (e: Self) {
        SyncObjectsError::CreateFields { source }
    }
}

impl vstd::std_specs::convert::FromSpecImpl<CreateFieldsError> for SyncObjectsError {
    open spec fn obeys_from_spec() -> bool {
        true
    }

    open spec fn from_spec(source: CreateFieldsError) -> Self {
        SyncObjectsError::CreateFields { source }
    }
}

/// A record of the table, by reference: its id and its current fields.
pub struct RecordRef<'a, F> {
    pub id: &'a String,
    pub fields: &'a F,
}

/// The ids of the objects, in order, as `get_id` gives them.
pub fn object_ids<O: DataObject>(objects: &[&O]) -> (ids: Vec<O::Id>)
    ensures
        ids@.len() == objects@.len(),
        forall|i: int| 0 <= i < ids@.len() ==> call_ensures(O::get_id, (objects@[i],), #[trigger] ids@[i]),
{
    let mut ids: Vec<O::Id> = Vec::new();
    let mut i: usize = 0;
    while i < objects.len()
        invariant
            i <= objects@.len(),
            ids@.len() == i,
            forall|k: int| 0 <= k < i ==> call_ensures(O::get_id, (objects@[k],), #[trigger] ids@[k]),
        decreases objects@.len() - i,
    {
        ids.push(objects[i].get_id());
        i = i + 1;
    }
    ids
}

/// The ids of the objects that the records mirror, in order, as
/// `get_mirror_id` gives them for the records' fields.
pub fn mirror_ids<F: DataMirror>(records: &[RecordRef<F>]) -> (ids: Vec<
    <F::Object as DataObject>::Id,
>)
    ensures
        ids@.len() == records@.len(),
        forall|i: int|
            0 <= i < ids@.len() ==> call_ensures(
                F::get_mirror_id,
                (records@[i].fields,),
                #[trigger] ids@[i],
            ),
{
    let mut ids: Vec<<F::Object as DataObject>::Id> = Vec::new();
    let mut i: usize = 0;
    while i < records.len()
        invariant
            i <= records@.len(),
            ids@.len() == i,
            forall|k: int|
                0 <= k < i ==> call_ensures(F::get_mirror_id, (records@[k].fields,), #[trigger] ids@[k]),
        decreases records@.len() - i,
    {
        ids.push(records[i].fields.get_mirror_id());
        i = i + 1;
    }
    ids
}

/// Whether `j` is the first record whose mirror id equals `id`.
pub open spec fn is_first_match<Id: PartialEq>(mirror_ids: Seq<Id>, id: Id, j: int) -> bool {
    &&& 0 <= j < mirror_ids.len()
    &&& mirror_ids[j].eq_spec(&id)
    &&& forall|k: int| 0 <= k < j ==> !(#[trigger] mirror_ids[k]).eq_spec(&id)
}

/// The index of the first record whose mirror id equals `id`, if any.
pub open spec fn first_match<Id: PartialEq>(mirror_ids: Seq<Id>, id: Id) -> Option<int> {
    if exists|j: int| is_first_match(mirror_ids, id, j) {
        Some(choose|j: int| is_first_match(mirror_ids, id, j))
    } else {
        None
    }
}

/// The objects that have a mirror, each with its first mirror, in the order
/// of the objects: `(object index, record index)`.
pub open spec fn update_pairs<Id: PartialEq>(object_ids: Seq<Id>, mirror_ids: Seq<Id>) -> Seq<
    (usize, usize),
>
    decreases object_ids.len(),
{
    if object_ids.len() == 0 {
        Seq::empty()
    } else {
        let rest = update_pairs(object_ids.drop_last(), mirror_ids);
        match first_match(mirror_ids, object_ids.last()) {
            Some(j) => rest.push(((object_ids.len() - 1) as usize, j as usize)),
            None => rest,
        }
    }
}

/// The indices of the objects that have no mirror, in order.
pub open spec fn create_indices<Id: PartialEq>(object_ids: Seq<Id>, mirror_ids: Seq<Id>) -> Seq<
    usize,
>
    decreases object_ids.len(),
{
    if object_ids.len() == 0 {
        Seq::empty()
    } else {
        let rest = create_indices(object_ids.drop_last(), mirror_ids);
        match first_match(mirror_ids, object_ids.last()) {
            Some(j) => rest,
            None => rest.push((object_ids.len() - 1) as usize),
        }
    }
}

/// Which objects already have a record in the table and which need one.
pub struct SyncPartition {
    /// `(object index, record index)` for each object that has a mirror: the
    /// first record that mirrors it.
    pub to_update: Vec<(usize, usize)>,
    /// The indices of the objects that no record mirrors.
    pub to_create: Vec<usize>,
}

/// The index of the first record whose mirror id equals `id`.
fn find_match<Id: PartialEq>(mirror_ids: &[Id], id: &Id) -> (found: Option<usize>)
    requires
        <Id as PartialEqSpec>::obeys_eq_spec(),
    ensures
        match found {
            Some(j) => first_match(mirror_ids@, *id) == Some(j as int),
            None => first_match(mirror_ids@, *id) is None,
        },
{
    let mut j: usize = 0;
    while j < mirror_ids.len()
        invariant
            j <= mirror_ids@.len(),
            <Id as PartialEqSpec>::obeys_eq_spec(),
            forall|k: int| 0 <= k < j ==> !(#[trigger] mirror_ids@[k]).eq_spec(id),
        decreases mirror_ids@.len() - j,
    {
        if mirror_ids[j] == *id {
            assert(is_first_match(mirror_ids@, *id, j as int));
            return Some(j);
        }
        j = j + 1;
    }
    proof {
        if exists|j: int| is_first_match(mirror_ids@, *id, j) {
            let w = choose|j: int| is_first_match(mirror_ids@, *id, j);
            assert(!mirror_ids@[w].eq_spec(id));
        }
    }
    None
}

/// Splits the objects, given by their ids, into those that a record already
/// mirrors, each paired with the first such record, and those that need a new
/// record; both in the order of the objects. A record mirrors an object when
/// its mirror id `==` the object's id.
pub fn partition_objects<Id: PartialEq>(object_ids: &[Id], mirror_ids: &[Id]) -> (p: SyncPartition)
    requires
        <Id as PartialEqSpec>::obeys_eq_spec(),
    ensures
        p.to_update@ == update_pairs(object_ids@, mirror_ids@),
        p.to_create@ == create_indices(object_ids@, mirror_ids@),
{
    let mut to_update: Vec<(usize, usize)> = Vec::new();
    let mut to_create: Vec<usize> = Vec::new();
    let mut i: usize = 0;
    while i < object_ids.len()
        invariant
            i <= object_ids@.len(),
            <Id as PartialEqSpec>::obeys_eq_spec(),
            to_update@ == update_pairs(object_ids@.take(i as int), mirror_ids@),
            to_create@ == create_indices(object_ids@.take(i as int), mirror_ids@),
        decreases object_ids@.len() - i,
    {
        let found = find_match(mirror_ids, &object_ids[i]);
        proof {
            let prefix = object_ids@.take(i + 1 as int);
            assert(prefix.drop_last() =~= object_ids@.take(i as int));
            assert(prefix.last() == object_ids@[i as int]);
        }
        match found {
            Some(j) => to_update.push((i, j)),
            None => to_create.push(i),
        }
        i = i + 1;
    }
    proof {
        assert(object_ids@.take(object_ids@.len() as int) =~= object_ids@);
    }
    SyncPartition { to_update, to_create }
}

/// `first_match` names the first matching record, and nothing when no record
/// matches.
pub proof fn lemma_first_match<Id: PartialEq>(mirror_ids: Seq<Id>, id: Id)
    ensures
        first_match(mirror_ids, id) matches Some(j) ==> is_first_match(mirror_ids, id, j),
        first_match(mirror_ids, id) is None ==> forall|j: int|
            0 <= j < mirror_ids.len() ==> !(#[trigger] mirror_ids[j]).eq_spec(&id),
{
    if first_match(mirror_ids, id) is None {
        assert forall|j: int| 0 <= j < mirror_ids.len() implies !(
        #[trigger] mirror_ids[j]).eq_spec(&id) by {
            if mirror_ids[j].eq_spec(&id) {
                lemma_least_match(mirror_ids, id, j);
            }
        }
    }
}

/// A matching record at `j` means there is a first matching record.
proof fn lemma_least_match<Id: PartialEq>(mirror_ids: Seq<Id>, id: Id, j: int)
    requires
        0 <= j < mirror_ids.len(),
        mirror_ids[j].eq_spec(&id),
    ensures
        exists|f: int| is_first_match(mirror_ids, id, f),
    decreases j,
{
    if forall|k: int| 0 <= k < j ==> !(#[trigger] mirror_ids[k]).eq_spec(&id) {
        assert(is_first_match(mirror_ids, id, j));
    } else {
        let k = choose|k: int| 0 <= k < j && mirror_ids[k].eq_spec(&id);
        lemma_least_match(mirror_ids, id, k);
    }
}

/// Whether the object at index `i` is among those to update or those to create.
pub open spec fn is_listed(up: Seq<(usize, usize)>, cr: Seq<usize>, i: int) -> bool {
    ||| exists|k: int| 0 <= k < up.len() && #[trigger] up[k].0 == i
    ||| exists|k: int| 0 <= k < cr.len() && #[trigger] cr[k] == i
}

/// The partition of the objects is exact: every object lands in exactly one
/// of the two lists, in the order of the objects; an object to update is
/// paired with the first record that mirrors it, and no record mirrors an
/// object to create.
pub proof fn lemma_partition_is_exact<Id: PartialEq>(object_ids: Seq<Id>, mirror_ids: Seq<Id>)
    requires
        object_ids.len() <= usize::MAX,
        mirror_ids.len() <= usize::MAX,
    ensures
        ({
            let up = update_pairs(object_ids, mirror_ids);
            let cr = create_indices(object_ids, mirror_ids);
            &&& up.len() + cr.len() == object_ids.len()
            &&& forall|k: int|
                0 <= k < up.len() ==> (#[trigger] up[k]).0 < object_ids.len() && is_first_match(
                    mirror_ids,
                    object_ids[up[k].0 as int],
                    up[k].1 as int,
                )
            &&& forall|k: int|
                0 <= k < cr.len() ==> #[trigger] cr[k] < object_ids.len() && forall|j: int|
                    0 <= j < mirror_ids.len() ==> !(#[trigger] mirror_ids[j]).eq_spec(
                        &object_ids[cr[k] as int],
                    )
            &&& forall|k1: int, k2: int|
                0 <= k1 < k2 < up.len() ==> (#[trigger] up[k1]).0 < (#[trigger] up[k2]).0
            &&& forall|k1: int, k2: int|
                0 <= k1 < k2 < cr.len() ==> #[trigger] cr[k1] < #[trigger] cr[k2]
            &&& forall|i: int| 0 <= i < object_ids.len() ==> #[trigger] is_listed(up, cr, i)
        }),
    decreases object_ids.len(),
{
    if object_ids.len() > 0 {
        let rest = object_ids.drop_last();
        lemma_partition_is_exact(rest, mirror_ids);
        let n: int = object_ids.len() - 1;
        let id = object_ids.last();
        lemma_first_match(mirror_ids, id);
        let up = update_pairs(object_ids, mirror_ids);
        let cr = create_indices(object_ids, mirror_ids);
        let up0 = update_pairs(rest, mirror_ids);
        let cr0 = create_indices(rest, mirror_ids);
        assert forall|i: int| 0 <= i < object_ids.len() implies #[trigger] is_listed(up, cr, i) by {
            if i < n {
                assert(rest[i] == object_ids[i]);
                assert(is_listed(up0, cr0, i));
                if exists|k: int| 0 <= k < up0.len() && #[trigger] up0[k].0 == i {
                    let k = choose|k: int| 0 <= k < up0.len() && #[trigger] up0[k].0 == i;
                    assert(up[k] == up0[k]);
                } else {
                    let k = choose|k: int| 0 <= k < cr0.len() && #[trigger] cr0[k] == i;
                    assert(cr[k] == cr0[k]);
                }
            } else {
                match first_match(mirror_ids, id) {
                    Some(j) => {
                        assert(up == up0.push((n as usize, j as usize)));
                        assert(up[up.len() - 1].0 == i);
                    },
                    None => {
                        assert(cr == cr0.push(n as usize));
                        assert(cr[cr.len() - 1] == i);
                    },
                }
            }
        }
        assert forall|k: int| 0 <= k < up.len() implies (#[trigger] up[k]).0 < object_ids.len()
            && is_first_match(mirror_ids, object_ids[up[k].0 as int], up[k].1 as int) by {
            if k < up0.len() {
                assert(up[k] == up0[k]);
                assert(rest[up0[k].0 as int] == object_ids[up0[k].0 as int]);
            }
        }
        assert forall|k: int| 0 <= k < cr.len() implies #[trigger] cr[k] < object_ids.len()
            && forall|j: int|
            0 <= j < mirror_ids.len() ==> !(#[trigger] mirror_ids[j]).eq_spec(
                &object_ids[cr[k] as int],
            ) by {
            if k < cr0.len() {
                assert(cr[k] == cr0[k]);
                assert(rest[cr0[k] as int] == object_ids[cr0[k] as int]);
            }
        }
    }
}

/// Whether some record's mirror id equals `id`.
pub open spec fn has_mirror<Id: PartialEq>(mirror_ids: Seq<Id>, id: Id) -> bool {
    exists|j: int| 0 <= j < mirror_ids.len() && (#[trigger] mirror_ids[j]).eq_spec(&id)
}

/// When every object already has a mirror, the sync creates nothing and
/// looks every object up for an update.
pub proof fn lemma_all_mirrored_creates_nothing<Id: PartialEq>(object_ids: Seq<Id>, mirror_ids: Seq<Id>)
    requires
        object_ids.len() <= usize::MAX,
        mirror_ids.len() <= usize::MAX,
        forall|i: int| 0 <= i < object_ids.len() ==> has_mirror(mirror_ids, #[trigger] object_ids[i]),
    ensures
        create_indices(object_ids, mirror_ids).len() == 0,
        update_pairs(object_ids, mirror_ids).len() == object_ids.len(),
{
    lemma_partition_is_exact(object_ids, mirror_ids);
    let cr = create_indices(object_ids, mirror_ids);
    if cr.len() > 0 {
        let i: int = cr[0] as int;
        assert(has_mirror(mirror_ids, object_ids[i]));
        let j = choose|j: int| 0 <= j < mirror_ids.len() && (#[trigger] mirror_ids[j]).eq_spec(&object_ids[i]);
        assert(!mirror_ids[j].eq_spec(&object_ids[i]));
    }
}

/// The mirror ids of the records, followed by the ids of the objects that no
/// record mirrors, in order.
pub open spec fn mirrors_after_sync<Id: PartialEq>(object_ids: Seq<Id>, mirror_ids: Seq<Id>) -> Seq<
    Id,
> {
    mirror_ids + create_indices(object_ids, mirror_ids).map_values(|c: usize| object_ids[c as int])
}

/// Where no two records mirror the same id, no two objects share an id, and
/// ids compare by `==` as by equality, the mirror ids of the records followed
/// by the ids of the objects to create (see [`mirrors_after_sync`]) hold every
/// object's id, and none twice.
pub proof fn lemma_sync_leaves_one_mirror_each<Id: PartialEq>(object_ids: Seq<Id>, mirror_ids: Seq<Id>)
    requires
        object_ids.len() <= usize::MAX,
        mirror_ids.len() <= usize::MAX,
        forall|a: Id, b: Id| #[trigger] a.eq_spec(&b) <==> a == b,
        object_ids.no_duplicates(),
        mirror_ids.no_duplicates(),
    ensures
        mirrors_after_sync(object_ids, mirror_ids).no_duplicates(),
        forall|i: int|
            0 <= i < object_ids.len() ==> mirrors_after_sync(object_ids, mirror_ids).contains(
                #[trigger] object_ids[i],
            ),
{
    lemma_partition_is_exact(object_ids, mirror_ids);
    let up = update_pairs(object_ids, mirror_ids);
    let cr = create_indices(object_ids, mirror_ids);
    let created = cr.map_values(|c: usize| object_ids[c as int]);
    let after = mirrors_after_sync(object_ids, mirror_ids);
    assert(after == mirror_ids + created);
    assert forall|i: int| 0 <= i < object_ids.len() implies after.contains(#[trigger] object_ids[i]) by {
        assert(is_listed(up, cr, i));
        if exists|k: int| 0 <= k < up.len() && #[trigger] up[k].0 == i {
            let k = choose|k: int| 0 <= k < up.len() && #[trigger] up[k].0 == i;
            let j = up[k].1 as int;
            assert(is_first_match(mirror_ids, object_ids[i], j));
            assert(mirror_ids[j].eq_spec(&object_ids[i]));
            assert(after[j] == object_ids[i]);
        } else {
            let k = choose|k: int| 0 <= k < cr.len() && #[trigger] cr[k] == i;
            assert(created[k] == object_ids[i]);
            assert(after[mirror_ids.len() + k] == object_ids[i]);
        }
    }
    assert forall|p: int, q: int|
        0 <= p < after.len() && 0 <= q < after.len() && p != q implies #[trigger] after[p]
        != #[trigger] after[q] by {
        let n = mirror_ids.len() as int;
        if p < n && q < n {
        } else if p >= n && q >= n {
            let kp = p - n;
            let kq = q - n;
            if kp < kq {
                assert(cr[kp] < cr[kq]);
            } else {
                assert(cr[kq] < cr[kp]);
            }
            assert(after[p] == object_ids[cr[kp] as int]);
            assert(after[q] == object_ids[cr[kq] as int]);
        } else if p < n {
            let k = q - n;
            assert(after[q] == object_ids[cr[k] as int]);
            assert(!mirror_ids[p].eq_spec(&object_ids[cr[k] as int]));
        } else {
            let k = p - n;
            assert(after[p] == object_ids[cr[k] as int]);
            assert(!mirror_ids[q].eq_spec(&object_ids[cr[k] as int]));
        }
    }
}

/// A second sync changes nothing once the table's records already mirror
/// every object with the fields built for it: no object is left to create, no
/// record is updated, every object's mirror is skipped, and neither writing
/// the updates nor creating records takes a single batch request. `matched`
/// pairs each mirror with its object's new fields (see
/// [`pair_with_new_fields`]) and `create_outcomes` holds the fields built for
/// the objects to create (see [`new_fields_for`]).
pub proof fn lemma_resync_changes_nothing<'a, Id: PartialEq, F: PartialEq, E>(
    object_ids: Seq<Id>,
    mirror_ids: Seq<Id>,
    matched: Seq<(RecordRef<'a, F>, Result<F, E>)>,
    create_outcomes: Seq<Result<F, E>>,
)
    requires
        object_ids.len() <= usize::MAX,
        mirror_ids.len() <= usize::MAX,
        forall|i: int| 0 <= i < object_ids.len() ==> has_mirror(mirror_ids, #[trigger] object_ids[i]),
        matched.len() == update_pairs(object_ids, mirror_ids).len(),
        create_outcomes.len() == create_indices(object_ids, mirror_ids).len(),
        forall|m: int|
            0 <= m < matched.len() ==> (#[trigger] matched[m]).1 is Ok && matched[m].1->Ok_0.eq_spec(
                matched[m].0.fields,
            ),
    ensures
        create_indices(object_ids, mirror_ids).len() == 0,
        built_fields(create_outcomes).len() == 0,
        split_spec(matched).0.len() == 0,
        split_spec(matched).1.len() == object_ids.len(),
        batch_count(split_spec(matched).0.len()) == 0,
        batch_count(built_fields(create_outcomes).len()) == 0,
{
    lemma_all_mirrored_creates_nothing(object_ids, mirror_ids);
    lemma_unchanged_mirrors_are_skipped(matched);
    assert(create_outcomes.len() == 0);
}

/// The fields that a record with id `id` and fields `current` holds once the
/// updates are written in order: those of its last update, or `current` when
/// no update names it.
pub open spec fn written_fields<F>(updated: Seq<ExistingRecord<F>>, id: String, current: F) -> F
    decreases updated.len(),
{
    if updated.len() == 0 {
        current
    } else if updated.last().id == id {
        updated.last().fields
    } else {
        written_fields(updated.drop_last(), id, current)
    }
}

/// The table, as `(record id, fields)` rows, once the sync's writes are
/// stored: each record keeps its id and takes the fields of its last update,
/// and the records created follow, in order.
pub open spec fn table_after_writes<F>(
    table: Seq<(String, F)>,
    updated: Seq<ExistingRecord<F>>,
    created: Seq<(String, F)>,
) -> Seq<(String, F)> {
    table.map_values(|r: (String, F)| (r.0, written_fields(updated, r.0, r.1))) + created
}

/// The record ids of the rows.
pub open spec fn record_ids<F>(table: Seq<(String, F)>) -> Seq<String> {
    table.map_values(|r: (String, F)| r.0)
}

/// The ids that the rows mirror, `mirror_of` giving the id that fields name.
pub open spec fn table_mirror_ids<Id, F>(table: Seq<(String, F)>, mirror_of: spec_fn(F) -> Id) -> Seq<
    Id,
> {
    table.map_values(|r: (String, F)| mirror_of(r.1))
}

/// Whether `matched` is what [`pair_with_new_fields`] gives for the rows of
/// `table` and the `(object index, row index)` pairs `pairs` when building an
/// object's fields gives `built` at the object's index: each pair's row, by
/// reference, with `Ok` of its object's fields.
pub open spec fn pairs_rows_with<'a, F, E>(
    matched: Seq<(RecordRef<'a, F>, Result<F, E>)>,
    table: Seq<(String, F)>,
    pairs: Seq<(usize, usize)>,
    built: Seq<F>,
) -> bool {
    &&& matched.len() == pairs.len()
    &&& forall|m: int|
        0 <= m < matched.len() ==> {
            &&& *(#[trigger] matched[m]).0.id == table[pairs[m].1 as int].0
            &&& *matched[m].0.fields == table[pairs[m].1 as int].1
            &&& matched[m].1 == Ok::<F, E>(built[pairs[m].0 as int])
        }
}

/// Whether the table holds exactly one row that mirrors `id`, and that row
/// holds `fields`.
pub open spec fn holds_one_mirror<Id, F>(
    table: Seq<(String, F)>,
    mirror_of: spec_fn(F) -> Id,
    id: Id,
    fields: F,
) -> bool {
    &&& exists|j: int| 0 <= j < table.len() && mirror_of((#[trigger] table[j]).1) == id
    &&& forall|j1: int, j2: int|
        0 <= j1 < table.len() && 0 <= j2 < table.len() && mirror_of((#[trigger] table[j1]).1) == id
            && mirror_of((#[trigger] table[j2]).1) == id ==> j1 == j2
    &&& forall|j: int|
        0 <= j < table.len() && mirror_of((#[trigger] table[j]).1) == id ==> table[j].1 == fields
}

/// Writing the updates that the split of the mirrors gives leaves a record
/// that at most one mirror names with the new fields of that mirror when they
/// changed, and as it was otherwise.
proof fn lemma_written_after_split<'a, F: PartialEq, E>(
    matched: Seq<(RecordRef<'a, F>, Result<F, E>)>,
    id: String,
    current: F,
)
    requires
        forall|m1: int, m2: int|
            0 <= m1 < matched.len() && 0 <= m2 < matched.len() && *(#[trigger] matched[m1]).0.id
                == id && *(#[trigger] matched[m2]).0.id == id ==> m1 == m2,
    ensures
        (forall|m: int| 0 <= m < matched.len() ==> *(#[trigger] matched[m]).0.id != id)
            ==> written_fields(split_spec(matched).0, id, current) == current,
        forall|m: int|
            0 <= m < matched.len() && *(#[trigger] matched[m]).0.id == id ==> written_fields(
                split_spec(matched).0,
                id,
                current,
            ) == if matched[m].1 is Ok && !matched[m].1->Ok_0.eq_spec(matched[m].0.fields) {
                matched[m].1->Ok_0
            } else {
                current
            },
    decreases matched.len(),
{
    if matched.len() > 0 {
        let rest = matched.drop_last();
        let n: int = matched.len() - 1;
        assert forall|m1: int, m2: int|
            0 <= m1 < rest.len() && 0 <= m2 < rest.len() && *(#[trigger] rest[m1]).0.id == id
                && *(#[trigger] rest[m2]).0.id == id implies m1 == m2 by {
            assert(rest[m1] == matched[m1] && rest[m2] == matched[m2]);
        }
        lemma_written_after_split(rest, id, current);
        let u0 = split_spec(rest).0;
        let u = split_spec(matched).0;
        let (record, result) = matched[n];
        assert(matched.last() == matched[n]);
        let changed = result is Ok && !result->Ok_0.eq_spec(record.fields);
        if changed {
            assert(u == u0.push(with_fields(record, result->Ok_0)));
            assert(u.drop_last() =~= u0);
        } else {
            assert(u == u0);
        }
        let value = if changed {
            result->Ok_0
        } else {
            current
        };
        if *record.id == id {
            assert forall|m: int| 0 <= m < rest.len() implies *(#[trigger] rest[m]).0.id != id by {
                assert(rest[m] == matched[m]);
            }
            if changed {
                assert(u.last().id == id);
            }
            assert(written_fields(u, id, current) == value);
            assert forall|m: int| 0 <= m < matched.len() && *(#[trigger] matched[m]).0.id == id implies m
                == n by {}
        } else {
            if changed {
                assert(u.last().id != id);
            }
            assert(written_fields(u, id, current) == written_fields(u0, id, current));
            assert forall|m: int| 0 <= m < matched.len() && *(#[trigger] matched[m]).0.id == id implies written_fields(
                u,
                id,
                current,
            ) == if matched[m].1 is Ok && !matched[m].1->Ok_0.eq_spec(matched[m].0.fields) {
                matched[m].1->Ok_0
            } else {
                current
            } by {
                assert(m < n);
                assert(rest[m] == matched[m]);
            }
            assert((forall|m: int| 0 <= m < matched.len() ==> *(#[trigger] matched[m]).0.id != id)
                ==> forall|m: int| 0 <= m < rest.len() ==> *(#[trigger] rest[m]).0.id != id) by {
                assert forall|m: int| 0 <= m < rest.len() implies #[trigger] rest[m] == matched[m] by {}
            }
        }
    }
}

/// Building every object's fields successfully makes the list of built
/// fields their values, in order.
proof fn lemma_built_fields_all_ok<F, E>(results: Seq<Result<F, E>>)
    requires
        forall|k: int| 0 <= k < results.len() ==> (#[trigger] results[k]) is Ok,
    ensures
        built_fields(results) =~= results.map_values(|r: Result<F, E>| r->Ok_0),
    decreases results.len(),
{
    if results.len() > 0 {
        let rest = results.drop_last();
        assert forall|k: int| 0 <= k < rest.len() implies (#[trigger] rest[k]) is Ok by {
            assert(rest[k] == results[k]);
        }
        lemma_built_fields_all_ok(rest);
        assert(results.last() == results[results.len() - 1]);
    }
}

/// After a sync whose writes are all stored, the table holds exactly one record
/// that mirrors each object, and that record holds the fields built for the
/// object. This holds where no two objects share an id, no two records of the
/// table share a record id or a mirror id, `==` on ids and on fields is
/// equality, `mirror_of` gives the id that fields name, building each object's
/// fields succeeds with `built` at its index and those fields name the object's
/// id; `matched` and `create_outcomes` are what [`pair_with_new_fields`] and
/// [`new_fields_for`] give for the table's rows and the partition of the
/// objects, and `created` are the records that creating the fields of
/// [`fields_to_create`] stores, in order.
pub proof fn lemma_sync_mirrors_each_object_once<'a, Id: PartialEq, F: PartialEq, E>(
    object_ids: Seq<Id>,
    table: Seq<(String, F)>,
    mirror_of: spec_fn(F) -> Id,
    built: Seq<F>,
    matched: Seq<(RecordRef<'a, F>, Result<F, E>)>,
    create_outcomes: Seq<Result<F, E>>,
    created: Seq<(String, F)>,
)
    requires
        object_ids.len() <= usize::MAX,
        table.len() <= usize::MAX,
        forall|a: Id, b: Id| #[trigger] a.eq_spec(&b) <==> a == b,
        forall|a: F, b: F| #[trigger] a.eq_spec(&b) <==> a == b,
        object_ids.no_duplicates(),
        record_ids(table).no_duplicates(),
        table_mirror_ids(table, mirror_of).no_duplicates(),
        built.len() == object_ids.len(),
        forall|i: int| 0 <= i < object_ids.len() ==> mirror_of(#[trigger] built[i]) == object_ids[i],
        pairs_rows_with(
            matched,
            table,
            update_pairs(object_ids, table_mirror_ids(table, mirror_of)),
            built,
        ),
        create_outcomes.len() == create_indices(object_ids, table_mirror_ids(table, mirror_of)).len(),
        forall|k: int|
            0 <= k < create_outcomes.len() ==> #[trigger] create_outcomes[k] == Ok::<F, E>(
                built[create_indices(object_ids, table_mirror_ids(table, mirror_of))[k] as int],
            ),
        created.len() == built_fields(create_outcomes).len(),
        forall|k: int| 0 <= k < created.len() ==> (#[trigger] created[k]).1 == built_fields(create_outcomes)[k],
    ensures
        table_mirror_ids(
            table_after_writes(table, split_spec(matched).0, created),
            mirror_of,
        ).no_duplicates(),
        forall|i: int|
            0 <= i < object_ids.len() ==> holds_one_mirror(
                table_after_writes(table, split_spec(matched).0, created),
                mirror_of,
                #[trigger] object_ids[i],
                built[i],
            ),
{
    let mids = table_mirror_ids(table, mirror_of);
    let up = update_pairs(object_ids, mids);
    let cr = create_indices(object_ids, mids);
    let updated = split_spec(matched).0;
    let after = table_after_writes(table, updated, created);
    let n: int = table.len() as int;
    lemma_partition_is_exact(object_ids, mids);
    lemma_sync_leaves_one_mirror_each(object_ids, mids);
    lemma_built_fields_all_ok(create_outcomes);
    // Each row keeps the id it mirrors; a row that an object's first match
    // names ends up with that object's fields.
    assert forall|j: int| 0 <= j < n implies mirror_of((#[trigger] after[j]).1) == mids[j] && (
    forall|m: int| 0 <= m < up.len() && (#[trigger] up[m]).1 == j ==> after[j].1 == built[up[m].0 as int]) by {
        let rid = table[j].0;
        assert forall|m1: int, m2: int|
            0 <= m1 < matched.len() && 0 <= m2 < matched.len() && *(#[trigger] matched[m1]).0.id
                == rid && *(#[trigger] matched[m2]).0.id == rid implies m1 == m2 by {
            let j1 = up[m1].1 as int;
            let j2 = up[m2].1 as int;
            assert(record_ids(table)[j1] == record_ids(table)[j]);
            assert(record_ids(table)[j2] == record_ids(table)[j]);
            assert(mids[j].eq_spec(&object_ids[up[m1].0 as int]));
            assert(mids[j].eq_spec(&object_ids[up[m2].0 as int]));
            if m1 < m2 {
                assert(up[m1].0 < up[m2].0);
            } else if m2 < m1 {
                assert(up[m2].0 < up[m1].0);
            }
        }
        lemma_written_after_split(matched, rid, table[j].1);
        assert(after[j] == (rid, written_fields(updated, rid, table[j].1)));
        if exists|m: int| 0 <= m < up.len() && (#[trigger] up[m]).1 == j {
            let m = choose|m: int| 0 <= m < up.len() && (#[trigger] up[m]).1 == j;
            assert(*matched[m].0.id == rid);
            let i = up[m].0 as int;
            assert(mids[j].eq_spec(&object_ids[i]));
            assert(mirror_of(built[i]) == object_ids[i]);
            assert forall|m2: int| 0 <= m2 < up.len() && (#[trigger] up[m2]).1 == j implies after[j].1
                == built[up[m2].0 as int] by {
                assert(*matched[m2].0.id == rid);
            }
        } else {
            assert forall|m: int| 0 <= m < matched.len() implies *(#[trigger] matched[m]).0.id != rid by {
                let jm = up[m].1 as int;
                if *matched[m].0.id == rid {
                    assert(record_ids(table)[jm] == record_ids(table)[j]);
                }
            }
        }
    }
    assert forall|k: int| 0 <= k < cr.len() implies (#[trigger] after[n + k]).1 == built[cr[k] as int] by {
        assert(after[n + k] == created[k]);
        assert(create_outcomes[k] == Ok::<F, E>(built[cr[k] as int]));
    }
    let after_ids = table_mirror_ids(after, mirror_of);
    assert(after_ids =~= mirrors_after_sync(object_ids, mids)) by {
        assert forall|j: int| 0 <= j < after_ids.len() implies after_ids[j] == mirrors_after_sync(
            object_ids,
            mids,
        )[j] by {
            if j < n {
                assert(after_ids[j] == mirror_of(after[j].1));
            } else {
                let k = j - n;
                assert(after[n + k].1 == built[cr[k] as int]);
            }
        }
    }
    assert forall|i: int| 0 <= i < object_ids.len() implies holds_one_mirror(
        after,
        mirror_of,
        #[trigger] object_ids[i],
        built[i],
    ) by {
        assert(is_listed(up, cr, i));
        let w: int = if exists|m: int| 0 <= m < up.len() && #[trigger] up[m].0 == i {
            let m = choose|m: int| 0 <= m < up.len() && #[trigger] up[m].0 == i;
            up[m].1 as int
        } else {
            let k = choose|k: int| 0 <= k < cr.len() && #[trigger] cr[k] == i;
            n + k
        };
        assert(0 <= w < after.len() && after[w].1 == built[i]);
        assert(mirror_of(after[w].1) == object_ids[i]);
        assert forall|j: int| 0 <= j < after.len() && mirror_of((#[trigger] after[j]).1)
            == object_ids[i] implies j == w by {
            assert(after_ids[j] == after_ids[w]);
        }
    }
}

/// A second sync of the same objects, where building each object's fields
/// gives the same fields again, changes nothing: on the table that the first
/// sync left (see [`lemma_sync_mirrors_each_object_once`], whose conditions
/// hold here too), no object is left to create, no record is updated, every
/// object's record is skipped, and neither writing updates nor creating records
/// takes a batch request. `matched2` and `create_outcomes2` are what
/// [`pair_with_new_fields`] and [`new_fields_for`] give in the second sync.
pub proof fn lemma_second_sync_changes_nothing<'a, 'b, Id: PartialEq, F: PartialEq, E>(
    object_ids: Seq<Id>,
    table: Seq<(String, F)>,
    mirror_of: spec_fn(F) -> Id,
    built: Seq<F>,
    matched: Seq<(RecordRef<'a, F>, Result<F, E>)>,
    create_outcomes: Seq<Result<F, E>>,
    created: Seq<(String, F)>,
    matched2: Seq<(RecordRef<'b, F>, Result<F, E>)>,
    create_outcomes2: Seq<Result<F, E>>,
)
    requires
        table.len() + object_ids.len() <= usize::MAX,
        forall|a: Id, b: Id| #[trigger] a.eq_spec(&b) <==> a == b,
        forall|a: F, b: F| #[trigger] a.eq_spec(&b) <==> a == b,
        object_ids.no_duplicates(),
        record_ids(table).no_duplicates(),
        table_mirror_ids(table, mirror_of).no_duplicates(),
        built.len() == object_ids.len(),
        forall|i: int| 0 <= i < object_ids.len() ==> mirror_of(#[trigger] built[i]) == object_ids[i],
        pairs_rows_with(
            matched,
            table,
            update_pairs(object_ids, table_mirror_ids(table, mirror_of)),
            built,
        ),
        create_outcomes.len() == create_indices(object_ids, table_mirror_ids(table, mirror_of)).len(),
        forall|k: int|
            0 <= k < create_outcomes.len() ==> #[trigger] create_outcomes[k] == Ok::<F, E>(
                built[create_indices(object_ids, table_mirror_ids(table, mirror_of))[k] as int],
            ),
        created.len() == built_fields(create_outcomes).len(),
        forall|k: int| 0 <= k < created.len() ==> (#[trigger] created[k]).1 == built_fields(create_outcomes)[k],
        pairs_rows_with(
            matched2,
            table_after_writes(table, split_spec(matched).0, created),
            update_pairs(
                object_ids,
                table_mirror_ids(table_after_writes(table, split_spec(matched).0, created), mirror_of),
            ),
            built,
        ),
        create_outcomes2.len() == create_indices(
            object_ids,
            table_mirror_ids(table_after_writes(table, split_spec(matched).0, created), mirror_of),
        ).len(),
    ensures
        create_indices(
            object_ids,
            table_mirror_ids(table_after_writes(table, split_spec(matched).0, created), mirror_of),
        ).len() == 0,
        built_fields(create_outcomes2).len() == 0,
        split_spec(matched2).0.len() == 0,
        split_spec(matched2).1.len() == object_ids.len(),
        batch_count(split_spec(matched2).0.len()) == 0,
        batch_count(built_fields(create_outcomes2).len()) == 0,
{
    lemma_sync_mirrors_each_object_once(
        object_ids,
        table,
        mirror_of,
        built,
        matched,
        create_outcomes,
        created,
    );
    let mids = table_mirror_ids(table, mirror_of);
    lemma_partition_is_exact(object_ids, mids);
    let after = table_after_writes(table, split_spec(matched).0, created);
    let mids2 = table_mirror_ids(after, mirror_of);
    assert(after.len() == table.len() + created.len());
    lemma_built_fields_all_ok(create_outcomes);
    assert(created.len() <= object_ids.len());
    let up2 = update_pairs(object_ids, mids2);
    lemma_partition_is_exact(object_ids, mids2);
    assert forall|i: int| 0 <= i < object_ids.len() implies has_mirror(mids2, #[trigger] object_ids[i]) by {
        assert(holds_one_mirror(after, mirror_of, object_ids[i], built[i]));
        let j = choose|j: int| 0 <= j < after.len() && mirror_of((#[trigger] after[j]).1) == object_ids[i];
        assert(mids2[j] == object_ids[i]);
        assert(mids2[j].eq_spec(&object_ids[i]));
    }
    assert forall|m: int| 0 <= m < matched2.len() implies (#[trigger] matched2[m]).1 is Ok
        && matched2[m].1->Ok_0.eq_spec(matched2[m].0.fields) by {
        let i = up2[m].0 as int;
        let j = up2[m].1 as int;
        assert(mids2[j].eq_spec(&object_ids[i]));
        assert(mirror_of(after[j].1) == object_ids[i]);
        assert(holds_one_mirror(after, mirror_of, object_ids[i], built[i]));
        assert(after[j].1 == built[i]);
    }
    lemma_resync_changes_nothing(object_ids, mids2, matched2, create_outcomes2);
}

/// What the sync does with the objects that already have a mirror: the
/// records whose fields change, and those left as they are.
pub struct SyncUpdates<F> {
    /// The mirrors whose fields differ from the objects' new fields, with the
    /// new fields.
    pub updated: Vec<ExistingRecord<F>>,
    /// The mirrors whose fields already equal the objects' new fields.
    pub skipped: Vec<ExistingRecord<F>>,
}

/// The record that gives the mirror `record` the fields `fields`.
pub open spec fn with_fields<F>(record: RecordRef<'_, F>, fields: F) -> ExistingRecord<F> {
    ExistingRecord { id: *record.id, fields }
}

/// Splits the mirrors by their new fields, in order: a mirror whose fields
/// could not be built is left out, one whose new fields differ from its
/// current fields is updated, and the others are skipped.
pub open spec fn split_spec<'a, F: PartialEq, E>(matched: Seq<(RecordRef<'a, F>, Result<F, E>)>) -> (
    Seq<ExistingRecord<F>>,
    Seq<ExistingRecord<F>>,
)
    decreases matched.len(),
{
    if matched.len() == 0 {
        (Seq::empty(), Seq::empty())
    } else {
        let (updated, skipped) = split_spec(matched.drop_last());
        let (record, result) = matched.last();
        match result {
            Ok(fields) => if !fields.eq_spec(record.fields) {
                (updated.push(with_fields(record, fields)), skipped)
            } else {
                (updated, skipped.push(with_fields(record, fields)))
            },
            Err(_) => (updated, skipped),
        }
    }
}

/// Splits the mirrors of the objects, each with the outcome of building its
/// object's new fields, into the records to update and those to skip; see
/// [`split_spec`]. The contract holds where `==` on the fields obeys its
/// `eq_spec`; vstd states none for `String`, so a fields type that holds
/// strings meets this `requires` only where its equality is specified.
pub fn split_updates<'a, F: PartialEq, E>(matched: Vec<(RecordRef<'a, F>, Result<F, E>)>) -> (u:
    SyncUpdates<F>)
    requires
        <F as PartialEqSpec>::obeys_eq_spec(),
    ensures
        (u.updated@, u.skipped@) == split_spec(matched@),
{
    let mut updated: Vec<ExistingRecord<F>> = Vec::new();
    let mut skipped: Vec<ExistingRecord<F>> = Vec::new();
    let ghost all = matched@;
    for item in it: matched
        invariant
            <F as PartialEqSpec>::obeys_eq_spec(),
            it.seq() == all,
            (updated@, skipped@) == split_spec(all.take(it.index() as int)),
    {
        let (record, result) = item;
        proof {
            let i: int = it.index() as int;
            assert(all.take(i + 1).drop_last() =~= all.take(i));
        }
        match result {
            Ok(fields) => {
                let changed = fields != *record.fields;
                let existing = ExistingRecord { id: record.id.clone(), fields };
                if changed {
                    updated.push(existing);
                } else {
                    skipped.push(existing);
                }
            },
            Err(_) => {},
        }
    }
    proof {
        assert(all.take(all.len() as int) =~= all);
    }
    SyncUpdates { updated, skipped }
}

/// Pairs each mirrored object's record with the outcome of building the
/// object's new fields, in the order of `to_update`, `(object index, record
/// index)` pairs as [`partition_objects`] gives them.
pub fn pair_with_new_fields<'a, O, F, E, C: Fn(&O) -> Result<F, E>>(
    objects: &[&O],
    records: &[RecordRef<'a, F>],
    to_update: &[(usize, usize)],
    create_fields: &C,
) -> (matched: Vec<(RecordRef<'a, F>, Result<F, E>)>)
    requires
        forall|k: int|
            0 <= k < to_update@.len() ==> (#[trigger] to_update@[k]).0 < objects@.len()
                && to_update@[k].1 < records@.len(),
        forall|o: &O| create_fields.requires((o,)),
    ensures
        matched@.len() == to_update@.len(),
        forall|k: int|
            0 <= k < matched@.len() ==> {
                &&& (#[trigger] matched@[k]).0 == records@[to_update@[k].1 as int]
                &&& create_fields.ensures((objects@[to_update@[k].0 as int],), matched@[k].1)
            },
{
    let mut matched: Vec<(RecordRef<'a, F>, Result<F, E>)> = Vec::new();
    let mut k: usize = 0;
    while k < to_update.len()
        invariant
            k <= to_update@.len(),
            matched@.len() == k,
            forall|i: int|
                0 <= i < to_update@.len() ==> (#[trigger] to_update@[i]).0 < objects@.len()
                    && to_update@[i].1 < records@.len(),
            forall|o: &O| create_fields.requires((o,)),
            forall|i: int|
                0 <= i < k ==> {
                    &&& (#[trigger] matched@[i]).0 == records@[to_update@[i].1 as int]
                    &&& create_fields.ensures((objects@[to_update@[i].0 as int],), matched@[i].1)
                },
        decreases to_update@.len() - k,
    {
        let (o, r): (usize, usize) = to_update[k];
        let record = RecordRef { id: records[r].id, fields: records[r].fields };
        let built = create_fields(objects[o]);
        matched.push((record, built));
        k = k + 1;
    }
    matched
}

/// The outcomes of building the fields of the objects at `indices`, in order.
pub fn new_fields_for<O, F, E, C: Fn(&O) -> Result<F, E>>(
    objects: &[&O],
    indices: &[usize],
    create_fields: &C,
) -> (results: Vec<Result<F, E>>)
    requires
        forall|k: int| 0 <= k < indices@.len() ==> #[trigger] indices@[k] < objects@.len(),
        forall|o: &O| create_fields.requires((o,)),
    ensures
        results@.len() == indices@.len(),
        forall|k: int|
            0 <= k < results@.len() ==> create_fields.ensures(
                (objects@[indices@[k] as int],),
                #[trigger] results@[k],
            ),
{
    let mut results: Vec<Result<F, E>> = Vec::new();
    let mut k: usize = 0;
    while k < indices.len()
        invariant
            k <= indices@.len(),
            results@.len() == k,
            forall|i: int| 0 <= i < indices@.len() ==> #[trigger] indices@[i] < objects@.len(),
            forall|o: &O| create_fields.requires((o,)),
            forall|i: int|
                0 <= i < k ==> create_fields.ensures(
                    (objects@[indices@[i] as int],),
                    #[trigger] results@[i],
                ),
        decreases indices@.len() - k,
    {
        results.push(create_fields(objects[indices[k]]));
        k = k + 1;
    }
    results
}

/// The decisions of a sync up to its first write: the objects' ids and the
/// records' mirror ids, which objects have a mirror and which need a record,
/// and which mirrors are updated and which skipped. `matched` names the
/// mirrors paired with the outcomes of building their objects' new fields.
pub struct UpdatePlan<'a, Id, F, E> {
    pub object_ids: Vec<Id>,
    pub mirror_ids: Vec<Id>,
    pub partition: SyncPartition,
    pub updates: SyncUpdates<F>,
    pub matched: Ghost<Seq<(RecordRef<'a, F>, Result<F, E>)>>,
}

/// Decides what a sync writes first: reads the objects' ids and the records'
/// mirror ids, pairs each object with its first mirror or lists it for
/// creation (see [`partition_objects`]), builds the new fields of each mirrored
/// object (see [`pair_with_new_fields`]) and splits the mirrors into those to
/// update and those to skip (see [`split_updates`]).
pub fn plan_updates<'a, O: DataObject, F: DataMirror<Object = O> + PartialEq, E, C: Fn(&O) -> Result<F, E>>(
    objects: &[&O],
    records: &[RecordRef<'a, F>],
    create_fields: &C,
) -> (plan: UpdatePlan<'a, O::Id, F, E>)
    requires
        <O::Id as PartialEqSpec>::obeys_eq_spec(),
        <F as PartialEqSpec>::obeys_eq_spec(),
        forall|o: &O| create_fields.requires((o,)),
    ensures
        plan.object_ids@.len() == objects@.len(),
        forall|i: int|
            0 <= i < objects@.len() ==> call_ensures(
                O::get_id,
                (objects@[i],),
                #[trigger] plan.object_ids@[i],
            ),
        plan.mirror_ids@.len() == records@.len(),
        forall|j: int|
            0 <= j < records@.len() ==> call_ensures(
                F::get_mirror_id,
                (records@[j].fields,),
                #[trigger] plan.mirror_ids@[j],
            ),
        plan.partition.to_update@ == update_pairs(plan.object_ids@, plan.mirror_ids@),
        plan.partition.to_create@ == create_indices(plan.object_ids@, plan.mirror_ids@),
        plan.matched@.len() == plan.partition.to_update@.len(),
        forall|k: int|
            0 <= k < plan.matched@.len() ==> {
                &&& (#[trigger] plan.matched@[k]).0 == records@[plan.partition.to_update@[k].1 as int]
                &&& create_fields.ensures(
                    (objects@[plan.partition.to_update@[k].0 as int],),
                    plan.matched@[k].1,
                )
            },
        (plan.updates.updated@, plan.updates.skipped@) == split_spec(plan.matched@),
{
    let oids = object_ids(objects);
    let mids = mirror_ids(records);
    let object_count: usize = oids.len();
    let record_count: usize = mids.len();
    let partition = partition_objects(oids.as_slice(), mids.as_slice());
    proof {
        assert(oids@.len() == object_count && mids@.len() == record_count);
        lemma_partition_is_exact(oids@, mids@);
    }
    let matched = pair_with_new_fields(objects, records, partition.to_update.as_slice(), create_fields);
    let ghost paired = matched@;
    let updates = split_updates(matched);
    UpdatePlan {
        object_ids: oids,
        mirror_ids: mids,
        partition,
        updates,
        matched: Ghost(paired),
    }
}

/// The outcomes of building the new fields of the mirrored objects.
pub open spec fn outcomes<'a, F, E>(matched: Seq<(RecordRef<'a, F>, Result<F, E>)>) -> Seq<
    Result<F, E>,
> {
    matched.map_values(|p: (RecordRef<'a, F>, Result<F, E>)| p.1)
}

/// Whether the mirror at index `m` with newly built fields `fields` turns into
/// `record`, its fields changed exactly when `changed`.
pub open spec fn comes_from<'a, F: PartialEq, E>(
    matched: Seq<(RecordRef<'a, F>, Result<F, E>)>,
    m: int,
    record: ExistingRecord<F>,
    changed: bool,
) -> bool {
    &&& 0 <= m < matched.len()
    &&& matched[m].1 is Ok
    &&& record == with_fields(matched[m].0, matched[m].1->Ok_0)
    &&& changed == !matched[m].1->Ok_0.eq_spec(matched[m].0.fields)
}

/// Whether `record` is one of the mirrors with its newly built fields, its
/// fields changed exactly when `changed`.
pub open spec fn is_split_from<'a, F: PartialEq, E>(
    matched: Seq<(RecordRef<'a, F>, Result<F, E>)>,
    record: ExistingRecord<F>,
    changed: bool,
) -> bool {
    exists|m: int| comes_from(matched, m, record, changed)
}

/// Splitting the mirrors loses nothing and adds nothing: each mirror whose
/// fields were built is either updated or skipped, the others neither; an
/// updated record is a mirror with new fields that differ from its current
/// ones, a skipped record a mirror whose new fields equal its current ones.
pub proof fn lemma_split_is_exact<'a, F: PartialEq, E>(matched: Seq<(RecordRef<'a, F>, Result<F, E>)>)
    ensures
        split_spec(matched).0.len() + split_spec(matched).1.len() == built_fields(
            outcomes(matched),
        ).len(),
        forall|k: int|
            0 <= k < split_spec(matched).0.len() ==> is_split_from(
                matched,
                #[trigger] split_spec(matched).0[k],
                true,
            ),
        forall|k: int|
            0 <= k < split_spec(matched).1.len() ==> is_split_from(
                matched,
                #[trigger] split_spec(matched).1[k],
                false,
            ),
    decreases matched.len(),
{
    if matched.len() > 0 {
        let rest = matched.drop_last();
        lemma_split_is_exact(rest);
        assert(outcomes(matched).drop_last() =~= outcomes(rest));
        let u0 = split_spec(rest).0;
        let s0 = split_spec(rest).1;
        let u = split_spec(matched).0;
        let s = split_spec(matched).1;
        let n: int = matched.len() - 1;
        assert(matched.last() == matched[n]);
        match matched[n].1 {
            Ok(f) => {
                if !f.eq_spec(matched[n].0.fields) {
                    assert(u == u0.push(with_fields(matched[n].0, f)));
                    assert(s == s0);
                } else {
                    assert(u == u0);
                    assert(s == s0.push(with_fields(matched[n].0, f)));
                }
            },
            Err(_) => {
                assert(u == u0);
                assert(s == s0);
            },
        }
        assert forall|k: int| 0 <= k < u.len() implies is_split_from(matched, #[trigger] u[k], true) by {
            if k < u0.len() {
                assert(u[k] == u0[k]);
                assert(is_split_from(rest, u0[k], true));
                let m = choose|m: int| comes_from(rest, m, #[trigger] u0[k], true);
                assert(rest[m] == matched[m]);
                assert(comes_from(matched, m, u[k], true));
            } else {
                assert(comes_from(matched, n, u[k], true));
            }
        }
        assert forall|k: int| 0 <= k < s.len() implies is_split_from(matched, #[trigger] s[k], false) by {
            if k < s0.len() {
                assert(s[k] == s0[k]);
                assert(is_split_from(rest, s0[k], false));
                let m = choose|m: int| comes_from(rest, m, #[trigger] s0[k], false);
                assert(rest[m] == matched[m]);
                assert(comes_from(matched, m, s[k], false));
            } else {
                assert(comes_from(matched, n, s[k], false));
            }
        }
    } else {
        assert(split_spec(matched).0.len() == 0);
        assert(split_spec(matched).1.len() == 0);
    }
}

/// Syncing objects whose mirrors already hold the fields built for them
/// updates nothing: every mirror is skipped, in order, with its fields.
pub proof fn lemma_unchanged_mirrors_are_skipped<'a, F: PartialEq, E>(
    matched: Seq<(RecordRef<'a, F>, Result<F, E>)>,
)
    requires
        forall|m: int|
            0 <= m < matched.len() ==> (#[trigger] matched[m]).1 is Ok && matched[m].1->Ok_0.eq_spec(
                matched[m].0.fields,
            ),
    ensures
        split_spec(matched).0.len() == 0,
        split_spec(matched).1.len() == matched.len(),
        forall|m: int|
            0 <= m < matched.len() ==> #[trigger] split_spec(matched).1[m] == with_fields(
                matched[m].0,
                matched[m].1->Ok_0,
            ),
    decreases matched.len(),
{
    if matched.len() > 0 {
        let rest = matched.drop_last();
        assert forall|m: int| 0 <= m < rest.len() implies (#[trigger] rest[m]).1 is Ok
            && rest[m].1->Ok_0.eq_spec(rest[m].0.fields) by {
            assert(rest[m] == matched[m]);
        }
        lemma_unchanged_mirrors_are_skipped(rest);
        assert(matched.last() == matched[matched.len() - 1]);
    }
}

/// The fields that were built, in order, leaving out the failures.
pub open spec fn built_fields<F, E>(results: Seq<Result<F, E>>) -> Seq<F>
    decreases results.len(),
{
    if results.len() == 0 {
        Seq::empty()
    } else {
        let rest = built_fields(results.drop_last());
        match results.last() {
            Ok(fields) => rest.push(fields),
            Err(_) => rest,
        }
    }
}

/// The new records to create: the fields built for the objects without a
/// mirror, leaving out those whose fields could not be built.
pub fn fields_to_create<F, E>(results: Vec<Result<F, E>>) -> (fields: Vec<F>)
    ensures
        fields@ == built_fields(results@),
{
    let mut fields: Vec<F> = Vec::new();
    let ghost all = results@;
    for result in it: results
        invariant
            it.seq() == all,
            fields@ == built_fields(all.take(it.index() as int)),
    {
        proof {
            let i: int = it.index() as int;
            assert(all.take(i + 1).drop_last() =~= all.take(i));
        }
        match result {
            Ok(f) => fields.push(f),
            Err(_) => {},
        }
    }
    proof {
        assert(all.take(all.len() as int) =~= all);
    }
    fields
}

/// What a sync did: for each object synced, the id of its Airtable record,
/// and how many records were updated, created and left as they were.
pub struct SyncOutput<O: DataObject> {
    pub map: HashMap<O::Id, String>,
    pub updated_count: usize,
    pub created_count: usize,
    pub skipped_count: usize,
}

/// The map that the entries make, inserted in order, so that a later entry
/// wins over an earlier one for the same object id.
pub open spec fn entries_map<Id>(entries: Seq<(Id, String)>) -> Map<Id, String>
    decreases entries.len(),
{
    if entries.len() == 0 {
        Map::empty()
    } else {
        entries_map(entries.drop_last()).insert(entries.last().0, entries.last().1)
    }
}

/// Whether `entries` pairs each record of `records` with the object id that
/// `get_mirror_id` gave for its fields, in order.
pub open spec fn entries_of<'a, F: DataMirror>(
    entries: Seq<(<F::Object as DataObject>::Id, String)>,
    records: Seq<RecordRef<'a, F>>,
) -> bool {
    &&& entries.len() == records.len()
    &&& forall|i: int|
        0 <= i < entries.len() ==> {
            &&& (#[trigger] entries[i]).1 == *records[i].id
            &&& call_ensures(F::get_mirror_id, (records[i].fields,), entries[i].0)
        }
}

/// Whether no entry after the one at `i` has the same object id.
pub open spec fn is_last_for_its_id<Id>(entries: Seq<(Id, String)>, i: int) -> bool {
    forall|k: int| i < k < entries.len() ==> (#[trigger] entries[k]).0 != entries[i].0
}

/// The map of a list of entries holds exactly the object ids of the entries,
/// and maps each to the record id of the last entry with that object id.
pub proof fn lemma_entries_map<Id>(entries: Seq<(Id, String)>)
    ensures
        forall|id: Id|
            #[trigger] entries_map(entries).contains_key(id) <==> exists|i: int|
                0 <= i < entries.len() && (#[trigger] entries[i]).0 == id,
        forall|i: int|
            0 <= i < entries.len() && is_last_for_its_id(entries, i) ==> entries_map(entries)[(
            #[trigger] entries[i]).0] == entries[i].1,
    decreases entries.len(),
{
    if entries.len() > 0 {
        let rest = entries.drop_last();
        lemma_entries_map(rest);
        let n: int = entries.len() - 1;
        assert forall|id: Id| #[trigger] entries_map(entries).contains_key(id) <==> exists|i: int|
            0 <= i < entries.len() && (#[trigger] entries[i]).0 == id by {
            assert(entries_map(entries) == entries_map(rest).insert(entries[n].0, entries[n].1));
            if entries_map(entries).contains_key(id) && id != entries[n].0 {
                assert(entries_map(rest).contains_key(id));
                let i = choose|i: int| 0 <= i < rest.len() && (#[trigger] rest[i]).0 == id;
                assert(entries[i] == rest[i]);
            }
            if exists|i: int| 0 <= i < entries.len() && (#[trigger] entries[i]).0 == id {
                let i = choose|i: int| 0 <= i < entries.len() && (#[trigger] entries[i]).0 == id;
                if i < n {
                    assert(rest[i] == entries[i]);
                    assert(entries_map(rest).contains_key(id));
                }
            }
        }
        assert forall|i: int|
            0 <= i < entries.len() && is_last_for_its_id(entries, i) implies entries_map(entries)[(
            #[trigger] entries[i]).0] == entries[i].1 by {
            if i < n {
                assert(entries[n].0 != entries[i].0);
                assert(rest[i] == entries[i]);
                assert forall|k: int| i < k < rest.len() implies (#[trigger] rest[k]).0 != rest[i].0 by {
                    assert(rest[k] == entries[k]);
                }
            }
        }
    }
}

/// Each record's object id, as `get_mirror_id` gives it for the record's
/// fields, with the record's id; in order.
pub fn record_entries<F: DataMirror>(records: &[RecordRef<F>]) -> (entries: Vec<
    (<F::Object as DataObject>::Id, String),
>)
    ensures
        entries_of(entries@, records@),
{
    let mut entries: Vec<(<F::Object as DataObject>::Id, String)> = Vec::new();
    let mut i: usize = 0;
    while i < records.len()
        invariant
            i <= records@.len(),
            entries_of(entries@, records@.take(i as int)),
        decreases records@.len() - i,
    {
        entries.push((records[i].fields.get_mirror_id(), records[i].id.clone()));
        i = i + 1;
    }
    proof {
        assert(records@.take(records@.len() as int) =~= records@);
    }
    entries
}

impl<O: DataObject> SyncOutput<O> {
    /// The report of a sync from its entries, inserted in order (see
    /// [`entries_map`]), and its counts.
    pub fn from_entries(
        entries: Vec<(O::Id, String)>,
        updated_count: usize,
        created_count: usize,
        skipped_count: usize,
    ) -> (out: Self)
        requires
            obeys_key_model::<O::Id>(),
        ensures
            out.map@ == entries_map(entries@),
            out.updated_count == updated_count,
            out.created_count == created_count,
            out.skipped_count == skipped_count,
    {
        broadcast use vstd::std_specs::hash::axiom_random_state_builds_valid_hashers;

        let mut map: HashMap<O::Id, String> = HashMap::new();
        let ghost all = entries@;
        for entry in it: entries
            invariant
                obeys_key_model::<O::Id>(),
                it.seq() == all,
                map@ == entries_map(all.take(it.index() as int)),
        {
            proof {
                let i: int = it.index() as int;
                assert(all.take(i + 1).drop_last() =~= all.take(i));
            }
            let (id, record_id) = entry;
            map.insert(id, record_id);
        }
        proof {
            assert(all.take(all.len() as int) =~= all);
        }
        SyncOutput { map, updated_count, created_count, skipped_count }
    }
}

/// Whether `entries` are the entries of a sync: those of the updated records,
/// then of the skipped ones, then of the created ones.
pub open spec fn sync_entries_of<'a, F: DataMirror>(
    entries: Seq<(<F::Object as DataObject>::Id, String)>,
    updated: Seq<RecordRef<'a, F>>,
    skipped: Seq<RecordRef<'a, F>>,
    created: Seq<RecordRef<'a, F>>,
) -> bool {
    &&& entries.len() == updated.len() + skipped.len() + created.len()
    &&& entries_of(entries.take(updated.len() as int), updated)
    &&& entries_of(
        entries.subrange(updated.len() as int, (updated.len() + skipped.len()) as int),
        skipped,
    )
    &&& entries_of(entries.skip((updated.len() + skipped.len()) as int), created)
}

/// The report of a sync, once the updates were sent and the new records
/// created: the map from each object id, as the records' fields name it, to
/// the record's id (the updated records first, then the skipped ones, then
/// the created ones, a later entry winning), and the number of records
/// updated, created and skipped.
pub fn finish_sync<F: DataMirror>(
    updated: &[RecordRef<F>],
    skipped: &[RecordRef<F>],
    created: &[RecordRef<F>],
) -> (out: SyncOutput<F::Object>)
    requires
        obeys_key_model::<<F::Object as DataObject>::Id>(),
    ensures
        exists|entries: Seq<(<F::Object as DataObject>::Id, String)>|
            sync_entries_of(entries, updated@, skipped@, created@) && out.map@ == entries_map(
                entries,
            ),
        out.updated_count == updated@.len(),
        out.created_count == created@.len(),
        out.skipped_count == skipped@.len(),
{
    let mut entries = record_entries(updated);
    let mut skipped_entries = record_entries(skipped);
    let mut created_entries = record_entries(created);
    let ghost e1 = entries@;
    let ghost e2 = skipped_entries@;
    let ghost e3 = created_entries@;
    entries.append(&mut skipped_entries);
    entries.append(&mut created_entries);
    proof {
        let all = entries@;
        assert(all =~= e1 + e2 + e3);
        assert(all.take(e1.len() as int) =~= e1);
        assert(all.subrange(e1.len() as int, (e1.len() + e2.len()) as int) =~= e2);
        assert(all.skip((e1.len() + e2.len()) as int) =~= e3);
    }
    SyncOutput::from_entries(entries, updated.len(), created.len(), skipped.len())
}

/// The character of a decimal digit.
pub open spec fn digit_char(d: nat) -> char {
    if d == 0 {
        '0'
    } else if d == 1 {
        '1'
    } else if d == 2 {
        '2'
    } else if d == 3 {
        '3'
    } else if d == 4 {
        '4'
    } else if d == 5 {
        '5'
    } else if d == 6 {
        '6'
    } else if d == 7 {
        '7'
    } else if d == 8 {
        '8'
    } else {
        '9'
    }
}

/// The decimal notation of `n`, without leading zeros.
pub open spec fn decimal(n: nat) -> Seq<char>
    decreases n,
{
    if n < 10 {
        seq![digit_char(n)]
    } else {
        decimal(n / 10).push(digit_char(n % 10))
    }
}

/// The number that a string of decimal digits denotes.
pub open spec fn decimal_value(digits: Seq<char>) -> nat
    decreases digits.len(),
{
    if digits.len() == 0 {
        0
    } else {
        10 * decimal_value(digits.drop_last()) + digit_value(digits.last())
    }
}

/// The value of a decimal digit character.
pub open spec fn digit_value(c: char) -> nat {
    if c == '1' {
        1
    } else if c == '2' {
        2
    } else if c == '3' {
        3
    } else if c == '4' {
        4
    } else if c == '5' {
        5
    } else if c == '6' {
        6
    } else if c == '7' {
        7
    } else if c == '8' {
        8
    } else if c == '9' {
        9
    } else {
        0
    }
}

/// The decimal notation of a number is made of digits, starts with a non-zero
/// digit unless the number is zero, and denotes the number.
pub proof fn lemma_decimal_denotes(n: nat)
    ensures
        decimal(n).len() > 0,
        forall|i: int| 0 <= i < decimal(n).len() ==> '0' <= #[trigger] decimal(n)[i] <= '9',
        n > 0 ==> decimal(n)[0] != '0',
        n < 10 <==> decimal(n).len() == 1,
        decimal_value(decimal(n)) == n,
    decreases n,
{
    if n >= 10 {
        lemma_decimal_denotes(n / 10);
        let d = decimal(n);
        assert(d.drop_last() =~= decimal(n / 10));
        assert(d[0] == decimal(n / 10)[0]);
        assert forall|i: int| 0 <= i < d.len() implies '0' <= #[trigger] d[i] <= '9' by {
            if i < d.len() - 1 {
                assert(d[i] == decimal(n / 10)[i]);
            }
        }
        assert(d.last() == digit_char(n % 10));
        assert(digit_value(digit_char(n % 10)) == n % 10);
        assert(n == 10 * (n / 10) + n % 10);
        assert(decimal_value(d) == 10 * decimal_value(d.drop_last()) + digit_value(d.last()));
        assert(decimal_value(d.drop_last()) == n / 10);
    } else {
        let d = decimal(n);
        assert(d.drop_last() =~= Seq::<char>::empty());
        assert(digit_value(digit_char(n)) == n);
        assert(decimal_value(d) == 10 * decimal_value(d.drop_last()) + digit_value(d.last()));
    }
}

/// The one-character string of a decimal digit.
fn digit_str(d: usize) -> (s: &'static str)
    requires
        d < 10,
    ensures
        s@ == seq![digit_char(d as nat)],
{
    proof {
        reveal_strlit("0");
        reveal_strlit("1");
        reveal_strlit("2");
        reveal_strlit("3");
        reveal_strlit("4");
        reveal_strlit("5");
        reveal_strlit("6");
        reveal_strlit("7");
        reveal_strlit("8");
        reveal_strlit("9");
    }
    match d {
        0 => "0",
        1 => "1",
        2 => "2",
        3 => "3",
        4 => "4",
        5 => "5",
        6 => "6",
        7 => "7",
        8 => "8",
        _ => "9",
    }
}

/// The decimal notation of `n`.
pub fn decimal_string(n: usize) -> (s: String)
    ensures
        s@ == decimal(n as nat),
    decreases n,
{
    if n < 10 {
        String::from_str(digit_str(n))
    } else {
        let mut s = decimal_string(n / 10);
        s.append(digit_str(n % 10));
        s
    }
}

/// The one-line report of a sync's counts:
/// `"{updated} updated + {created} created + {skipped} skipped = {total} total"`.
pub open spec fn summary_text(updated: nat, created: nat, skipped: nat) -> Seq<char> {
    decimal(updated) + " updated + "@ + decimal(created) + " created + "@ + decimal(skipped)
        + " skipped = "@ + decimal(updated + created + skipped) + " total"@
}

/// Whether `digits` is the decimal notation of `n`: digits `0` to `9`, with
/// no leading zero, that denote `n`.
pub open spec fn denotes(digits: Seq<char>, n: nat) -> bool {
    &&& digits.len() > 0
    &&& (digits.len() == 1 || digits[0] != '0')
    &&& forall|i: int| 0 <= i < digits.len() ==> '0' <= #[trigger] digits[i] <= '9'
    &&& decimal_value(digits) == n
}

/// Whether `text` reports the counts: the number of updated records, ` updated
/// + `, the number created, ` created + `, the number skipped, ` skipped = `,
/// their total and ` total`, each number in decimal digits.
pub open spec fn reports_counts(text: Seq<char>, updated: nat, created: nat, skipped: nat) -> bool {
    exists|u: Seq<char>, c: Seq<char>, s: Seq<char>, t: Seq<char>|
        #![trigger denotes(u, updated), denotes(c, created), denotes(s, skipped), denotes(t, updated + created + skipped)]
        denotes(u, updated) && denotes(c, created) && denotes(s, skipped) && denotes(
            t,
            updated + created + skipped,
        ) && text == u + " updated + "@ + c + " created + "@ + s + " skipped = "@ + t + " total"@
}

/// The report of a sync names each count and the total as the numbers they
/// are.
pub proof fn lemma_summary_reports_counts(updated: nat, created: nat, skipped: nat)
    ensures
        reports_counts(summary_text(updated, created, skipped), updated, created, skipped),
{
    let total = updated + created + skipped;
    lemma_decimal_denotes(updated);
    lemma_decimal_denotes(created);
    lemma_decimal_denotes(skipped);
    lemma_decimal_denotes(total);
    assert(denotes(decimal(updated), updated));
    assert(denotes(decimal(created), created));
    assert(denotes(decimal(skipped), skipped));
    assert(denotes(decimal(total), total));
}

/// The one-line report of a sync's counts; see [`summary_text`].
pub fn summary(updated_count: usize, created_count: usize, skipped_count: usize) -> (s: String)
    requires
        updated_count + created_count + skipped_count <= usize::MAX,
    ensures
        s@ == summary_text(updated_count as nat, created_count as nat, skipped_count as nat),
        reports_counts(s@, updated_count as nat, created_count as nat, skipped_count as nat),
{
    proof {
        lemma_summary_reports_counts(updated_count as nat, created_count as nat, skipped_count as nat);
    }
    let total: usize = updated_count + created_count + skipped_count;
    let mut s = decimal_string(updated_count);
    s.append(" updated + ");
    s.append(decimal_string(created_count).as_str());
    s.append(" created + ");
    s.append(decimal_string(skipped_count).as_str());
    s.append(" skipped = ");
    s.append(decimal_string(total).as_str());
    s.append(" total");
    s
}

impl<O: DataObject> SyncOutput<O> {
    /// The one-line report of the counts; see [`summary_text`].
    pub fn to_string(&self) -> (s: String)
        requires
            self.updated_count + self.created_count + self.skipped_count <= usize::MAX,
        ensures
            s@ == summary_text(
                self.updated_count as nat,
                self.created_count as nat,
                self.skipped_count as nat,
            ),
    {
        summary(self.updated_count, self.created_count, self.skipped_count)
    }
}

} // verus!

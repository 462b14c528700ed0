//! The registry: which collectors are registered, and the rules that keep
//! them consistent with one another.

use std::collections::HashMap;
use std::collections::HashSet;
use vstd::prelude::*;
use vstd::std_specs::hash::group_hash_axioms;
use vstd::std_specs::iter::IteratorSpec;
use crate::descriptor::{
    collector_id_of, ids_of, lemma_ids_of, wrapped_sum, Descriptor, DescriptorView,
};
use crate::model::{label_views, FamilyView, LabelPair, LabelPairView, MetricFamily};
use crate::pipeline::{
    all_labelled, all_sorted, gather_from, gathered, names_ascending, none_empty,
};

verus! {

/// Why the registry refused a collector.
#[derive(Clone, Copy, Debug, PartialEq, Eq)]
pub enum RegistryError {
    /// A descriptor of the collector, or the collector as a whole, is
    /// registered already.
    AlreadyRegistered,
    /// A descriptor has the name of an earlier one, and another fingerprint
    /// of label names and help text.
    InconsistentMetricDescriptor,
    /// The collector describes one stream twice.
    DuplicateDescriptorInCollector,
    /// No collector with these descriptors is registered.
    NotRegistered,
}

/// Something that describes the streams it measures and hands out their
/// current values.
pub trait Collector {
    /// Whether the collector may describe itself by `descriptors`. A
    /// collector that does not say may describe itself in any way.
    open spec fn may_describe(&self, descriptors: Seq<DescriptorView>) -> bool {
        true
    }

    /// The descriptors of the streams that the collector measures.
    fn describe(&self) -> (r: Vec<Descriptor>)
        ensures
            self.may_describe(r.deep_view()),
    ;

    /// Whether the collector may hand out `families` as its current values.
    /// A collector that does not say may hand out anything.
    open spec fn may_snapshot(&self, families: Seq<FamilyView>) -> bool {
        true
    }

    /// The current values of the streams that the collector measures.
    fn snapshot(&self) -> (r: Vec<MetricFamily>)
        ensures
            self.may_snapshot(r.deep_view()),
    ;
}

/// The first index at or after `from` whose entry has the name `name`.
pub open spec fn name_index(entries: Seq<(String, u64)>, name: Seq<char>, from: int) -> int
    decreases entries.len() - from,
{
    if from < 0 || from >= entries.len() || entries[from].0@ == name {
        from
    } else {
        name_index(entries, name, from + 1)
    }
}

/// The map from names to fingerprints that a list of entries stands for.
/// Of two entries with one name the first counts.
pub open spec fn name_table(entries: Seq<(String, u64)>) -> Map<Seq<char>, u64> {
    Map::new(
        |name: Seq<char>| name_index(entries, name, 0) < entries.len(),
        |name: Seq<char>| entries[name_index(entries, name, 0)].1,
    )
}

proof fn lemma_name_index(entries: Seq<(String, u64)>, name: Seq<char>, from: int)
    requires
        0 <= from <= entries.len(),
    ensures
        from <= name_index(entries, name, from) <= entries.len(),
        name_index(entries, name, from) < entries.len() ==> entries[name_index(
            entries,
            name,
            from,
        )].0@ == name,
        forall|i: int|
            from <= i < name_index(entries, name, from) ==> (#[trigger] entries[i]).0@ != name,
    decreases entries.len() - from,
{
    if from >= entries.len() || entries[from].0@ == name {
    } else {
        lemma_name_index(entries, name, from + 1);
    }
}

proof fn lemma_name_index_push(
    entries: Seq<(String, u64)>,
    entry: (String, u64),
    name: Seq<char>,
    from: int,
)
    requires
        0 <= from <= entries.len(),
    ensures
        name_index(entries.push(entry), name, from) == if name_index(entries, name, from)
            < entries.len() || entry.0@ == name {
            name_index(entries, name, from)
        } else {
            entries.len() as int + 1
        },
    decreases entries.len() - from,
{
    let more = entries.push(entry);
    lemma_name_index(entries, name, from);
    if from < entries.len() {
        assert(more[from] == entries[from]);
        if entries[from].0@ != name {
            lemma_name_index_push(entries, entry, name, from + 1);
        }
    } else {
        assert(more[from] == entry);
        if entry.0@ != name {
            assert(name_index(more, name, from + 1) == from + 1);
        }
    }
}

proof fn lemma_name_table_push(entries: Seq<(String, u64)>, entry: (String, u64))
    requires
        !name_table(entries).contains_key(entry.0@),
    ensures
        name_table(entries.push(entry)) == name_table(entries).insert(entry.0@, entry.1),
{
    let more = entries.push(entry);
    let target = name_table(entries).insert(entry.0@, entry.1);
    assert forall|name: Seq<char>| #[trigger]
        name_table(more).dom().contains(name) == target.dom().contains(name) by {
        lemma_name_index_push(entries, entry, name, 0);
        lemma_name_index(entries, name, 0);
    }
    assert forall|name: Seq<char>| #[trigger]
        name_table(more).dom().contains(name) implies name_table(more)[name] == target[name] by {
        lemma_name_index_push(entries, entry, name, 0);
        lemma_name_index(entries, name, 0);
        let k = name_index(entries, name, 0);
        if k < entries.len() {
            assert(more[k] == entries[k]);
        } else {
            assert(more[k] == entry);
        }
    }
    assert(name_table(more) =~= target);
}

fn lookup(entries: &Vec<(String, u64)>, name: &String) -> (r: Option<u64>)
    ensures
        r == if name_table(entries@).contains_key(name@) {
            Some(name_table(entries@)[name@])
        } else {
            None::<u64>
        },
{
    let mut i: usize = 0;
    while i < entries.len()
        invariant
            0 <= i <= entries@.len(),
            name_index(entries@, name@, 0) == name_index(entries@, name@, i as int),
        decreases entries@.len() - i,
    {
        if entries[i].0 == *name {
            return Some(entries[i].1);
        }
        i += 1;
    }
    None
}

/// What the registry holds, as mathematical values.
pub struct RegistryView<C> {
    /// The registered collectors, each under its id.
    pub collectors: Map<u64, C>,
    /// The fingerprint that goes with each name that was ever described.
    pub dim_hashes: Map<Seq<char>, u64>,
    /// The ids of the descriptors of the registered collectors.
    pub desc_ids: Set<u64>,
    /// The labels that go on every gathered metric, where any were set.
    pub labels: Option<Seq<LabelPairView>>,
}

/// Where the check of a collector's descriptors stands.
pub struct Scan {
    /// The fingerprints by name, with those of the descriptors checked.
    pub dim_hashes: Map<Seq<char>, u64>,
    /// The ids of the descriptors checked.
    pub seen: Set<u64>,
    /// The sum, modulo 2^64, of the ids seen.
    pub collector_id: u64,
    /// Why the check stopped, if it did.
    pub failure: Option<RegistryError>,
}

/// The check of one more descriptor. A check that has failed stays as it
/// is. The descriptor's id must not be registered; its name must not go
/// with another fingerprint; then its fingerprint is recorded, and its id
/// must not have been seen in this collector.
pub open spec fn scan_step(desc_ids: Set<u64>, scan: Scan, d: DescriptorView) -> Scan {
    if scan.failure is Some {
        scan
    } else if desc_ids.contains(d.id) {
        Scan {
            dim_hashes: scan.dim_hashes,
            seen: scan.seen,
            collector_id: scan.collector_id,
            failure: Some(RegistryError::AlreadyRegistered),
        }
    } else if scan.dim_hashes.contains_key(d.fq_name) && scan.dim_hashes[d.fq_name] != d.dim_hash {
        Scan {
            dim_hashes: scan.dim_hashes,
            seen: scan.seen,
            collector_id: scan.collector_id,
            failure: Some(RegistryError::InconsistentMetricDescriptor),
        }
    } else if scan.seen.contains(d.id) {
        Scan {
            dim_hashes: scan.dim_hashes.insert(d.fq_name, d.dim_hash),
            seen: scan.seen,
            collector_id: scan.collector_id,
            failure: Some(RegistryError::DuplicateDescriptorInCollector),
        }
    } else {
        Scan {
            dim_hashes: scan.dim_hashes.insert(d.fq_name, d.dim_hash),
            seen: scan.seen.insert(d.id),
            collector_id: wrapped_sum(scan.collector_id, d.id),
            failure: None,
        }
    }
}

/// The check of the descriptors of one collector, first to last, against
/// the registered ids and the fingerprints known by name.
pub open spec fn scan(
    desc_ids: Set<u64>,
    dim_hashes: Map<Seq<char>, u64>,
    descriptors: Seq<DescriptorView>,
) -> Scan
    decreases descriptors.len(),
{
    if descriptors.len() == 0 {
        Scan { dim_hashes, seen: Set::empty(), collector_id: 0, failure: None }
    } else {
        scan_step(desc_ids, scan(desc_ids, dim_hashes, descriptors.drop_last()), descriptors.last())
    }
}

/// What registering a collector with these descriptors returns.
pub open spec fn register_result<C>(before: RegistryView<C>, descriptors: Seq<DescriptorView>)
    -> Result<(), RegistryError> {
    let checked = scan(before.desc_ids, before.dim_hashes, descriptors);
    match checked.failure {
        Some(e) => Err(e),
        None => if before.collectors.contains_key(checked.collector_id) {
            Err(RegistryError::AlreadyRegistered)
        } else {
            Ok(())
        },
    }
}

/// What the registry holds after registering `collector` with these
/// descriptors. The fingerprints recorded during the check stay, whatever
/// the result; the rest changes only on success.
pub open spec fn register_state<C>(
    before: RegistryView<C>,
    descriptors: Seq<DescriptorView>,
    collector: C,
) -> RegistryView<C> {
    let checked = scan(before.desc_ids, before.dim_hashes, descriptors);
    if register_result(before, descriptors) is Ok {
        RegistryView {
            collectors: before.collectors.insert(checked.collector_id, collector),
            dim_hashes: checked.dim_hashes,
            desc_ids: before.desc_ids.union(checked.seen),
            labels: before.labels,
        }
    } else {
        RegistryView {
            collectors: before.collectors,
            dim_hashes: checked.dim_hashes,
            desc_ids: before.desc_ids,
            labels: before.labels,
        }
    }
}

/// What unregistering a collector with these descriptors returns.
pub open spec fn unregister_result<C>(before: RegistryView<C>, descriptors: Seq<DescriptorView>)
    -> Result<(), RegistryError> {
    if before.collectors.contains_key(collector_id_of(descriptors)) {
        Ok(())
    } else {
        Err(RegistryError::NotRegistered)
    }
}

/// What the registry holds after unregistering a collector with these
/// descriptors. The fingerprints by name stay in every case.
pub open spec fn unregister_state<C>(before: RegistryView<C>, descriptors: Seq<DescriptorView>)
    -> RegistryView<C> {
    if unregister_result(before, descriptors) is Ok {
        RegistryView {
            collectors: before.collectors.remove(collector_id_of(descriptors)),
            dim_hashes: before.dim_hashes,
            desc_ids: before.desc_ids.difference(ids_of(descriptors)),
            labels: before.labels,
        }
    } else {
        before
    }
}

/// The families of the snapshots, snapshot after snapshot.
pub open spec fn concat(snapshots: Seq<Seq<FamilyView>>) -> Seq<FamilyView>
    decreases snapshots.len(),
{
    if snapshots.len() == 0 {
        Seq::empty()
    } else {
        concat(snapshots.drop_last()) + snapshots.last()
    }
}

/// The labels that go on every gathered metric: those set, or none.
pub open spec fn global_labels(labels: Option<Seq<LabelPairView>>) -> Seq<LabelPairView> {
    match labels {
        Some(l) => l,
        None => Seq::empty(),
    }
}

/// Whether `result` is what the registry exposes when its collectors,
/// taken in the order `ids`, hand out `snapshots`: every registered
/// collector is asked once, and hands out what it may.
pub open spec fn gathers<C: Collector>(
    registry: RegistryView<C>,
    ids: Seq<u64>,
    snapshots: Seq<Seq<FamilyView>>,
    result: Seq<FamilyView>,
) -> bool {
    &&& ids.no_duplicates()
    &&& ids.to_set() == registry.collectors.dom()
    &&& snapshots.len() == ids.len()
    &&& forall|k: int|
        0 <= k < ids.len() ==> registry.collectors[ids[k]].may_snapshot(#[trigger] snapshots[k])
    &&& result == gathered(concat(snapshots), global_labels(registry.labels))
}

/// A check that has failed on the first `i` descriptors has failed in the
/// same way on all of them.
pub proof fn lemma_scan_failure_stays(
    desc_ids: Set<u64>,
    dim_hashes: Map<Seq<char>, u64>,
    descriptors: Seq<DescriptorView>,
    i: int,
)
    requires
        0 <= i <= descriptors.len(),
        scan(desc_ids, dim_hashes, descriptors.subrange(0, i)).failure is Some,
    ensures
        scan(desc_ids, dim_hashes, descriptors) == scan(
            desc_ids,
            dim_hashes,
            descriptors.subrange(0, i),
        ),
    decreases descriptors.len() - i,
{
    if i < descriptors.len() {
        assert(descriptors.subrange(0, i + 1).drop_last() =~= descriptors.subrange(0, i));
        lemma_scan_failure_stays(desc_ids, dim_hashes, descriptors, i + 1);
    } else {
        assert(descriptors.subrange(0, i) =~= descriptors);
    }
}

/// A check that has not failed has seen the ids of all descriptors, each
/// once, and has summed them up to the collector's id.
pub proof fn lemma_scan_passed(
    desc_ids: Set<u64>,
    dim_hashes: Map<Seq<char>, u64>,
    descriptors: Seq<DescriptorView>,
)
    requires
        scan(desc_ids, dim_hashes, descriptors).failure is None,
    ensures
        scan(desc_ids, dim_hashes, descriptors).seen == ids_of(descriptors),
        scan(desc_ids, dim_hashes, descriptors).collector_id == collector_id_of(descriptors),
        scan(desc_ids, dim_hashes, descriptors).seen.disjoint(desc_ids),
    decreases descriptors.len(),
{
    if descriptors.len() > 0 {
        lemma_scan_passed(desc_ids, dim_hashes, descriptors.drop_last());
    }
}

/// After a check that has not failed, every descriptor's name goes with
/// the descriptor's fingerprint, and what was known before still is.
pub proof fn lemma_scan_records(
    desc_ids: Set<u64>,
    dim_hashes: Map<Seq<char>, u64>,
    descriptors: Seq<DescriptorView>,
)
    requires
        scan(desc_ids, dim_hashes, descriptors).failure is None,
    ensures
        forall|i: int|
            0 <= i < descriptors.len() ==> scan(
                desc_ids,
                dim_hashes,
                descriptors,
            ).dim_hashes.contains_key((#[trigger] descriptors[i]).fq_name) && scan(
                desc_ids,
                dim_hashes,
                descriptors,
            ).dim_hashes[descriptors[i].fq_name] == descriptors[i].dim_hash,
        forall|name: Seq<char>| #[trigger]
            dim_hashes.contains_key(name) ==> scan(
                desc_ids,
                dim_hashes,
                descriptors,
            ).dim_hashes.contains_key(name) && scan(desc_ids, dim_hashes, descriptors).dim_hashes[name]
                == dim_hashes[name],
    decreases descriptors.len(),
{
    if descriptors.len() > 0 {
        let rest = descriptors.drop_last();
        lemma_scan_records(desc_ids, dim_hashes, rest);
        let s = scan(desc_ids, dim_hashes, descriptors);
        assert forall|i: int| 0 <= i < descriptors.len() implies s.dim_hashes.contains_key(
            (#[trigger] descriptors[i]).fq_name,
        ) && s.dim_hashes[descriptors[i].fq_name] == descriptors[i].dim_hash by {
            if i < rest.len() {
                assert(rest[i] == descriptors[i]);
            }
        }
    }
}

/// Whether the check of `descriptors` comes to compare the fingerprint of
/// the descriptor at `b`, or has found an inconsistent descriptor before
/// it: the check has not failed before it for a descriptor that is
/// registered already or occurs twice, and it is not registered itself.
pub open spec fn reaches_fingerprint<C>(
    registry: RegistryView<C>,
    descriptors: Seq<DescriptorView>,
    b: int,
) -> bool {
    let before_it = scan(registry.desc_ids, registry.dim_hashes, descriptors.subrange(0, b));
    before_it.failure == Some(RegistryError::InconsistentMetricDescriptor) || (before_it.failure
        is None && !registry.desc_ids.contains(descriptors[b].id))
}

/// A collector is refused as inconsistent where one of its descriptors has
/// the name of a descriptor of a collector registered before, and another
/// fingerprint, unless the check refuses the collector for something else
/// before it comes to that.
pub proof fn lemma_other_shape_is_refused<C>(
    before: RegistryView<C>,
    first: Seq<DescriptorView>,
    collector: C,
    second: Seq<DescriptorView>,
    a: int,
    b: int,
)
    requires
        register_result(before, first) is Ok,
        0 <= a < first.len(),
        0 <= b < second.len(),
        first[a].fq_name == second[b].fq_name,
        first[a].dim_hash != second[b].dim_hash,
        reaches_fingerprint(register_state(before, first, collector), second, b),
    ensures
        register_result(register_state(before, first, collector), second) == Err::<
            (),
            RegistryError,
        >(RegistryError::InconsistentMetricDescriptor),
{
    let after = register_state(before, first, collector);
    let upto = second.subrange(0, b);
    let before_it = scan(after.desc_ids, after.dim_hashes, upto);
    if before_it.failure is Some {
        lemma_scan_failure_stays(after.desc_ids, after.dim_hashes, second, b);
    } else {
        lemma_scan_records(before.desc_ids, before.dim_hashes, first);
        lemma_scan_records(after.desc_ids, after.dim_hashes, upto);
        assert(after.dim_hashes.contains_key(first[a].fq_name));
        let more = second.subrange(0, b + 1);
        assert(more.drop_last() =~= upto);
        assert(more.last() == second[b]);
        assert(scan(after.desc_ids, after.dim_hashes, more).failure == Some(
            RegistryError::InconsistentMetricDescriptor,
        ));
        lemma_scan_failure_stays(after.desc_ids, after.dim_hashes, second, b + 1);
    }
}

/// A collector that was registered is refused as registered already when
/// it is registered once more, and the registry stays as it was.
pub proof fn lemma_registered_twice<C>(
    before: RegistryView<C>,
    descriptors: Seq<DescriptorView>,
    collector: C,
    again: C,
)
    requires
        register_result(before, descriptors) is Ok,
    ensures
        register_result(register_state(before, descriptors, collector), descriptors) == Err::<
            (),
            RegistryError,
        >(RegistryError::AlreadyRegistered),
        register_state(register_state(before, descriptors, collector), descriptors, again)
            == register_state(before, descriptors, collector),
{
    let after = register_state(before, descriptors, collector);
    lemma_scan_passed(before.desc_ids, before.dim_hashes, descriptors);
    lemma_ids_of(descriptors);
    if descriptors.len() > 0 {
        let one = descriptors.subrange(0, 1);
        assert(one.drop_last() =~= Seq::<DescriptorView>::empty());
        assert(one.last() == descriptors[0]);
        assert(after.desc_ids.contains(descriptors[0].id));
        assert(scan(after.desc_ids, after.dim_hashes, one.drop_last()).failure is None);
        assert(scan(after.desc_ids, after.dim_hashes, one).failure == Some(
            RegistryError::AlreadyRegistered,
        ));
        lemma_scan_failure_stays(after.desc_ids, after.dim_hashes, descriptors, 1);
    } else {
        assert(after.collectors.contains_key(0));
    }
}

/// A collector that was registered can be unregistered by its descriptors.
/// The registry then holds the collectors and the descriptor ids that it
/// held before, and the fingerprints that the registration recorded.
pub proof fn lemma_unregister_undoes_register<C>(
    before: RegistryView<C>,
    descriptors: Seq<DescriptorView>,
    collector: C,
)
    requires
        register_result(before, descriptors) is Ok,
    ensures
        unregister_result(register_state(before, descriptors, collector), descriptors) is Ok,
        unregister_state(register_state(before, descriptors, collector), descriptors).collectors
            == before.collectors,
        unregister_state(register_state(before, descriptors, collector), descriptors).desc_ids
            == before.desc_ids,
        unregister_state(register_state(before, descriptors, collector), descriptors).dim_hashes
            == register_state(before, descriptors, collector).dim_hashes,
{
    let after = register_state(before, descriptors, collector);
    lemma_scan_passed(before.desc_ids, before.dim_hashes, descriptors);
    let id = collector_id_of(descriptors);
    assert(after.collectors.remove(id) =~= before.collectors);
    assert(after.desc_ids.difference(ids_of(descriptors)) =~= before.desc_ids);
}

/// The labels that go on gathered metrics play no part in registration.
pub proof fn lemma_labels_leave_registration<C>(
    registry: RegistryView<C>,
    labels: Option<Seq<LabelPairView>>,
    descriptors: Seq<DescriptorView>,
)
    ensures
        register_result(
            RegistryView {
                collectors: registry.collectors,
                dim_hashes: registry.dim_hashes,
                desc_ids: registry.desc_ids,
                labels,
            },
            descriptors,
        ) == register_result(registry, descriptors),
{
}

/// The registry of collectors.
pub struct Registry<C: Collector> {
    collectors_by_id: HashMap<u64, C>,
    dim_hashes_by_name: Vec<(String, u64)>,
    desc_ids: HashSet<u64>,
    labels: Option<Vec<LabelPair>>,
}

impl<C: Collector> View for Registry<C> {
    type V = RegistryView<C>;

    closed spec fn view(&self) -> RegistryView<C> {
        RegistryView {
            collectors: self.collectors_by_id@,
            dim_hashes: name_table(self.dim_hashes_by_name@),
            desc_ids: self.desc_ids@,
            labels: match self.labels {
                Some(v) => Some(v.deep_view()),
                None => None,
            },
        }
    }
}

impl<C: Collector> Registry<C> {
    /// A registry without collectors, names or labels.
    pub fn new() -> (r: Self)
        ensures
            r@.collectors == Map::<u64, C>::empty(),
            r@.dim_hashes == Map::<Seq<char>, u64>::empty(),
            r@.desc_ids == Set::<u64>::empty(),
            r@.labels is None,
    {
        let r = Registry {
            collectors_by_id: HashMap::new(),
            dim_hashes_by_name: Vec::new(),
            desc_ids: HashSet::new(),
            labels: None,
        };
        assert(name_table(r.dim_hashes_by_name@) =~= Map::<Seq<char>, u64>::empty());
        r
    }

    /// Sets the labels that go on every gathered metric, in place of those
    /// set before.
    pub fn set_labels(&mut self, labels: Vec<LabelPair>)
        ensures
            final(self)@ == (RegistryView {
                collectors: old(self)@.collectors,
                dim_hashes: old(self)@.dim_hashes,
                desc_ids: old(self)@.desc_ids,
                labels: Some(labels.deep_view()),
            }),
    {
        self.labels = Some(labels);
    }

    /// How many collectors are registered.
    pub fn collector_count(&self) -> (n: usize)
        ensures
            n == self@.collectors.len(),
    {
        broadcast use group_hash_axioms;

        self.collectors_by_id.len()
    }

    /// The fingerprint that goes with the name, where the name was ever
    /// described.
    pub fn dim_hash(&self, fq_name: &String) -> (r: Option<u64>)
        ensures
            r == if self@.dim_hashes.contains_key(fq_name@) {
                Some(self@.dim_hashes[fq_name@])
            } else {
                None::<u64>
            },
    {
        lookup(&self.dim_hashes_by_name, fq_name)
    }

    /// Whether a descriptor with this id is registered.
    pub fn has_descriptor(&self, id: u64) -> (r: bool)
        ensures
            r == self@.desc_ids.contains(id),
    {
        broadcast use group_hash_axioms;

        self.desc_ids.contains(&id)
    }

    /// The labels that go on every gathered metric, where any were set.
    pub fn labels(&self) -> (r: &Option<Vec<LabelPair>>)
        ensures
            label_views(*r) == global_labels(self@.labels),
            r is Some == self@.labels is Some,
    {
        &self.labels
    }

    /// Registers `collector` as one that describes itself by `descriptors`.
    pub fn register_with(&mut self, descriptors: &Vec<Descriptor>, collector: C) -> (r: Result<
        (),
        RegistryError,
    >)
        ensures
            r == register_result(old(self)@, descriptors.deep_view()),
            final(self)@ == register_state(old(self)@, descriptors.deep_view(), collector),
    {
        broadcast use group_hash_axioms;

        let ghost before = self@;
        let ghost descs = descriptors.deep_view();
        let mut seen: HashSet<u64> = HashSet::new();
        let mut collector_id: u64 = 0;
        let mut i: usize = 0;
        assert(descs.subrange(0, 0) =~= Seq::<DescriptorView>::empty());
        while i < descriptors.len()
            invariant
                0 <= i <= descs.len(),
                descs == descriptors.deep_view(),
                descs.len() == descriptors@.len(),
                before == old(self)@,
                self.collectors_by_id@ == before.collectors,
                self.desc_ids@ == before.desc_ids,
                self.labels == old(self).labels,
                scan(before.desc_ids, before.dim_hashes, descs.subrange(0, i as int)) == (Scan {
                    dim_hashes: name_table(self.dim_hashes_by_name@),
                    seen: seen@,
                    collector_id,
                    failure: None,
                }),
            decreases descs.len() - i,
        {
            let d = &descriptors[i];
            let ghost so_far = scan(before.desc_ids, before.dim_hashes, descs.subrange(0, i as int));
            let ghost next = scan(
                before.desc_ids,
                before.dim_hashes,
                descs.subrange(0, i as int + 1),
            );
            proof {
                assert(descs.subrange(0, i as int + 1).drop_last() =~= descs.subrange(0, i as int));
                assert(descs.subrange(0, i as int + 1).last() == d@);
                assert(next == scan_step(before.desc_ids, so_far, d@));
            }
            if self.desc_ids.contains(&d.id) {
                proof {
                    lemma_scan_failure_stays(before.desc_ids, before.dim_hashes, descs, i as int + 1);
                }
                return Err(RegistryError::AlreadyRegistered);
            }
            match lookup(&self.dim_hashes_by_name, &d.fq_name) {
                Some(h) => {
                    if h != d.dim_hash {
                        proof {
                            lemma_scan_failure_stays(
                                before.desc_ids,
                                before.dim_hashes,
                                descs,
                                i as int + 1,
                            );
                        }
                        return Err(RegistryError::InconsistentMetricDescriptor);
                    }
                    assert(so_far.dim_hashes.insert(d@.fq_name, d@.dim_hash) =~= so_far.dim_hashes);
                },
                None => {
                    let entry = (d.fq_name.clone(), d.dim_hash);
                    proof {
                        lemma_name_table_push(self.dim_hashes_by_name@, entry);
                    }
                    self.dim_hashes_by_name.push(entry);
                },
            }
            assert(name_table(self.dim_hashes_by_name@) == so_far.dim_hashes.insert(
                d@.fq_name,
                d@.dim_hash,
            ));
            if !seen.insert(d.id) {
                proof {
                    assert(seen@ =~= so_far.seen);
                    lemma_scan_failure_stays(before.desc_ids, before.dim_hashes, descs, i as int + 1);
                }
                return Err(RegistryError::DuplicateDescriptorInCollector);
            }
            collector_id = collector_id.wrapping_add(d.id);
            i += 1;
        }
        assert(descs.subrange(0, i as int) =~= descs);
        let ghost checked = scan(before.desc_ids, before.dim_hashes, descs);
        if self.collectors_by_id.contains_key(&collector_id) {
            return Err(RegistryError::AlreadyRegistered);
        }
        let mut j: usize = 0;
        assert(descs.subrange(0, 0) =~= Seq::<DescriptorView>::empty());
        while j < descriptors.len()
            invariant
                0 <= j <= descs.len(),
                descs == descriptors.deep_view(),
                descs.len() == descriptors@.len(),
                self.collectors_by_id@ == before.collectors,
                self.labels == old(self).labels,
                name_table(self.dim_hashes_by_name@) == checked.dim_hashes,
                self.desc_ids@ == before.desc_ids.union(ids_of(descs.subrange(0, j as int))),
            decreases descs.len() - j,
        {
            self.desc_ids.insert(descriptors[j].id);
            proof {
                assert(descs.subrange(0, j as int + 1).drop_last() =~= descs.subrange(0, j as int));
                assert(descs.subrange(0, j as int + 1).last().id == descriptors@[j as int].id);
                assert(self.desc_ids@ =~= before.desc_ids.union(
                    ids_of(descs.subrange(0, j as int + 1)),
                ));
            }
            j += 1;
        }
        proof {
            assert(descs.subrange(0, j as int) =~= descs);
            lemma_scan_passed(before.desc_ids, before.dim_hashes, descs);
        }
        self.collectors_by_id.insert(collector_id, collector);
        Ok(())
    }

    /// Registers `collector`, by the descriptors that it gives of itself.
    pub fn register(&mut self, collector: C) -> (r: Result<(), RegistryError>)
        ensures
            exists|descriptors: Seq<DescriptorView>|
                #![trigger collector.may_describe(descriptors)]
                collector.may_describe(descriptors) && r == register_result(old(self)@, descriptors)
                    && final(self)@ == register_state(old(self)@, descriptors, collector),
    {
        let descriptors = collector.describe();
        self.register_with(&descriptors, collector)
    }

    /// Unregisters the collector that describes itself by `descriptors`.
    pub fn unregister_with(&mut self, descriptors: &Vec<Descriptor>) -> (r: Result<
        (),
        RegistryError,
    >)
        ensures
            r == unregister_result(old(self)@, descriptors.deep_view()),
            final(self)@ == unregister_state(old(self)@, descriptors.deep_view()),
            final(self)@.dim_hashes == old(self)@.dim_hashes,
            r is Err ==> final(self)@ == old(self)@,
    {
        broadcast use group_hash_axioms;

        let ghost before = self@;
        let ghost descs = descriptors.deep_view();
        let mut seen: HashSet<u64> = HashSet::new();
        let mut collector_id: u64 = 0;
        let mut i: usize = 0;
        assert(descs.subrange(0, 0) =~= Seq::<DescriptorView>::empty());
        while i < descriptors.len()
            invariant
                0 <= i <= descs.len(),
                descs == descriptors.deep_view(),
                descs.len() == descriptors@.len(),
                seen@ == ids_of(descs.subrange(0, i as int)),
                collector_id == collector_id_of(descs.subrange(0, i as int)),
            decreases descs.len() - i,
        {
            proof {
                assert(descs.subrange(0, i as int + 1).drop_last() =~= descs.subrange(0, i as int));
                assert(descs.subrange(0, i as int + 1).last().id == descriptors@[i as int].id);
            }
            if seen.insert(descriptors[i].id) {
                collector_id = collector_id.wrapping_add(descriptors[i].id);
            } else {
                assert(seen@ =~= ids_of(descs.subrange(0, i as int)));
            }
            i += 1;
        }
        assert(descs.subrange(0, i as int) =~= descs);
        if !self.collectors_by_id.contains_key(&collector_id) {
            return Err(RegistryError::NotRegistered);
        }
        self.collectors_by_id.remove(&collector_id);
        let mut j: usize = 0;
        assert(self.desc_ids@ =~= before.desc_ids.difference(ids_of(descs.subrange(0, 0))));
        while j < descriptors.len()
            invariant
                0 <= j <= descs.len(),
                descs == descriptors.deep_view(),
                descs.len() == descriptors@.len(),
                self.collectors_by_id@ == before.collectors.remove(collector_id),
                self.labels == old(self).labels,
                self.dim_hashes_by_name == old(self).dim_hashes_by_name,
                self.desc_ids@ == before.desc_ids.difference(ids_of(descs.subrange(0, j as int))),
            decreases descs.len() - j,
        {
            self.desc_ids.remove(&descriptors[j].id);
            proof {
                assert(descs.subrange(0, j as int + 1).drop_last() =~= descs.subrange(0, j as int));
                assert(descs.subrange(0, j as int + 1).last().id == descriptors@[j as int].id);
                assert(self.desc_ids@ =~= before.desc_ids.difference(
                    ids_of(descs.subrange(0, j as int + 1)),
                ));
            }
            j += 1;
        }
        assert(descs.subrange(0, j as int) =~= descs);
        Ok(())
    }

    /// Unregisters the collector that describes itself as `collector` does.
    pub fn unregister(&mut self, collector: C) -> (r: Result<(), RegistryError>)
        ensures
            exists|descriptors: Seq<DescriptorView>|
                #![trigger collector.may_describe(descriptors)]
                collector.may_describe(descriptors) && r == unregister_result(
                    old(self)@,
                    descriptors,
                ) && final(self)@ == unregister_state(old(self)@, descriptors),
    {
        let descriptors = collector.describe();
        self.unregister_with(&descriptors)
    }

    /// Asks every registered collector for its current values and exposes
    /// them: merged by name, listed by name, the metrics of each family in
    /// their order, with the global labels on every metric.
    pub fn gather(&self) -> (r: Vec<MetricFamily>)
        ensures
            exists|ids: Seq<u64>, snapshots: Seq<Seq<FamilyView>>|
                gathers(self@, ids, snapshots, r.deep_view()),
            names_ascending(r.deep_view()),
            none_empty(r.deep_view()),
            all_sorted(r.deep_view()),
            all_labelled(r.deep_view(), global_labels(self@.labels)),
    {
        broadcast use group_hash_axioms;

        let mut families: Vec<MetricFamily> = Vec::new();
        let ghost mut ids: Seq<u64> = Seq::empty();
        let ghost mut snapshots: Seq<Seq<FamilyView>> = Seq::empty();
        for id in it: self.collectors_by_id.keys()
            invariant
                ids.len() == it.index(),
                snapshots.len() == ids.len(),
                forall|k: int| 0 <= k < ids.len() ==> ids[k] == *it.seq()[k],
                forall|k: int|
                    0 <= k < ids.len() ==> self.collectors_by_id@.contains_key(#[trigger] ids[k]),
                forall|k: int|
                    0 <= k < ids.len() ==> self.collectors_by_id@[ids[k]].may_snapshot(
                        #[trigger] snapshots[k],
                    ),
                families.deep_view() == concat(snapshots),
        {
            match self.collectors_by_id.get(id) {
                Some(collector) => {
                    let mut snapshot = collector.snapshot();
                    proof {
                        let more = snapshots.push(snapshot.deep_view());
                        assert(more.drop_last() =~= snapshots);
                        assert(self.collectors_by_id@.contains_key(*id));
                        assert(self.collectors_by_id@[*id] == *collector);
                        let more_ids = ids.push(*id);
                        let held = self.collectors_by_id@;
                        assert forall|k: int| 0 <= k < more.len() implies held[more_ids[k]].may_snapshot(
                            #[trigger] more[k],
                        ) by {
                            if k < snapshots.len() {
                                assert(more[k] == snapshots[k]);
                                assert(more_ids[k] == ids[k]);
                            }
                        }
                        assert forall|k: int| 0 <= k < more_ids.len() implies held.contains_key(
                            #[trigger] more_ids[k],
                        ) by {
                            if k < ids.len() {
                                assert(more_ids[k] == ids[k]);
                            }
                        }
                        ids = ids.push(*id);
                        snapshots = more;
                    }
                    let ghost before = families.deep_view();
                    let ghost added = snapshot.deep_view();
                    families.append(&mut snapshot);
                    assert(families.deep_view() =~= before + added);
                },
                None => {
                    assert(false);
                },
            }
        }
        assert(ids =~= self.collectors_by_id.keys().remaining().unref());
        let r = gather_from(families, &self.labels);
        assert(label_views(self.labels) == global_labels(self@.labels));
        assert(gathers(self@, ids, snapshots, r.deep_view()));
        r
    }
}

impl<C: Collector> Default for Registry<C> {
    fn default() -> (r: Self)
        ensures
            r@.collectors == Map::<u64, C>::empty(),
            r@.dim_hashes == Map::<Seq<char>, u64>::empty(),
            r@.desc_ids == Set::<u64>::empty(),
            r@.labels is None,
    {
        Registry::new()
    }
}

/// Registers `c` with `registry`, by the descriptors that it gives of
/// itself.
pub fn register<C: Collector>(registry: &mut Registry<C>, c: C) -> (r: Result<(), RegistryError>)
    ensures
        exists|descriptors: Seq<DescriptorView>|
            #![trigger c.may_describe(descriptors)]
            c.may_describe(descriptors) && r == register_result(old(registry)@, descriptors)
                && final(registry)@ == register_state(old(registry)@, descriptors, c),
{
    registry.register(c)
}

/// Unregisters from `registry` the collector that describes itself as `c`
/// does.
pub fn unregister<C: Collector>(registry: &mut Registry<C>, c: C) -> (r: Result<
    (),
    RegistryError,
>)
    ensures
        exists|descriptors: Seq<DescriptorView>|
            #![trigger c.may_describe(descriptors)]
            c.may_describe(descriptors) && r == unregister_result(old(registry)@, descriptors)
                && final(registry)@ == unregister_state(old(registry)@, descriptors),
{
    registry.unregister(c)
}

/// What `registry` exposes of the current values of its collectors.
pub fn gather<C: Collector>(registry: &Registry<C>) -> (r: Vec<MetricFamily>)
    ensures
        exists|ids: Seq<u64>, snapshots: Seq<Seq<FamilyView>>|
            gathers(registry@, ids, snapshots, r.deep_view()),
        names_ascending(r.deep_view()),
        none_empty(r.deep_view()),
        all_sorted(r.deep_view()),
        all_labelled(r.deep_view(), global_labels(registry@.labels)),
{
    registry.gather()
}

/// Sets the labels that go on every metric that `registry` gathers.
pub fn set_labels<C: Collector>(registry: &mut Registry<C>, labels: Vec<LabelPair>)
    ensures
        final(registry)@ == (RegistryView {
            collectors: old(registry)@.collectors,
            dim_hashes: old(registry)@.dim_hashes,
            desc_ids: old(registry)@.desc_ids,
            labels: Some(labels.deep_view()),
        }),
{
    registry.set_labels(labels)
}

} // verus!

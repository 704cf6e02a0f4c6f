//! The process-wide metric table: associates each (name, metadata)
//! identity with one storage primitive, hands out stable handles at
//! registration time, and drives the export pass.
//!
//! Entries are registered once, at startup; there is no deregistration.
//! Iteration yields entries in registration order, one per identity, each
//! carrying the value that was current when it was read.

use vstd::prelude::*;
use vstd::pervasive::arbitrary;
use crate::counter::Counter;
use crate::entry::{
    clone_metadata, identity_eq, metadata_view, MetricEntry, MetricIdentity, MetricValue,
};
use crate::histogram::{spec_bucket_index, valid_config, Histogram};
use crate::saturating_sum;

verus! {

/// Why a registration was refused. Both cases are startup configuration
/// errors: the caller is expected to treat them as fatal.
#[derive(Clone, Copy, PartialEq, Eq, Structural, Debug)]
pub enum RegistryError {
    /// The exact (name, metadata) identity is already registered.
    DuplicateIdentity,
    /// The histogram parameters are outside the accepted range.
    InvalidHistogramConfig,
}

/// What kind of storage primitive a registration asks for, with the
/// histogram resolution supplied as plain numeric parameters.
#[derive(Clone, Copy, PartialEq, Eq, Structural, Debug)]
pub enum MetricKind {
    /// A monotone counter.
    Counter,
    /// A log-linear histogram with the given grouping power and maximum
    /// value width in bits.
    Histogram { grouping_power: u8, max_value_power: u8 },
}

/// Which storage slot an entry's primitive lives in.
#[derive(Clone, Copy, PartialEq, Eq, Structural)]
enum MetricRef {
    Counter(usize),
    Histogram(usize),
}

/// A stable reference to one registered metric, handed out by
/// registration and accepted by the update and read operations for the
/// process lifetime.
#[derive(Clone, Copy, Debug)]
pub struct MetricHandle {
    index: usize,
}

impl MetricHandle {
    /// The position of the referenced entry in registration order.
    pub closed spec fn spec_index(&self) -> int {
        self.index as int
    }
}

/// The registry: identities in registration order, with the counters and
/// histograms they refer to stored in side tables.
pub struct Registry {
    entries: Vec<(MetricIdentity, MetricRef)>,
    counters: Vec<Counter>,
    histograms: Vec<Histogram>,
}

impl Registry {
    /// Number of registered identities.
    pub closed spec fn spec_len(&self) -> int {
        self.entries@.len() as int
    }

    /// Name of the entry at position `i`.
    pub closed spec fn name_at(&self, i: int) -> Seq<char> {
        self.entries@[i].0.name@
    }

    /// Metadata of the entry at position `i`.
    pub closed spec fn metadata_at(&self, i: int) -> Seq<(Seq<char>, Seq<char>)> {
        self.entries@[i].0.metadata_seq()
    }

    /// Whether the entry at position `i` is a counter.
    pub closed spec fn is_counter(&self, i: int) -> bool {
        self.entries@[i].1 is Counter
    }

    /// Whether the entry at position `i` is a histogram.
    pub closed spec fn is_histogram(&self, i: int) -> bool {
        self.entries@[i].1 is Histogram
    }

    /// The counter state of the entry at position `i`.
    pub closed spec fn counter_value(&self, i: int) -> u64 {
        match self.entries@[i].1 {
            MetricRef::Counter(c) => self.counters@[c as int].spec_value(),
            MetricRef::Histogram(_) => arbitrary(),
        }
    }

    /// The histogram state of the entry at position `i`.
    pub closed spec fn histogram_at(&self, i: int) -> Histogram {
        match self.entries@[i].1 {
            MetricRef::Histogram(h) => self.histograms@[h as int],
            MetricRef::Counter(_) => arbitrary(),
        }
    }

    /// Some entry already carries exactly this identity.
    pub open spec fn has_identity(&self, id: &MetricIdentity) -> bool {
        exists|i: int|
            0 <= i < self.spec_len() && self.name_at(i) == id.name_view() && self.metadata_at(i)
                == id.metadata_seq()
    }

    /// Internal consistency: every entry's reference lands inside its
    /// table, no two entries share a slot, and every histogram is well
    /// formed. Constructors establish this and every method preserves it.
    pub closed spec fn well_formed(&self) -> bool {
        (forall|i: int|
            0 <= i < self.entries@.len() ==> match #[trigger] self.entries@[i].1 {
                MetricRef::Counter(c) => (c as int) < self.counters@.len(),
                MetricRef::Histogram(h) => (h as int) < self.histograms@.len(),
            })
            && (forall|i: int, j: int|
            0 <= i < j < self.entries@.len() ==> self.entries@[i].1 != self.entries@[j].1)
            && (forall|h: int|
            0 <= h < self.histograms@.len() ==> #[trigger] self.histograms@[h].well_formed())
    }

    /// The entry at position `j` reads the same in `b` as in `a`: same
    /// identity, same kind, same stored state.
    pub open spec fn entry_preserved(a: &Registry, b: &Registry, j: int) -> bool {
        b.name_at(j) == a.name_at(j) && b.metadata_at(j) == a.metadata_at(j) && b.is_counter(j)
            == a.is_counter(j) && b.is_histogram(j) == a.is_histogram(j) && (a.is_counter(j)
            ==> b.counter_value(j) == a.counter_value(j)) && (a.is_histogram(j)
            ==> b.histogram_at(j) == a.histogram_at(j))
    }

    /// An empty registry.
    pub fn new() -> (r: Registry)
        ensures
            r.well_formed(),
            r.spec_len() == 0,
    {
        Registry { entries: Vec::new(), counters: Vec::new(), histograms: Vec::new() }
    }

    /// Whether this exact identity is already registered.
    pub fn contains(&self, id: &MetricIdentity) -> (r: bool)
        ensures
            r == self.has_identity(id),
    {
        let n = self.entries.len();
        let mut i: usize = 0;
        while i < n
            invariant
                n == self.entries@.len(),
                i <= n,
                forall|j: int|
                    0 <= j < i as int ==> !(self.name_at(j) == id.name_view() && self.metadata_at(
                        j,
                    ) == id.metadata_seq()),
            decreases n - i,
        {
            let ent = &self.entries[i];
            if identity_eq(&ent.0, id) {
                proof {
                    let ghost w = i as int;
                    assert(0 <= w < self.spec_len() && self.name_at(w) == id.name_view()
                        && self.metadata_at(w) == id.metadata_seq());
                }
                return true;
            }
            i = i + 1;
        }
        false
    }

    /// Registers a fresh counter under `identity`. Exactly when the
    /// identity is new, the call succeeds: the entry is appended, its
    /// counter starts at zero, and the returned handle points at it.
    /// A duplicate identity is refused and the registry is unchanged.
    pub fn register_counter(&mut self, identity: MetricIdentity) -> (r: Result<
        MetricHandle,
        RegistryError,
    >)
        requires
            old(self).well_formed(),
        ensures
            final(self).well_formed(),
            match r {
                Ok(h) => {
                    &&& !old(self).has_identity(&identity)
                    &&& final(self).spec_len() == old(self).spec_len() + 1
                    &&& h.spec_index() == old(self).spec_len()
                    &&& final(self).name_at(h.spec_index()) == identity.name_view()
                    &&& final(self).metadata_at(h.spec_index()) == identity.metadata_seq()
                    &&& final(self).is_counter(h.spec_index())
                    &&& final(self).counter_value(h.spec_index()) == 0
                    &&& final(self).has_identity(&identity)
                    &&& forall|j: int|
                        #![trigger final(self).name_at(j)]
                        #![trigger final(self).metadata_at(j)]
                        #![trigger final(self).is_counter(j)]
                        #![trigger final(self).is_histogram(j)]
                        #![trigger final(self).counter_value(j)]
                        #![trigger final(self).histogram_at(j)]
                        0 <= j < old(self).spec_len() ==> Registry::entry_preserved(
                            old(self),
                            final(self),
                            j,
                        )
                },
                Err(e) => {
                    &&& e == RegistryError::DuplicateIdentity
                    &&& old(self).has_identity(&identity)
                    &&& *final(self) == *old(self)
                },
            },
    {
        if self.contains(&identity) {
            return Err(RegistryError::DuplicateIdentity);
        }
        let ci = self.counters.len();
        self.counters.push(Counter::new());
        let idx = self.entries.len();
        self.entries.push((identity, MetricRef::Counter(ci)));
        proof {
            self.lemma_push_keeps_registry(old(self), (identity, MetricRef::Counter(ci)));
        }
        Ok(MetricHandle { index: idx })
    }

    /// After appending one entry whose reference points at a freshly
    /// pushed slot, the registry is still well formed and every earlier
    /// entry reads unchanged.
    proof fn lemma_push_keeps_registry(
        &self,
        prev: &Registry,
        added: (MetricIdentity, MetricRef),
    )
        requires
            prev.well_formed(),
            self.entries@ == prev.entries@.push(added),
            match added.1 {
                MetricRef::Counter(c) => c as int == prev.counters@.len()
                    && self.counters@ == prev.counters@.push(
                    self.counters@[c as int],
                ) && self.histograms@ == prev.histograms@,
                MetricRef::Histogram(h) => h as int == prev.histograms@.len()
                    && self.histograms@ == prev.histograms@.push(self.histograms@[h as int])
                    && self.counters@ == prev.counters@ && self.histograms@[h as int].well_formed(),
            },
        ensures
            self.well_formed(),
            forall|j: int|
                0 <= j < prev.spec_len() ==> #[trigger] Registry::entry_preserved(prev, self, j),
    {
        let oldlen = prev.spec_len();
        let es = self.entries@;
        assert forall|j: int| 0 <= j < oldlen implies #[trigger] Registry::entry_preserved(
            prev,
            self,
            j,
        ) by {
            assert(es[j] == prev.entries@[j]);
            match prev.entries@[j].1 {
                MetricRef::Counter(c) => {
                    assert((c as int) < prev.counters@.len());
                    assert(self.counters@[c as int] == prev.counters@[c as int]);
                },
                MetricRef::Histogram(h) => {
                    assert((h as int) < prev.histograms@.len());
                    assert(self.histograms@[h as int] == prev.histograms@[h as int]);
                },
            }
        }
        assert forall|i: int|
            0 <= i < es.len() implies match #[trigger] es[i].1 {
            MetricRef::Counter(c) => (c as int) < self.counters@.len(),
            MetricRef::Histogram(h) => (h as int) < self.histograms@.len(),
        } by {
            if i < oldlen {
                assert(es[i].1 == prev.entries@[i].1);
                assert(match prev.entries@[i].1 {
                    MetricRef::Counter(c) => (c as int) < prev.counters@.len(),
                    MetricRef::Histogram(h) => (h as int) < prev.histograms@.len(),
                });
            }
        }
        assert forall|i: int, j: int| 0 <= i < j < es.len() implies es[i].1 != es[j].1 by {
            if j < oldlen {
                assert(prev.entries@[i].1 != prev.entries@[j].1);
            } else {
                assert(es[i].1 == prev.entries@[i].1);
                assert(match prev.entries@[i].1 {
                    MetricRef::Counter(c) => (c as int) < prev.counters@.len(),
                    MetricRef::Histogram(h) => (h as int) < prev.histograms@.len(),
                });
            }
        }
        assert forall|h: int|
            0 <= h < self.histograms@.len() implies #[trigger] self.histograms@[h].well_formed() by {
            if h < prev.histograms@.len() {
                assert(self.histograms@[h] == prev.histograms@[h]);
            }
        }
    }

    /// Registers a fresh histogram under `identity`, with the requested
    /// grouping power and value width. A duplicate identity is refused
    /// first; then an invalid configuration; otherwise the entry is
    /// appended empty and the returned handle points at it.
    pub fn register_histogram(
        &mut self,
        identity: MetricIdentity,
        grouping_power: u8,
        max_value_power: u8,
    ) -> (r: Result<MetricHandle, RegistryError>)
        requires
            old(self).well_formed(),
        ensures
            final(self).well_formed(),
            match r {
                Ok(h) => {
                    &&& !old(self).has_identity(&identity)
                    &&& valid_config(grouping_power as int, max_value_power as int)
                    &&& final(self).spec_len() == old(self).spec_len() + 1
                    &&& h.spec_index() == old(self).spec_len()
                    &&& final(self).name_at(h.spec_index()) == identity.name_view()
                    &&& final(self).metadata_at(h.spec_index()) == identity.metadata_seq()
                    &&& final(self).is_histogram(h.spec_index())
                    &&& final(self).histogram_at(h.spec_index()).spec_grouping_power()
                        == grouping_power as int
                    &&& final(self).histogram_at(h.spec_index()).spec_max_value_power()
                        == max_value_power as int
                    &&& final(self).histogram_at(h.spec_index()).total_observations() == 0
                    &&& final(self).has_identity(&identity)
                    &&& forall|j: int|
                        #![trigger final(self).name_at(j)]
                        #![trigger final(self).metadata_at(j)]
                        #![trigger final(self).is_counter(j)]
                        #![trigger final(self).is_histogram(j)]
                        #![trigger final(self).counter_value(j)]
                        #![trigger final(self).histogram_at(j)]
                        0 <= j < old(self).spec_len() ==> Registry::entry_preserved(
                            old(self),
                            final(self),
                            j,
                        )
                },
                Err(e) => {
                    &&& *final(self) == *old(self)
                    &&& if old(self).has_identity(&identity) {
                        e == RegistryError::DuplicateIdentity
                    } else {
                        e == RegistryError::InvalidHistogramConfig && !valid_config(
                            grouping_power as int,
                            max_value_power as int,
                        )
                    }
                },
            },
    {
        if self.contains(&identity) {
            return Err(RegistryError::DuplicateIdentity);
        }
        match Histogram::new(grouping_power, max_value_power) {
            None => Err(RegistryError::InvalidHistogramConfig),
            Some(h) => {
                let hi = self.histograms.len();
                self.histograms.push(h);
                let idx = self.entries.len();
                self.entries.push((identity, MetricRef::Histogram(hi)));
                proof {
                    self.lemma_push_keeps_registry(old(self), (identity, MetricRef::Histogram(hi)));
                }
                Ok(MetricHandle { index: idx })
            },
        }
    }

    /// Registers one metric of the requested kind under `identity`: the
    /// single registration call a collector makes at startup for each
    /// metric it owns. Succeeds exactly when the identity is new and, for
    /// a histogram, the parameters are valid; the new entry starts empty
    /// and the returned handle stays good for the process lifetime.
    pub fn register(&mut self, identity: MetricIdentity, kind: MetricKind) -> (r: Result<
        MetricHandle,
        RegistryError,
    >)
        requires
            old(self).well_formed(),
        ensures
            final(self).well_formed(),
            match r {
                Ok(h) => {
                    &&& !old(self).has_identity(&identity)
                    &&& final(self).spec_len() == old(self).spec_len() + 1
                    &&& h.spec_index() == old(self).spec_len()
                    &&& final(self).name_at(h.spec_index()) == identity.name_view()
                    &&& final(self).metadata_at(h.spec_index()) == identity.metadata_seq()
                    &&& final(self).has_identity(&identity)
                    &&& match kind {
                        MetricKind::Counter => final(self).is_counter(h.spec_index())
                            && final(self).counter_value(h.spec_index()) == 0,
                        MetricKind::Histogram { grouping_power, max_value_power } => {
                            let hist = final(self).histogram_at(h.spec_index());
                            &&& final(self).is_histogram(h.spec_index())
                            &&& hist.spec_grouping_power() == grouping_power as int
                            &&& hist.spec_max_value_power() == max_value_power as int
                            &&& hist.total_observations() == 0
                        },
                    }
                    &&& forall|j: int|
                        #![trigger final(self).name_at(j)]
                        #![trigger final(self).metadata_at(j)]
                        #![trigger final(self).is_counter(j)]
                        #![trigger final(self).is_histogram(j)]
                        #![trigger final(self).counter_value(j)]
                        #![trigger final(self).histogram_at(j)]
                        0 <= j < old(self).spec_len() ==> Registry::entry_preserved(
                            old(self),
                            final(self),
                            j,
                        )
                },
                Err(e) => {
                    &&& *final(self) == *old(self)
                    &&& if old(self).has_identity(&identity) {
                        e == RegistryError::DuplicateIdentity
                    } else {
                        e == RegistryError::InvalidHistogramConfig && (kind matches
                        MetricKind::Histogram { grouping_power, max_value_power } && !valid_config(
                            grouping_power as int,
                            max_value_power as int,
                        ))
                    }
                },
            },
    {
        match kind {
            MetricKind::Counter => self.register_counter(identity),
            MetricKind::Histogram { grouping_power, max_value_power } => self.register_histogram(
                identity,
                grouping_power,
                max_value_power,
            ),
        }
    }

    /// Adds `by` to the counter the handle points at, saturating at
    /// `u64::MAX`; every other entry is untouched.
    pub fn increment(&mut self, handle: MetricHandle, by: u64)
        requires
            old(self).well_formed(),
            0 <= handle.spec_index() < old(self).spec_len(),
            old(self).is_counter(handle.spec_index()),
        ensures
            final(self).well_formed(),
            final(self).spec_len() == old(self).spec_len(),
            final(self).name_at(handle.spec_index()) == old(self).name_at(handle.spec_index()),
            final(self).metadata_at(handle.spec_index()) == old(self).metadata_at(
                handle.spec_index(),
            ),
            final(self).is_counter(handle.spec_index()),
            final(self).counter_value(handle.spec_index()) == saturating_sum(
                old(self).counter_value(handle.spec_index()),
                by,
            ),
            forall|j: int|
                #![trigger final(self).name_at(j)]
                #![trigger final(self).metadata_at(j)]
                #![trigger final(self).is_counter(j)]
                #![trigger final(self).is_histogram(j)]
                #![trigger final(self).counter_value(j)]
                #![trigger final(self).histogram_at(j)]
                0 <= j < old(self).spec_len() && j != handle.spec_index()
                    ==> Registry::entry_preserved(old(self), final(self), j),
    {
        let i = handle.index;
        let mref = self.entries[i].1;
        match mref {
            MetricRef::Counter(ci) => {
                let c = &mut self.counters[ci];
                c.increment(by);
                proof {
                    assert forall|j: int|
                        0 <= j < old(self).spec_len() && j != handle.spec_index()
                            implies #[trigger] Registry::entry_preserved(
                        old(self),
                        final(self),
                        j,
                    ) by {
                        if j < i as int {
                            assert(old(self).entries@[j].1 != old(self).entries@[i as int].1);
                        } else {
                            assert(old(self).entries@[i as int].1 != old(self).entries@[j].1);
                        }
                    }
                }
            },
            MetricRef::Histogram(_) => {
                proof {
                    assert(false);
                }
            },
        }
    }

    /// Reads the counter the handle points at.
    pub fn read_counter(&self, handle: MetricHandle) -> (v: u64)
        requires
            self.well_formed(),
            0 <= handle.spec_index() < self.spec_len(),
            self.is_counter(handle.spec_index()),
        ensures
            v == self.counter_value(handle.spec_index()),
    {
        let mref = self.entries[handle.index].1;
        match mref {
            MetricRef::Counter(ci) => self.counters[ci].value(),
            MetricRef::Histogram(_) => {
                proof {
                    assert(false);
                }
                0
            },
        }
    }

    /// Adds one observation of `v` to the histogram the handle points at:
    /// exactly one bucket — the one `v` maps to — gains one count, and
    /// every other entry is untouched.
    pub fn record(&mut self, handle: MetricHandle, v: u64)
        requires
            old(self).well_formed(),
            0 <= handle.spec_index() < old(self).spec_len(),
            old(self).is_histogram(handle.spec_index()),
            old(self).histogram_at(handle.spec_index()).total_observations() < u64::MAX,
        ensures
            final(self).well_formed(),
            final(self).spec_len() == old(self).spec_len(),
            final(self).name_at(handle.spec_index()) == old(self).name_at(handle.spec_index()),
            final(self).metadata_at(handle.spec_index()) == old(self).metadata_at(
                handle.spec_index(),
            ),
            final(self).is_histogram(handle.spec_index()),
            ({
                let before = old(self).histogram_at(handle.spec_index());
                let after = final(self).histogram_at(handle.spec_index());
                let idx = spec_bucket_index(
                    before.spec_grouping_power(),
                    before.spec_max_value_power(),
                    v,
                );
                &&& after.spec_grouping_power() == before.spec_grouping_power()
                &&& after.spec_max_value_power() == before.spec_max_value_power()
                &&& after.counts() == before.counts().update(
                    idx,
                    (before.counts()[idx] + 1) as u64,
                )
                &&& after.total_observations() == before.total_observations() + 1
            }),
            forall|j: int|
                #![trigger final(self).name_at(j)]
                #![trigger final(self).metadata_at(j)]
                #![trigger final(self).is_counter(j)]
                #![trigger final(self).is_histogram(j)]
                #![trigger final(self).counter_value(j)]
                #![trigger final(self).histogram_at(j)]
                0 <= j < old(self).spec_len() && j != handle.spec_index()
                    ==> Registry::entry_preserved(old(self), final(self), j),
    {
        let i = handle.index;
        let mref = self.entries[i].1;
        match mref {
            MetricRef::Histogram(hi) => {
                let h = &mut self.histograms[hi];
                h.record(v);
                proof {
                    assert forall|j: int|
                        0 <= j < old(self).spec_len() && j != handle.spec_index()
                            implies #[trigger] Registry::entry_preserved(
                        old(self),
                        final(self),
                        j,
                    ) by {
                        if j < i as int {
                            assert(old(self).entries@[j].1 != old(self).entries@[i as int].1);
                        } else {
                            assert(old(self).entries@[i as int].1 != old(self).entries@[j].1);
                        }
                    }
                }
            },
            MetricRef::Counter(_) => {
                proof {
                    assert(false);
                }
            },
        }
    }

    /// The export entry at position `i` faithfully reports that entry's
    /// identity and current state.
    pub open spec fn entry_describes(&self, e: MetricEntry, i: int) -> bool {
        &&& e.name@ == self.name_at(i)
        &&& metadata_view(e.metadata@) == self.metadata_at(i)
        &&& self.is_counter(i) ==> (e.value matches MetricValue::Counter(v) && v
            == self.counter_value(i))
        &&& self.is_histogram(i) ==> (e.value matches MetricValue::Histogram(pairs) && pairs@.len()
            == self.histogram_at(i).counts().len() && forall|j: int|
            0 <= j < pairs@.len() ==> self.histogram_at(i).snapshot_row(#[trigger] pairs@[j], j))
    }

    /// Walks every registered identity, in registration order, and builds
    /// one export entry per identity carrying its current value. The walk
    /// is restartable and yields exactly one entry per registration.
    pub fn iterate(&self) -> (r: Vec<MetricEntry>)
        requires
            self.well_formed(),
        ensures
            r@.len() == self.spec_len(),
            forall|i: int| 0 <= i < r@.len() ==> self.entry_describes(#[trigger] r@[i], i),
    {
        let n = self.entries.len();
        let mut r: Vec<MetricEntry> = Vec::new();
        let mut i: usize = 0;
        while i < n
            invariant
                n == self.entries@.len(),
                i <= n,
                self.well_formed(),
                r@.len() == i as int,
                forall|k: int| 0 <= k < i as int ==> self.entry_describes(#[trigger] r@[k], k),
            decreases n - i,
        {
            let ent = &self.entries[i];
            let name = ent.0.name.clone();
            let metadata = clone_metadata(&ent.0.metadata);
            let value = match ent.1 {
                MetricRef::Counter(ci) => MetricValue::Counter(self.counters[ci].value()),
                MetricRef::Histogram(hi) => MetricValue::Histogram(self.histograms[hi].snapshot()),
            };
            r.push(MetricEntry { name, metadata, value });
            i = i + 1;
        }
        r
    }
}

} // verus!

//! Station name to running record, for the rows of one chunk or of many.
use crate::aggregated_data::AggregatedData;
use crate::stats::{
    all_stations_valid, is_reading, is_station_summary, lemma_combine_valid, lemma_merge_empty,
    lemma_merge_insert, merge_fits, merge_stats, record, single, Stats,
};
use crate::order::{
    is_sorted_listing, lemma_lex_total, lemma_lex_transitive, lex_less, lex_lt, listing_view,
};
use gxhash::{GxBuildHasher, GxHashMap};
use vstd::prelude::*;

verus! {

/// The number of distinct stations of the reference data set; tables are
/// sized for it.
pub const STATIONS_IN_DATASET: usize = 413;

/// Station name to slot, in a std hash map hashed by gxhash. Verus sees
/// nothing inside it: what it holds is `slots_of`, which the three methods
/// below speak of.
#[verifier::external_body]
pub struct StationIndex<'a> {
    map: GxHashMap<&'a [u8], usize>,
}

/// The slot that a `StationIndex` holds for each name.
pub uninterp spec fn slots_of(index: StationIndex) -> Map<Seq<u8>, usize>;

impl<'a> StationIndex<'a> {
    /// Relies on HashMap::with_capacity_and_hasher, with gxhash's
    /// GxBuildHasher: a new map holds no name.
    #[verifier::external_body]
    fn with_capacity(capacity: usize) -> (r: StationIndex<'a>)
        requires
            capacity <= STATIONS_IN_DATASET,
        ensures
            slots_of(r).dom() == Set::<Seq<u8>>::empty(),
    {
        StationIndex { map: GxHashMap::with_capacity_and_hasher(capacity, GxBuildHasher::default()) }
    }

    /// Relies on HashMap::get: the slot held for a name equal to `name`, if
    /// any.
    #[verifier::external_body]
    fn get(&self, name: &[u8]) -> (r: Option<usize>)
        ensures
            r == if slots_of(*self).contains_key(name@) {
                Some(slots_of(*self)[name@])
            } else {
                None::<usize>
            },
    {
        self.map.get(name).copied()
    }

    /// Relies on HashMap::insert: `name` now has `slot`, every other name
    /// keeps its own.
    #[verifier::external_body]
    fn insert(&mut self, name: &'a [u8], slot: usize)
        ensures
            slots_of(*final(self)) == slots_of(*old(self)).insert(name@, slot),
    {
        self.map.insert(name, slot);
    }
}

/// No two slots hold the same name.
#[verifier::opaque]
spec fn distinct_names(names: Seq<&[u8]>) -> bool {
    forall|i: int, j: int|
        0 <= i < names.len() && 0 <= j < names.len() && (#[trigger] names[i])@ == (
        #[trigger] names[j])@ ==> i == j
}

/// Slot `i` holds station `names[i]` of `t` with record `data[i]`, and every
/// station of `t` has a slot.
#[verifier::opaque]
spec fn entries_describe(names: Seq<&[u8]>, data: Seq<AggregatedData>, t: Stats) -> bool {
    &&& forall|i: int|
        0 <= i < names.len() ==> #[trigger] t.contains_key(names[i]@) && t[names[i]@] == data[i]@
    &&& forall|k: Seq<u8>|
        #[trigger] t.contains_key(k) ==> exists|i: int| 0 <= i < names.len() && names[i]@ == k
}

#[verifier::opaque]
spec fn sorted_names(l: Seq<(Seq<u8>, crate::stats::Summary)>) -> bool {
    forall|i: int, j: int| 0 <= i < j < l.len() ==> lex_lt(#[trigger] l[i].0, #[trigger] l[j].0)
}

/// Every entry of `l` is the name and record of a slot from `lo` on.
#[verifier::opaque]
spec fn drawn_from(
    l: Seq<(Seq<u8>, crate::stats::Summary)>,
    names: Seq<&[u8]>,
    data: Seq<AggregatedData>,
    lo: int,
) -> bool {
    forall|i: int|
        0 <= i < l.len() ==> exists|j: int|
            lo <= j < names.len() && j < data.len() && #[trigger] l[i] == (names[j]@, data[j]@)
}

/// Every slot from `lo` on has its name in `l`.
#[verifier::opaque]
spec fn covers(l: Seq<(Seq<u8>, crate::stats::Summary)>, names: Seq<&[u8]>, lo: int) -> bool {
    forall|j: int|
        lo <= j < names.len() ==> exists|i: int|
            0 <= i < l.len() && #[trigger] l[i].0 == (#[trigger] names[j])@
}

proof fn lemma_not_drawn(
    l: Seq<(Seq<u8>, crate::stats::Summary)>,
    names: Seq<&[u8]>,
    data: Seq<AggregatedData>,
    m: int,
    p: int,
)
    requires
        drawn_from(l, names, data, m),
        distinct_names(names),
        1 <= m <= names.len(),
        0 <= p < l.len(),
    ensures
        l[p].0 != names[m - 1]@,
{
    reveal(drawn_from);
    reveal(distinct_names);
    let j = choose|j: int| m <= j < names.len() && j < data.len() && #[trigger] l[p] == (names[j]@, data[j]@);
    assert(l[p].0 == names[j]@);
}

/// Inserting the entry of slot `m - 1` where the order puts it.
proof fn lemma_insert_entry(
    l: Seq<(Seq<u8>, crate::stats::Summary)>,
    p: int,
    names: Seq<&[u8]>,
    data: Seq<AggregatedData>,
    m: int,
)
    requires
        sorted_names(l),
        drawn_from(l, names, data, m),
        covers(l, names, m),
        1 <= m <= names.len(),
        names.len() == data.len(),
        0 <= p <= l.len(),
        forall|i: int| 0 <= i < p ==> lex_lt(#[trigger] l[i].0, names[m - 1]@),
        p < l.len() ==> lex_lt(names[m - 1]@, l[p].0),
    ensures
        sorted_names(l.insert(p, (names[m - 1]@, data[m - 1]@))),
        drawn_from(l.insert(p, (names[m - 1]@, data[m - 1]@)), names, data, m - 1),
        covers(l.insert(p, (names[m - 1]@, data[m - 1]@)), names, m - 1),
{
    lemma_insert_sorted(l, p, (names[m - 1]@, data[m - 1]@));
    lemma_insert_drawn(l, p, names, data, m);
    lemma_insert_covers(l, p, names, data, m);
}

proof fn lemma_insert_sorted(l: Seq<(Seq<u8>, crate::stats::Summary)>, p: int, e: (Seq<u8>, crate::stats::Summary))
    requires
        sorted_names(l),
        0 <= p <= l.len(),
        forall|i: int| 0 <= i < p ==> lex_lt(#[trigger] l[i].0, e.0),
        p < l.len() ==> lex_lt(e.0, l[p].0),
    ensures
        sorted_names(l.insert(p, e)),
{
    reveal(sorted_names);
    let now = l.insert(p, e);
    assert forall|i: int, j: int| 0 <= i < j < now.len() implies lex_lt(
        #[trigger] now[i].0,
        #[trigger] now[j].0,
    ) by {
        if j < p {
            assert(now[i] == l[i] && now[j] == l[j]);
        } else if j == p {
            assert(now[i] == l[i]);
        } else if i < p {
            assert(now[i] == l[i] && now[j] == l[j - 1]);
        } else if i == p {
            assert(now[j] == l[j - 1]);
            if j - 1 > p {
                assert(lex_lt(l[p].0, l[j - 1].0));
                lemma_lex_transitive(e.0, l[p].0, l[j - 1].0);
            }
        } else {
            assert(now[i] == l[i - 1] && now[j] == l[j - 1]);
        }
    }
}

proof fn lemma_insert_drawn(
    l: Seq<(Seq<u8>, crate::stats::Summary)>,
    p: int,
    names: Seq<&[u8]>,
    data: Seq<AggregatedData>,
    m: int,
)
    requires
        drawn_from(l, names, data, m),
        1 <= m <= names.len(),
        names.len() == data.len(),
        0 <= p <= l.len(),
    ensures
        drawn_from(l.insert(p, (names[m - 1]@, data[m - 1]@)), names, data, m - 1),
{
    reveal(drawn_from);
    let now = l.insert(p, (names[m - 1]@, data[m - 1]@));
    assert forall|i: int| 0 <= i < now.len() implies exists|j: int|
        m - 1 <= j < names.len() && j < data.len() && #[trigger] now[i] == (names[j]@, data[j]@) by {
        if i < p {
            assert(now[i] == l[i]);
        } else if i == p {
            assert(now[i] == (names[m - 1]@, data[m - 1]@));
        } else {
            assert(now[i] == l[i - 1]);
        }
    }
}

proof fn lemma_insert_covers(
    l: Seq<(Seq<u8>, crate::stats::Summary)>,
    p: int,
    names: Seq<&[u8]>,
    data: Seq<AggregatedData>,
    m: int,
)
    requires
        covers(l, names, m),
        1 <= m <= names.len(),
        names.len() == data.len(),
        0 <= p <= l.len(),
    ensures
        covers(l.insert(p, (names[m - 1]@, data[m - 1]@)), names, m - 1),
{
    reveal(covers);
    let now = l.insert(p, (names[m - 1]@, data[m - 1]@));
    assert forall|j: int| m - 1 <= j < names.len() implies exists|i: int|
        0 <= i < now.len() && #[trigger] now[i].0 == (#[trigger] names[j])@ by {
        if j == m - 1 {
            assert(now[p].0 == names[j]@);
        } else {
            let i = choose|i: int| 0 <= i < l.len() && #[trigger] l[i].0 == (#[trigger] names[j])@;
            if i < p {
                assert(now[i] == l[i]);
            } else {
                assert(now[i + 1] == l[i]);
            }
        }
    }
}

/// A sorted list drawn from all slots and covering them lists the table.
proof fn lemma_listing_complete(
    l: Seq<(Seq<u8>, crate::stats::Summary)>,
    names: Seq<&[u8]>,
    data: Seq<AggregatedData>,
    t: Stats,
)
    requires
        sorted_names(l),
        drawn_from(l, names, data, 0),
        covers(l, names, 0),
        entries_describe(names, data, t),
    ensures
        is_sorted_listing(l, t),
{
    reveal(sorted_names);
    reveal(drawn_from);
    reveal(covers);
    reveal(entries_describe);
    assert forall|i: int| 0 <= i < l.len() implies t.contains_key(#[trigger] l[i].0) && t[l[i].0]
        == l[i].1 by {
        let j = choose|j: int| 0 <= j < names.len() && j < data.len() && #[trigger] l[i] == (names[j]@, data[j]@);
        assert(t.contains_key(names[j]@));
    }
    assert forall|k: Seq<u8>| #[trigger] t.contains_key(k) implies exists|i: int|
        0 <= i < l.len() && l[i].0 == k by {
        let j = choose|j: int| 0 <= j < names.len() && names[j]@ == k;
        let i = choose|i: int| 0 <= i < l.len() && #[trigger] l[i].0 == (#[trigger] names[j])@;
    }
}

/// Station name to running record. Names borrow from the input; records lie
/// in one vector, and a gxhash map finds the slot of a name.
pub struct StationTable<'a> {
    index: StationIndex<'a>,
    names: Vec<&'a [u8]>,
    data: Vec<AggregatedData>,
}

impl<'a> View for StationTable<'a> {
    type V = Stats;

    closed spec fn view(&self) -> Stats {
        self.prefix_view(self.names@.len() as int)
    }
}

impl<'a> StationTable<'a> {
    /// The stations held in the first `n` slots.
    closed spec fn prefix_view(&self, n: int) -> Stats {
        let slots = slots_of(self.index);
        Map::new(
            |k: Seq<u8>| slots.contains_key(k) && slots[k] < n,
            |k: Seq<u8>| self.data@[slots[k] as int]@,
        )
    }

    /// Every name has one slot, every slot one name, and every record
    /// summarises at least one reading.
    pub closed spec fn wf(&self) -> bool {
        let slots = slots_of(self.index);
        &&& self.names@.len() == self.data@.len()
        &&& forall|k: Seq<u8>| #[trigger]
            slots.contains_key(k) ==> slots[k] < self.names@.len() && self.names@[slots[k] as int]@
                == k
        &&& forall|i: int|
            0 <= i < self.names@.len() ==> #[trigger] slots.contains_key(self.names@[i]@)
                && slots[self.names@[i]@] == i
        &&& forall|i: int|
            0 <= i < self.data@.len() ==> is_station_summary(#[trigger] self.data@[i]@)
    }

    /// Every station of a well-formed table has at least one reading.
    pub proof fn lemma_stations_valid(&self)
        requires
            self.wf(),
        ensures
            all_stations_valid(self@),
    {
        let slots = slots_of(self.index);
        assert forall|k: Seq<u8>| #[trigger] self@.contains_key(k) implies is_station_summary(
            self@[k],
        ) by {
            assert(slots.contains_key(k));
        }
    }

    proof fn lemma_prefix_step(&self, i: int)
        requires
            self.wf(),
            0 <= i < self.names@.len(),
        ensures
            !self.prefix_view(i).contains_key(self.names@[i]@),
            self.prefix_view(i + 1) == self.prefix_view(i).insert(
                self.names@[i]@,
                self.data@[i]@,
            ),
    {
        let slots = slots_of(self.index);
        assert(slots.contains_key(self.names@[i]@));
        assert(self.prefix_view(i + 1) =~= self.prefix_view(i).insert(
            self.names@[i]@,
            self.data@[i]@,
        ));
    }

    /// An empty table, sized for the reference data set.
    pub fn new() -> (r: Self)
        ensures
            r.wf(),
            r@ == Map::<Seq<u8>, crate::stats::Summary>::empty(),
    {
        let r = StationTable {
            index: StationIndex::with_capacity(STATIONS_IN_DATASET),
            names: Vec::with_capacity(STATIONS_IN_DATASET),
            data: Vec::with_capacity(STATIONS_IN_DATASET),
        };
        assert(r@ =~= Map::<Seq<u8>, crate::stats::Summary>::empty());
        r
    }

    /// The record of `name`, if the table holds it.
    pub fn get(&self, name: &[u8]) -> (r: Option<&AggregatedData>)
        requires
            self.wf(),
        ensures
            match r {
                Some(d) => self@.contains_key(name@) && d@ == self@[name@],
                None => !self@.contains_key(name@),
            },
    {
        match self.index.get(name) {
            Some(slot) => Some(&self.data[slot]),
            None => None,
        }
    }

    /// Adds one reading of `station`: its record takes the reading, or a new
    /// record begins with it.
    pub fn insert_measurement(&mut self, station: &'a [u8], measurement: i16)
        requires
            old(self).wf(),
            is_reading(measurement as int),
            old(self)@.contains_key(station@) ==> old(self)@[station@].count < u32::MAX,
        ensures
            final(self).wf(),
            final(self)@ == record(old(self)@, station@, measurement as int),
    {
        let ghost slots = slots_of(self.index);
        match self.index.get(station) {
            Some(slot) => {
                assert(slots.contains_key(station@));
                // In the data set, there aren't that many different stations,
                // so most rows take this branch.
                self.data[slot].add_datapoint(measurement);
                assert(self@ =~= record(old(self)@, station@, measurement as int));
            },
            None => {
                let slot = self.data.len();
                let mut data = AggregatedData::default();
                data.add_datapoint(measurement);
                proof {
                    lemma_combine_valid(crate::stats::empty_summary(), single(measurement as int));
                }
                self.index.insert(station, slot);
                self.names.push(station);
                self.data.push(data);
                let ghost new_slots = slots_of(self.index);
                assert forall|i: int| 0 <= i < self.names@.len() implies #[trigger] new_slots.contains_key(
                    self.names@[i]@,
                ) && new_slots[self.names@[i]@] == i by {
                    if i < slot {
                        assert(slots.contains_key(old(self).names@[i]@));
                    }
                }
                assert(self@ =~= record(old(self)@, station@, measurement as int));
            },
        }
    }

    /// Merges another table into this one: records of the same station are
    /// merged, other stations are taken over.
    pub fn merge(&mut self, other: StationTable<'a>)
        requires
            old(self).wf(),
            other.wf(),
            merge_fits(old(self)@, other@),
        ensures
            final(self).wf(),
            final(self)@ == merge_stats(old(self)@, other@),
    {
        let ghost start = self@;
        let n = other.names.len();
        proof {
            lemma_merge_empty(start);
            assert(other.prefix_view(0) =~= Map::<Seq<u8>, crate::stats::Summary>::empty());
        }
        let mut i: usize = 0;
        while i < n
            invariant
                n == other.names@.len(),
                i <= n,
                other.wf(),
                self.wf(),
                merge_fits(start, other@),
                self@ == merge_stats(start, other.prefix_view(i as int)),
            decreases n - i,
        {
            proof {
                other.lemma_prefix_step(i as int);
                lemma_merge_insert(start, other.prefix_view(i as int), other.names@[i as int]@, other.data@[i as int]@);
            }
            let name = other.names[i];
            let agg = &other.data[i];
            let ghost slots = slots_of(self.index);
            match self.index.get(name) {
                Some(slot) => {
                    assert(slots.contains_key(name@));
                    assert(other@.contains_key(name@)) by {
                        assert(slots_of(other.index).contains_key(name@));
                    }
                    assert(self@.contains_key(name@));
                    assert(!other.prefix_view(i as int).contains_key(name@));
                    assert(start.contains_key(name@));
                    assert(self@[name@] == self.data@[slot as int]@);
                    assert(self.data@[slot as int]@ == start[name@]);
                    assert(agg@ == other@[name@]);
                    self.data[slot].merge(agg);
                    assert(self@ =~= merge_stats(start, other.prefix_view(i + 1)));
                },
                None => {
                    let ghost before = self@;
                    assert(!self@.contains_key(name@));
                    assert(!merge_stats(start, other.prefix_view(i as int)).contains_key(name@));
                    assert(!start.contains_key(name@));
                    assert(agg@ == other.data@[i as int]@);
                    let slot = self.data.len();
                    let copy = AggregatedData::new(
                        agg.min_scaled(),
                        agg.max_scaled(),
                        agg.sum_scaled(),
                        agg.sample_count(),
                    );
                    self.index.insert(name, slot);
                    self.names.push(name);
                    self.data.push(copy);
                    let ghost new_slots = slots_of(self.index);
                    assert forall|j: int| 0 <= j < self.names@.len() implies #[trigger] new_slots.contains_key(
                        self.names@[j]@,
                    ) && new_slots[self.names@[j]@] == j by {
                        if j < slot {
                            assert(slots.contains_key(self.names@[j]@));
                        }
                    }
                    assert(self@ =~= before.insert(name@, agg@));
                },
            }
            i = i + 1;
        }
        assert(other.prefix_view(n as int) == other@);
    }

    /// The entries of the table, ordered by byte-wise lexicographic order
    /// of the names.
    pub fn into_sorted_entries(self) -> (r: Vec<(&'a [u8], AggregatedData)>)
        requires
            self.wf(),
        ensures
            is_sorted_listing(listing_view(r@), self@),
    {
        let ghost t = self@;
        let ghost names0 = self.names@;
        let ghost data0 = self.data@;
        let ghost n0 = names0.len() as int;
        proof {
            self.lemma_entries_describe();
            reveal(drawn_from);
            reveal(covers);
            reveal(sorted_names);
            assert(names0.take(n0) =~= names0);
            assert(data0.take(n0) =~= data0);
        }
        let StationTable { index: _, mut names, mut data } = self;
        let mut out: Vec<(&'a [u8], AggregatedData)> = Vec::new();
        while data.len() > 0
            invariant
                n0 == names0.len(),
                n0 == data0.len(),
                names@.len() == data@.len(),
                names@.len() <= n0,
                names@ == names0.take(names@.len() as int),
                data@ == data0.take(data@.len() as int),
                distinct_names(names0),
                entries_describe(names0, data0, t),
                sorted_names(listing_view(out@)),
                drawn_from(listing_view(out@), names0, data0, names@.len() as int),
                covers(listing_view(out@), names0, names@.len() as int),
            decreases data@.len(),
        {
            let ghost m = names@.len() as int;
            let ghost before = listing_view(out@);
            let d = data.pop().unwrap();
            let name = names.pop().unwrap();
            assert(name == names0[m - 1]);
            assert(d == data0[m - 1]);
            let mut p: usize = 0;
            while p < out.len() && !lex_less(name, out[p].0)
                invariant
                    p <= out@.len(),
                    before == listing_view(out@),
                    forall|i: int| 0 <= i < p ==> lex_lt(#[trigger] before[i].0, name@),
                    drawn_from(before, names0, data0, m),
                    distinct_names(names0),
                    name == names0[m - 1],
                    n0 == names0.len(),
                    n0 == data0.len(),
                    1 <= m <= n0,
                decreases out@.len() - p,
            {
                proof {
                    assert(before[p as int].0 == out@[p as int].0@);
                    lemma_not_drawn(before, names0, data0, m, p as int);
                    lemma_lex_total(before[p as int].0, name@);
                }
                p = p + 1;
            }
            proof {
                if p < out@.len() {
                    assert(before[p as int].0 == out@[p as int].0@);
                }
            }
            out.insert(p, (name, d));
            proof {
                assert(listing_view(out@) =~= before.insert(p as int, (name@, d@)));
                lemma_insert_entry(before, p as int, names0, data0, m);
                assert(names@ =~= names0.take(names@.len() as int));
                assert(data@ =~= data0.take(data@.len() as int));
            }
        }
        proof {
            lemma_listing_complete(listing_view(out@), names0, data0, t);
        }
        out
    }

    /// The names and records of a well-formed table, slot by slot, describe
    /// its view.
    proof fn lemma_entries_describe(&self)
        requires
            self.wf(),
        ensures
            distinct_names(self.names@),
            entries_describe(self.names@, self.data@, self@),
    {
        reveal(distinct_names);
        reveal(entries_describe);
        let slots = slots_of(self.index);
        let t = self@;
        let names0 = self.names@;
        let data0 = self.data@;
        assert forall|k: Seq<u8>| #[trigger] t.contains_key(k) implies exists|i: int|
            0 <= i < names0.len() && names0[i]@ == k by {
            assert(names0[slots[k] as int]@ == k);
        }
        assert forall|i: int| 0 <= i < names0.len() implies #[trigger] t.contains_key(names0[i]@)
            && t[names0[i]@] == data0[i]@ by {
            assert(slots.contains_key(names0[i]@));
        }
        assert forall|i: int, j: int|
            0 <= i < names0.len() && 0 <= j < names0.len() && (#[trigger] names0[i])@ == (
            #[trigger] names0[j])@ implies i == j by {
            assert(slots.contains_key(names0[i]@));
            assert(slots.contains_key(names0[j]@));
        }
    }
}

} // verus!

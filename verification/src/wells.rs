//! The second pass over the table: for each well seen, one histogram for each
//! feature that was kept.

use crate::histograms::{bin_of, counts_with, Hist1D};
use crate::ieee::{is_nan, num_eq, num_lt};
use crate::index::{entries, store_get, store_insert, store_new};
use crate::names::{
    contains_name, first_index, is_first_index, lemma_first_index_is, names_of,
    occurs,
};
use crate::ranges::MinMax;
use dashmap::DashMap;
use vstd::prelude::*;

verus! {

/// The parts joined by underscores.
pub open spec fn join_ids(parts: Seq<Seq<char>>) -> Seq<char>
    decreases parts.len(),
{
    if parts.len() == 0 {
        Seq::empty()
    } else if parts.len() == 1 {
        parts[0]
    } else {
        join_ids(parts.drop_last()) + seq!['_'] + parts.last()
    }
}

/// The fields at the given positions, in the order of the positions.
pub open spec fn picked(fields: Seq<Seq<char>>, idx: Seq<usize>) -> Seq<Seq<char>> {
    Seq::new(idx.len(), |k: int| fields[idx[k] as int])
}

/// The well that a row belongs to: the fields of its identifier columns, in the
/// order configured, joined by underscores.
pub fn compose_well_id(fields: &[String], id_col_idx: &[usize]) -> (id: String)
    requires
        forall|k: int| 0 <= k < id_col_idx@.len() ==> id_col_idx@[k] < fields@.len(),
    ensures
        id@ == join_ids(picked(names_of(fields@), id_col_idx@)),
{
    let ghost parts = picked(names_of(fields@), id_col_idx@);
    let mut id = String::new();
    let n: usize = id_col_idx.len();
    let mut k: usize = 0;
    while k < n
        invariant
            k <= n,
            n == id_col_idx@.len(),
            parts == picked(names_of(fields@), id_col_idx@),
            forall|j: int| 0 <= j < id_col_idx@.len() ==> id_col_idx@[j] < fields@.len(),
            id@ == join_ids(parts.take(k as int)),
        decreases n - k,
    {
        proof {
            reveal_strlit("_");
            assert(parts.take(k + 1).drop_last() =~= parts.take(k as int));
        }
        if k > 0 {
            id.append("_");
        }
        id.append(fields[id_col_idx[k]].as_str());
        k = k + 1;
    }
    assert(parts.take(n as int) =~= parts);
    id
}

/// The well of a row that the pass takes in: a row is passed over where its
/// field count differs from the header's, or where its well is not on the
/// plate. The well is looked up on the plate as the row names it: a row that
/// names its well `A01` is not on a plate that lists `A1`.
pub fn row_well_id(plate_def: &[String], id_col_idx: &[usize], width: usize, fields: &[String]) -> (res:
    Option<String>)
    requires
        forall|k: int| 0 <= k < id_col_idx@.len() ==> id_col_idx@[k] < width,
    ensures
        match res {
            Some(id) => fields@.len() == width && id@ == join_ids(
                picked(names_of(fields@), id_col_idx@),
            ) && occurs(names_of(plate_def@), id@),
            None => fields@.len() != width || !occurs(
                names_of(plate_def@),
                join_ids(picked(names_of(fields@), id_col_idx@)),
            ),
        },
{
    if fields.len() != width {
        return None;
    }
    let id = compose_well_id(fields, id_col_idx);
    if contains_name(plate_def, &id) {
        Some(id)
    } else {
        None
    }
}

/// The counts of each histogram of a bundle.
pub open spec fn counts_of(bundle: Seq<Hist1D>) -> Seq<Seq<u64>> {
    Seq::new(bundle.len(), |k: int| bundle[k].counts@)
}

/// The counts of a bundle of empty histograms.
pub open spec fn zero_counts(features: nat, nbins: nat) -> Seq<Seq<u64>> {
    Seq::new(features, |k: int| Seq::new(nbins, |i: int| 0u64))
}

/// `value` lies from the lower bound of `range` up to, but not including, its
/// upper bound.
pub open spec fn inside(range: MinMax, value: u64) -> bool {
    (num_lt(range.xlow, value) || num_eq(range.xlow, value)) && num_lt(value, range.xhigh)
}

/// Each quotient that will be read names a bin.
pub open spec fn quotients_fit(
    features: Seq<Seq<char>>,
    ranges: Seq<MinMax>,
    nbins: usize,
    names: Seq<Seq<char>>,
    values: Seq<u64>,
    quotients: Seq<usize>,
) -> bool {
    forall|c: int, k: int|
        #![trigger quotients[c], ranges[k]]
        0 <= c < names.len() && is_first_index(features, names[c], k) && inside(
            ranges[k],
            values[c],
        ) ==> quotients[c] < nbins
}

/// The counts of a bundle after one row: each column in turn is counted in
/// the histogram of the first kept feature of its name, if there is one.
pub open spec fn bundle_after(
    counts: Seq<Seq<u64>>,
    features: Seq<Seq<char>>,
    ranges: Seq<MinMax>,
    nbins: usize,
    names: Seq<Seq<char>>,
    values: Seq<u64>,
    quotients: Seq<usize>,
) -> Seq<Seq<u64>>
    decreases names.len(),
{
    if names.len() == 0 || values.len() != names.len() || quotients.len() != names.len() {
        counts
    } else {
        let before = bundle_after(
            counts,
            features,
            ranges,
            nbins,
            names.drop_last(),
            values.drop_last(),
            quotients.drop_last(),
        );
        let f = names.last();
        if occurs(features, f) {
            let k = first_index(features, f);
            before.update(
                k,
                counts_with(
                    before[k],
                    bin_of(ranges[k].xlow, ranges[k].xhigh, nbins, values.last(), quotients.last()),
                ),
            )
        } else {
            before
        }
    }
}

/// No name stands twice in `names`.
pub open spec fn distinct(names: Seq<Seq<char>>) -> bool {
    forall|a: int, b: int| 0 <= a < b < names.len() ==> names[a] != names[b]
}

/// The names without their repeats: each name stands where it first stood.
pub open spec fn first_occurrences(names: Seq<Seq<char>>) -> Seq<Seq<char>>
    decreases names.len(),
{
    if names.len() == 0 {
        Seq::empty()
    } else {
        let rest = first_occurrences(names.drop_last());
        if occurs(names.drop_last(), names.last()) {
            rest
        } else {
            rest.push(names.last())
        }
    }
}

/// The names of a list of named ranges.
pub open spec fn pair_names(v: Seq<(String, MinMax)>) -> Seq<Seq<char>> {
    Seq::new(v.len(), |i: int| v[i].0@)
}

/// The state of the second pass.
pub struct WellHistograms {
    /// The bin count of every histogram.
    pub nbins: usize,
    /// The kept features.
    pub features: Vec<String>,
    /// For each kept feature, its place in `features`.
    pub feature_slots: DashMap<String, u64>,
    /// The range of each kept feature.
    pub ranges: Vec<MinMax>,
    /// The wells seen, in the order of their first rows.
    pub wells: Vec<String>,
    /// For each well seen, its place in `wells`.
    pub slots: DashMap<String, u64>,
    /// For each well seen, one histogram for each kept feature.
    pub bundles: Vec<Vec<Hist1D>>,
}

impl WellHistograms {
    /// The names of the wells seen.
    pub open spec fn well_names(&self) -> Seq<Seq<char>> {
        names_of(self.wells@)
    }

    /// The names of the kept features.
    pub open spec fn feature_names(&self) -> Seq<Seq<char>> {
        names_of(self.features@)
    }

    /// The counts of the histograms of well `w`.
    pub open spec fn bundle_counts(&self, w: int) -> Seq<Seq<u64>> {
        counts_of(self.bundles@[w]@)
    }

    /// The histogram of well `w` for feature `k` has the configured bin count
    /// and the range of the feature.
    pub open spec fn hist_ok(&self, w: int, k: int) -> bool {
        let h = self.bundles@[w]@[k];
        h.wf() && h.nbins == self.nbins && h.xlow == self.ranges@[k].xlow && h.xhigh
            == self.ranges@[k].xhigh
    }

    /// The place of each kept feature is recorded under its name, and nothing
    /// else is.
    pub open spec fn feature_slots_ok(&self) -> bool {
        &&& forall|k: int|
            0 <= k < self.features@.len() ==> entries(self.feature_slots).dom().contains(
                #[trigger] self.feature_names()[k],
            ) && entries(self.feature_slots)[self.feature_names()[k]] == k
        &&& forall|name: Seq<char>|
            entries(self.feature_slots).dom().contains(name) ==> (#[trigger] entries(
                self.feature_slots,
            )[name]) < self.features@.len() && self.feature_names()[entries(
                self.feature_slots,
            )[name] as int] == name
    }

    /// The place of each well is recorded under its name, and nothing else
    /// is.
    pub open spec fn slots_ok(&self) -> bool {
        &&& forall|w: int|
            0 <= w < self.wells@.len() ==> entries(self.slots).dom().contains(
                #[trigger] self.well_names()[w],
            ) && entries(self.slots)[self.well_names()[w]] == w
        &&& forall|name: Seq<char>|
            entries(self.slots).dom().contains(name) ==> (#[trigger] entries(self.slots)[name])
                < self.wells@.len() && self.well_names()[entries(self.slots)[name] as int] == name
    }

    /// The state is consistent.
    pub open spec fn wf(&self) -> bool {
        &&& self.nbins >= 1
        &&& self.ranges@.len() == self.features@.len()
        &&& distinct(self.feature_names())
        &&& forall|k: int|
            0 <= k < self.ranges@.len() ==> !is_nan((#[trigger] self.ranges@[k]).xlow) && !is_nan(
                self.ranges@[k].xhigh,
            )
        &&& self.bundles@.len() == self.wells@.len()
        &&& forall|w: int|
            0 <= w < self.bundles@.len() ==> (#[trigger] self.bundles@[w])@.len()
                == self.features@.len()
        &&& forall|w: int, k: int|
            0 <= w < self.bundles@.len() && 0 <= k < self.features@.len()
                ==> #[trigger] self.hist_ok(w, k)
        &&& self.slots_ok()
        &&& self.feature_slots_ok()
    }

    /// No well is recorded twice.
    pub proof fn lemma_wells_distinct(&self, a: int, b: int)
        requires
            self.wf(),
            0 <= a < self.wells@.len(),
            0 <= b < self.wells@.len(),
            self.well_names()[a] == self.well_names()[b],
        ensures
            a == b,
    {
    }

    /// Starts the pass with no well seen. Each feature comes with its range,
    /// whose bounds are numbers; of several features with one name the first
    /// is kept.
    pub fn new(nbins: usize, min_max: &Vec<(String, MinMax)>) -> (state: Self)
        requires
            nbins >= 1,
            forall|k: int|
                0 <= k < min_max@.len() ==> !is_nan((#[trigger] min_max@[k]).1.xlow) && !is_nan(
                    min_max@[k].1.xhigh,
                ),
        ensures
            state.wf(),
            state.nbins == nbins,
            state.wells@.len() == 0,
            state.feature_names() == first_occurrences(pair_names(min_max@)),
            forall|k: int|
                0 <= k < state.features@.len() ==> #[trigger] state.ranges@[k]
                    == min_max@[first_index(pair_names(min_max@), state.feature_names()[k])].1,
    {
        let ghost all = pair_names(min_max@);
        let ghost origin: Seq<int> = Seq::empty();
        let mut features: Vec<String> = Vec::new();
        let mut feature_slots = store_new();
        let mut ranges: Vec<MinMax> = Vec::new();
        let n: usize = min_max.len();
        let mut k: usize = 0;
        while k < n
            invariant
                k <= n,
                n == min_max@.len(),
                all == pair_names(min_max@),
                forall|j: int|
                    0 <= j < features@.len() ==> entries(feature_slots).dom().contains(
                        #[trigger] names_of(features@)[j],
                    ) && entries(feature_slots)[names_of(features@)[j]] == j,
                forall|name: Seq<char>|
                    entries(feature_slots).dom().contains(name) ==> (#[trigger] entries(
                        feature_slots,
                    )[name]) < features@.len() && names_of(features@)[entries(
                        feature_slots,
                    )[name] as int] == name,
                forall|j: int|
                    0 <= j < min_max@.len() ==> !is_nan((#[trigger] min_max@[j]).1.xlow)
                        && !is_nan(min_max@[j].1.xhigh),
                features@.len() == ranges@.len(),
                origin.len() == features@.len(),
                names_of(features@) == first_occurrences(all.take(k as int)),
                forall|j: int|
                    0 <= j < features@.len() ==> 0 <= #[trigger] origin[j] < k && is_first_index(
                        all,
                        names_of(features@)[j],
                        origin[j],
                    ) && ranges@[j] == min_max@[origin[j]].1,
                forall|i: int| 0 <= i < k ==> occurs(names_of(features@), #[trigger] all[i]),
                distinct(names_of(features@)),
            decreases n - k,
        {
            let pair = &min_max[k];
            let ghost kept = names_of(features@);
            proof {
                assert(all.take(k + 1).drop_last() =~= all.take(k as int));
                if occurs(kept, pair.0@) {
                    let j = choose|j: int| 0 <= j < kept.len() && kept[j] == pair.0@;
                    assert(all.take(k as int)[origin[j]] == pair.0@);
                }
            }
            if !contains_name(features.as_slice(), &pair.0) {
                let name = pair.0.clone();
                let place: usize = features.len();
                store_insert(&mut feature_slots, pair.0.clone(), place as u64);
                features.push(name);
                ranges.push(pair.1);
                proof {
                    origin = origin.push(k as int);
                    assert(names_of(features@) =~= kept.push(pair.0@));
                    assert forall|i: int| 0 <= i < k + 1 implies occurs(
                        names_of(features@),
                        #[trigger] all[i],
                    ) by {
                        if i < k {
                            let j = choose|j: int| 0 <= j < kept.len() && kept[j] == all[i];
                            assert(names_of(features@)[j] == all[i]);
                        } else {
                            assert(names_of(features@)[kept.len() as int] == all[i]);
                        }
                    }
                }
            }
            k = k + 1;
        }
        proof {
            assert(all.take(n as int) =~= all);
            assert forall|j: int| 0 <= j < features@.len() implies #[trigger] ranges@[j]
                == min_max@[first_index(all, names_of(features@)[j])].1 by {
                lemma_first_index_is(all, names_of(features@)[j], origin[j]);
            }
            assert forall|j: int| 0 <= j < ranges@.len() implies !is_nan(
                (#[trigger] ranges@[j]).xlow,
            ) && !is_nan(ranges@[j].xhigh) by {
                assert(ranges@[j] == min_max@[origin[j]].1);
            }
        }
        WellHistograms {
            nbins,
            features,
            feature_slots,
            ranges,
            wells: Vec::new(),
            slots: store_new(),
            bundles: Vec::new(),
        }
    }

    /// The place of `well` among the wells seen, if it was seen.
    pub fn slot_of(&self, well: &String) -> (slot: Option<usize>)
        requires
            self.wf(),
        ensures
            match slot {
                Some(w) => is_first_index(self.well_names(), well@, w as int),
                None => !occurs(self.well_names(), well@),
            },
    {
        let seen: usize = self.wells.len();
        match store_get(&self.slots, well) {
            Some(w) => {
                assert(w < seen);
                Some(w as usize)
            },
            None => {
                assert(forall|j: int|
                    0 <= j < self.wells@.len() ==> entries(self.slots).dom().contains(
                        #[trigger] self.well_names()[j],
                    ));
                None
            },
        }
    }

    /// The place of the kept feature named `name`, if there is one.
    pub fn feature_slot(&self, name: &String) -> (slot: Option<usize>)
        requires
            self.wf(),
        ensures
            match slot {
                Some(k) => is_first_index(self.feature_names(), name@, k as int),
                None => !occurs(self.feature_names(), name@),
            },
    {
        let kept: usize = self.features.len();
        match store_get(&self.feature_slots, name) {
            Some(k) => {
                assert(k < kept);
                Some(k as usize)
            },
            None => {
                assert(forall|j: int|
                    0 <= j < self.features@.len() ==> entries(self.feature_slots).dom().contains(
                        #[trigger] self.feature_names()[j],
                    ));
                None
            },
        }
    }

    /// The place of `well`, which gets a bundle of empty histograms where it
    /// was not seen before.
    pub fn ensure_well(&mut self, well: &String) -> (w: usize)
        requires
            old(self).wf(),
        ensures
            final(self).wf(),
            final(self).nbins == old(self).nbins,
            final(self).features == old(self).features,
            final(self).feature_slots == old(self).feature_slots,
            final(self).ranges == old(self).ranges,
            is_first_index(final(self).well_names(), well@, w as int),
            occurs(old(self).well_names(), well@) ==> final(self).wells == old(self).wells
                && final(self).bundles == old(self).bundles && final(self).slots == old(
                self,
            ).slots,
            !occurs(old(self).well_names(), well@) ==> w == old(self).wells@.len()
                && final(self).well_names() == old(self).well_names().push(well@)
                && final(self).bundle_counts(w as int) == zero_counts(
                old(self).features@.len(),
                old(self).nbins as nat,
            ),
            forall|v: int|
                0 <= v < old(self).wells@.len() ==> #[trigger] final(self).bundles@[v] == old(
                    self,
                ).bundles@[v],
    {
        match self.slot_of(well) {
            Some(w) => w,
            None => {
                let w: usize = self.wells.len();
                let mut bundle: Vec<Hist1D> = Vec::new();
                let n: usize = self.features.len();
                let mut k: usize = 0;
                while k < n
                    invariant
                        k <= n,
                        n == self.features@.len(),
                        self.ranges@.len() == n,
                        self.nbins >= 1,
                        bundle@.len() == k,
                        forall|j: int|
                            0 <= j < k ==> (#[trigger] bundle@[j]).wf() && bundle@[j].nbins
                                == self.nbins && bundle@[j].xlow == self.ranges@[j].xlow
                                && bundle@[j].xhigh == self.ranges@[j].xhigh && bundle@[j].counts@
                                =~= Seq::new(self.nbins as nat, |i: int| 0u64),
                    decreases n - k,
                {
                    let range = self.ranges[k];
                    bundle.push(Hist1D::new(self.nbins, range.xlow, range.xhigh));
                    k = k + 1;
                }
                let ghost names = self.well_names();
                self.wells.push(well.clone());
                self.bundles.push(bundle);
                store_insert(&mut self.slots, well.clone(), w as u64);
                proof {
                    assert(self.well_names() =~= names.push(well@));
                    assert(self.bundle_counts(w as int) =~= zero_counts(
                        old(self).features@.len(),
                        old(self).nbins as nat,
                    ));
                    assert forall|v: int, j: int|
                        0 <= v < self.bundles@.len() && 0 <= j < self.features@.len()
                            implies #[trigger] self.hist_ok(v, j) by {
                        if v < w {
                            assert(old(self).hist_ok(v, j));
                        }
                    }
                }
                w
            },
        }
    }

    /// Counts one row in the bundle of the well at place `w`: `names[c]`,
    /// `values[c]` and `quotients[c]` are the feature, the value and the
    /// quotient of value column `c`.
    pub fn fill_slot(&mut self, w: usize, names: &[String], values: &[u64], quotients: &[usize])
        requires
            old(self).wf(),
            w < old(self).wells@.len(),
            values@.len() == names@.len(),
            quotients@.len() == names@.len(),
            quotients_fit(
                old(self).feature_names(),
                old(self).ranges@,
                old(self).nbins,
                names_of(names@),
                values@,
                quotients@,
            ),
        ensures
            final(self).wf(),
            final(self).nbins == old(self).nbins,
            final(self).features == old(self).features,
            final(self).feature_slots == old(self).feature_slots,
            final(self).ranges == old(self).ranges,
            final(self).wells == old(self).wells,
            final(self).slots == old(self).slots,
            final(self).bundle_counts(w as int) == bundle_after(
                old(self).bundle_counts(w as int),
                old(self).feature_names(),
                old(self).ranges@,
                old(self).nbins,
                names_of(names@),
                values@,
                quotients@,
            ),
            forall|v: int|
                0 <= v < old(self).wells@.len() && v != w ==> #[trigger] final(self).bundles@[v]
                    == old(self).bundles@[v],
    {
        let ghost features = self.feature_names();
        let ghost cols = names_of(names@);
        let ghost start = self.bundle_counts(w as int);
        let n: usize = names.len();
        let mut c: usize = 0;
        while c < n
            invariant
                c <= n,
                n == names@.len(),
                values@.len() == n,
                quotients@.len() == n,
                w < self.wells@.len(),
                self.wf(),
                self.nbins == old(self).nbins,
                self.features == old(self).features,
                self.feature_slots == old(self).feature_slots,
                self.ranges == old(self).ranges,
                self.wells == old(self).wells,
                self.slots == old(self).slots,
                features == self.feature_names(),
                cols == names_of(names@),
                quotients_fit(features, self.ranges@, self.nbins, cols, values@, quotients@),
                self.bundle_counts(w as int) == bundle_after(
                    start,
                    features,
                    self.ranges@,
                    self.nbins,
                    cols.take(c as int),
                    values@.take(c as int),
                    quotients@.take(c as int),
                ),
                forall|v: int|
                    0 <= v < self.wells@.len() && v != w ==> #[trigger] self.bundles@[v] == old(
                        self,
                    ).bundles@[v],
            decreases n - c,
        {
            proof {
                assert(cols.take(c + 1).drop_last() =~= cols.take(c as int));
                assert(values@.take(c + 1).drop_last() =~= values@.take(c as int));
                assert(quotients@.take(c + 1).drop_last() =~= quotients@.take(c as int));
            }
            match self.feature_slot(&names[c]) {
                Some(k) => {
                    let ghost before = self.bundle_counts(w as int);
                    let ghost prior = *self;
                    proof {
                        lemma_first_index_is(features, cols[c as int], k as int);
                        assert(self.hist_ok(w as int, k as int));
                        assert(inside(self.ranges@[k as int], values@[c as int])
                            ==> quotients@[c as int] < self.nbins);
                    }
                    self.bundles[w][k].fill_one(values[c], quotients[c]);
                    proof {
                        assert(self.bundle_counts(w as int) =~= before.update(
                            k as int,
                            counts_with(
                                before[k as int],
                                bin_of(
                                    self.ranges@[k as int].xlow,
                                    self.ranges@[k as int].xhigh,
                                    self.nbins,
                                    values@[c as int],
                                    quotients@[c as int],
                                ),
                            ),
                        ));
                        assert forall|v: int, j: int|
                            0 <= v < self.bundles@.len() && 0 <= j < self.features@.len()
                                implies #[trigger] self.hist_ok(v, j) by {
                            assert(prior.hist_ok(v, j));
                        }
                        assert forall|j: int| 0 <= j < self.features@.len() implies entries(
                            self.feature_slots,
                        ).dom().contains(#[trigger] self.feature_names()[j]) by {
                            assert(entries(prior.feature_slots).dom().contains(
                                prior.feature_names()[j],
                            ));
                        }
                        assert(self.well_names() == prior.well_names());
                    }
                },
                None => {},
            }
            c = c + 1;
        }
        proof {
            assert(cols.take(n as int) =~= cols);
            assert(values@.take(n as int) =~= values@);
            assert(quotients@.take(n as int) =~= quotients@);
        }
    }

    /// Takes in one row of a well on the plate: the well gets its bundle where
    /// this is its first row, and each value is counted as `bundle_after` says.
    pub fn fill_row(&mut self, well: &String, names: &[String], values: &[u64], quotients: &[usize])
        requires
            old(self).wf(),
            values@.len() == names@.len(),
            quotients@.len() == names@.len(),
            quotients_fit(
                old(self).feature_names(),
                old(self).ranges@,
                old(self).nbins,
                names_of(names@),
                values@,
                quotients@,
            ),
        ensures
            final(self).wf(),
            final(self).nbins == old(self).nbins,
            final(self).features == old(self).features,
            final(self).feature_slots == old(self).feature_slots,
            final(self).ranges == old(self).ranges,
            final(self).well_names() == (if occurs(old(self).well_names(), well@) {
                old(self).well_names()
            } else {
                old(self).well_names().push(well@)
            }),
            final(self).bundle_counts(first_index(final(self).well_names(), well@))
                == bundle_after(
                if occurs(old(self).well_names(), well@) {
                    old(self).bundle_counts(first_index(old(self).well_names(), well@))
                } else {
                    zero_counts(old(self).features@.len(), old(self).nbins as nat)
                },
                old(self).feature_names(),
                old(self).ranges@,
                old(self).nbins,
                names_of(names@),
                values@,
                quotients@,
            ),
            forall|v: int|
                0 <= v < old(self).wells@.len() && old(self).well_names()[v] != well@
                    ==> #[trigger] final(self).bundles@[v] == old(self).bundles@[v],
    {
        let w = self.ensure_well(well);
        proof {
            lemma_first_index_is(self.well_names(), well@, w as int);
            if occurs(old(self).well_names(), well@) {
                lemma_first_index_is(old(self).well_names(), well@, w as int);
            }
        }
        self.fill_slot(w, names, values, quotients);
        proof {
            lemma_first_index_is(self.well_names(), well@, w as int);
        }
    }
}

} // verus!

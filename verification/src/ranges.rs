//! The first pass over the table: for each feature, the least and the greatest
//! finite value seen, and the features that have none.

use crate::ieee::{
    bits_eq, bits_is_finite, bits_is_nan, bits_is_zero, bits_lt, is_finite, is_nan, is_zero,
    num_eq, num_lt, order_key, NAN_BITS, ONE_BITS,
};
use crate::index::{entries, store_get, store_insert, store_new};
use crate::names::{names_of, occurs};
use dashmap::DashMap;
use vstd::prelude::*;

verus! {

/// The range of a feature, as two bit patterns.
#[derive(Debug, Clone, Copy, PartialEq, Eq, Structural)]
pub struct MinMax {
    pub xlow: u64,
    pub xhigh: u64,
}

/// What the first pass found.
#[derive(Debug)]
pub struct MinMaxPlateResult {
    /// Each feature that has a finite value, with its adjusted range.
    pub min_max: Vec<(String, MinMax)>,
    /// The names of those features, in the same order.
    pub features: Vec<String>,
    /// The features without any finite value, if there are any.
    pub problemativ_features: Option<Vec<String>>,
}

/// The lower bound after seeing `v`: a value that is not finite changes
/// nothing, the first finite value sets the bound, a later one lowers it.
pub open spec fn track_low(current: u64, v: u64) -> u64 {
    if !is_finite(v) {
        current
    } else if is_nan(current) {
        v
    } else if num_lt(v, current) {
        v
    } else {
        current
    }
}

/// The upper bound after seeing `v`.
pub open spec fn track_high(current: u64, v: u64) -> u64 {
    if !is_finite(v) {
        current
    } else if is_nan(current) {
        v
    } else if num_lt(current, v) {
        v
    } else {
        current
    }
}

/// The lower bounds after one row: each value in turn updates the bound of the
/// feature it belongs to.
pub open spec fn lows_after(
    lows: Map<Seq<char>, u64>,
    names: Seq<Seq<char>>,
    values: Seq<u64>,
) -> Map<Seq<char>, u64>
    decreases names.len(),
{
    if names.len() == 0 || values.len() != names.len() {
        lows
    } else {
        let before = lows_after(lows, names.drop_last(), values.drop_last());
        let f = names.last();
        if before.dom().contains(f) {
            before.insert(f, track_low(before[f], values.last()))
        } else {
            before
        }
    }
}

/// The upper bounds after one row.
pub open spec fn highs_after(
    highs: Map<Seq<char>, u64>,
    names: Seq<Seq<char>>,
    values: Seq<u64>,
) -> Map<Seq<char>, u64>
    decreases names.len(),
{
    if names.len() == 0 || values.len() != names.len() {
        highs
    } else {
        let before = highs_after(highs, names.drop_last(), values.drop_last());
        let f = names.last();
        if before.dom().contains(f) {
            before.insert(f, track_high(before[f], values.last()))
        } else {
            before
        }
    }
}

/// The upper bound of a range after adjustment. A range with an unset bound
/// keeps it. A range that is a single point gets the upper bound 1 where the
/// point is zero, and `widened` elsewhere: the caller computes that as twice
/// the lower bound plus a half. Every other range is kept.
pub open spec fn adjusted_high(low: u64, high: u64, widened: u64) -> u64 {
    if is_nan(low) || is_nan(high) {
        high
    } else if num_eq(low, high) {
        if is_zero(low) {
            ONE_BITS
        } else {
            widened
        }
    } else {
        high
    }
}

/// The features kept, each with its adjusted range: those whose lower bound is
/// set, in column order.
pub open spec fn kept_ranges(names: Seq<Seq<char>>, bounds: Seq<MinMax>, widened: Seq<u64>) -> Seq<
    (Seq<char>, MinMax),
>
    decreases names.len(),
{
    if names.len() == 0 || bounds.len() != names.len() || widened.len() != names.len() {
        Seq::empty()
    } else {
        let rest = kept_ranges(names.drop_last(), bounds.drop_last(), widened.drop_last());
        let b = bounds.last();
        if is_nan(b.xlow) {
            rest
        } else {
            rest.push(
                (
                    names.last(),
                    (MinMax { xlow: b.xlow, xhigh: adjusted_high(b.xlow, b.xhigh, widened.last()) }),
                ),
            )
        }
    }
}

/// The features dropped: those whose lower bound was never set, in column
/// order.
pub open spec fn dropped_names(names: Seq<Seq<char>>, bounds: Seq<MinMax>) -> Seq<Seq<char>>
    decreases names.len(),
{
    if names.len() == 0 || bounds.len() != names.len() {
        Seq::empty()
    } else {
        let rest = dropped_names(names.drop_last(), bounds.drop_last());
        if is_nan(bounds.last().xlow) {
            rest.push(names.last())
        } else {
            rest
        }
    }
}

/// The texts and ranges of a list of named ranges.
pub open spec fn ranges_of(v: Seq<(String, MinMax)>) -> Seq<(Seq<char>, MinMax)> {
    Seq::new(v.len(), |i: int| (v[i].0@, v[i].1))
}

/// The first components of a list of pairs.
pub open spec fn firsts(v: Seq<(Seq<char>, MinMax)>) -> Seq<Seq<char>> {
    Seq::new(v.len(), |i: int| v[i].0)
}

/// Updates a lower bound with one value.
pub fn update_low(current: u64, v: u64) -> (r: u64)
    ensures
        r == track_low(current, v),
{
    if !bits_is_finite(v) {
        current
    } else if bits_is_nan(current) {
        v
    } else if bits_lt(v, current) {
        v
    } else {
        current
    }
}

/// Updates an upper bound with one value.
pub fn update_high(current: u64, v: u64) -> (r: u64)
    ensures
        r == track_high(current, v),
{
    if !bits_is_finite(v) {
        current
    } else if bits_is_nan(current) {
        v
    } else if bits_lt(current, v) {
        v
    } else {
        current
    }
}

/// Adjusts one range; see `adjusted_high`.
pub fn adjust_min_max(range: MinMax, widened: u64) -> (r: MinMax)
    ensures
        r.xlow == range.xlow,
        r.xhigh == adjusted_high(range.xlow, range.xhigh, widened),
{
    let xhigh = if bits_is_nan(range.xlow) || bits_is_nan(range.xhigh) {
        range.xhigh
    } else if bits_eq(range.xlow, range.xhigh) {
        if bits_is_zero(range.xlow) {
            ONE_BITS
        } else {
            widened
        }
    } else {
        range.xhigh
    };
    MinMax { xlow: range.xlow, xhigh }
}

/// The state of the first pass.
pub struct RangeScan {
    /// The number of columns of the header.
    pub width: usize,
    /// The feature of each value column, in column order.
    pub features: Vec<String>,
    /// The lower bound of each feature, by name.
    pub xlow: DashMap<String, u64>,
    /// The upper bound of each feature, by name.
    pub xhigh: DashMap<String, u64>,
}

impl RangeScan {
    /// The feature names, in column order.
    pub open spec fn names(&self) -> Seq<Seq<char>> {
        names_of(self.features@)
    }

    /// The lower bounds, by feature name.
    pub open spec fn lows(&self) -> Map<Seq<char>, u64> {
        entries(self.xlow)
    }

    /// The upper bounds, by feature name.
    pub open spec fn highs(&self) -> Map<Seq<char>, u64> {
        entries(self.xhigh)
    }

    /// Every feature has both bounds.
    pub open spec fn wf(&self) -> bool {
        forall|k: int|
            0 <= k < self.names().len() ==> self.lows().dom().contains(#[trigger] self.names()[k])
                && self.highs().dom().contains(self.names()[k])
    }

    /// Starts a pass over the feature columns at `feature_idx` of a table with
    /// the given header. No bound is set yet.
    pub fn new(headers: &Vec<String>, feature_idx: &Vec<usize>) -> (scan: Self)
        requires
            forall|k: int| 0 <= k < feature_idx@.len() ==> feature_idx@[k] < headers@.len(),
        ensures
            scan.wf(),
            scan.width == headers@.len(),
            scan.names().len() == feature_idx@.len(),
            forall|k: int|
                0 <= k < feature_idx@.len() ==> #[trigger] scan.names()[k]
                    == headers@[feature_idx@[k] as int]@,
            forall|f: Seq<char>|
                scan.lows().dom().contains(f) ==> #[trigger] scan.lows()[f] == NAN_BITS,
            forall|f: Seq<char>|
                scan.highs().dom().contains(f) ==> #[trigger] scan.highs()[f] == NAN_BITS,
            forall|f: Seq<char>| #[trigger]
                scan.lows().dom().contains(f) ==> occurs(scan.names(), f),
            forall|f: Seq<char>| #[trigger]
                scan.highs().dom().contains(f) ==> occurs(scan.names(), f),
    {
        let mut features: Vec<String> = Vec::new();
        let mut xlow = store_new();
        let mut xhigh = store_new();
        let mut k: usize = 0;
        while k < feature_idx.len()
            invariant
                k <= feature_idx@.len(),
                forall|j: int| 0 <= j < feature_idx@.len() ==> feature_idx@[j] < headers@.len(),
                features@.len() == k,
                forall|j: int|
                    0 <= j < k ==> (#[trigger] features@[j])@ == headers@[feature_idx@[j] as int]@,
                forall|j: int|
                    0 <= j < k ==> entries(xlow).dom().contains((#[trigger] features@[j])@)
                        && entries(xhigh).dom().contains(features@[j]@),
                forall|f: Seq<char>|
                    entries(xlow).dom().contains(f) ==> #[trigger] entries(xlow)[f] == NAN_BITS,
                forall|f: Seq<char>|
                    entries(xhigh).dom().contains(f) ==> #[trigger] entries(xhigh)[f] == NAN_BITS,
                forall|f: Seq<char>| #[trigger]
                    entries(xlow).dom().contains(f) ==> occurs(names_of(features@), f),
                forall|f: Seq<char>| #[trigger]
                    entries(xhigh).dom().contains(f) ==> occurs(names_of(features@), f),
            decreases feature_idx@.len() - k,
        {
            let name = &headers[feature_idx[k]];
            let ghost before = names_of(features@);
            store_insert(&mut xlow, name.clone(), NAN_BITS);
            store_insert(&mut xhigh, name.clone(), NAN_BITS);
            features.push(name.clone());
            proof {
                let after = names_of(features@);
                assert(after[k as int] == name@);
                assert forall|f: Seq<char>| occurs(before, f) implies occurs(after, f) by {
                    let i = choose|i: int| 0 <= i < before.len() && #[trigger] before[i] == f;
                    assert(after[i] == f);
                }
            }
            k = k + 1;
        }
        RangeScan { width: headers.len(), features, xlow, xhigh }
    }

    /// Says whether the pass takes in a row of `field_count` fields: it
    /// passes over every row whose field count differs from the header's.
    pub fn accepts(&self, field_count: usize) -> (taken: bool)
        ensures
            taken == (field_count == self.width),
    {
        field_count == self.width
    }

    /// Takes in one row: `values[k]` is the value in the column of feature
    /// `k`, as a bit pattern (any pattern that is not a finite number where the
    /// field does not read as one). Each finite value lowers the lower bound and
    /// raises the upper bound of its feature as far as needed.
    pub fn observe(&mut self, values: &[u64])
        requires
            old(self).wf(),
            values@.len() == old(self).names().len(),
        ensures
            final(self).wf(),
            final(self).width == old(self).width,
            final(self).features == old(self).features,
            final(self).lows() == lows_after(old(self).lows(), old(self).names(), values@),
            final(self).highs() == highs_after(old(self).highs(), old(self).names(), values@),
            final(self).lows().dom() == old(self).lows().dom(),
            final(self).highs().dom() == old(self).highs().dom(),
    {
        let ghost names = self.names();
        let ghost lows0 = self.lows();
        let ghost highs0 = self.highs();
        let n: usize = values.len();
        let mut k: usize = 0;
        while k < n
            invariant
                k <= n,
                n == values@.len(),
                n == names.len(),
                self.width == old(self).width,
                self.features == old(self).features,
                names == self.names(),
                self.wf(),
                self.lows() == lows_after(lows0, names.take(k as int), values@.take(k as int)),
                self.highs() == highs_after(highs0, names.take(k as int), values@.take(k as int)),
                self.lows().dom() == lows0.dom(),
                self.highs().dom() == highs0.dom(),
            decreases n - k,
        {
            let v: u64 = values[k];
            proof {
                assert(names.take(k + 1).drop_last() =~= names.take(k as int));
                assert(values@.take(k + 1).drop_last() =~= values@.take(k as int));
            }
            let low = store_get(&self.xlow, &self.features[k]);
            let high = store_get(&self.xhigh, &self.features[k]);
            match low {
                Some(current) => {
                    let next = update_low(current, v);
                    if next != current {
                        store_insert(&mut self.xlow, self.features[k].clone(), next);
                    }
                },
                None => {},
            }
            match high {
                Some(current) => {
                    let next = update_high(current, v);
                    if next != current {
                        store_insert(&mut self.xhigh, self.features[k].clone(), next);
                    }
                },
                None => {},
            }
            k = k + 1;
        }
        proof {
            assert(names.take(n as int) =~= names);
            assert(values@.take(n as int) =~= values@);
        }
    }

    /// The bounds found so far, one pair for each feature column.
    pub fn bounds(&self) -> (res: Vec<MinMax>)
        requires
            self.wf(),
        ensures
            res@.len() == self.names().len(),
            forall|k: int|
                0 <= k < res@.len() ==> (#[trigger] res@[k]).xlow == self.lows()[self.names()[k]]
                    && res@[k].xhigh == self.highs()[self.names()[k]],
    {
        let mut res: Vec<MinMax> = Vec::new();
        let n: usize = self.features.len();
        let mut k: usize = 0;
        while k < n
            invariant
                k <= n,
                n == self.names().len(),
                self.wf(),
                res@.len() == k,
                forall|j: int|
                    0 <= j < k ==> (#[trigger] res@[j]).xlow == self.lows()[self.names()[j]]
                        && res@[j].xhigh == self.highs()[self.names()[j]],
            decreases n - k,
        {
            let low = store_get(&self.xlow, &self.features[k]);
            let high = store_get(&self.xhigh, &self.features[k]);
            let xlow: u64 = match low {
                Some(bits) => bits,
                None => NAN_BITS,
            };
            let xhigh: u64 = match high {
                Some(bits) => bits,
                None => NAN_BITS,
            };
            res.push(MinMax { xlow, xhigh });
            k = k + 1;
        }
        res
    }
}

/// Closes the first pass. `bounds[k]` is the range found for feature `k`,
/// and `widened[k]` is twice its lower bound plus a half, which the caller
/// computes. A feature whose lower bound was never set is dropped and listed
/// as problematic; every other feature is kept with its adjusted range.
pub fn get_min_max_plate(features: &Vec<String>, bounds: &Vec<MinMax>, widened: &Vec<u64>) -> (res:
    MinMaxPlateResult)
    requires
        bounds@.len() == features@.len(),
        widened@.len() == features@.len(),
    ensures
        ranges_of(res.min_max@) == kept_ranges(names_of(features@), bounds@, widened@),
        names_of(res.features@) == firsts(ranges_of(res.min_max@)),
        match res.problemativ_features {
            Some(list) => list@.len() > 0 && names_of(list@) == dropped_names(
                names_of(features@),
                bounds@,
            ),
            None => dropped_names(names_of(features@), bounds@).len() == 0,
        },
{
    let ghost names = names_of(features@);
    let mut min_max: Vec<(String, MinMax)> = Vec::new();
    let mut kept: Vec<String> = Vec::new();
    let mut dropped: Vec<String> = Vec::new();
    let n: usize = features.len();
    let mut k: usize = 0;
    while k < n
        invariant
            k <= n,
            n == features@.len(),
            bounds@.len() == n,
            widened@.len() == n,
            names == names_of(features@),
            ranges_of(min_max@) == kept_ranges(
                names.take(k as int),
                bounds@.take(k as int),
                widened@.take(k as int),
            ),
            names_of(kept@) == firsts(ranges_of(min_max@)),
            names_of(dropped@) == dropped_names(names.take(k as int), bounds@.take(k as int)),
        decreases n - k,
    {
        proof {
            assert(names.take(k + 1).drop_last() =~= names.take(k as int));
            assert(bounds@.take(k + 1).drop_last() =~= bounds@.take(k as int));
            assert(widened@.take(k + 1).drop_last() =~= widened@.take(k as int));
        }
        let range = bounds[k];
        if bits_is_nan(range.xlow) {
            dropped.push(features[k].clone());
        } else {
            let adjusted = adjust_min_max(range, widened[k]);
            let ghost before_names = names_of(kept@);
            min_max.push((features[k].clone(), adjusted));
            kept.push(features[k].clone());
            assert(names_of(kept@) =~= before_names.push(names[k as int]));
        }
        k = k + 1;
    }
    proof {
        assert(names.take(n as int) =~= names);
        assert(bounds@.take(n as int) =~= bounds@);
        assert(widened@.take(n as int) =~= widened@);
    }
    let problemativ_features = if dropped.len() > 0 {
        Some(dropped)
    } else {
        None
    };
    MinMaxPlateResult { min_max, features: kept, problemativ_features }
}

/// The lower bounds after a run of rows, taken in one after the other.
pub open spec fn lows_after_rows(
    lows: Map<Seq<char>, u64>,
    names: Seq<Seq<char>>,
    rows: Seq<Seq<u64>>,
) -> Map<Seq<char>, u64>
    decreases rows.len(),
{
    if rows.len() == 0 {
        lows
    } else {
        lows_after(lows_after_rows(lows, names, rows.drop_last()), names, rows.last())
    }
}

/// The upper bounds after a run of rows.
pub open spec fn highs_after_rows(
    highs: Map<Seq<char>, u64>,
    names: Seq<Seq<char>>,
    rows: Seq<Seq<u64>>,
) -> Map<Seq<char>, u64>
    decreases rows.len(),
{
    if rows.len() == 0 {
        highs
    } else {
        highs_after(highs_after_rows(highs, names, rows.drop_last()), names, rows.last())
    }
}

/// Every row has one value for each feature column.
pub open spec fn rows_fit(names: Seq<Seq<char>>, rows: Seq<Seq<u64>>) -> bool {
    forall|r: int| 0 <= r < rows.len() ==> (#[trigger] rows[r]).len() == names.len()
}

/// No row holds a finite value in a column of feature `f`.
pub open spec fn never_finite(names: Seq<Seq<char>>, rows: Seq<Seq<u64>>, f: Seq<char>) -> bool {
    forall|r: int, k: int|
        0 <= r < rows.len() && 0 <= k < names.len() && names[k] == f ==> !is_finite(
            #[trigger] rows[r][k],
        )
}

/// A bound is either unset or a finite number.
pub open spec fn unset_or_finite(bits: u64) -> bool {
    is_nan(bits) || is_finite(bits)
}

/// What one row does to the lower bound of feature `f`: it stays in place,
/// a set bound only moves down, it ends at or below each finite value of the
/// feature in the row, and it stays unset where the row has none.
pub proof fn lemma_row_low(
    lows: Map<Seq<char>, u64>,
    names: Seq<Seq<char>>,
    values: Seq<u64>,
    f: Seq<char>,
)
    requires
        names.len() == values.len(),
        lows.dom().contains(f),
    ensures
        ({
            let after = lows_after(lows, names, values);
            &&& after.dom().contains(f)
            &&& unset_or_finite(lows[f]) ==> unset_or_finite(after[f])
            &&& !is_nan(lows[f]) ==> !is_nan(after[f]) && order_key(after[f]) <= order_key(lows[f])
            &&& forall|k: int|
                0 <= k < names.len() && names[k] == f && is_finite(#[trigger] values[k])
                    ==> !is_nan(after[f]) && order_key(after[f]) <= order_key(values[k])
            &&& (is_nan(lows[f]) && forall|k: int|
                0 <= k < names.len() && names[k] == f ==> !is_finite(#[trigger] values[k]))
                ==> is_nan(after[f])
        }),
    decreases names.len(),
{
    if names.len() > 0 {
        lemma_row_low(lows, names.drop_last(), values.drop_last(), f);
        let after = lows_after(lows, names, values);
        assert forall|k: int|
            0 <= k < names.len() && names[k] == f && is_finite(#[trigger] values[k])
                implies !is_nan(after[f]) && order_key(after[f]) <= order_key(values[k]) by {
            if k < names.len() - 1 {
                assert(values.drop_last()[k] == values[k]);
            }
        }
        if is_nan(lows[f]) && (forall|k: int|
            0 <= k < names.len() && names[k] == f ==> !is_finite(#[trigger] values[k])) {
        }
    }
}

/// What one row does to the upper bound of feature `f`.
pub proof fn lemma_row_high(
    highs: Map<Seq<char>, u64>,
    names: Seq<Seq<char>>,
    values: Seq<u64>,
    f: Seq<char>,
)
    requires
        names.len() == values.len(),
        highs.dom().contains(f),
    ensures
        ({
            let after = highs_after(highs, names, values);
            &&& after.dom().contains(f)
            &&& unset_or_finite(highs[f]) ==> unset_or_finite(after[f])
            &&& !is_nan(highs[f]) ==> !is_nan(after[f]) && order_key(highs[f]) <= order_key(
                after[f],
            )
            &&& forall|k: int|
                0 <= k < names.len() && names[k] == f && is_finite(#[trigger] values[k])
                    ==> !is_nan(after[f]) && order_key(values[k]) <= order_key(after[f])
        }),
    decreases names.len(),
{
    if names.len() > 0 {
        lemma_row_high(highs, names.drop_last(), values.drop_last(), f);
        let after = highs_after(highs, names, values);
        assert forall|k: int|
            0 <= k < names.len() && names[k] == f && is_finite(#[trigger] values[k])
                implies !is_nan(after[f]) && order_key(values[k]) <= order_key(after[f]) by {
            if k < names.len() - 1 {
                assert(values.drop_last()[k] == values[k]);
            }
        }
    }
}

/// After any run of rows, the range of a feature holds every finite value
/// that the rows have in a column of that feature: the lower bound is at or
/// below it, the upper bound at or above it, and both are finite numbers.
pub proof fn lemma_range_holds_finite_values(
    lows: Map<Seq<char>, u64>,
    highs: Map<Seq<char>, u64>,
    names: Seq<Seq<char>>,
    rows: Seq<Seq<u64>>,
    r: int,
    k: int,
)
    requires
        rows_fit(names, rows),
        0 <= r < rows.len(),
        0 <= k < names.len(),
        is_finite(rows[r][k]),
        lows.dom().contains(names[k]),
        highs.dom().contains(names[k]),
        unset_or_finite(lows[names[k]]),
        unset_or_finite(highs[names[k]]),
    ensures
        ({
            let low = lows_after_rows(lows, names, rows)[names[k]];
            let high = highs_after_rows(highs, names, rows)[names[k]];
            &&& is_finite(low)
            &&& is_finite(high)
            &&& order_key(low) <= order_key(rows[r][k])
            &&& order_key(rows[r][k]) <= order_key(high)
        }),
    decreases rows.len(),
{
    let f = names[k];
    let lows_before = lows_after_rows(lows, names, rows.drop_last());
    let highs_before = highs_after_rows(highs, names, rows.drop_last());
    lemma_rows_keep(lows, highs, names, rows.drop_last(), f);
    lemma_row_low(lows_before, names, rows.last(), f);
    lemma_row_high(highs_before, names, rows.last(), f);
    if r < rows.len() - 1 {
        lemma_range_holds_finite_values(lows, highs, names, rows.drop_last(), r, k);
    }
}

/// A run of rows leaves each bound of feature `f` in place, and unset or
/// finite where it was so.
pub proof fn lemma_rows_keep(
    lows: Map<Seq<char>, u64>,
    highs: Map<Seq<char>, u64>,
    names: Seq<Seq<char>>,
    rows: Seq<Seq<u64>>,
    f: Seq<char>,
)
    requires
        rows_fit(names, rows),
        lows.dom().contains(f),
        highs.dom().contains(f),
    ensures
        lows_after_rows(lows, names, rows).dom().contains(f),
        highs_after_rows(highs, names, rows).dom().contains(f),
        unset_or_finite(lows[f]) ==> unset_or_finite(lows_after_rows(lows, names, rows)[f]),
        unset_or_finite(highs[f]) ==> unset_or_finite(highs_after_rows(highs, names, rows)[f]),
    decreases rows.len(),
{
    if rows.len() > 0 {
        lemma_rows_keep(lows, highs, names, rows.drop_last(), f);
        lemma_row_low(lows_after_rows(lows, names, rows.drop_last()), names, rows.last(), f);
        lemma_row_high(highs_after_rows(highs, names, rows.drop_last()), names, rows.last(), f);
    }
}

/// A feature whose columns hold no finite value in any row keeps an unset
/// lower bound.
pub proof fn lemma_lower_bound_stays_unset(
    lows: Map<Seq<char>, u64>,
    names: Seq<Seq<char>>,
    rows: Seq<Seq<u64>>,
    f: Seq<char>,
)
    requires
        rows_fit(names, rows),
        lows.dom().contains(f),
        is_nan(lows[f]),
        never_finite(names, rows, f),
    ensures
        lows_after_rows(lows, names, rows).dom().contains(f),
        is_nan(lows_after_rows(lows, names, rows)[f]),
    decreases rows.len(),
{
    if rows.len() > 0 {
        let head = rows.drop_last();
        lemma_lower_bound_stays_unset(lows, names, head, f);
        let last = rows.last();
        lemma_row_low(lows_after_rows(lows, names, head), names, last, f);
    }
}

/// A feature whose lower bound is unset in every column of its name is listed
/// among the dropped features and is not among the kept ones.
pub proof fn lemma_unset_feature_is_dropped(
    names: Seq<Seq<char>>,
    bounds: Seq<MinMax>,
    widened: Seq<u64>,
    k: int,
)
    requires
        bounds.len() == names.len(),
        widened.len() == names.len(),
        0 <= k < names.len(),
        forall|j: int| 0 <= j < names.len() && names[j] == names[k] ==> is_nan(bounds[j].xlow),
    ensures
        dropped_names(names, bounds).contains(names[k]),
        !firsts(kept_ranges(names, bounds, widened)).contains(names[k]),
    decreases names.len(),
{
    let f = names[k];
    let head = names.drop_last();
    let kept = kept_ranges(names, bounds, widened);
    let dropped = dropped_names(names, bounds);
    let dropped_head = dropped_names(head, bounds.drop_last());
    lemma_kept_names_come_from_set_bounds(names, bounds, widened);
    if k == names.len() - 1 {
        assert(dropped[dropped.len() - 1] == f);
    } else {
        lemma_unset_feature_is_dropped(head, bounds.drop_last(), widened.drop_last(), k);
        let i = choose|i: int| 0 <= i < dropped_head.len() && dropped_head[i] == f;
        assert(dropped[i] == f);
    }
}

/// Each kept feature stands in a column whose lower bound is set.
pub proof fn lemma_kept_names_come_from_set_bounds(
    names: Seq<Seq<char>>,
    bounds: Seq<MinMax>,
    widened: Seq<u64>,
)
    requires
        bounds.len() == names.len(),
        widened.len() == names.len(),
    ensures
        forall|i: int|
            0 <= i < kept_ranges(names, bounds, widened).len() ==> exists|j: int|
                0 <= j < names.len() && names[j] == (#[trigger] kept_ranges(
                    names,
                    bounds,
                    widened,
                )[i]).0 && !is_nan(bounds[j].xlow),
    decreases names.len(),
{
    if names.len() > 0 {
        let head = names.drop_last();
        let kept = kept_ranges(names, bounds, widened);
        let kept_head = kept_ranges(head, bounds.drop_last(), widened.drop_last());
        lemma_kept_names_come_from_set_bounds(head, bounds.drop_last(), widened.drop_last());
        assert forall|i: int| 0 <= i < kept.len() implies exists|j: int|
            0 <= j < names.len() && names[j] == (#[trigger] kept[i]).0 && !is_nan(
                bounds[j].xlow,
            ) by {
            if i < kept_head.len() {
                let j = choose|j: int|
                    0 <= j < head.len() && head[j] == kept_head[i].0 && !is_nan(
                        bounds.drop_last()[j].xlow,
                    );
            }
        }
    }
}

/// Adjustment keeps a range around the values it held, wherever the widened
/// bound that the caller supplies for a one-point range is a number at or
/// above that point.
pub proof fn lemma_adjusted_range_holds(low: u64, high: u64, widened: u64, v: u64)
    requires
        !is_nan(low),
        !is_nan(high),
        order_key(low) <= order_key(v) <= order_key(high),
        num_eq(low, high) && !is_zero(low) ==> !is_nan(widened) && order_key(low) <= order_key(
            widened,
        ),
    ensures
        !is_nan(adjusted_high(low, high, widened)),
        order_key(low) <= order_key(v) <= order_key(adjusted_high(low, high, widened)),
{
}

/// The bounds of each feature column, read from the bounds by name.
pub open spec fn bounds_by_column(
    names: Seq<Seq<char>>,
    lows: Map<Seq<char>, u64>,
    highs: Map<Seq<char>, u64>,
) -> Seq<MinMax> {
    Seq::new(names.len(), |k: int| (MinMax { xlow: lows[names[k]], xhigh: highs[names[k]] }))
}

/// A feature whose columns hold no finite value in any row is listed as
/// problematic at the end of the pass and is not among the features kept.
pub proof fn lemma_feature_without_finite_values_is_problematic(
    names: Seq<Seq<char>>,
    rows: Seq<Seq<u64>>,
    widened: Seq<u64>,
    k: int,
)
    requires
        rows_fit(names, rows),
        widened.len() == names.len(),
        0 <= k < names.len(),
        never_finite(names, rows, names[k]),
    ensures
        ({
            let lows = lows_after_rows(unset_bounds(names), names, rows);
            let highs = highs_after_rows(unset_bounds(names), names, rows);
            let bounds = bounds_by_column(names, lows, highs);
            &&& dropped_names(names, bounds).contains(names[k])
            &&& !firsts(kept_ranges(names, bounds, widened)).contains(names[k])
        }),
{
    let lows = lows_after_rows(unset_bounds(names), names, rows);
    let highs = highs_after_rows(unset_bounds(names), names, rows);
    let bounds = bounds_by_column(names, lows, highs);
    assert(occurs(names, names[k]));
    lemma_lower_bound_stays_unset(unset_bounds(names), names, rows, names[k]);
    lemma_unset_feature_is_dropped(names, bounds, widened, k);
}

/// The values of a table, row by row.
pub open spec fn rows_of(rows: Seq<Vec<u64>>) -> Seq<Seq<u64>> {
    Seq::new(rows.len(), |r: int| rows[r]@)
}

/// The bounds before any row: unset for every feature.
pub open spec fn unset_bounds(names: Seq<Seq<char>>) -> Map<Seq<char>, u64> {
    Map::new(|f: Seq<char>| occurs(names, f), |f: Seq<char>| NAN_BITS)
}

/// Finds the range of each feature column of a table that is held in memory:
/// `rows[r][k]` is the value of row `r` in the column of feature `k`. The
/// bounds are those that taking in the rows one after the other gives. Each
/// range holds every finite value of its feature, and the lower bound of a
/// feature without any finite value is unset.
pub fn scan_ranges(headers: &Vec<String>, feature_idx: &Vec<usize>, rows: &Vec<Vec<u64>>) -> (res:
    (RangeScan, Vec<MinMax>))
    requires
        forall|k: int| 0 <= k < feature_idx@.len() ==> feature_idx@[k] < headers@.len(),
        forall|r: int| 0 <= r < rows@.len() ==> (#[trigger] rows@[r])@.len() == feature_idx@.len(),
    ensures
        res.0.wf(),
        res.0.width == headers@.len(),
        res.0.names().len() == feature_idx@.len(),
        forall|k: int|
            0 <= k < feature_idx@.len() ==> #[trigger] res.0.names()[k]
                == headers@[feature_idx@[k] as int]@,
        res.0.lows() == lows_after_rows(
            unset_bounds(res.0.names()),
            res.0.names(),
            rows_of(rows@),
        ),
        res.0.highs() == highs_after_rows(
            unset_bounds(res.0.names()),
            res.0.names(),
            rows_of(rows@),
        ),
        res.1@.len() == feature_idx@.len(),
        forall|k: int|
            0 <= k < res.1@.len() ==> (#[trigger] res.1@[k]).xlow == res.0.lows()[res.0.names()[k]]
                && res.1@[k].xhigh == res.0.highs()[res.0.names()[k]],
        forall|r: int, k: int|
            0 <= r < rows@.len() && 0 <= k < feature_idx@.len() && is_finite(
                #[trigger] rows@[r]@[k],
            ) ==> is_finite(res.1@[k].xlow) && is_finite(res.1@[k].xhigh) && order_key(
                res.1@[k].xlow,
            ) <= order_key(rows@[r]@[k]) && order_key(rows@[r]@[k]) <= order_key(res.1@[k].xhigh),
        forall|k: int|
            0 <= k < feature_idx@.len() && never_finite(
                res.0.names(),
                rows_of(rows@),
                res.0.names()[k],
            ) ==> is_nan((#[trigger] res.1@[k]).xlow),
{
    let mut scan = RangeScan::new(headers, feature_idx);
    let ghost names = scan.names();
    let ghost table = rows_of(rows@);
    let ghost lows0 = scan.lows();
    let ghost highs0 = scan.highs();
    proof {
        assert(lows0 =~= unset_bounds(names));
        assert(highs0 =~= unset_bounds(names));
    }
    let n: usize = rows.len();
    let mut r: usize = 0;
    while r < n
        invariant
            r <= n,
            n == rows@.len(),
            table == rows_of(rows@),
            forall|i: int| 0 <= i < rows@.len() ==> (#[trigger] rows@[i])@.len() == names.len(),
            scan.wf(),
            scan.width == headers@.len(),
            scan.names() == names,
            scan.lows() == lows_after_rows(lows0, names, table.take(r as int)),
            scan.highs() == highs_after_rows(highs0, names, table.take(r as int)),
        decreases n - r,
    {
        proof {
            assert(table.take(r + 1).drop_last() =~= table.take(r as int));
        }
        scan.observe(rows[r].as_slice());
        r = r + 1;
    }
    let bounds = scan.bounds();
    proof {
        assert(table.take(n as int) =~= table);
        assert forall|i: int, k: int|
            0 <= i < rows@.len() && 0 <= k < feature_idx@.len() && is_finite(
                #[trigger] rows@[i]@[k],
            ) implies is_finite(bounds@[k].xlow) && is_finite(bounds@[k].xhigh) && order_key(
            bounds@[k].xlow,
        ) <= order_key(rows@[i]@[k]) && order_key(rows@[i]@[k]) <= order_key(
            bounds@[k].xhigh,
        ) by {
            lemma_range_holds_finite_values(lows0, highs0, names, table, i, k);
        }
        assert forall|k: int|
            0 <= k < feature_idx@.len() && never_finite(names, table, names[k]) implies is_nan(
            (#[trigger] bounds@[k]).xlow,
        ) by {
            lemma_lower_bound_stays_unset(lows0, names, table, names[k]);
        }
    }
    (scan, bounds)
}

} // verus!

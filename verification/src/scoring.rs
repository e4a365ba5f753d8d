//! Scoring, block by block: the wells of a block, the pooled control of each
//! feature, and the sign of each score.

use crate::errors::HistDiffError;
use crate::header::places;
use crate::histograms::{counts_sum, Hist1D};
use crate::ieee::{bits_lt, is_nan, is_zero, num_lt, order_key, SIGN_BIT};
use crate::names::{contains_name, first_index, lemma_first_index_is, names_of, occurs};
use crate::utils::{blocks_of, clean_name, clean_well_names};
use crate::wells::WellHistograms;
use vstd::prelude::*;

verus! {

/// The pattern of the weight that a count's neighbours get when the counts
/// of a well are smoothed before they are normalized: one quarter.
pub const SMOOTHING_ALPHA_BITS: u64 = 0x3FD0_0000_0000_0000;

/// The pattern of the factor that scales the experimental counts in a score:
/// one.
pub const SCORE_FACTOR_BITS: u64 = 0x3FF0_0000_0000_0000;

/// Some name of the block is `well`, once brought to canonical form.
pub open spec fn in_block(block: Seq<Seq<char>>, well: Seq<char>) -> bool {
    exists|i: int| 0 <= i < block.len() && clean_name(#[trigger] block[i]) == well
}

/// The name under which the pooled control of a block goes. A well of that
/// name is not scored.
pub open spec fn control_key() -> Seq<char> {
    "CNTRL"@
}

/// The well at place `w` is scored with the block: the block holds it, and
/// its name is not that of the pooled control.
pub open spec fn is_scored(wells: Seq<Seq<char>>, block: Seq<Seq<char>>, w: int) -> bool {
    0 <= w < wells.len() && in_block(block, wells[w]) && wells[w] != control_key()
}

/// `members` lists, ascending, exactly the places of the wells seen that are
/// scored with the block.
pub open spec fn is_member_list(
    members: Seq<int>,
    wells: Seq<Seq<char>>,
    block: Seq<Seq<char>>,
) -> bool {
    &&& forall|a: int, b: int| 0 <= a < b < members.len() ==> members[a] < members[b]
    &&& forall|w: int| members.contains(w) <==> is_scored(wells, block, w)
}

/// The places of the control wells of a block: each configured control, in
/// the order configured, that was seen and that the block holds. A control is
/// looked up among the wells seen as it is configured; a control that is
/// configured twice is pooled twice.
pub open spec fn control_slots(
    ctrls: Seq<Seq<char>>,
    wells: Seq<Seq<char>>,
    block: Seq<Seq<char>>,
) -> Seq<int>
    decreases ctrls.len(),
{
    if ctrls.len() == 0 {
        Seq::empty()
    } else {
        let rest = control_slots(ctrls.drop_last(), wells, block);
        let c = ctrls.last();
        if occurs(wells, c) && in_block(block, c) {
            rest.push(first_index(wells, c))
        } else {
            rest
        }
    }
}

/// The counts of feature `k` in each control well.
pub open spec fn control_rows(hists: &WellHistograms, controls: Seq<usize>, k: int) -> Seq<
    Seq<u64>,
> {
    Seq::new(controls.len(), |i: int| hists.bundles@[controls[i] as int]@[k].counts@)
}

/// The bin-wise sum of the rows, taken in order: the first row, then each
/// further row added to the sum so far.
pub open spec fn pooled_counts(rows: Seq<Seq<u64>>) -> Seq<u64>
    decreases rows.len(),
{
    if rows.len() == 0 {
        Seq::empty()
    } else if rows.len() == 1 {
        rows[0]
    } else {
        counts_sum(pooled_counts(rows.drop_last()), rows.last())
    }
}

/// `h` is the pooled control of feature `k`.
pub open spec fn is_pooled(h: Hist1D, hists: &WellHistograms, controls: Seq<usize>, k: int) -> bool {
    &&& h.wf()
    &&& h.nbins == hists.nbins
    &&& h.xlow == hists.ranges@[k].xlow
    &&& h.xhigh == hists.ranges@[k].xhigh
    &&& h.counts@ == pooled_counts(control_rows(hists, controls, k))
}

/// What is scored together: the wells of one block and their pooled controls.
#[derive(Debug)]
pub struct BlockGroup {
    /// The places of the wells that are scored, ascending.
    pub members: Vec<usize>,
    /// The places of the control wells, in the order of the configured controls.
    pub controls: Vec<usize>,
    /// For each kept feature, the pooled control histogram.
    pub pooled: Vec<Hist1D>,
}

impl BlockGroup {
    /// The group is that of `block` under the configured controls.
    pub open spec fn describes(
        &self,
        hists: &WellHistograms,
        block: Seq<Seq<char>>,
        ctrls: Seq<Seq<char>>,
    ) -> bool {
        &&& is_member_list(places(self.members@), hists.well_names(), block)
        &&& places(self.controls@) == control_slots(ctrls, hists.well_names(), block)
        &&& forall|i: int|
            0 <= i < self.controls@.len() ==> #[trigger] self.controls@[i] < hists.wells@.len()
        &&& self.pooled@.len() == hists.features@.len()
        &&& forall|k: int|
            0 <= k < self.pooled@.len() ==> is_pooled(
                #[trigger] self.pooled@[k],
                hists,
                self.controls@,
                k,
            )
    }
}

/// Says whether the block holds `well`, given the block in canonical form.
fn block_holds(cleaned: &Vec<String>, well: &String, Ghost(block): Ghost<Seq<Seq<char>>>) -> (r:
    bool)
    requires
        cleaned@.len() == block.len(),
        forall|i: int| 0 <= i < block.len() ==> (#[trigger] cleaned@[i])@ == clean_name(block[i]),
    ensures
        r == in_block(block, well@),
{
    let r = contains_name(cleaned.as_slice(), well);
    proof {
        let names = names_of(cleaned@);
        if r {
            let i = choose|i: int| 0 <= i < names.len() && #[trigger] names[i] == well@;
        } else {
            assert forall|i: int| 0 <= i < block.len() implies clean_name(#[trigger] block[i])
                != well@ by {
                assert(names[i] == cleaned@[i]@);
            }
        }
    }
    r
}

/// The pooled control of feature `k`: a copy of the histogram of the first
/// control well, with that of each further control well added in order.
fn pool_feature(hists: &WellHistograms, controls: &Vec<usize>, k: usize) -> (sum: Hist1D)
    requires
        hists.wf(),
        controls@.len() > 0,
        k < hists.features@.len(),
        forall|i: int| 0 <= i < controls@.len() ==> #[trigger] controls@[i] < hists.wells@.len(),
    ensures
        is_pooled(sum, hists, controls@, k as int),
{
    let ghost rows = control_rows(hists, controls@, k as int);
    assert(hists.hist_ok(controls@[0] as int, k as int));
    let mut sum = hists.bundles[controls[0]][k].duplicate();
    let n: usize = controls.len();
    let mut i: usize = 1;
    while i < n
        invariant
            1 <= i <= n,
            n == controls@.len(),
            hists.wf(),
            k < hists.features@.len(),
            forall|j: int|
                0 <= j < controls@.len() ==> #[trigger] controls@[j] < hists.wells@.len(),
            rows == control_rows(hists, controls@, k as int),
            sum.wf(),
            sum.nbins == hists.nbins,
            sum.xlow == hists.ranges@[k as int].xlow,
            sum.xhigh == hists.ranges@[k as int].xhigh,
            sum.counts@ == pooled_counts(rows.take(i as int)),
        decreases n - i,
    {
        proof {
            assert(hists.hist_ok(controls@[i as int] as int, k as int));
            assert(rows.take(i + 1).drop_last() =~= rows.take(i as int));
        }
        sum.add(&hists.bundles[controls[i]][k]);
        i = i + 1;
    }
    assert(rows.take(n as int) =~= rows);
    sum
}

/// Gathers what one block is scored from: the wells to score, the control
/// wells, and the pooled control of each kept feature. Fails with
/// `MissingControl` exactly when there is a feature to score and the block has
/// no control well.
pub fn score_block(hists: &WellHistograms, block: &[String], vehicle_cntrls: &[String]) -> (res:
    Result<BlockGroup, HistDiffError>)
    requires
        hists.wf(),
    ensures
        match res {
            Ok(group) => group.describes(
                hists,
                names_of(block@),
                names_of(vehicle_cntrls@),
            ) && (hists.features@.len() > 0 ==> group.controls@.len() > 0),
            Err(e) => e == HistDiffError::MissingControl && hists.features@.len() > 0
                && control_slots(
                names_of(vehicle_cntrls@),
                hists.well_names(),
                names_of(block@),
            ).len() == 0,
        },
{
    let ghost names = names_of(block@);
    let ghost wells = hists.well_names();
    let ghost ctrls = names_of(vehicle_cntrls@);
    let cleaned = clean_well_names(block);
    let key = String::from_str("CNTRL");
    let mut members: Vec<usize> = Vec::new();
    let seen: usize = hists.wells.len();
    let mut w: usize = 0;
    while w < seen
        invariant
            w <= seen,
            seen == hists.wells@.len(),
            wells == hists.well_names(),
            cleaned@.len() == names.len(),
            forall|i: int|
                0 <= i < names.len() ==> (#[trigger] cleaned@[i])@ == clean_name(names[i]),
            forall|a: int, b: int| 0 <= a < b < members@.len() ==> members@[a] < members@[b],
            forall|a: int| 0 <= a < members@.len() ==> members@[a] < w,
            key@ == control_key(),
            forall|v: int|
                places(members@).contains(v) <==> (v < w && is_scored(wells, names, v)),
        decreases seen - w,
    {
        let ghost before = places(members@);
        let holds = block_holds(&cleaned, &hists.wells[w], Ghost(names));
        if holds && hists.wells[w] != key {
            members.push(w);
            proof {
                let after = places(members@);
                assert(after =~= before.push(w as int));
                assert forall|v: int| after.contains(v) <==> (before.contains(v) || v == w) by {
                    if before.contains(v) {
                        let j = choose|j: int| 0 <= j < before.len() && before[j] == v;
                        assert(after[j] == v);
                    }
                    if v == w {
                        assert(after[after.len() - 1] == v);
                    }
                }
            }
        }
        w = w + 1;
    }
    let mut controls: Vec<usize> = Vec::new();
    let n: usize = vehicle_cntrls.len();
    let mut c: usize = 0;
    while c < n
        invariant
            c <= n,
            n == vehicle_cntrls@.len(),
            hists.wf(),
            wells == hists.well_names(),
            ctrls == names_of(vehicle_cntrls@),
            cleaned@.len() == names.len(),
            forall|i: int|
                0 <= i < names.len() ==> (#[trigger] cleaned@[i])@ == clean_name(names[i]),
            places(controls@) == control_slots(ctrls.take(c as int), wells, names),
            forall|i: int| 0 <= i < controls@.len() ==> #[trigger] controls@[i] < hists.wells@.len(),
        decreases n - c,
    {
        proof {
            assert(ctrls.take(c + 1).drop_last() =~= ctrls.take(c as int));
        }
        let name = &vehicle_cntrls[c];
        match hists.slot_of(name) {
            Some(place) => {
                proof {
                    lemma_first_index_is(wells, name@, place as int);
                }
                if block_holds(&cleaned, name, Ghost(names)) {
                    controls.push(place);
                }
            },
            None => {},
        }
        c = c + 1;
    }
    assert(ctrls.take(n as int) =~= ctrls);
    let features: usize = hists.features.len();
    let mut pooled: Vec<Hist1D> = Vec::new();
    if features > 0 {
        if controls.len() == 0 {
            return Err(HistDiffError::MissingControl);
        }
        let mut k: usize = 0;
        while k < features
            invariant
                k <= features,
                features == hists.features@.len(),
                hists.wf(),
                controls@.len() > 0,
                forall|i: int|
                    0 <= i < controls@.len() ==> #[trigger] controls@[i] < hists.wells@.len(),
                pooled@.len() == k,
                forall|j: int|
                    0 <= j < k ==> is_pooled(#[trigger] pooled@[j], hists, controls@, j),
            decreases features - k,
        {
            let sum = pool_feature(hists, &controls, k);
            pooled.push(sum);
            k = k + 1;
        }
    }
    let group = BlockGroup { members, controls, pooled };
    Ok(group)
}

/// Some block has a feature to score and no control well.
pub open spec fn some_block_lacks_control(
    hists: &WellHistograms,
    blocks: Seq<Seq<Seq<char>>>,
    ctrls: Seq<Seq<char>>,
) -> bool {
    hists.features@.len() > 0 && exists|b: int|
        0 <= b < blocks.len() && control_slots(ctrls, hists.well_names(), #[trigger] blocks[b]).len()
            == 0
}

/// Gathers what each block is scored from, in the order of the blocks. Fails
/// with `MissingControl`, and gives no group at all, exactly when some block
/// has a feature to score and no control well.
pub fn score_blocks(
    hists: &WellHistograms,
    block_def: &Vec<Vec<String>>,
    vehicle_cntrls: &[String],
) -> (res: Result<Vec<BlockGroup>, HistDiffError>)
    requires
        hists.wf(),
    ensures
        match res {
            Ok(groups) => groups@.len() == block_def@.len() && !some_block_lacks_control(
                hists,
                blocks_of(block_def@),
                names_of(vehicle_cntrls@),
            ) && forall|b: int|
                0 <= b < groups@.len() ==> (#[trigger] groups@[b]).describes(
                    hists,
                    blocks_of(block_def@)[b],
                    names_of(vehicle_cntrls@),
                ),
            Err(e) => e == HistDiffError::MissingControl && some_block_lacks_control(
                hists,
                blocks_of(block_def@),
                names_of(vehicle_cntrls@),
            ),
        },
{
    let ghost blocks = blocks_of(block_def@);
    let ghost ctrls = names_of(vehicle_cntrls@);
    let mut groups: Vec<BlockGroup> = Vec::new();
    let n: usize = block_def.len();
    let mut b: usize = 0;
    while b < n
        invariant
            b <= n,
            n == block_def@.len(),
            hists.wf(),
            blocks == blocks_of(block_def@),
            ctrls == names_of(vehicle_cntrls@),
            groups@.len() == b,
            forall|c: int|
                0 <= c < b ==> (#[trigger] groups@[c]).describes(hists, blocks[c], ctrls),
            forall|c: int|
                0 <= c < b ==> hists.features@.len() == 0 || control_slots(
                    ctrls,
                    hists.well_names(),
                    #[trigger] blocks[c],
                ).len() > 0,
        decreases n - b,
    {
        assert(blocks[b as int] == names_of(block_def@[b as int]@));
        match score_block(hists, block_def[b].as_slice(), vehicle_cntrls) {
            Ok(group) => {
                groups.push(group);
            },
            Err(e) => {
                return Err(e);
            },
        }
        b = b + 1;
    }
    Ok(groups)
}

/// The pattern of the number of opposite sign.
pub open spec fn negated(bits: u64) -> u64 {
    if bits >= SIGN_BIT {
        (bits - SIGN_BIT) as u64
    } else {
        (bits + SIGN_BIT) as u64
    }
}

/// The score of one well for one feature, from the rank-weighted mean proxy
/// of the control, that of the well, and the sum of squared differences: the
/// sum, negated where the control's proxy is above the well's.
pub open spec fn score_of(ctrl_proxy: u64, exp_proxy: u64, sum_sq: u64) -> u64 {
    if num_lt(exp_proxy, ctrl_proxy) {
        negated(sum_sq)
    } else {
        sum_sq
    }
}

/// Gives the sum of squared differences its sign.
pub fn signed_score(ctrl_proxy: u64, exp_proxy: u64, sum_sq: u64) -> (score: u64)
    ensures
        score == score_of(ctrl_proxy, exp_proxy, sum_sq),
{
    if bits_lt(exp_proxy, ctrl_proxy) {
        if sum_sq >= SIGN_BIT {
            sum_sq - SIGN_BIT
        } else {
            sum_sq + SIGN_BIT
        }
    } else {
        sum_sq
    }
}

/// Gives each well's sum of squared differences its sign.
pub fn sign_scores(ctrl_proxy: u64, exp_proxies: &[u64], sums: &[u64]) -> (scores: Vec<u64>)
    requires
        exp_proxies@.len() == sums@.len(),
    ensures
        scores@.len() == sums@.len(),
        forall|k: int|
            0 <= k < sums@.len() ==> #[trigger] scores@[k] == score_of(
                ctrl_proxy,
                exp_proxies@[k],
                sums@[k],
            ),
{
    let mut scores: Vec<u64> = Vec::new();
    let n: usize = sums.len();
    let mut k: usize = 0;
    while k < n
        invariant
            k <= n,
            n == sums@.len(),
            exp_proxies@.len() == n,
            scores@.len() == k,
            forall|j: int|
                0 <= j < k ==> #[trigger] scores@[j] == score_of(
                    ctrl_proxy,
                    exp_proxies@[j],
                    sums@[j],
                ),
        decreases n - k,
    {
        scores.push(signed_score(ctrl_proxy, exp_proxies[k], sums[k]));
        k = k + 1;
    }
    scores
}

/// A score is at or below zero where the control's proxy is above the
/// well's, and at or above zero elsewhere, whenever the sum of squared
/// differences is a number that is not negative.
pub proof fn lemma_score_sign(ctrl_proxy: u64, exp_proxy: u64, sum_sq: u64)
    requires
        !is_nan(sum_sq),
        order_key(sum_sq) >= 0,
    ensures
        !is_nan(score_of(ctrl_proxy, exp_proxy, sum_sq)),
        num_lt(exp_proxy, ctrl_proxy) ==> order_key(score_of(ctrl_proxy, exp_proxy, sum_sq)) <= 0,
        !num_lt(exp_proxy, ctrl_proxy) ==> order_key(score_of(ctrl_proxy, exp_proxy, sum_sq))
            >= 0,
{
}

/// A sum of squared differences of zero gives a score of zero.
pub proof fn lemma_zero_sum_scores_zero(ctrl_proxy: u64, exp_proxy: u64, sum_sq: u64)
    requires
        is_zero(sum_sq),
    ensures
        is_zero(score_of(ctrl_proxy, exp_proxy, sum_sq)),
{
}

} // verus!

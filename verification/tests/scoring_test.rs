use histdiff_core::scoring::{SCORE_FACTOR_BITS, SMOOTHING_ALPHA_BITS};
use histdiff_core::{
    check_score_shapes, score_block, sign_scores, signed_score, HistDiffError, MinMax,
    WellHistograms,
};

fn names(list: &[&str]) -> Vec<String> {
    list.iter().map(|s| s.to_string()).collect()
}

fn range(low: f64, high: f64) -> MinMax {
    MinMax { xlow: low.to_bits(), xhigh: high.to_bits() }
}

/// One feature `f` over [0, 3) with three bins; each well gets the given values.
fn state(wells: &[(&str, &[f64])]) -> WellHistograms {
    let min_max = vec![("f".to_string(), range(0.0, 3.0))];
    let mut state = WellHistograms::new(3, &min_max);
    let cols = names(&["f"]);
    for (well, values) in wells {
        for v in values.iter() {
            state.fill_row(&well.to_string(), &cols, &[v.to_bits()], &[*v as usize]);
        }
    }
    state
}

#[test]
fn block_members_are_the_seen_wells_of_the_block() {
    let hists = state(&[("B1", &[0.5]), ("A1", &[1.5]), ("C1", &[2.5]), ("A2", &[0.5])]);
    let group = score_block(&hists, &names(&["A01", "A2", "C01", "D1"]), &names(&["A1"])).unwrap();
    assert_eq!(group.members, vec![1, 2, 3]);
    assert_eq!(group.controls, vec![1]);
    assert_eq!(group.pooled.len(), 1);
    assert_eq!(group.pooled[0].counts, vec![0, 1, 0]);
    assert_eq!(group.pooled[0].nbins, 3);
    assert_eq!(group.pooled[0].xlow, 0.0f64.to_bits());
    assert_eq!(group.pooled[0].xhigh, 3.0f64.to_bits());
}

#[test]
fn controls_are_pooled_in_configured_order() {
    let hists = state(&[
        ("A1", &[0.5, 0.5]),
        ("B1", &[1.5]),
        ("C1", &[2.5, 2.5, 2.5]),
        ("D1", &[0.5, 1.5, 2.5]),
    ]);
    let block = names(&["A1", "B1", "C1", "D1"]);
    let group = score_block(&hists, &block, &names(&["C1", "Z9", "A1", "C1"])).unwrap();
    assert_eq!(group.members, vec![0, 1, 2, 3]);
    assert_eq!(group.controls, vec![2, 0, 2]);
    assert_eq!(group.pooled[0].counts, vec![2, 0, 6]);
    // the wells themselves are left as they were
    assert_eq!(hists.bundles[2][0].counts, vec![0, 0, 3]);
}

#[test]
fn a_control_outside_the_block_is_not_pooled() {
    let hists = state(&[("A1", &[0.5]), ("B1", &[1.5]), ("C1", &[2.5])]);
    let group = score_block(&hists, &names(&["B1", "C1"]), &names(&["A1", "C1"])).unwrap();
    assert_eq!(group.members, vec![1, 2]);
    assert_eq!(group.controls, vec![2]);
    assert_eq!(group.pooled[0].counts, vec![0, 0, 1]);
}

#[test]
fn a_block_without_control_is_an_error() {
    let hists = state(&[("A1", &[0.5]), ("B1", &[1.5])]);
    let res = score_block(&hists, &names(&["A1", "B1"]), &names(&["Z99"]));
    assert_eq!(res.unwrap_err(), HistDiffError::MissingControl);
    let res = score_block(&hists, &names(&["B1"]), &names(&["A1"]));
    assert_eq!(res.unwrap_err(), HistDiffError::MissingControl);
    let res = score_block(&hists, &names(&[]), &names(&["A1"]));
    assert_eq!(res.unwrap_err(), HistDiffError::MissingControl);
    let res = score_block(&hists, &names(&["A1", "B1"]), &names(&[]));
    assert_eq!(res.unwrap_err(), HistDiffError::MissingControl);
}

#[test]
fn without_features_there_is_nothing_to_miss() {
    let mut hists = WellHistograms::new(3, &vec![]);
    hists.fill_row(&"A1".to_string(), &[], &[], &[]);
    let group = score_block(&hists, &names(&["A1"]), &names(&["Z99"])).unwrap();
    assert_eq!(group.members, vec![0]);
    assert!(group.controls.is_empty());
    assert!(group.pooled.is_empty());
}

#[test]
fn a_control_is_named_as_the_rows_name_it() {
    // controls are matched against the wells as the rows name them
    let hists = state(&[("A1", &[0.5])]);
    let res = score_block(&hists, &names(&["A1"]), &names(&["A01"]));
    assert_eq!(res.unwrap_err(), HistDiffError::MissingControl);
}

#[test]
fn shapes_must_fit() {
    assert_eq!(check_score_shapes(&[3, 3, 3], 3), Ok(()));
    assert_eq!(check_score_shapes(&[0], 0), Ok(()));
    assert_eq!(check_score_shapes(&[], 3), Err(HistDiffError::ShapeMismatch));
    assert_eq!(check_score_shapes(&[], 0), Err(HistDiffError::ShapeMismatch));
    assert_eq!(check_score_shapes(&[2, 3], 3), Err(HistDiffError::ShapeMismatch));
    assert_eq!(check_score_shapes(&[3, 3, 4], 3), Err(HistDiffError::ShapeMismatch));
    assert_eq!(check_score_shapes(&[3], 2), Err(HistDiffError::ShapeMismatch));
}

#[test]
fn the_score_is_negative_where_the_control_proxy_is_above() {
    let score = |c: f64, e: f64, s: f64| {
        f64::from_bits(signed_score(c.to_bits(), e.to_bits(), s.to_bits()))
    };
    assert_eq!(score(1.5, 1.25, 0.125), -0.125);
    assert_eq!(score(1.25, 1.5, 0.125), 0.125);
    assert_eq!(score(1.5, 1.5, 0.125), 0.125);
    assert_eq!(score(-1.0, -2.0, 4.0), -4.0);
    assert_eq!(score(0.0, -0.0, 4.0), 4.0);
    assert_eq!(score(f64::NAN, 1.0, 4.0), 4.0);
    assert_eq!(score(1.0, f64::NAN, 4.0), 4.0);
    assert_eq!(score(2.0, 1.0, f64::INFINITY), f64::NEG_INFINITY);
    let zero = score(2.0, 1.0, 0.0);
    assert!(zero == 0.0 && zero.is_sign_negative());
    assert_eq!(score(2.0, 1.0, 0.0), -1.0 * 0.0);
}

#[test]
fn signs_are_given_well_by_well() {
    let proxies: Vec<u64> = [20.0f64, 32.0, 42.0, 28.0].iter().map(|v| v.to_bits()).collect();
    let sums: Vec<u64> = [5.0f64, 3.0, 14.0, 0.0].iter().map(|v| v.to_bits()).collect();
    let scores: Vec<f64> = sign_scores(28.0f64.to_bits(), &proxies, &sums)
        .into_iter()
        .map(f64::from_bits)
        .collect();
    assert_eq!(scores, vec![-5.0, 3.0, 14.0, 0.0]);
    assert!(sign_scores(1.0f64.to_bits(), &[], &[]).is_empty());
}

#[test]
fn a_well_under_the_control_key_is_not_scored() {
    let hists = state(&[("A1", &[0.5]), ("CNTRL", &[1.5]), ("B1", &[2.5])]);
    let block = names(&["A1", "CNTRL", "B1"]);
    let group = score_block(&hists, &block, &names(&["CNTRL", "A1"])).unwrap();
    assert_eq!(group.members, vec![0, 2]);
    assert_eq!(group.controls, vec![1, 0]);
    assert_eq!(group.pooled[0].counts, vec![1, 1, 0]);
}

#[test]
fn blocks_are_gathered_in_order_or_not_at_all() {
    let hists = state(&[("A1", &[0.5]), ("B1", &[1.5]), ("C1", &[2.5])]);
    let blocks = vec![names(&["A1", "B1"]), names(&["C01"])];
    let groups = histdiff_core::score_blocks(&hists, &blocks, &names(&["A1", "C1"])).unwrap();
    assert_eq!(groups.len(), 2);
    assert_eq!(groups[0].members, vec![0, 1]);
    assert_eq!(groups[0].controls, vec![0]);
    assert_eq!(groups[1].members, vec![2]);
    assert_eq!(groups[1].controls, vec![2]);
    let res = histdiff_core::score_blocks(&hists, &blocks, &names(&["A1"]));
    assert_eq!(res.unwrap_err(), HistDiffError::MissingControl);
    let none = histdiff_core::score_blocks(&hists, &vec![], &names(&[])).unwrap();
    assert!(none.is_empty());
}

#[test]
fn the_constants_of_scoring() {
    assert_eq!(f64::from_bits(SMOOTHING_ALPHA_BITS), 0.25);
    assert_eq!(f64::from_bits(SCORE_FACTOR_BITS), 1.0);
}

use histdiff_core::ieee::NAN_BITS;
use histdiff_core::{
    check_score_shapes, get_min_max_plate, resolve_header, row_well_id, score_blocks,
    sign_scores, HistDiffError, RangeScan, UserConfig, WellHistograms,
};
use std::collections::BTreeMap;

type Scores = BTreeMap<String, BTreeMap<String, f64>>;

fn names(list: &[&str]) -> Vec<String> {
    list.iter().map(|s| s.to_string()).collect()
}

fn field_bits(field: &str) -> u64 {
    match field.parse::<f64>() {
        Ok(v) => v.to_bits(),
        Err(_) => NAN_BITS,
    }
}

fn smooth(x: &[f64], alpha: f64) -> Vec<f64> {
    let n = x.len();
    (0..n)
        .map(|i| {
            if i == 0 {
                if n > 1 {
                    x[0] + alpha * (x[1] - x[0])
                } else {
                    x[0]
                }
            } else if i == n - 1 {
                alpha * (x[i - 1] - x[i]) + x[i]
            } else {
                alpha * (x[i - 1] - x[i]) + x[i] + alpha * (x[i + 1] - x[i])
            }
        })
        .collect()
}

fn normalized(x: &[f64]) -> Vec<f64> {
    let sum: f64 = x.iter().sum();
    if sum == 0.0 {
        vec![0.0; x.len()]
    } else {
        x.iter().map(|e| e / sum).collect()
    }
}

fn prepared(counts: &[u64]) -> Vec<f64> {
    let counts: Vec<f64> = counts.iter().map(|&c| c as f64).collect();
    normalized(&smooth(&counts, 0.25))
}

fn proxy(row: &[f64]) -> f64 {
    row.iter().enumerate().map(|(i, c)| c * (i + 1) as f64).sum()
}

fn rows_of(table: &str) -> Vec<Vec<String>> {
    table.lines().map(|line| line.split('\t').map(|f| f.to_string()).collect()).collect()
}

/// Both passes and the scoring on a table held in memory.
fn run(table: &str, config: &UserConfig) -> Result<(WellHistograms, Scores), HistDiffError> {
    let rows = rows_of(table);
    let headers = rows[0].clone();
    let layout = resolve_header(&headers, &config.id_cols, &config.useless_cols)?;

    let mut scan = RangeScan::new(&headers, &layout.feature_idx);
    for fields in &rows[1..] {
        if !scan.accepts(fields.len()) {
            continue;
        }
        let values: Vec<u64> = layout.feature_idx.iter().map(|&i| field_bits(&fields[i])).collect();
        scan.observe(&values);
    }
    let bounds = scan.bounds();
    let widened: Vec<u64> = bounds
        .iter()
        .map(|b| {
            let low = f64::from_bits(b.xlow);
            (low + low + 0.5).to_bits()
        })
        .collect();
    let min_max = get_min_max_plate(&scan.features, &bounds, &widened);

    let mut hists = WellHistograms::new(config.nbins, &min_max.min_max);
    let cols: Vec<String> = layout.feature_idx.iter().map(|&i| headers[i].clone()).collect();
    for fields in &rows[1..] {
        let well = match row_well_id(&config.plate_def, &layout.id_col_idx, headers.len(), fields) {
            Some(well) => well,
            None => continue,
        };
        let mut values = Vec::new();
        let mut quotients = Vec::new();
        for &i in &layout.feature_idx {
            let bits = field_bits(&fields[i]);
            let q = match hists.feature_slot(&headers[i]) {
                Some(k) => {
                    let low = f64::from_bits(hists.ranges[k].xlow);
                    let high = f64::from_bits(hists.ranges[k].xhigh);
                    ((f64::from_bits(bits) - low) / ((high - low) / hists.nbins as f64)) as usize
                }
                None => 0,
            };
            values.push(bits);
            quotients.push(q);
        }
        hists.fill_row(&well, &cols, &values, &quotients);
    }

    let mut scores = Scores::new();
    let groups = score_blocks(&hists, &config.block_def, &config.vehicle_cntrls)?;
    for group in &groups {
        for k in 0..hists.features.len() {
            let ctrl = prepared(&group.pooled[k].counts);
            let exp: Vec<Vec<f64>> =
                group.members.iter().map(|&w| prepared(&hists.bundles[w][k].counts)).collect();
            let lens: Vec<usize> = exp.iter().map(|row| row.len()).collect();
            check_score_shapes(&lens, ctrl.len())?;
            let proxies: Vec<u64> = exp.iter().map(|row| proxy(row).to_bits()).collect();
            let sums: Vec<u64> = exp
                .iter()
                .map(|row| {
                    let mut sum = 0.0;
                    for i in 0..ctrl.len() {
                        let diff = ctrl[i] - row[i];
                        sum += diff * diff;
                    }
                    sum.to_bits()
                })
                .collect();
            let signed = sign_scores(proxy(&ctrl).to_bits(), &proxies, &sums);
            for (&w, score) in group.members.iter().zip(signed) {
                scores
                    .entry(hists.wells[w].clone())
                    .or_default()
                    .insert(hists.features[k].clone(), f64::from_bits(score));
            }
        }
    }
    Ok((hists, scores))
}

fn config(
    blocks: Option<Vec<Vec<String>>>,
    plate: Option<Vec<String>>,
    controls: &[&str],
    nbins: usize,
) -> UserConfig {
    UserConfig::new(
        "cells.tsv",
        names(&["WellName"]),
        None,
        false,
        blocks,
        plate,
        names(controls),
        Some(nbins),
    )
}

#[test]
fn single_feature_single_control_single_experimental_well() {
    let table = "WellName\tf1\nA1\t0.1\nA1\t0.9\nB1\t0.1\nB1\t0.1\n";
    let (hists, scores) = run(table, &config(None, None, &["A1"], 2)).unwrap();
    assert_eq!(hists.wells, names(&["A1", "B1"]));
    assert_eq!(hists.bundles[0][0].counts, vec![1, 1]);
    assert_eq!(hists.bundles[1][0].counts, vec![2, 0]);
    assert_eq!(scores.len(), 2);
    assert_eq!(scores["A1"]["f1"], 0.0);
    assert_eq!(scores["B1"]["f1"], -0.125);
}

#[test]
fn degenerate_feature_scores_equal_across_wells() {
    let table = "WellName\tf1\tf2\nA1\t0.1\t5.0\nA1\t0.9\t5.0\nB1\t0.1\t5.0\nC1\t0.4\t5.0\nC1\t0.5\t5.0\nC1\t0.5\t5.0\n";
    let (hists, scores) = run(table, &config(None, None, &["A1"], 4)).unwrap();
    assert_eq!(f64::from_bits(hists.ranges[1].xlow), 5.0);
    assert_eq!(f64::from_bits(hists.ranges[1].xhigh), 10.5);
    assert_eq!(hists.bundles[0][1].counts, vec![2, 0, 0, 0]);
    assert_eq!(hists.bundles[1][1].counts, vec![1, 0, 0, 0]);
    assert_eq!(hists.bundles[2][1].counts, vec![3, 0, 0, 0]);
    for well in ["A1", "B1", "C1"] {
        assert!(scores[well]["f2"].is_finite());
        assert_eq!(scores[well]["f2"], scores["A1"]["f2"]);
    }
}

#[test]
fn missing_control_is_an_error() {
    let table = "WellName\tf1\nA1\t0.1\nA1\t0.9\nB1\t0.1\n";
    let res = run(table, &config(None, None, &["Z99"], 2));
    assert_eq!(res.err(), Some(HistDiffError::MissingControl));
}

#[test]
fn rows_of_wrong_length_are_passed_over() {
    let clean = "WellName\tf1\nA1\t0.1\nA1\t0.9\nB1\t0.1\nB1\t0.3\n";
    let mixed = "WellName\tf1\nA1\t0.1\nB1\t7.5\t1.0\nA1\t0.9\nB1\nB1\t0.1\nB1\t0.3\n";
    let (h1, s1) = run(clean, &config(None, None, &["A1"], 3)).unwrap();
    let (h2, s2) = run(mixed, &config(None, None, &["A1"], 3)).unwrap();
    assert_eq!(s1, s2);
    assert_eq!(h1.ranges, h2.ranges);
    assert_eq!(h1.wells, h2.wells);
}

#[test]
fn the_wells_left_out_of_the_blocks_form_a_block_of_their_own() {
    let plate = names(&["A1", "A2", "B1", "B2", "C1"]);
    let blocks = vec![names(&["A1", "A2"]), names(&["B1", "B2"])];
    let cfg = config(Some(blocks), Some(plate), &["A1", "B1", "C1"], 2);
    assert_eq!(cfg.block_def.len(), 3);
    assert_eq!(cfg.block_def[2], names(&["C1"]));
    let table = "WellName\tf1\nA1\t0.0\nA1\t1.0\nA2\t0.0\nB1\t1.0\nB2\t0.0\nB2\t1.0\nC1\t0.0\nC1\t1.0\n";
    let (_, scores) = run(table, &cfg).unwrap();
    assert_eq!(scores.len(), 5);
    // each block is scored against its own control
    assert_eq!(scores["A1"]["f1"], 0.0);
    assert_eq!(scores["B1"]["f1"], 0.0);
    assert_eq!(scores["C1"]["f1"], 0.0);
    assert_eq!(scores["A2"]["f1"], -0.125);
    assert_eq!(scores["B2"]["f1"], -0.125);
}

#[test]
fn block_names_are_brought_to_canonical_form() {
    let plate = names(&["A1", "B1", "C1"]);
    let blocks = vec![names(&["A01", "B01"])];
    let cfg = config(Some(blocks), Some(plate), &["A1", "C1"], 2);
    assert_eq!(cfg.block_def, vec![names(&["A01", "B01"]), names(&["C1"])]);
    let table = "WellName\tf1\nA1\t0.1\nA1\t0.9\nB1\t0.1\nB1\t0.1\nC1\t0.5\n";
    let (_, scores) = run(table, &cfg).unwrap();
    assert_eq!(scores["A1"]["f1"], 0.0);
    assert_eq!(scores["B1"]["f1"], -0.125);
    assert_eq!(scores["C1"]["f1"], 0.0);
}

#[test]
fn rows_off_the_plate_give_no_scores() {
    let plate = names(&["A1", "B1"]);
    let cfg = config(None, Some(plate), &["A1"], 2);
    let table = "WellName\tf1\nA1\t0.1\nA1\t0.9\nB1\t0.1\nQ7\t0.5\nA01\t0.5\n";
    let (hists, scores) = run(table, &cfg).unwrap();
    assert_eq!(hists.wells, names(&["A1", "B1"]));
    assert_eq!(scores.keys().cloned().collect::<Vec<_>>(), names(&["A1", "B1"]));
}

#[test]
fn a_missing_id_column_stops_the_run() {
    let table = "Well\tf1\nA1\t0.1\n";
    let res = run(table, &config(None, None, &["A1"], 2));
    assert_eq!(res.err(), Some(HistDiffError::MissingIdColumn));
}

#[test]
fn smoothed_and_normalized_counts_sum_to_one() {
    let sum: f64 = prepared(&[3, 0, 7, 1, 0, 9]).iter().sum();
    assert!((sum - 1.0).abs() < 1e-12);
    assert_eq!(prepared(&[0, 0, 0]), vec![0.0, 0.0, 0.0]);
}

use histdiff_core::{compose_well_id, plate_definition, row_well_id, MinMax, WellHistograms};

fn names(list: &[&str]) -> Vec<String> {
    list.iter().map(|s| s.to_string()).collect()
}

fn range(low: f64, high: f64) -> MinMax {
    MinMax { xlow: low.to_bits(), xhigh: high.to_bits() }
}

fn quotient(v: f64, r: &MinMax, nbins: usize) -> usize {
    let low = f64::from_bits(r.xlow);
    let width = (f64::from_bits(r.xhigh) - low) / nbins as f64;
    ((v - low) / width) as usize
}

fn fill(state: &mut WellHistograms, well: &str, cols: &[&str], fields: &[&str]) {
    let cols = names(cols);
    let mut values = Vec::new();
    let mut quotients = Vec::new();
    for (name, field) in cols.iter().zip(fields.iter()) {
        let v = field.parse::<f64>().unwrap_or(f64::NAN);
        values.push(v.to_bits());
        let q = match state.feature_slot(name) {
            Some(k) => quotient(v, &state.ranges[k], state.nbins),
            None => 0,
        };
        quotients.push(q);
    }
    state.fill_row(&well.to_string(), &cols, &values, &quotients);
}

#[test]
fn well_id_joins_the_id_fields_in_order() {
    let fields = names(&["X7", "B", "0.5", "07"]);
    assert_eq!(compose_well_id(&fields, &[1, 3]), "B_07");
    assert_eq!(compose_well_id(&fields, &[3, 1, 0]), "07_B_X7");
    assert_eq!(compose_well_id(&fields, &[0]), "X7");
    assert_eq!(compose_well_id(&fields, &[]), "");
}

#[test]
fn rows_off_the_plate_or_of_wrong_length_are_passed_over() {
    let plate = plate_definition();
    let ok = names(&["A1", "0.5", "1.5"]);
    assert_eq!(row_well_id(&plate, &[0], 3, &ok), Some("A1".to_string()));
    let short = names(&["A1", "0.5"]);
    assert_eq!(row_well_id(&plate, &[0], 3, &short), None);
    let long = names(&["A1", "0.5", "1.5", "2.5"]);
    assert_eq!(row_well_id(&plate, &[0], 3, &long), None);
    let padded = names(&["A01", "0.5", "1.5"]);
    assert_eq!(row_well_id(&plate, &[0], 3, &padded), None);
    let off = names(&["Q1", "0.5", "1.5"]);
    assert_eq!(row_well_id(&plate, &[0], 3, &off), None);
}

#[test]
fn each_well_gets_its_bundle_on_its_first_row() {
    let min_max = vec![("f1".to_string(), range(0.0, 1.0))];
    let mut state = WellHistograms::new(2, &min_max);
    assert!(state.wells.is_empty());
    assert_eq!(state.slot_of(&"A1".to_string()), None);
    fill(&mut state, "A1", &["f1"], &["0.1"]);
    fill(&mut state, "A1", &["f1"], &["0.9"]);
    fill(&mut state, "B1", &["f1"], &["0.1"]);
    fill(&mut state, "B1", &["f1"], &["0.1"]);
    assert_eq!(state.wells, names(&["A1", "B1"]));
    assert_eq!(state.slot_of(&"A1".to_string()), Some(0));
    assert_eq!(state.slot_of(&"B1".to_string()), Some(1));
    assert_eq!(state.slot_of(&"C1".to_string()), None);
    assert_eq!(state.bundles[0][0].counts, vec![1, 1]);
    assert_eq!(state.bundles[1][0].counts, vec![2, 0]);
}

#[test]
fn values_are_counted_by_feature_name() {
    let min_max = vec![
        ("f1".to_string(), range(0.0, 4.0)),
        ("f2".to_string(), range(5.0, 10.5)),
    ];
    let mut state = WellHistograms::new(4, &min_max);
    fill(&mut state, "A1", &["f2", "dropped", "f1"], &["5.0", "1.0", "3.5"]);
    fill(&mut state, "A1", &["f2", "dropped", "f1"], &["5.0", "", "4.0"]);
    fill(&mut state, "A1", &["f2", "dropped", "f1"], &["x", "2.0", "-1"]);
    assert_eq!(state.feature_slot(&"f1".to_string()), Some(0));
    assert_eq!(state.feature_slot(&"f2".to_string()), Some(1));
    assert_eq!(state.feature_slot(&"dropped".to_string()), None);
    assert_eq!(state.bundles[0][0].counts, vec![0, 0, 0, 2]);
    assert_eq!(state.bundles[0][1].counts, vec![2, 0, 0, 0]);
}

#[test]
fn of_features_with_one_name_the_first_is_kept() {
    let min_max = vec![
        ("f".to_string(), range(0.0, 1.0)),
        ("g".to_string(), range(0.0, 2.0)),
        ("f".to_string(), range(0.0, 3.0)),
    ];
    let state = WellHistograms::new(3, &min_max);
    assert_eq!(state.features, names(&["f", "g"]));
    assert_eq!(state.ranges, vec![range(0.0, 1.0), range(0.0, 2.0)]);
}

#[test]
fn ensure_well_is_idempotent() {
    let min_max = vec![("f1".to_string(), range(0.0, 1.0))];
    let mut state = WellHistograms::new(3, &min_max);
    assert_eq!(state.ensure_well(&"C3".to_string()), 0);
    assert_eq!(state.ensure_well(&"D4".to_string()), 1);
    assert_eq!(state.ensure_well(&"C3".to_string()), 0);
    assert_eq!(state.wells, names(&["C3", "D4"]));
    assert_eq!(state.bundles.len(), 2);
    assert_eq!(state.bundles[1][0].counts, vec![0, 0, 0]);
    assert_eq!(state.bundles[1][0].nbins, 3);
}

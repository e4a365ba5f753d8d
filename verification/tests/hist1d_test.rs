use histdiff_core::Hist1D;

fn quotients(data: &[f64], nbins: usize, xlow: f64, xhigh: f64) -> Vec<usize> {
    let bin_width = (xhigh - xlow) / nbins as f64;
    data.iter().map(|v| ((v - xlow) / bin_width) as usize).collect()
}

fn bits(data: &[f64]) -> Vec<u64> {
    data.iter().map(|v| v.to_bits()).collect()
}

fn fill(hist: &mut Hist1D, data: &[f64]) {
    let xlow = f64::from_bits(hist.xlow);
    let xhigh = f64::from_bits(hist.xhigh);
    let q = quotients(data, hist.nbins, xlow, xhigh);
    hist.fill(&bits(data), &q);
}

#[test]
fn test_hist1d_creation() {
    let nbins = 20;
    let xlow = 0.0f64;
    let xhigh = 1.0f64;
    let hist = Hist1D::new(nbins, xlow.to_bits(), xhigh.to_bits());

    assert_eq!(hist.nbins, nbins);
    assert_eq!(f64::from_bits(hist.xlow), xlow);
    assert_eq!(f64::from_bits(hist.xhigh), xhigh);
    assert_eq!(hist.counts.len(), nbins);

    // Check that counts are initialized to zero
    assert!(hist.counts.iter().all(|&count| count == 0));
}

#[test]
fn test_hist1d_fill() {
    let mut hist = Hist1D::new(5, 0.0f64.to_bits(), 1.0f64.to_bits());
    let data = vec![0.1, 0.2, 0.3, 0.4, 0.5];

    fill(&mut hist, &data);

    let expected_counts = vec![1, 2, 2, 0, 0];
    println!("expected: {:?}\noutput: {:?}", expected_counts, hist.counts);
    assert_eq!(hist.counts, expected_counts);
}

#[test]
fn test_hist1d_fill_various_bins() {
    let mut hist = Hist1D::new(5, 0.0f64.to_bits(), 1.0f64.to_bits());
    let data = vec![
        0.0,  // Lower bound
        0.2,  // Bin 1
        0.4,  // Bin 2
        0.6,  // Bin 3
        0.8,  // Bin 4
        1.0,  // Upper bound (should be in last bin)
        -0.1, // Below range
        1.1,  // Above range
    ];

    fill(&mut hist, &data);

    let expected_counts = vec![1, 1, 2, 0, 2];
    assert_eq!(hist.counts, expected_counts);
}

#[test]
fn fill_in_range_raises_total_by_one() {
    for v in [0.0, 0.25, 0.5, 0.999, 1.0] {
        let mut hist = Hist1D::new(4, 0.0f64.to_bits(), 1.0f64.to_bits());
        fill(&mut hist, &[0.1, 0.9]);
        let before: u64 = hist.counts.iter().sum();
        fill(&mut hist, &[v]);
        let after: u64 = hist.counts.iter().sum();
        assert_eq!(after, before + 1);
    }
}

#[test]
fn fill_out_of_range_changes_nothing() {
    for v in [-0.1, 1.1, f64::NAN, f64::INFINITY, f64::NEG_INFINITY, -1.0e300] {
        let mut hist = Hist1D::new(4, 0.0f64.to_bits(), 1.0f64.to_bits());
        fill(&mut hist, &[0.1, 0.9]);
        let before = hist.counts.clone();
        hist.fill(&[v.to_bits()], &[0]);
        assert_eq!(hist.counts, before);
    }
}

#[test]
fn upper_bound_goes_to_last_bin_whatever_the_quotient() {
    let mut hist = Hist1D::new(3, (-2.0f64).to_bits(), 4.0f64.to_bits());
    hist.fill_one(4.0f64.to_bits(), 17);
    assert_eq!(hist.counts, vec![0, 0, 1]);
    assert_eq!(hist.locate(4.0f64.to_bits(), 17), Some(2));
    assert_eq!(hist.locate((-2.0f64).to_bits(), 0), Some(0));
    assert_eq!(hist.locate(1.0f64.to_bits(), 1), Some(1));
    assert_eq!(hist.locate(4.5f64.to_bits(), 3), None);
}

#[test]
fn negative_zero_is_the_lower_bound_zero() {
    let mut hist = Hist1D::new(2, 0.0f64.to_bits(), 1.0f64.to_bits());
    hist.fill_one((-0.0f64).to_bits(), 0);
    assert_eq!(hist.counts, vec![1, 0]);
}

#[test]
fn add_sums_bin_by_bin() {
    let mut a = Hist1D::new(3, 0.0f64.to_bits(), 3.0f64.to_bits());
    let mut b = Hist1D::new(3, 0.0f64.to_bits(), 3.0f64.to_bits());
    fill(&mut a, &[0.5, 0.5, 2.5]);
    fill(&mut b, &[1.5, 2.5, 3.0]);
    a.add(&b);
    assert_eq!(a.counts, vec![2, 1, 3]);
    assert_eq!(b.counts, vec![0, 1, 2]);
    assert_eq!(a.data(), &[2, 1, 3]);
}

#[test]
fn counts_stop_at_the_greatest_value() {
    let mut a = Hist1D::new(2, 0.0f64.to_bits(), 1.0f64.to_bits());
    a.counts = vec![u64::MAX, u64::MAX - 1];
    let mut b = Hist1D::new(2, 0.0f64.to_bits(), 1.0f64.to_bits());
    b.counts = vec![5, 5];
    a.add(&b);
    assert_eq!(a.counts, vec![u64::MAX, u64::MAX]);
    a.fill_one(0.25f64.to_bits(), 0);
    assert_eq!(a.counts, vec![u64::MAX, u64::MAX]);
}

#[test]
fn duplicate_is_independent() {
    let mut a = Hist1D::new(2, 0.0f64.to_bits(), 1.0f64.to_bits());
    fill(&mut a, &[0.1]);
    let copy = a.duplicate();
    fill(&mut a, &[0.9]);
    assert_eq!(copy.counts, vec![1, 0]);
    assert_eq!(a.counts, vec![1, 1]);
    assert_eq!(copy.nbins, 2);
    assert_eq!(copy.xlow, a.xlow);
    assert_eq!(copy.xhigh, a.xhigh);
}

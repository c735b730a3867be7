use phips_1brc::aggregated_data::AggregatedData;

#[test]
fn default_has_no_reading() {
    let d = AggregatedData::default();
    assert_eq!(d.sample_count(), 0);
    assert_eq!(d.min_scaled(), i16::MAX);
    assert_eq!(d.max_scaled(), i16::MIN);
    assert_eq!(d.sum_scaled(), 0);
    assert_eq!(d.name(), "");
}

#[test]
fn first_datapoint_sets_min_and_max() {
    let mut d = AggregatedData::default();
    d.add_datapoint(-157);
    assert_eq!(d, AggregatedData::new(-157, -157, -157, 1));
    d.add_datapoint(100);
    assert_eq!(d, AggregatedData::new(-157, 100, -57, 2));
    d.add_datapoint(-200);
    assert_eq!(d, AggregatedData::new(-200, 100, -257, 3));
}

#[test]
fn merge_is_componentwise() {
    let mut a = AggregatedData::new(-10, 30, 40, 3);
    a.merge(&AggregatedData::new(-50, 20, -30, 2));
    assert_eq!(a, AggregatedData::new(-50, 30, 10, 5));
}

#[test]
fn merge_with_empty_changes_nothing() {
    let mut a = AggregatedData::new(-10, 30, 40, 3);
    a.merge(&AggregatedData::default());
    assert_eq!(a, AggregatedData::new(-10, 30, 40, 3));
    let mut e = AggregatedData::default();
    e.merge(&AggregatedData::new(-10, 30, 40, 3));
    assert_eq!(e, AggregatedData::new(-10, 30, 40, 3));
}

#[test]
fn merge_order_does_not_matter() {
    let x = AggregatedData::new(-10, 30, 40, 3);
    let y = AggregatedData::new(-50, 20, -30, 2);
    let mut a = x.clone();
    a.merge(&y);
    let mut b = y.clone();
    b.merge(&x);
    assert_eq!(a, b);
}

#[test]
fn init_names_the_record() {
    let mut d = AggregatedData::new(1, 1, 1, 1);
    d.init("Abha");
    assert_eq!(d.name(), "Abha");
    assert_eq!(d.sample_count(), 1);
}

#[test]
fn avg_scaled_rounds_half_away_from_zero() {
    assert_eq!(AggregatedData::new(-157, 100, -57, 2).avg_scaled(), -29);
    assert_eq!(AggregatedData::new(1, 2, 3, 2).avg_scaled(), 2);
    assert_eq!(AggregatedData::new(-1, 0, -1, 3).avg_scaled(), 0);
    assert_eq!(AggregatedData::new(5, 5, 5, 1).avg_scaled(), 5);
}

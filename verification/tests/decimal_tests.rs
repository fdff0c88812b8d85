use prm_planner::decimal::{format_coordinate, format_weight, parse_coordinate, parse_weight};
use prm_planner::records::{point_fields, record_fields, record_from_fields, EdgeRecord};
use prm_planner::structs::Point;

fn text(s: &str) -> Vec<u8> {
    s.as_bytes().to_vec()
}

#[test]
fn coordinates_are_written_with_two_decimals() {
    assert_eq!(format_coordinate(0), text("0.00"));
    assert_eq!(format_coordinate(5), text("0.05"));
    assert_eq!(format_coordinate(1234), text("12.34"));
    assert_eq!(format_coordinate(1200), text("12.00"));
    assert_eq!(format_coordinate(-1), text("-0.01"));
    assert_eq!(format_coordinate(-98765), text("-987.65"));
    assert_eq!(format_coordinate(i32::MAX), text("21474836.47"));
    assert_eq!(format_coordinate(i32::MIN), text("-21474836.48"));
}

#[test]
fn weights_are_written_with_four_decimals() {
    assert_eq!(format_weight(0), text("0.0000"));
    assert_eq!(format_weight(7), text("0.0007"));
    assert_eq!(format_weight(141_421), text("14.1421"));
    assert_eq!(format_weight(100_000), text("10.0000"));
    assert_eq!(format_weight(u64::MAX), text("1844674407370955.1615"));
}

#[test]
fn coordinates_are_read_from_decimal_text() {
    assert_eq!(parse_coordinate(&text("12.34")), Some(1234));
    assert_eq!(parse_coordinate(&text("12.3")), Some(1230));
    assert_eq!(parse_coordinate(&text("12.")), Some(1200));
    assert_eq!(parse_coordinate(&text("12")), Some(1200));
    assert_eq!(parse_coordinate(&text("0")), Some(0));
    assert_eq!(parse_coordinate(&text("-0.00")), Some(0));
    assert_eq!(parse_coordinate(&text("-7.5")), Some(-750));
    assert_eq!(parse_coordinate(&text("007.05")), Some(705));
}

#[test]
fn coordinates_are_rounded_to_the_nearest_hundredth() {
    assert_eq!(parse_coordinate(&text("1.234")), Some(123));
    assert_eq!(parse_coordinate(&text("1.235")), Some(124));
    assert_eq!(parse_coordinate(&text("1.2349999")), Some(123));
    assert_eq!(parse_coordinate(&text("-1.235")), Some(-124));
    assert_eq!(parse_coordinate(&text("0.999")), Some(100));
    assert_eq!(parse_coordinate(&text("0.0049")), Some(0));
}

#[test]
fn coordinates_are_not_read_from_other_text() {
    assert_eq!(parse_coordinate(&text("")), None);
    assert_eq!(parse_coordinate(&text("-")), None);
    assert_eq!(parse_coordinate(&text(".5")), None);
    assert_eq!(parse_coordinate(&text("-.5")), None);
    assert_eq!(parse_coordinate(&text("+5")), None);
    assert_eq!(parse_coordinate(&text("1e3")), None);
    assert_eq!(parse_coordinate(&text("1.2.3")), None);
    assert_eq!(parse_coordinate(&text("1,5")), None);
    assert_eq!(parse_coordinate(&text("12a")), None);
    assert_eq!(parse_coordinate(&text("1.2x")), None);
    assert_eq!(parse_coordinate(&text("1.234x")), None);
    assert_eq!(parse_coordinate(&text(" 1")), None);
    assert_eq!(parse_coordinate(&text("--1")), None);
    assert_eq!(parse_coordinate(&text("x")), None);
}

#[test]
fn coordinates_out_of_range_are_not_read() {
    assert_eq!(parse_coordinate(&text("21474836.47")), Some(i32::MAX));
    assert_eq!(parse_coordinate(&text("21474836.48")), None);
    assert_eq!(parse_coordinate(&text("21474836.474")), Some(i32::MAX));
    assert_eq!(parse_coordinate(&text("21474836.475")), None);
    assert_eq!(parse_coordinate(&text("-21474836.48")), Some(i32::MIN));
    assert_eq!(parse_coordinate(&text("-21474836.49")), None);
    assert_eq!(parse_coordinate(&text("99999999999999999999999999999999999999999999")), None);
    assert_eq!(parse_coordinate(&text("000000000000000000000000000000000000000001.5")), Some(150));
}

#[test]
fn weights_are_read_from_decimal_text() {
    assert_eq!(parse_weight(&text("14.1421")), Some(141_421));
    assert_eq!(parse_weight(&text("10")), Some(100_000));
    assert_eq!(parse_weight(&text("0.00005")), Some(1));
    assert_eq!(parse_weight(&text("0.00004")), Some(0));
    assert_eq!(parse_weight(&text("-1.0")), None);
    assert_eq!(parse_weight(&text("1844674407370955.1615")), Some(u64::MAX));
    assert_eq!(parse_weight(&text("1844674407370955.1616")), None);
    assert_eq!(parse_weight(&text("1844674407370955.16155")), None);
}

#[test]
fn written_numbers_are_read_back() {
    for c in [0, 1, -1, 99, 100, -100, 101, 12345, -54321, i32::MAX, i32::MIN, i32::MAX - 1, i32::MIN + 1] {
        assert_eq!(parse_coordinate(&format_coordinate(c)), Some(c));
    }
    for w in [0u64, 1, 9, 10, 9_999, 10_000, 10_001, 141_421, u64::MAX, u64::MAX - 1] {
        assert_eq!(parse_weight(&format_weight(w)), Some(w));
    }
}

#[test]
fn record_fields_hold_positions_and_weight() {
    let record = EdgeRecord { source: Point { x: 150, y: -275 }, target: Point { x: 1000, y: 0 }, weight: 141_421 };
    assert_eq!(
        record_fields(&record),
        vec![text("1.50"), text("-2.75"), text("10.00"), text("0.00"), text("14.1421")]
    );
    assert_eq!(record_from_fields(&record_fields(&record)), Some(record));
}

#[test]
fn record_from_fields_reads_the_first_five() {
    let fields = vec![text("1"), text("2"), text("3.5"), text("4.25"), text("0.5"), text("more")];
    assert_eq!(
        record_from_fields(&fields),
        Some(EdgeRecord { source: Point { x: 100, y: 200 }, target: Point { x: 350, y: 425 }, weight: 5_000 })
    );
}

#[test]
fn record_from_fields_needs_five_numbers() {
    let good = vec![text("1"), text("2"), text("3"), text("4"), text("5")];
    assert!(record_from_fields(&good).is_some());
    for i in 0..5 {
        let mut bad = good.clone();
        bad[i] = text("x1");
        assert_eq!(record_from_fields(&bad), None);
    }
    let mut negative = good.clone();
    negative[4] = text("-5");
    assert_eq!(record_from_fields(&negative), None);
}

#[test]
fn point_fields_hold_both_coordinates() {
    assert_eq!(point_fields(&Point { x: -5, y: 123456 }), vec![text("-0.05"), text("1234.56")]);
}

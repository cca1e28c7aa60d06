use musicxml_midi::builder::{declared_kinds, field_kind_of, BuildError, Container};
use musicxml_midi::fields::{check_order, FieldOrder, OrderError};
use musicxml_midi::{parse, ConvertError};

fn score_kinds(names: &[&str]) -> Vec<Option<usize>> {
    names.iter().map(|n| field_kind_of(Container::Score, n)).collect()
}

#[test]
fn part_before_part_list_is_out_of_order() {
    let kinds = score_kinds(&["part", "part-list"]);
    assert_eq!(check_order(declared_kinds(Container::Score), &kinds), Err(1));
}

#[test]
fn consecutive_credits_are_accepted() {
    let kinds = score_kinds(&["work", "credit", "credit", "part-list", "part", "part"]);
    assert_eq!(check_order(declared_kinds(Container::Score), &kinds), Ok(()));
}

#[test]
fn credit_after_part_list_is_rejected() {
    let kinds = score_kinds(&["credit", "part-list", "credit"]);
    assert_eq!(check_order(declared_kinds(Container::Score), &kinds), Err(2));
}

#[test]
fn unknown_children_are_skipped() {
    let kinds = score_kinds(&["part-list", "unknown", "part"]);
    assert_eq!(kinds[1], None);
    assert_eq!(check_order(declared_kinds(Container::Score), &kinds), Ok(()));
}

#[test]
fn last_kind_keeps_accepting() {
    let mut order = FieldOrder::new(vec![false, false]);
    assert_eq!(order.accept(1), Ok(()));
    assert_eq!(order.accept(1), Ok(()));
    assert_eq!(order.accept(0), Err(OrderError::OutOfOrderField));
}

#[test]
fn single_kind_is_taken_once_before_later_kinds() {
    let mut order = FieldOrder::new(vec![false, true, false]);
    assert_eq!(order.accept(0), Ok(()));
    assert_eq!(order.accept(0), Err(OrderError::OutOfOrderField));
    assert_eq!(order.accept(1), Ok(()));
    assert_eq!(order.accept(1), Ok(()));
    assert_eq!(order.accept(2), Ok(()));
}

#[test]
fn document_with_part_before_part_list_fails() {
    let src = r#"<score-partwise><part id="piano"><measure number="1"/></part><part-list/></score-partwise>"#;
    assert_eq!(parse(src).err(), Some(ConvertError::Build(BuildError::OutOfOrderField { element: 5 })));
}

#[test]
fn pitch_children_out_of_order_fail() {
    let src = r#"<score-partwise><part-list/><part id="piano"><measure number="1">
        <note><pitch><octave>4</octave><step>C</step></pitch><duration>1</duration></note>
        </measure></part></score-partwise>"#;
    assert!(matches!(parse(src), Err(ConvertError::Build(BuildError::OutOfOrderField { .. }))));
}

#[test]
fn document_with_credit_after_part_list_fails_at_the_credit() {
    let src = r#"<score-partwise><part-list/><credit/><part id="piano"><measure number="1"/></part></score-partwise>"#;
    assert_eq!(parse(src).err(), Some(ConvertError::Build(BuildError::OutOfOrderField { element: 3 })));
}

#[test]
fn document_with_two_credits_is_accepted() {
    let src = r#"<score-partwise><credit/><credit/><part-list/><part id="piano"><measure number="1"/></part></score-partwise>"#;
    let track = parse(src).unwrap();
    assert!(track.events.is_empty());
    assert_eq!(track.end_position, 0);
}

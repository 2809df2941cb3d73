use segment_nearest::records::{field_spans, first_non_pad};

#[test]
fn spans_follow_records_and_fields() {
    // start 1, stride 10, 2 records, fields [0, 4) and [4, 9)
    let spans = field_spans(21, &vec![1, 10, 2, 0, 0, 4, 4, 9]).unwrap();
    assert_eq!(spans, vec![vec![(1, 5), (5, 10)], vec![(11, 15), (15, 20)]]);
}

#[test]
fn trailing_odd_word_is_ignored() {
    let spans = field_spans(10, &vec![0, 5, 1, 0, 1, 3, 7]).unwrap();
    assert_eq!(spans, vec![vec![(1, 3)]]);
}

#[test]
fn layout_outside_buffer_is_rejected() {
    assert_eq!(field_spans(19, &vec![1, 10, 2, 0, 0, 4, 4, 9]), None);
    assert_eq!(field_spans(100, &vec![0, 10, 1, 0, 5, 2]), None);
    assert_eq!(field_spans(100, &vec![0, 10, 1]), None);
}

#[test]
fn no_records_no_spans() {
    assert_eq!(field_spans(0, &vec![0, 10, 0, 0, 0, 4]), Some(vec![]));
}

#[test]
fn pads_are_skipped() {
    let buf = b"   12.5  ".to_vec();
    assert_eq!(first_non_pad(&buf, 0, buf.len()), Some(3));
    assert_eq!(first_non_pad(&buf, 4, buf.len()), Some(4));
    assert_eq!(first_non_pad(&buf, 0, 3), None);
    assert_eq!(first_non_pad(&buf, 7, 9), None);
    assert_eq!(first_non_pad(&buf, 2, 2), None);
}

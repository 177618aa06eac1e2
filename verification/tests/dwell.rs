use pathlab::app::dwell::{format_dwell, DwellLabel};

fn text(s: &str) -> DwellLabel {
    DwellLabel::Text(s.to_string())
}

#[test]
fn dwell_labels_pick_the_right_unit() {
    assert_eq!(format_dwell(0), text("instant"));
    assert_eq!(format_dwell(250), text("250 ms"));
    assert_eq!(format_dwell(999), text("999 ms"));
    assert_eq!(format_dwell(1000), text("1 s"));
    assert_eq!(format_dwell(5000), text("5 s"));
    assert_eq!(format_dwell(1500), DwellLabel::FractionalSeconds(1500));
}

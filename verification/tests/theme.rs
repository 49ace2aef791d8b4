use breadbox::theme::{read_top_margin, top_margin_px, TopMargin, DEFAULT_TOP_MARGIN_PX};

#[test]
fn plain_pixel_value() {
    assert_eq!(top_margin_px("120px"), 120);
}

#[test]
fn bare_number_without_unit_suffix() {
    assert_eq!(top_margin_px("120"), 120);
}

#[test]
fn percentage_form_falls_back_to_default() {
    assert_eq!(top_margin_px("16%"), DEFAULT_TOP_MARGIN_PX);
}

#[test]
fn garbage_falls_back_to_default() {
    assert_eq!(top_margin_px("not-a-length"), DEFAULT_TOP_MARGIN_PX);
}

#[test]
fn negative_value_clamps_to_zero() {
    assert_eq!(top_margin_px("-50px"), 0);
}

#[test]
fn margins_are_read_with_care() {
    assert_eq!(DEFAULT_TOP_MARGIN_PX, 120);
    assert_eq!(top_margin_px(" 7px "), 7);
    assert_eq!(top_margin_px("7pxpx"), 7);
    assert_eq!(top_margin_px("7 px"), 120);
    assert_eq!(top_margin_px("+7px"), 7);
    assert_eq!(top_margin_px(""), 120);
    assert_eq!(top_margin_px("px"), 120);
    assert_eq!(top_margin_px("2147483647px"), 2147483647);
    assert_eq!(top_margin_px("2147483648px"), 120);
    assert_eq!(top_margin_px("-2147483648"), 0);
}

#[test]
fn a_margin_says_how_it_was_read() {
    assert_eq!(read_top_margin("0px"), TopMargin::Pixels(0));
    assert_eq!(read_top_margin("-50px"), TopMargin::Negative(-50));
    assert_eq!(read_top_margin("16%"), TopMargin::Unreadable);
}

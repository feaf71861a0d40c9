use puffin::grid_spacing::GridSpacing;

#[test]
fn spacing_text_keeps_digits_and_one_dot() {
    let mut spacing = GridSpacing::default();
    assert_eq!(spacing.text(), "1");
    spacing.set_text("1a2.3.4 ms");
    spacing.keep_spacing_chars();
    assert_eq!(spacing.text(), "12.34");
    spacing.set_text(".5.");
    spacing.keep_spacing_chars();
    assert_eq!(spacing.text(), ".5");
    spacing.reset();
    assert_eq!(spacing.text(), "1");
}

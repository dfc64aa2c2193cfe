use edgematch::render::colour_symbol;

#[test]
fn matched_horizontal_label_is_padded_and_green() {
    let s = colour_symbol(0, true, false, false);
    assert_eq!(s.as_str(), "\x1b[32m A \x1b[0m");
}

#[test]
fn mismatched_vertical_label_is_bare_and_red() {
    let s = colour_symbol(21, false, true, false);
    assert_eq!(s.as_str(), "\x1b[31mV\x1b[0m");
}

#[test]
fn mega_tile_labels_carry_no_padding() {
    let s = colour_symbol(9, true, false, true);
    assert_eq!(s.as_str(), "\x1b[32mJ\x1b[0m");
}

#[test]
fn sentinel_renders_as_border_glyphs() {
    assert_eq!(colour_symbol(-1, true, false, true).as_str(), " ");
    assert_eq!(colour_symbol(-1, false, true, false).as_str(), "│");
    assert_eq!(colour_symbol(-1, true, false, false).as_str(), "───");
}

use steelwool::diagnostics::{position, Position};

#[test]
fn the_first_byte_is_line_one_column_one() {
    assert_eq!(position("(a)\n", 0), Position { line: 1, column: 1 });
}

#[test]
fn a_newline_starts_the_next_line() {
    let source = "(a)\n(b)\n";
    assert_eq!(position(source, 4), Position { line: 2, column: 1 });
    assert_eq!(position(source, 6), Position { line: 2, column: 3 });
}

#[test]
fn the_column_counts_characters_not_bytes() {
    let source = "(a)\n(naïve x)\n";
    let offset = source.find('x').expect("the source contains x") as u32;
    assert_eq!(offset, 12);
    let at = position(source, offset);
    assert_eq!(at, Position { line: 2, column: 8 });
}

#[test]
fn an_offset_at_or_past_the_end_clamps() {
    let source = "(a)\n(b)";
    assert_eq!(position(source, 7), Position { line: 2, column: 4 });
    assert_eq!(position(source, 900), Position { line: 2, column: 4 });
}

#[test]
fn an_offset_inside_a_character_clamps_to_its_start() {
    let source = "ï)";
    assert_eq!(position(source, 1), Position { line: 1, column: 1 });
}

#[test]
fn an_offset_inside_a_four_byte_character_clamps_to_its_start() {
    let source = "a\n🦀b";
    assert_eq!(position(source, 3), Position { line: 2, column: 1 });
    assert_eq!(position(source, 6), Position { line: 2, column: 2 });
}

#[test]
fn an_empty_source_is_line_one_column_one() {
    assert_eq!(position("", 5), Position { line: 1, column: 1 });
}

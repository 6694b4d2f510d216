use ligma::asset::{parse_prototype, AssetError};
use ligma::geometry::{collides_with_laser, shift_prototype, squared_distance, Coord};

fn c(x: u16, y: u16, ch: char) -> Coord {
    Coord { x, y, ch }
}

#[test]
fn parse_reads_one_cell_per_line() {
    assert_eq!(
        parse_prototype("1 2 a\n3 4 b\n"),
        Ok(vec![c(1, 2, 'a'), c(3, 4, 'b')])
    );
}

#[test]
fn parse_keeps_multibyte_glyphs() {
    assert_eq!(parse_prototype("7 8 █"), Ok(vec![c(7, 8, '█')]));
}

#[test]
fn parse_takes_first_char_of_glyph_field_and_ignores_extra_fields() {
    assert_eq!(parse_prototype("  7\t8   xyz extra"), Ok(vec![c(7, 8, 'x')]));
}

#[test]
fn parse_missing_glyph_is_space() {
    assert_eq!(parse_prototype("5 6"), Ok(vec![c(5, 6, ' ')]));
}

#[test]
fn parse_empty_text_gives_empty_template() {
    assert_eq!(parse_prototype(""), Ok(vec![]));
}

#[test]
fn parse_missing_y_is_reported() {
    assert_eq!(parse_prototype("5"), Err(AssetError::MissingField));
}

#[test]
fn parse_blank_line_is_reported() {
    assert_eq!(parse_prototype("1 1 a\n\n2 2 b"), Err(AssetError::MissingField));
    assert_eq!(parse_prototype("\n"), Err(AssetError::MissingField));
}

#[test]
fn parse_bad_numbers_are_reported() {
    assert_eq!(parse_prototype("x 1 a"), Err(AssetError::InvalidNumber));
    assert_eq!(parse_prototype("1 65536 a"), Err(AssetError::InvalidNumber));
    assert_eq!(parse_prototype("1 -1 a"), Err(AssetError::InvalidNumber));
    assert_eq!(parse_prototype("+ 1 a"), Err(AssetError::InvalidNumber));
}

#[test]
fn parse_accepts_plus_sign_and_largest_value() {
    assert_eq!(parse_prototype("+7 65535 z"), Ok(vec![c(7, 65535, 'z')]));
}

#[test]
fn parse_first_bad_line_decides() {
    assert_eq!(parse_prototype("a\n5"), Err(AssetError::InvalidNumber));
    assert_eq!(parse_prototype("5\na b"), Err(AssetError::MissingField));
}

#[test]
fn parse_strips_carriage_returns() {
    assert_eq!(
        parse_prototype("1 2 a\r\n3 4 b\r\n"),
        Ok(vec![c(1, 2, 'a'), c(3, 4, 'b')])
    );
}

#[test]
fn shift_prototype_moves_every_cell() {
    let t = vec![c(1, 2, 'a'), c(0, 5, 'b')];
    assert_eq!(
        shift_prototype(&t, 10, 20),
        vec![c(11, 22, 'a'), c(10, 25, 'b')]
    );
}

#[test]
fn instances_differ_by_exactly_the_origin() {
    let t = parse_prototype("1 0 ^\n0 1 /\n1 1 #\n2 1 \\").unwrap();
    let at_origin = shift_prototype(&t, 0, 0);
    let moved = shift_prototype(&t, 7, 9);
    assert_eq!(at_origin, t);
    assert_eq!(moved.len(), at_origin.len());
    for (a, b) in at_origin.iter().zip(moved.iter()) {
        assert_eq!(b.x, a.x + 7);
        assert_eq!(b.y, a.y + 9);
        assert_eq!(b.ch, a.ch);
    }
}

#[test]
fn collision_is_exact_cell_equality_on_either_laser_cell() {
    let laser = vec![c(5, 5, '|'), c(5, 6, '|')];
    assert!(collides_with_laser(&laser, &c(5, 6, 'x')));
    assert!(collides_with_laser(&laser, &c(5, 5, '#')));
    assert!(!collides_with_laser(&laser, &c(6, 6, '|')));
    assert!(!collides_with_laser(&laser, &c(5, 7, '|')));
}

#[test]
fn squared_distance_is_exact() {
    assert_eq!(squared_distance(&c(1, 2, 'a'), &c(4, 6, 'b')), 25);
    assert_eq!(squared_distance(&c(4, 6, 'a'), &c(1, 2, 'b')), 25);
    assert_eq!(squared_distance(&c(0, 0, 'a'), &c(65535, 65535, 'b')), 2 * 65535u64 * 65535);
}

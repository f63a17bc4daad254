use hexplay::format::{calculate_begin_padding, calculate_end_padding};
use hexplay::{HexViewBuilder, Rgb};

#[test]
fn test_begin_padding() {
    assert_eq!(calculate_begin_padding(0, 16), 0);
    assert_eq!(calculate_begin_padding(16, 16), 0);
    assert_eq!(calculate_begin_padding(54, 16), 6);
}

#[test]
fn a_full_line_is_formatted_as_expected() {
    let data: Vec<u8> = (0x40..0x40 + 0xF + 1).collect();

    let row_view = HexViewBuilder::new(&data).row_width(data.len()).finish();

    let result = row_view.render().unwrap();

    assert_eq!(result, "00000000  40 41 42 43 44 45 46 47 48 49 4A 4B 4C 4D 4E 4F  | @ABCDEFGHIJKLMNO |");
}

#[test]
fn an_incomplete_line_is_padded_on_the_right() {
    let data = ['a' as u8; 10];

    let row_view = HexViewBuilder::new(&data).row_width(16).finish();

    let result = row_view.render().unwrap();

    assert_eq!(result, "00000000  61 61 61 61 61 61 61 61 61 61                    | aaaaaaaaaa       |");
}

#[test]
fn an_unaligned_address_causes_padded_on_the_left() {
    let data = ['a' as u8; 11];

    let row_view = HexViewBuilder::new(&data).address_offset(5).row_width(16).finish();

    let result = row_view.render().unwrap();

    assert_eq!(result, "00000000                 61 61 61 61 61 61 61 61 61 61 61  |      aaaaaaaaaaa |");
}

#[test]
fn an_unaligned_incomplete_line_causes_padding_on_both_sides() {
    let data = ['a' as u8; 8];

    let row_view = HexViewBuilder::new(&data).address_offset(5).row_width(16).finish();

    let result = row_view.render().unwrap();

    assert_eq!(result, "00000000                 61 61 61 61 61 61 61 61           |      aaaaaaaa    |");
}

#[test]
fn decreasing_the_row_width_increases_the_total_character_count() {
    let data: Vec<u8> = (0..64).collect();

    let short_row_view = HexViewBuilder::new(&data).row_width(1).finish();
    let long_row_view = HexViewBuilder::new(&data).row_width(16).finish();

    let short_row_result = short_row_view.render().unwrap();
    let long_row_result = long_row_view.render().unwrap();

    assert!(long_row_result.len() < short_row_result.len());
}

#[test]
fn the_address_offset_is_zero_by_default() {
    let data = [99; 16];

    let row_view = HexViewBuilder::new(&data).row_width(16).finish();

    let result = row_view.render().unwrap();
    let address_offset_str = format!("{:X}", 0);

    assert!(result.contains(&address_offset_str));
}

#[test]
fn the_address_offset_is_used_when_given() {
    let data = [0; 16];

    let address_offset = data.len() * 10;
    let row_view = HexViewBuilder::new(&data).row_width(16).address_offset(address_offset).finish();

    let result = row_view.render().unwrap();
    let address_offset_str = format!("{:X}", address_offset);

    assert!(result.contains(&address_offset_str));
}

#[test]
fn the_address_offset_increases_by_the_row_width_for_each_row() {
    let data = [0; 16 * 5];

    let address_offset = data.len() * 10;
    let row_view = HexViewBuilder::new(&data).row_width(16).address_offset(address_offset).finish();

    let result = row_view.render().unwrap();
    let row_2_address_offset_str = format!("{:X}", address_offset + 2 * row_view.row_width);
    let row_4_address_offset_str = format!("{:X}", address_offset + 4 * row_view.row_width);

    assert!(result.contains(&row_2_address_offset_str));
    assert!(result.contains(&row_4_address_offset_str));
}

#[test]
fn the_row_width_is_16_by_default() {
    let data = [0; 17];

    let one_line_result = HexViewBuilder::new(&data[0..16]).finish().render().unwrap();
    let two_line_result = HexViewBuilder::new(&data[0..17]).finish().render().unwrap();

    assert_eq!(1, one_line_result.lines().count());
    assert_eq!(2, two_line_result.lines().count());
}

#[test]
fn the_replacement_character_is_dot_by_default() {
    let data = [0; 1];
    let empty_cp: [char; 0] = [];

    let result = HexViewBuilder::new(&data).codepage(&empty_cp).finish().render().unwrap();

    assert!(result.contains('.'));
}

#[test]
fn the_replacement_character_can_be_changed() {
    let data = [0; 1];
    let empty_cp: [char; 0] = [];

    let result = HexViewBuilder::new(&data)
        .codepage(&empty_cp)
        .replacement_character(std::char::REPLACEMENT_CHARACTER)
        .finish()
        .render()
        .unwrap();

    assert!(result.contains(std::char::REPLACEMENT_CHARACTER));
}

#[test]
fn all_characters_can_be_printed() {
    let data: Vec<u8> = (0u16..256u16).map(|v| v as u8).collect();

    let dump_view = HexViewBuilder::new(&data).address_offset(20).row_width(8).finish();

    let result = dump_view.render().unwrap();

    assert!(!result.is_empty());
}

#[test]
fn rows_are_aligned_to_the_row_width() {
    let data: Vec<u8> = (0u8..200u8).collect();

    let view = HexViewBuilder::new(&data[40..72]).address_offset(40).row_width(16).finish();
    let result = view.render().unwrap();
    let mut lines = result.lines();

    assert_eq!("00000020                          28 29 2A 2B 2C 2D 2E 2F  |         ()*+,-./ |", lines.next().unwrap());
    assert_eq!("00000030  30 31 32 33 34 35 36 37 38 39 3A 3B 3C 3D 3E 3F  | 0123456789:;<=>? |", lines.next().unwrap());
    assert_eq!("00000040  40 41 42 43 44 45 46 47                          | @ABCDEFG         |", lines.next().unwrap());
    assert!(lines.next().is_none());
    assert!(!result.ends_with('\n'));
}

#[test]
fn end_padding_follows_the_formula() {
    assert_eq!(calculate_end_padding(16, 16), 0);
    assert_eq!(calculate_end_padding(10, 16), 6);
    assert_eq!(calculate_end_padding(17, 16), 15);
    assert_eq!(calculate_end_padding(0, 16), 0);
}

#[test]
fn a_zero_row_width_is_an_error() {
    let data = [1u8, 2, 3];
    let view = HexViewBuilder::new(&data).row_width(0).finish();
    assert_eq!(view.render(), Err(hexplay::RenderError::ZeroRowWidth));
}

#[test]
fn an_empty_buffer_gives_one_empty_row() {
    let data: [u8; 0] = [];
    let view = HexViewBuilder::new(&data).finish();
    assert_eq!(view.render().unwrap(), "00000000    |  |");
}

#[test]
fn addresses_wider_than_eight_digits_are_not_cut() {
    let data = [0x41u8];
    let view = HexViewBuilder::new(&data).address_offset(0x1_0000_0000).finish();
    assert_eq!(view.render().unwrap(), "100000000  41                                               | A                |");
}

#[test]
fn rendering_twice_gives_the_same_text() {
    let data: Vec<u8> = (0u8..50u8).collect();
    let view = HexViewBuilder::new(&data).address_offset(3).row_width(7).add_color(Rgb(1, 2, 3), 4..9).finish();
    assert_eq!(view.render().unwrap(), view.render().unwrap());
}

#[test]
fn a_colored_byte_is_wrapped_in_escape_sequences_in_both_columns() {
    let data = [0x41u8, 0x42];
    let view = HexViewBuilder::new(&data).row_width(2).add_color(Rgb(0, 128, 255), 1..2).finish();
    assert_eq!(
        view.render().unwrap(),
        "00000000  41 \u{1b}[38;2;0;128;255m42\u{1b}[m  | A\u{1b}[38;2;0;128;255mB\u{1b}[m |"
    );
}

#[test]
fn colors_agree_between_columns_over_several_rows() {
    let data: Vec<u8> = (0u8..200u8).collect();
    let green = Rgb(0, 255, 0);
    let red = Rgb(255, 0, 0);
    let yellow = Rgb(255, 255, 0);
    let blue = Rgb(0, 0, 255);
    let view = HexViewBuilder::new(&data[40..72])
        .address_offset(40)
        .row_width(16)
        .add_colors(vec![(red, 6..15), (blue, 21..26), (yellow, 15..21), (green, 0..6)])
        .finish();
    let starts: Vec<usize> = view.colors.iter().map(|c| c.1.start).collect();
    assert_eq!(starts, vec![0, 6, 15, 21]);
    let result = view.render().unwrap();
    for (i, line) in result.lines().enumerate() {
        let halves: Vec<&str> = line.splitn(2, "  | ").collect();
        let hex_colors: Vec<&str> = halves[0].matches("38;2;").collect();
        let char_colors: Vec<&str> = halves[1].matches("38;2;").collect();
        assert_eq!(hex_colors.len(), char_colors.len(), "row {}", i);
    }
    let first = result.lines().next().unwrap();
    assert!(first.contains("\u{1b}[38;2;0;255;0m28\u{1b}[m"));
    assert!(first.contains("\u{1b}[38;2;0;255;0m(\u{1b}[m"));
    assert_eq!(result.matches("\u{1b}[m").count(), 2 * 26);
}

#[test]
fn the_cursor_skips_ranges_already_passed() {
    let colors: hexplay::Colors = vec![(Rgb(1, 1, 1), 0..2), (Rgb(2, 2, 2), 5..6), (Rgb(3, 3, 3), 8..9)];
    let mut cursor = hexplay::format::ColorRange::new(&colors);
    assert_eq!(cursor.get(1), Some(Rgb(1, 1, 1)));
    assert_eq!(cursor.get(3), None);
    assert_eq!(cursor.idx, 1);
    cursor.update_offset(4);
    assert_eq!(cursor.get(1), Some(Rgb(2, 2, 2)));
    assert_eq!(cursor.get(3), None);
    assert_eq!(cursor.get(6), None);
    assert_eq!(cursor.idx, 3);
}

#[test]
fn codepages_map_bytes_to_characters() {
    assert_eq!(hexplay::codepage_0850()[0x80], '\u{c7}');
    assert_eq!(hexplay::byte_mapping::as_char(0x41, &hexplay::codepage_ascii(), '.'), 'A');
    assert_eq!(hexplay::byte_mapping::as_char(0x07, &hexplay::codepage_ascii(), '.'), '.');
    assert_eq!(hexplay::byte_mapping::as_char(0xC8, &hexplay::codepage_ascii(), '?'), '?');
    assert_eq!(hexplay::byte_mapping::as_char(0x80, &hexplay::codepage_1252(), '.'), '\u{20ac}');
}

#[test]
fn the_row_count_is_the_padded_length_over_the_row_width_rounded_up() {
    let data = [0x30u8; 20];
    let view = HexViewBuilder::new(&data).address_offset(5).row_width(8).finish();
    let result = view.render().unwrap();
    assert_eq!(result.lines().count(), 4);
    let lines: Vec<&str> = result.lines().collect();
    assert_eq!(lines[0], "00000000                 30 30 30  |      000 |");
    assert_eq!(lines[1], "00000008  30 30 30 30 30 30 30 30  | 00000000 |");
    assert_eq!(lines[3], "00000018  30                       | 0        |");
}

#[test]
fn a_row_of_exactly_the_row_width_has_no_padding() {
    let data = [0x7Eu8; 4];
    let view = HexViewBuilder::new(&data).address_offset(8).row_width(4).finish();
    assert_eq!(view.render().unwrap(), "00000008  7E 7E 7E 7E  | ~~~~ |");
}

#[test]
fn an_unaligned_start_reports_the_row_boundary_as_address() {
    let data = [0x41u8; 3];
    let view = HexViewBuilder::new(&data).address_offset(0x23).row_width(16).finish();
    let result = view.render().unwrap();
    assert!(result.starts_with("00000020           41 41 41"));
}

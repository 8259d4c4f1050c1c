use rxd::frame::{
    dashes, display_footer, display_title, format_byte_count, numerals_end, truncate_text,
};
use rxd::render::display_chunks;

#[test]
fn byte_counts() {
    assert_eq!(format_byte_count(1500), "1.KB");
    assert_eq!(format_byte_count(999), "999.B");
    assert_eq!(format_byte_count(1_000_000), "1.MB");
}

#[test]
fn byte_counts_at_the_edges_of_the_units() {
    assert_eq!(format_byte_count(0), "0.B");
    assert_eq!(format_byte_count(1), "1.B");
    assert_eq!(format_byte_count(2), "2.B");
    assert_eq!(format_byte_count(1_000), "1.KB");
    assert_eq!(format_byte_count(1_999), "1.KB");
    assert_eq!(format_byte_count(999_999), "999.KB");
    assert_eq!(format_byte_count(999_999_999), "999.MB");
    assert_eq!(format_byte_count(1_000_000_000), "1.GB");
    assert_eq!(format_byte_count(123_456_789_012), "123.GB");
    assert_eq!(format_byte_count(999_999_999_999), "999.GB");
    assert_eq!(format_byte_count(1_000_000_000_000), "1.TB");
    assert_eq!(format_byte_count(18_446_744_073_709_551_615), "18446744.TB");
}

#[test]
fn a_short_text_is_not_truncated() {
    assert_eq!(truncate_text("notes.txt", 30), "notes.txt");
    assert_eq!(truncate_text("", 30), "");
    assert_eq!(truncate_text("abc", 3), "abc");
    let thirty = "a".repeat(30);
    assert_eq!(truncate_text(&thirty, 30), thirty);
}

#[test]
fn a_long_text_keeps_its_end() {
    assert_eq!(truncate_text("abcdef", 3), "[...]def");
    assert_eq!(truncate_text("abcdef", 0), "[...]");
    let long = "/home/user/projects/archive/2024/reports/summary.txt";
    assert_eq!(truncate_text(long, 30), "[...]chive/2024/reports/summary.txt");
    assert_eq!(truncate_text(long, 30).chars().count(), 35);
}

#[test]
fn truncation_counts_characters() {
    assert_eq!(truncate_text("äöüß", 4), "äöüß");
    assert_eq!(truncate_text("äöüß", 2), "[...]üß");
}

#[test]
fn dashes_of_a_length() {
    assert_eq!(dashes(0), "");
    assert_eq!(dashes(1), "─");
    assert_eq!(dashes(5), "─────");
    assert_eq!(dashes(100).chars().count(), 100);
}

#[test]
fn the_numerals_end_at_a_fixed_column() {
    assert_eq!(numerals_end(false), 61);
    assert_eq!(numerals_end(true), 67);
}

#[test]
fn footer_in_hex() {
    assert_eq!(
        display_footer(false),
        format!("└{}┴{}┴{}┘", "─".repeat(10), "─".repeat(49), "─".repeat(18))
    );
    assert_eq!(display_footer(false).chars().count(), 81);
}

#[test]
fn footer_in_binary() {
    assert_eq!(
        display_footer(true),
        format!("└{}┴{}┴{}┘", "─".repeat(10), "─".repeat(55), "─".repeat(8))
    );
    assert_eq!(display_footer(true).chars().count(), 77);
}

#[test]
fn title_of_a_short_name() {
    // The name's cell ends left of the label's bar, the size's cell right of it.
    let lines = display_title(false, String::from("hi.txt"), 2);
    assert_eq!(
        lines,
        vec![
            String::from("┌────────┬─────┐"),
            String::from("│ hi.txt │ 2.B │"),
            format!("├────────┴─┬───┴{}┬{}┐", "─".repeat(45), "─".repeat(18)),
        ]
    );
}

#[test]
fn title_of_a_one_letter_name() {
    // Both cells end left of the label's bar.
    let lines = display_title(false, String::from("a"), 5);
    assert_eq!(
        lines,
        vec![
            String::from("┌───┬─────┐"),
            String::from("│ a │ 5.B │"),
            format!("├───┴─────┴┬{}┬{}┐", "─".repeat(49), "─".repeat(18)),
        ]
    );
}

#[test]
fn title_whose_size_cell_ends_at_the_label_bar() {
    let lines = display_title(false, String::from("ab"), 7);
    assert_eq!(
        lines,
        vec![
            String::from("┌────┬─────┐"),
            String::from("│ ab │ 7.B │"),
            format!("├────┴─────┼{}┬{}┐", "─".repeat(49), "─".repeat(18)),
        ]
    );
}

#[test]
fn title_whose_name_cell_ends_at_the_label_bar() {
    let lines = display_title(false, String::from("data.bin"), 1500);
    assert_eq!(
        lines,
        vec![
            String::from("┌──────────┬──────┐"),
            String::from("│ data.bin │ 1.KB │"),
            format!("├──────────┼──────┴{}┬{}┐", "─".repeat(42), "─".repeat(18)),
        ]
    );
}

#[test]
fn title_of_a_longer_name() {
    let lines = display_title(false, String::from("archive.tar"), 1_000_000);
    assert_eq!(
        lines,
        vec![
            String::from("┌─────────────┬──────┐"),
            String::from("│ archive.tar │ 1.MB │"),
            format!("├──────────┬──┴──────┴{}┬{}┐", "─".repeat(39), "─".repeat(18)),
        ]
    );
}

#[test]
fn title_in_binary() {
    let lines = display_title(true, String::from("archive.tar"), 1_000_000);
    assert_eq!(
        lines,
        vec![
            String::from("┌─────────────┬──────┐"),
            String::from("│ archive.tar │ 1.MB │"),
            format!("├──────────┬──┴──────┴{}┬{}┐", "─".repeat(45), "─".repeat(8)),
        ]
    );
}

#[test]
fn title_of_a_truncated_name() {
    let name = "/home/user/projects/archive/2024/reports/summary.txt";
    let lines = display_title(false, String::from(name), 18_446_744_073_709_551_615);
    assert_eq!(
        lines,
        vec![
            format!("┌{}┬{}┐", "─".repeat(37), "─".repeat(13)),
            String::from("│ [...]chive/2024/reports/summary.txt │ 18446744.TB │"),
            format!(
                "├{}┬{}┴{}┴{}┬{}┐",
                "─".repeat(10),
                "─".repeat(26),
                "─".repeat(13),
                "─".repeat(8),
                "─".repeat(18)
            ),
        ]
    );
}

#[test]
fn border_lines_are_as_wide_as_a_row() {
    for binaryfmt in [false, true] {
        let width = if binaryfmt { 77 } else { 81 };
        let numerals_bar = if binaryfmt { 67 } else { 61 };
        for name_len in 0..=40usize {
            for size in [0usize, 10, 1_000, 25_000_000, 1_000_000_000_000] {
                let lines = display_title(binaryfmt, "n".repeat(name_len), size);
                assert_eq!(lines.len(), 3);
                assert_eq!(lines[0].chars().count(), lines[1].chars().count());
                assert_eq!(lines[2].chars().count(), width);
                let bars: Vec<usize> = lines[1]
                    .chars()
                    .enumerate()
                    .filter(|(_, c)| *c == '│')
                    .map(|(i, _)| i)
                    .collect();
                let joint: Vec<char> = lines[2].chars().collect();
                assert_eq!(joint[0], '├');
                for bar in &bars[1..] {
                    assert!(joint[*bar] == '┴' || joint[*bar] == '┼');
                }
                assert!(joint[11] == '┬' || joint[11] == '┼');
                assert_eq!(joint[numerals_bar], '┬');
                assert_eq!(joint[width - 1], '┐');
            }
        }
        assert_eq!(display_footer(binaryfmt).chars().count(), width);
    }
}

#[test]
fn hi_framed() {
    let bytes: Vec<u8> = "Hi".bytes().collect();
    let title = display_title(false, String::from("hi"), bytes.len());
    let rows = display_chunks(&bytes, &None, false, 0);
    let footer = display_footer(false);
    assert_eq!(
        title,
        vec![
            String::from("┌────┬─────┐"),
            String::from("│ hi │ 2.B │"),
            format!("├────┴─────┼{}┬{}┐", "─".repeat(49), "─".repeat(18)),
        ]
    );
    assert_eq!(rows.len(), 1);
    let gray = rxd::colors::GRAY;
    let reset = rxd::colors::RESET;
    assert_eq!(
        rows[0],
        format!("│ {gray}00000010{reset} │ 48 69 {}│ Hi{} │", " ".repeat(42), " ".repeat(14))
    );
    assert_eq!(footer, format!("└{}┴{}┴{}┘", "─".repeat(10), "─".repeat(49), "─".repeat(18)));
    let visible = rows[0].chars().count() - gray.len() - reset.len();
    assert_eq!(visible, 81);
    assert_eq!(title[2].chars().count(), 81);
    assert_eq!(footer.chars().count(), 81);
}

use rxd::chunk::ChunkedReader;
use rxd::colors::{BOLD, GRAY, PURPLE, RED, RESET, SKYBLUE};
use rxd::pattern::compile_pattern;
use rxd::render::{
    cell_width, count_rows, covered, display_chunks, format_count, next_extended_chunk,
    printable, render_chunk, render_row,
};

fn label(text: &str) -> String {
    format!("│ {GRAY}{text}{RESET} │ ")
}

#[test]
fn printable_is_the_visible_range() {
    assert!(printable(' '));
    assert!(printable('A'));
    assert!(printable('~'));
    assert!(!printable('\0'));
    assert!(!printable('\u{7f}'));
    assert!(!printable('\u{ff}'));
}

#[test]
fn printable_for_every_byte() {
    for b in 0..=255u8 {
        assert_eq!(printable(b as char), (0x20..=0x7E).contains(&b));
    }
    assert!(!printable('\u{1f}'));
    assert!(!printable('│'));
    assert!(!printable('\u{10ffff}'));
}

#[test]
fn row_widths() {
    assert_eq!(format_count(false), 16);
    assert_eq!(format_count(true), 6);
    assert_eq!(cell_width(false), 3);
    assert_eq!(cell_width(true), 9);
}

#[test]
fn covered_by_a_half_open_span() {
    let spans = vec![(2, 4), (7, 7), (9, 10)];
    let inside: Vec<usize> = (0..12).filter(|i| covered(&spans, *i)).collect();
    assert_eq!(inside, vec![2, 3, 9]);
    assert!(!covered(&Vec::new(), 0));
}

#[test]
fn hi_in_hex() {
    let bytes: Vec<u8> = "Hi".bytes().collect();
    let rows = display_chunks(&bytes, &None, false, 0);
    assert_eq!(rows.len(), 1);
    let numerals = format!("48 69 {}", " ".repeat(14 * 3));
    assert_eq!(numerals.len(), 16 * 3);
    let characters = format!("Hi{}", " ".repeat(14));
    assert_eq!(characters.len(), 16);
    assert_eq!(rows[0], format!("{}{numerals}│ {characters} │", label("00000010")));
}

#[test]
fn hi_in_binary() {
    let bytes: Vec<u8> = "Hi".bytes().collect();
    let rows = display_chunks(&bytes, &None, true, 0);
    assert_eq!(rows.len(), 1);
    assert_eq!(
        rows,
        vec![format!(
            "{}01001000 01101001 {}│ Hi{} │",
            label("00000006"),
            " ".repeat(4 * 9),
            " ".repeat(4)
        )]
    );
}

#[test]
fn a_full_row_has_no_padding() {
    let bytes: Vec<u8> = "0123456789abcdef".bytes().collect();
    let rows = render_chunk(&bytes, &Vec::new(), false, 0);
    assert_eq!(
        rows,
        vec![format!(
            "{}30 31 32 33 34 35 36 37 38 39 61 62 63 64 65 66 │ 0123456789abcdef │",
            label("00000010")
        )]
    );
}

#[test]
fn labels_run_through_the_chunks() {
    let bytes: Vec<u8> = vec![b'x'; 40];
    let first = render_chunk(&bytes, &Vec::new(), false, 0);
    assert_eq!(first.len(), 3);
    assert!(first[0].starts_with(&label("00000010")));
    assert!(first[1].starts_with(&label("00000020")));
    assert!(first[2].starts_with(&label("00000030")));
    let second = render_chunk(&bytes, &Vec::new(), false, first.len());
    assert_eq!(second.len(), 3);
    assert!(second[0].starts_with(&label("00000040")));
    assert!(second[2].starts_with(&label("00000060")));

    let rows = render_chunk(&bytes, &Vec::new(), false, 0x0fff_ffff);
    assert!(rows[0].starts_with(&label("100000000")));
    let rows = render_chunk(&bytes, &Vec::new(), true, 2);
    assert_eq!(rows.len(), 7);
    assert!(rows[0].starts_with(&label("00000012")));
    assert!(rows[6].starts_with(&label("00000036")));
}

#[test]
fn an_empty_chunk_has_no_row() {
    assert!(render_chunk(&Vec::new(), &vec![(0, 1)], false, 5).is_empty());
    assert!(display_chunks(&Vec::new(), &None, true, 5).is_empty());
}

#[test]
fn the_four_tints_in_hex() {
    // 'A' and 0x01 outside the match, 'B' and 0xff inside it.
    let bytes: Vec<u8> = vec![b'A', 0x01, b'B', 0xFF];
    let rows = render_chunk(&bytes, &vec![(2, 4)], false, 0);
    let numerals = format!(
        "41 {RED}01{RESET} {SKYBLUE}42{RESET} {PURPLE}ff{RESET} {}",
        " ".repeat(12 * 3)
    );
    let characters = format!(
        "A{RED}{BOLD}.{RESET}{BOLD}{SKYBLUE}B{RESET}{BOLD}{PURPLE}.{RESET}{}",
        " ".repeat(12)
    );
    assert_eq!(rows, vec![format!("{}{numerals}│ {characters} │", label("00000010"))]);
}

#[test]
fn the_four_tints_in_binary() {
    let bytes: Vec<u8> = vec![b'A', 0x01, b'B', 0xFF];
    let rows = render_chunk(&bytes, &vec![(2, 4)], true, 0);
    let numerals = format!(
        "01000001 {RED}00000001{RESET} {SKYBLUE}01000010{RESET} {PURPLE}11111111{RESET} {}",
        " ".repeat(2 * 9)
    );
    let characters = format!(
        "A{RED}{BOLD}.{RESET}{BOLD}{SKYBLUE}B{RESET}{BOLD}{PURPLE}.{RESET}{}",
        " ".repeat(2)
    );
    assert_eq!(rows, vec![format!("{}{numerals}│ {characters} │", label("00000006"))]);
}

#[test]
fn a_match_is_tinted_across_rows() {
    let bytes: Vec<u8> = "0123456789abcdefABC".bytes().collect();
    let re = match compile_pattern("fA") {
        Ok(re) => Some(re),
        Err(_) => panic!("the pattern was refused"),
    };
    let rows = display_chunks(&bytes, &re, false, 0);
    assert_eq!(rows.len(), 2);
    assert_eq!(
        rows,
        vec![
            format!(
                "{}30 31 32 33 34 35 36 37 38 39 61 62 63 64 65 {SKYBLUE}66{RESET} │ 0123456789abcde{BOLD}{SKYBLUE}f{RESET} │",
                label("00000010")
            ),
            format!(
                "{}{SKYBLUE}41{RESET} 42 43 {}│ {BOLD}{SKYBLUE}A{RESET}BC{} │",
                label("00000020"),
                " ".repeat(13 * 3),
                " ".repeat(13)
            ),
        ]
    );
}

#[test]
fn a_match_after_high_bytes_tints_the_matching_bytes() {
    let bytes: Vec<u8> = vec![0xFF, 0xFE, b'o', b'k'];
    let re = match compile_pattern("ok") {
        Ok(re) => Some(re),
        Err(_) => panic!("the pattern was refused"),
    };
    let rows = display_chunks(&bytes, &re, false, 0);
    let numerals = format!(
        "{RED}ff{RESET} {RED}fe{RESET} {SKYBLUE}6f{RESET} {SKYBLUE}6b{RESET} {}",
        " ".repeat(12 * 3)
    );
    let characters = format!(
        "{RED}{BOLD}.{RESET}{RED}{BOLD}.{RESET}{BOLD}{SKYBLUE}o{RESET}{BOLD}{SKYBLUE}k{RESET}{}",
        " ".repeat(12)
    );
    assert_eq!(rows, vec![format!("{}{numerals}│ {characters} │", label("00000010"))]);
}

#[test]
fn rows_of_a_chunk_one_by_one() {
    let bytes: Vec<u8> = (0..20u8).map(|i| b'a' + i).collect();
    let spans: Vec<(usize, usize)> = Vec::new();
    assert_eq!(count_rows(bytes.len(), false), 2);
    assert_eq!(
        render_row(&bytes, &spans, false, 1, 0xabc),
        format!("{}71 72 73 74 {}│ qrst{} │", label("00000abc"), " ".repeat(36), " ".repeat(12))
    );
    assert_eq!(count_rows(bytes.len(), true), 4);
    assert_eq!(
        render_row(&bytes, &spans, true, 3, 0),
        format!(
            "{}01110011 01110100 {}│ st{} │",
            label("00000000"),
            " ".repeat(36),
            " ".repeat(4)
        )
    );
}

#[test]
fn only_the_last_row_of_a_chunk_is_padded() {
    for len in 1..=70usize {
        for binaryfmt in [false, true] {
            let width = format_count(binaryfmt);
            let bytes: Vec<u8> = vec![b'x'; len];
            let rows = render_chunk(&bytes, &Vec::new(), binaryfmt, 0);
            assert_eq!(rows.len(), (len + width - 1) / width);
            assert_eq!(rows.len(), count_rows(len, binaryfmt));
            for (i, row) in rows.iter().enumerate() {
                let held = row.chars().filter(|c| *c == 'x').count();
                if i + 1 < rows.len() || len % width == 0 {
                    assert_eq!(held, width);
                } else {
                    assert_eq!(held, len % width);
                }
                assert_eq!(row.chars().count(), 17 + GRAY.len() + RESET.len() + width * if binaryfmt { 10 } else { 4 });
            }
        }
    }
}

#[test]
fn labels_beyond_the_machine_word_are_exact() {
    let bytes: Vec<u8> = vec![b'x'; 17];
    let rows = render_chunk(&bytes, &Vec::new(), false, usize::MAX);
    assert_eq!(rows.len(), 2);
    let first = (usize::MAX as u128 + 1) * 16;
    assert!(rows[0].starts_with(&label(&format!("{:08x}", first))));
    assert!(rows[1].starts_with(&label(&format!("{:08x}", first + 16))));
    let rows = render_chunk(&bytes, &Vec::new(), true, usize::MAX - 1);
    assert_eq!(rows.len(), 3);
    assert!(rows[2].starts_with(&label(&format!("{:08x}", (usize::MAX as u128 + 2) * 6))));
}

#[test]
fn twenty_bytes_at_eight_take_two_rows() {
    let content: Vec<u8> = "abcdefghijklmnopqrst".bytes().collect();
    let mut reader = match ChunkedReader::new(content.len(), 8) {
        Ok(reader) => reader,
        Err(_) => panic!("the chunk size was refused"),
    };
    let mut count = 0usize;
    let mut rows: Vec<String> = Vec::new();
    let mut chunks = 0usize;
    while let Some(window) = next_extended_chunk(&mut reader, false) {
        let bytes = content[window.offset..window.offset + window.len].to_vec();
        let rendered = display_chunks(&bytes, &None, false, count);
        count += rendered.len();
        rows.extend(rendered);
        chunks += 1;
    }
    assert_eq!(chunks, 2);
    assert_eq!(count, 2);
    assert_eq!(
        rows,
        vec![
            format!(
                "{}61 62 63 64 65 66 67 68 69 6a 6b 6c 6d 6e 6f 70 │ abcdefghijklmnop │",
                label("00000010")
            ),
            format!(
                "{}71 72 73 74 {}│ qrst{} │",
                label("00000020"),
                " ".repeat(12 * 3),
                " ".repeat(12)
            ),
        ]
    );
}

fn tinted_cells(content: &Vec<u8>, chunk_size: usize, pattern: &str) -> Vec<usize> {
    let re = match compile_pattern(pattern) {
        Ok(re) => Some(re),
        Err(_) => panic!("the pattern was refused"),
    };
    let mut reader = match ChunkedReader::new(content.len(), chunk_size) {
        Ok(reader) => reader,
        Err(_) => panic!("the chunk size was refused"),
    };
    let mut count = 0usize;
    let mut tinted: Vec<usize> = Vec::new();
    while let Some(window) = next_extended_chunk(&mut reader, false) {
        let bytes = content[window.offset..window.offset + window.len].to_vec();
        let rows = display_chunks(&bytes, &re, false, count);
        count += rows.len();
        for row in rows {
            tinted.push(row.matches(SKYBLUE).count());
        }
    }
    tinted
}

#[test]
fn a_match_within_an_extended_chunk_is_found() {
    // The match lies at 16..20. The first chunk holds 17 bytes and borrows
    // 15, so the match lies within the extended chunk, in its second row.
    let content: Vec<u8> = "0123456789abcdefXYZ_0123456789abcdef".bytes().collect();
    assert_eq!(tinted_cells(&content, 17, "XYZ_"), vec![0, 8, 0]);
}

#[test]
fn a_match_across_the_end_of_an_extended_chunk_is_missed() {
    // The match lies at 30..34, and the first extended chunk ends at 32.
    let content: Vec<u8> = "0123456789abcdef0123456789abcdXYZ_ef".bytes().collect();
    assert_eq!(tinted_cells(&content, 17, "XYZ_"), vec![0, 0, 0]);
    assert_eq!(tinted_cells(&content, 4096, "XYZ_"), vec![0, 4, 4]);
}

#[test]
fn the_rows_of_a_run_are_the_rows_of_the_source() {
    // Without a pattern the cut into chunks shows nowhere: the rows of a
    // run are those of the whole content taken as one chunk.
    for binaryfmt in [false, true] {
        for len in [1usize, 5, 6, 16, 17, 20, 96, 97, 250] {
            let content: Vec<u8> = (0..len).map(|i| (i * 7 % 256) as u8).collect();
            let whole = render_chunk(&content, &Vec::new(), binaryfmt, 0);
            assert_eq!(whole.len(), count_rows(len, binaryfmt));
            for chunk_size in [1usize, 3, 6, 16, 17, 40, 4096] {
                let mut reader = match ChunkedReader::new(len, chunk_size) {
                    Ok(reader) => reader,
                    Err(_) => panic!("the chunk size was refused"),
                };
                let mut count = 0usize;
                let mut rows: Vec<String> = Vec::new();
                while let Some(window) = next_extended_chunk(&mut reader, binaryfmt) {
                    assert_eq!(window.offset, count * format_count(binaryfmt));
                    let bytes = content[window.offset..window.offset + window.len].to_vec();
                    let rendered = display_chunks(&bytes, &None, binaryfmt, count);
                    count += rendered.len();
                    rows.extend(rendered);
                }
                assert_eq!(rows, whole);
            }
        }
    }
}

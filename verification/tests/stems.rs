use one2html::sanitize::{is_reserved_char, sanitize, MAX_STEM_BYTES};
use one2html::text::{char_width, push_decimal};

const RESERVED: [char; 9] = ['\\', '/', '*', '?', ':', '"', '<', '>', '|'];

#[test]
fn each_reserved_character_becomes_an_underscore() {
    assert_eq!(sanitize("a\\b/c*d?e:f\"g<h>i|j"), "a_b_c_d_e_f_g_h_i_j");
    for c in RESERVED {
        assert_eq!(sanitize(&c.to_string()), "_");
    }
}

#[test]
fn sanitized_titles_hold_no_reserved_character() {
    let titles = [
        "Meeting notes: Q3/Q4",
        "C:\\Users\\me",
        "what?",
        "<<<>>>",
        "a|b|c",
        "\"quoted\"",
        "2 * 3",
        "plain",
    ];
    for title in titles {
        let stem = sanitize(title);
        assert!(!stem.chars().any(|c| RESERVED.contains(&c)));
        assert_eq!(stem.chars().count(), title.chars().count());
    }
}

#[test]
fn other_characters_are_kept() {
    assert_eq!(sanitize("Hello, world! (draft) #1 - 50% [a] {b} 'c' ~ = + & ;"),
        "Hello, world! (draft) #1 - 50% [a] {b} 'c' ~ = + & ;");
    assert_eq!(sanitize("Réunion d'équipe"), "Réunion d'équipe");
    assert_eq!(sanitize(" leading and trailing "), " leading and trailing ");
    assert_eq!(sanitize("_"), "_");
}

#[test]
fn reserved_set_is_exactly_the_nine() {
    for code in 0u32..128 {
        let c = char::from_u32(code).unwrap();
        assert_eq!(is_reserved_char(c), RESERVED.contains(&c));
    }
    assert!(!is_reserved_char('é'));
    assert!(!is_reserved_char('／'));
}

#[test]
fn empty_title_gives_empty_stem() {
    assert_eq!(sanitize(""), "");
}

#[test]
fn the_limit_is_120_bytes() {
    assert_eq!(MAX_STEM_BYTES, 120);
}

#[test]
fn titles_up_to_the_limit_are_kept_whole() {
    let at_limit = "x".repeat(120);
    assert_eq!(sanitize(&at_limit), at_limit);
    let below = "y".repeat(119);
    assert_eq!(sanitize(&below), below);
}

#[test]
fn long_titles_are_cut_to_the_limit() {
    let over = "x".repeat(121);
    assert_eq!(sanitize(&over), "x".repeat(120));
    let long = "abc/".repeat(100);
    let stem = sanitize(&long);
    assert_eq!(stem.len(), 120);
    assert_eq!(stem, "abc_".repeat(30));
}

#[test]
fn reserved_characters_beyond_the_cut_do_not_matter() {
    let title = format!("{}{}", "a".repeat(120), "/:*?");
    assert_eq!(sanitize(&title), "a".repeat(120));
    let title = format!("{}{}", "a".repeat(119), "/:*?");
    assert_eq!(sanitize(&title), format!("{}_", "a".repeat(119)));
}

#[test]
fn the_cut_counts_bytes_of_utf8() {
    let title = "é".repeat(100);
    assert_eq!(title.len(), 200);
    let stem = sanitize(&title);
    assert_eq!(stem, "é".repeat(60));
    assert_eq!(stem.len(), 120);
    let kept = "é".repeat(60);
    assert_eq!(sanitize(&kept), kept);
}

#[test]
fn the_cut_never_falls_inside_a_character() {
    let title = format!("a{}", "é".repeat(60));
    assert_eq!(title.len(), 121);
    let stem = sanitize(&title);
    assert_eq!(stem, format!("a{}", "é".repeat(59)));
    assert_eq!(stem.len(), 119);

    let title = format!("ab{}", "€".repeat(40));
    assert_eq!(title.len(), 122);
    assert_eq!(sanitize(&title), format!("ab{}", "€".repeat(39)));

    let title = format!("abc{}", "😀".repeat(30));
    assert_eq!(title.len(), 123);
    assert_eq!(sanitize(&title), format!("abc{}", "😀".repeat(29)));
}

#[test]
fn a_shorter_character_after_the_cut_is_not_taken() {
    let title = format!("{}éz", "a".repeat(119));
    assert_eq!(sanitize(&title), "a".repeat(119));
}

#[test]
fn four_byte_characters_fill_the_limit() {
    let title = "😀".repeat(31);
    let stem = sanitize(&title);
    assert_eq!(stem, "😀".repeat(30));
    assert_eq!(stem.len(), 120);
    assert_eq!(stem.chars().count(), 30);
}

#[test]
fn stems_are_never_longer_than_the_limit() {
    let titles = [
        "x".repeat(500),
        "é".repeat(500),
        "€".repeat(500),
        "😀".repeat(500),
        format!("{}{}", "a".repeat(118), "😀😀"),
        "/".repeat(121),
    ];
    for title in titles {
        let stem = sanitize(&title);
        assert!(stem.len() <= 120);
        assert!(stem.chars().count() <= 120);
        assert!(!stem.is_empty());
        assert!(title.chars().map(|c| if RESERVED.contains(&c) { '_' } else { c })
            .collect::<String>().starts_with(&stem));
    }
}

#[test]
fn sanitizing_twice_changes_nothing_more() {
    for title in ["a/b", "plain", "<>", "x:y:z"] {
        let once = sanitize(title);
        assert_eq!(sanitize(&once), once);
    }
}

#[test]
fn character_widths() {
    assert_eq!(char_width('a'), 1);
    assert_eq!(char_width('\u{7f}'), 1);
    assert_eq!(char_width('\u{80}'), 2);
    assert_eq!(char_width('é'), 2);
    assert_eq!(char_width('\u{7ff}'), 2);
    assert_eq!(char_width('\u{800}'), 3);
    assert_eq!(char_width('€'), 3);
    assert_eq!(char_width('\u{ffff}'), 3);
    assert_eq!(char_width('\u{10000}'), 4);
    assert_eq!(char_width('😀'), 4);
    assert_eq!(char_width('\u{10ffff}'), 4);
    for c in ['a', 'é', '€', '😀', '\0', '\u{d7ff}', '\u{e000}'] {
        assert_eq!(char_width(c), c.len_utf8());
    }
}

fn numeral(n: usize) -> String {
    let mut out = String::new();
    push_decimal(&mut out, n);
    out
}

#[test]
fn decimal_numerals() {
    assert_eq!(numeral(0), "0");
    assert_eq!(numeral(7), "7");
    assert_eq!(numeral(9), "9");
    assert_eq!(numeral(10), "10");
    assert_eq!(numeral(42), "42");
    assert_eq!(numeral(100), "100");
    assert_eq!(numeral(1_234_567_890), "1234567890");
    assert_eq!(numeral(usize::MAX), usize::MAX.to_string());
}

#[test]
fn decimal_numerals_are_appended() {
    let mut out = String::from("page_");
    push_decimal(&mut out, 305);
    assert_eq!(out, "page_305");
    push_decimal(&mut out, 0);
    assert_eq!(out, "page_3050");
}

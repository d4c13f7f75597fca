use classfile::{parse_javaized_utf8, DecodeError};

fn malformed(offset: usize) -> Result<String, DecodeError> {
    Err(DecodeError::MalformedEncoding { offset })
}

#[test]
fn empty_buffer_is_empty_text() {
    assert_eq!(parse_javaized_utf8(&vec![]), Ok(String::new()));
}

#[test]
fn one_byte_form_is_ascii() {
    assert_eq!(parse_javaized_utf8(&vec![0x41]), Ok("A".to_string()));
    assert_eq!(parse_javaized_utf8(&vec![0x01]), Ok("\u{1}".to_string()));
    assert_eq!(parse_javaized_utf8(&vec![0x7F]), Ok("\u{7f}".to_string()));
    assert_eq!(
        parse_javaized_utf8(&b"java/lang/Object".to_vec()),
        Ok("java/lang/Object".to_string())
    );
}

#[test]
fn two_byte_form_of_nul_is_one_nul_character() {
    let text = parse_javaized_utf8(&vec![0xC0, 0x80]).unwrap();
    assert_eq!(text, "\u{0}");
    assert_eq!(text.chars().count(), 1);
}

#[test]
fn two_byte_form_covers_u0080_to_u07ff() {
    assert_eq!(parse_javaized_utf8(&vec![0xC2, 0x80]), Ok("\u{80}".to_string()));
    assert_eq!(parse_javaized_utf8(&vec![0xC3, 0xA9]), Ok("\u{e9}".to_string()));
    assert_eq!(parse_javaized_utf8(&vec![0xDF, 0xBF]), Ok("\u{7ff}".to_string()));
}

#[test]
fn three_byte_form_decodes_the_euro_sign() {
    assert_eq!(parse_javaized_utf8(&vec![0xE2, 0x82, 0xAC]), Ok("\u{20ac}".to_string()));
}

#[test]
fn three_byte_form_covers_u0800_to_uffff() {
    assert_eq!(parse_javaized_utf8(&vec![0xE0, 0xA0, 0x80]), Ok("\u{800}".to_string()));
    assert_eq!(parse_javaized_utf8(&vec![0xEF, 0xBF, 0xBF]), Ok("\u{ffff}".to_string()));
    assert_eq!(parse_javaized_utf8(&vec![0xEE, 0x80, 0x80]), Ok("\u{e000}".to_string()));
}

#[test]
fn six_byte_form_decodes_the_lowest_supplementary_code_point() {
    assert_eq!(
        parse_javaized_utf8(&vec![0xED, 0xA0, 0x80, 0xED, 0xB0, 0x80]),
        Ok("\u{10000}".to_string())
    );
}

#[test]
fn six_byte_form_follows_its_formula() {
    // 0x10000 + (0x0F << 16) + (0x3F << 10) + (0x0F << 6) + 0x3F
    assert_eq!(
        parse_javaized_utf8(&vec![0xED, 0xAF, 0xBF, 0xED, 0xBF, 0xBF]),
        Ok("\u{10ffff}".to_string())
    );
    // 0x10000 + (0x00 << 16) + (0x3D << 10) + (0x08 << 6) + 0x00
    assert_eq!(
        parse_javaized_utf8(&vec![0xED, 0xA0, 0xBD, 0xED, 0xB8, 0x80]),
        Ok("\u{1f600}".to_string())
    );
}

#[test]
fn forms_of_all_widths_decode_in_byte_order() {
    let bytes = vec![
        0x61, 0xC3, 0xA9, 0xE2, 0x82, 0xAC, 0xED, 0xA0, 0x80, 0xED, 0xB0, 0x80, 0xC0, 0x80, 0x7A,
    ];
    assert_eq!(parse_javaized_utf8(&bytes), Ok("a\u{e9}\u{20ac}\u{10000}\u{0}z".to_string()));
}

#[test]
fn six_byte_form_cut_short_is_malformed() {
    assert_eq!(parse_javaized_utf8(&vec![0xED]), malformed(0));
    assert_eq!(parse_javaized_utf8(&vec![0xED, 0xA0]), malformed(0));
    assert_eq!(parse_javaized_utf8(&vec![0xED, 0xA0, 0x80]), malformed(0));
    assert_eq!(parse_javaized_utf8(&vec![0xED, 0xA0, 0x80, 0xED]), malformed(0));
    assert_eq!(parse_javaized_utf8(&vec![0xED, 0xA0, 0x80, 0xED, 0xB0]), malformed(0));
}

#[test]
fn six_byte_form_without_second_marker_is_malformed() {
    assert_eq!(parse_javaized_utf8(&vec![0xED, 0xA0, 0x80, 0xEE, 0xB0, 0x80]), malformed(0));
    assert_eq!(parse_javaized_utf8(&vec![0xED, 0xA0, 0x80, 0x41, 0xB0, 0x80]), malformed(0));
}

#[test]
fn six_byte_form_with_ill_shaped_bytes_is_malformed() {
    assert_eq!(parse_javaized_utf8(&vec![0xED, 0x80, 0x80, 0xED, 0xB0, 0x80]), malformed(0));
    assert_eq!(parse_javaized_utf8(&vec![0xED, 0xA0, 0x00, 0xED, 0xB0, 0x80]), malformed(0));
    assert_eq!(parse_javaized_utf8(&vec![0xED, 0xA0, 0x80, 0xED, 0xA0, 0x80]), malformed(0));
    assert_eq!(parse_javaized_utf8(&vec![0xED, 0xA0, 0x80, 0xED, 0xB0, 0x7F]), malformed(0));
}

#[test]
fn lead_byte_ed_never_opens_a_three_byte_form() {
    // U+D000 in standard UTF-8
    assert_eq!(parse_javaized_utf8(&vec![0xED, 0x80, 0x80]), malformed(0));
}

#[test]
fn three_byte_form_cut_short_or_ill_shaped_is_malformed() {
    assert_eq!(parse_javaized_utf8(&vec![0xE2]), malformed(0));
    assert_eq!(parse_javaized_utf8(&vec![0xE2, 0x82]), malformed(0));
    assert_eq!(parse_javaized_utf8(&vec![0xE2, 0x02, 0xAC]), malformed(0));
    assert_eq!(parse_javaized_utf8(&vec![0xE2, 0x82, 0x2C]), malformed(0));
}

#[test]
fn three_byte_form_of_a_surrogate_is_malformed() {
    // lead 0xFD carries the same low bits as 0xED: ((0x0D) << 12) + (0x20 << 6) = 0xD800
    assert_eq!(parse_javaized_utf8(&vec![0xFD, 0xA0, 0x80]), malformed(0));
    assert_eq!(parse_javaized_utf8(&vec![0xFD, 0xBF, 0xBF]), malformed(0));
    assert_eq!(parse_javaized_utf8(&vec![0xFD, 0x9F, 0xBF]), Ok("\u{d7ff}".to_string()));
}

#[test]
fn two_byte_form_cut_short_or_ill_shaped_is_malformed() {
    assert_eq!(parse_javaized_utf8(&vec![0xC3]), malformed(0));
    assert_eq!(parse_javaized_utf8(&vec![0xC3, 0x29]), malformed(0));
}

#[test]
fn a_byte_that_opens_no_longer_form_is_its_own_code_point() {
    assert_eq!(parse_javaized_utf8(&vec![0x00]), Ok("\u{0}".to_string()));
    assert_eq!(parse_javaized_utf8(&vec![0x80]), Ok("\u{80}".to_string()));
    assert_eq!(parse_javaized_utf8(&vec![0xBF]), Ok("\u{bf}".to_string()));
}

#[test]
fn failure_reports_the_offset_of_the_bad_character_and_no_text() {
    assert_eq!(parse_javaized_utf8(&vec![0x41, 0x42, 0xED, 0x00]), malformed(2));
    assert_eq!(parse_javaized_utf8(&vec![0xE2, 0x82, 0xAC, 0xC3]), malformed(3));
    assert_eq!(
        parse_javaized_utf8(&vec![0xED, 0xA0, 0x80, 0xED, 0xB0, 0x80, 0xE2, 0x82]),
        malformed(6)
    );
}

#[test]
fn decoding_agrees_with_standard_utf8_below_ud000() {
    let texts = ["hello", "gr\u{fc}\u{df}e", "\u{20ac}uro", "\u{4e2d}\u{6587}", "\u{cfff}\u{e000}"];
    for text in texts {
        assert_eq!(parse_javaized_utf8(&text.as_bytes().to_vec()), Ok(text.to_string()));
    }
}

/// The bytes that write `c` in modified UTF-8.
fn written(c: char) -> Vec<u8> {
    let v = c as u32;
    if (1..=0x7F).contains(&v) {
        vec![v as u8]
    } else if v <= 0x7FF {
        vec![(0xC0 | (v >> 6)) as u8, (0x80 | (v & 0x3F)) as u8]
    } else if v <= 0xFFFF {
        vec![(0xE0 | (v >> 12)) as u8, (0x80 | ((v >> 6) & 0x3F)) as u8, (0x80 | (v & 0x3F)) as u8]
    } else {
        let w = v - 0x10000;
        vec![
            0xED,
            (0xA0 | (w >> 16)) as u8,
            (0x80 | ((w >> 10) & 0x3F)) as u8,
            0xED,
            (0xB0 | ((w >> 6) & 0x0F)) as u8,
            (0x80 | (w & 0x3F)) as u8,
        ]
    }
}

#[test]
fn every_character_outside_ud000_to_ud7ff_round_trips() {
    for v in 0..=0x10FFFFu32 {
        let Some(c) = char::from_u32(v) else { continue };
        if (0xD000..=0xD7FF).contains(&v) {
            continue;
        }
        assert_eq!(parse_javaized_utf8(&written(c)), Ok(c.to_string()), "U+{v:04X}");
    }
}

#[test]
fn characters_from_ud000_to_ud7ff_do_not_round_trip() {
    for v in 0xD000..=0xD7FFu32 {
        let c = char::from_u32(v).unwrap();
        assert_eq!(parse_javaized_utf8(&written(c)), malformed(0), "U+{v:04X}");
    }
}

#[test]
fn a_written_text_round_trips_behind_any_prefix() {
    let text = "caf\u{e9} \u{0}\u{20ac}\u{1f600}\u{10ffff}!";
    let mut bytes = Vec::new();
    for c in text.chars() {
        bytes.extend(written(c));
    }
    assert_eq!(parse_javaized_utf8(&bytes), Ok(text.to_string()));
    let mut longer = written('\u{4e2d}');
    longer.extend(&bytes);
    assert_eq!(parse_javaized_utf8(&longer), Ok(format!("\u{4e2d}{text}")));
}

use shades::cache::{format_pos, parse_pos};

#[test]
fn parse_reads_four_fields() {
    assert_eq!(parse_pos("1,2,3,4"), Some((1, 2, 3, 4)));
    assert_eq!(parse_pos("0,0,1920,1080"), Some((0, 0, 1920, 1080)));
}

#[test]
fn parse_accepts_signs() {
    assert_eq!(parse_pos("-7,+8,9,10"), Some((-7, 8, 9, 10)));
    assert_eq!(parse_pos("-0,0,0,0"), Some((0, 0, 0, 0)));
}

#[test]
fn parse_rejects_wrong_field_counts() {
    assert_eq!(parse_pos("1,2,3"), None);
    assert_eq!(parse_pos("1,2,3,4,5"), None);
    assert_eq!(parse_pos(""), None);
    assert_eq!(parse_pos(",,,"), None);
}

#[test]
fn parse_rejects_malformed_fields() {
    assert_eq!(parse_pos("a,2,3,4"), None);
    assert_eq!(parse_pos("1,2,3,"), None);
    assert_eq!(parse_pos("1, 2,3,4"), None);
    assert_eq!(parse_pos("1,2,3,4 "), None);
    assert_eq!(parse_pos("1,2,3,-"), None);
    assert_eq!(parse_pos("1.5,2,3,4"), None);
}

#[test]
fn parse_respects_the_i32_range() {
    assert_eq!(parse_pos("2147483647,0,0,0"), Some((i32::MAX, 0, 0, 0)));
    assert_eq!(parse_pos("2147483648,0,0,0"), None);
    assert_eq!(parse_pos("-2147483648,0,0,0"), Some((i32::MIN, 0, 0, 0)));
    assert_eq!(parse_pos("-2147483649,0,0,0"), None);
    assert_eq!(parse_pos("0,0,99999999999999999999,0"), None);
}

#[test]
fn parse_reinterprets_negative_sizes_as_unsigned() {
    // The size fields are read as signed numbers and reinterpreted,
    // exactly as the original line was written from unsigned values.
    assert_eq!(parse_pos("0,0,-1,0"), Some((0, 0, u32::MAX, 0)));
}

#[test]
fn format_writes_canonical_decimal() {
    assert_eq!(format_pos(3, -4, 5, 6), b"3,-4,5,6".to_vec());
    assert_eq!(format_pos(0, 0, 0, 0), b"0,0,0,0".to_vec());
    assert_eq!(format_pos(-120, 45, 1920, 1080), b"-120,45,1920,1080".to_vec());
}

#[test]
fn format_then_parse_round_trips() {
    let cases: &[(i32, i32, u32, u32)] = &[
        (0, 0, 0, 0),
        (-1, 1, 1, 1),
        (i32::MIN, i32::MAX, 0, i32::MAX as u32),
        (100, 100, 1024, 768),
    ];
    for &(x, y, w, h) in cases {
        let line = format_pos(x, y, w, h);
        let text = String::from_utf8(line).expect("the line is ASCII");
        assert_eq!(parse_pos(&text), Some((x, y, w, h)));
    }
}

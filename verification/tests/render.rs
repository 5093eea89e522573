use osm_semantic::data::semantic::TubeLine;
use osm_semantic::render::{
    blend, line_color, line_index, pack_argb, pack_gray_alpha, pack_rgba, parse_color,
    parse_hex_byte, set_px, spans, Color, Span,
};

const LINES: [TubeLine; 14] = [
    TubeLine::Bakerloo,
    TubeLine::Central,
    TubeLine::Circle,
    TubeLine::District,
    TubeLine::Dlr,
    TubeLine::Elizabeth,
    TubeLine::HammersmithAndCity,
    TubeLine::Jubilee,
    TubeLine::Metropolitan,
    TubeLine::Northern,
    TubeLine::Overground,
    TubeLine::Piccadilly,
    TubeLine::Victoria,
    TubeLine::WaterlooAndCity,
];

#[test]
fn a_colour_is_read_from_its_hexadecimal_text() {
    assert_eq!(parse_color(b"#20304080"), Some(Color { r: 0x20, g: 0x30, b: 0x40, a: 0x80 }));
    assert_eq!(parse_color(b"#FFffFf00"), Some(Color { r: 255, g: 255, b: 255, a: 0 }));
    assert_eq!(parse_color(b"x0a0B0c0D"), Some(Color { r: 10, g: 11, b: 12, a: 13 }));
    assert_eq!(parse_color(b"#+1+2+3+f"), Some(Color { r: 1, g: 2, b: 3, a: 15 }));
    assert_eq!(parse_color(b"#2030408"), None);
    assert_eq!(parse_color(b"#203040800"), None);
    assert_eq!(parse_color(b"#2030408g"), None);
    assert_eq!(parse_color(b"#-1304080"), None);
    assert_eq!(parse_color(b"#1+304080"), None);
    assert_eq!(parse_color(b""), None);
}

#[test]
fn a_hexadecimal_byte_is_read_as_the_standard_library_reads_it() {
    for hi in 0..=255u8 {
        for lo in 0..=255u8 {
            let expected = std::str::from_utf8(&[hi, lo])
                .ok()
                .and_then(|s| u8::from_str_radix(s, 16).ok());
            assert_eq!(parse_hex_byte(hi, lo), expected);
        }
    }
}

#[test]
fn a_pixel_holds_alpha_red_green_and_blue_from_the_top() {
    assert_eq!(pack_argb(0x12, 0x34, 0x56, 0x78), 0x12345678);
    assert_eq!(pack_argb(255, 255, 255, 255), u32::MAX);
    assert_eq!(pack_argb(0, 0, 0, 0), 0);
}

#[test]
fn samples_are_packed_pixel_by_pixel() {
    let rgba = [0x11, 0x22, 0x33, 0x44, 0xaa, 0xbb, 0xcc, 0xdd, 0x01, 0x02];
    assert_eq!(pack_rgba(&rgba), vec![0x44112233, 0xddaabbcc]);
    assert!(pack_rgba(&[1, 2, 3]).is_empty());
    let gray = [0x10, 0xff, 0x80, 0x7f, 0x01];
    assert_eq!(pack_gray_alpha(&gray), vec![0xff101010, 0x7f808080]);
    assert!(pack_gray_alpha(&[]).is_empty());
}

#[test]
fn tiles_cover_the_canvas_and_the_last_takes_what_is_left() {
    assert_eq!(
        spans(20000, 8192),
        vec![
            Span { start: 0, size: 8192 },
            Span { start: 8192, size: 8192 },
            Span { start: 16384, size: 3616 },
        ]
    );
    assert_eq!(spans(8192, 8192), vec![Span { start: 0, size: 8192 }]);
    assert_eq!(spans(8193, 8192).len(), 2);
    assert_eq!(spans(1, 8192), vec![Span { start: 0, size: 1 }]);
    assert!(spans(0, 8192).is_empty());
    assert_eq!(spans(3, 1).len(), 3);
    let big = spans(u64::MAX, u64::MAX - 1);
    assert_eq!(big, vec![Span { start: 0, size: u64::MAX - 1 }, Span { start: u64::MAX - 1, size: 1 }]);
    for (length, cell) in [(23622u64, 8192u64), (17717, 8192), (100, 7)] {
        let tiles = spans(length, cell);
        let starts: Vec<u64> = (0..length).step_by(cell as usize).collect();
        assert_eq!(tiles.iter().map(|t| t.start).collect::<Vec<_>>(), starts);
        assert_eq!(tiles.iter().map(|t| t.size).sum::<u64>(), length);
    }
}

#[test]
fn lines_are_drawn_in_the_order_in_which_they_are_declared() {
    for (i, line) in LINES.iter().enumerate() {
        assert_eq!(line_index(*line) as usize, i);
    }
    let mut shuffled = vec![TubeLine::Victoria, TubeLine::Bakerloo, TubeLine::Dlr, TubeLine::Circle];
    let mut by_order = shuffled.clone();
    shuffled.sort_by_key(|l| line_index(*l));
    by_order.sort();
    assert_eq!(shuffled, by_order);
}

#[test]
fn every_line_has_its_colour() {
    assert_eq!(line_color(TubeLine::Bakerloo), Color { a: 0xff, r: 0x89, g: 0x4e, b: 0x24 });
    assert_eq!(line_color(TubeLine::Central), Color { a: 0xff, r: 0xdc, g: 0x24, b: 0x1f });
    assert_eq!(line_color(TubeLine::Northern), Color { a: 0xff, r: 0, g: 0, b: 0 });
    assert_eq!(line_color(TubeLine::WaterlooAndCity), Color { a: 0xff, r: 0x76, g: 0xd0, b: 0xbd });
    for line in LINES {
        assert_eq!(line_color(line).a, 0xff);
    }
}

#[test]
fn a_pixel_is_set_in_its_row_and_column() {
    let mut data = vec![0u32; 6];
    set_px(&mut data, 3, 2, 1, 1, 7);
    assert_eq!(data, vec![0, 0, 0, 0, 7, 0]);
    set_px(&mut data, 3, 2, 0, 0, 8);
    set_px(&mut data, 3, 2, 2, 1, 9);
    assert_eq!(data, vec![8, 0, 0, 0, 7, 9]);
}

#[test]
fn a_channel_is_blended_by_its_alpha() {
    assert_eq!(blend(200, 255, 10), 200);
    assert_eq!(blend(200, 0, 10), 10);
    assert_eq!(blend(255, 128, 0), 128);
    assert_eq!(blend(100, 51, 200), 180);
    assert_eq!(blend(255, 255, 255), 255);
    assert_eq!(blend(0, 1, 255), 254);
}

use parser::serializer::{build_figure, build_figure_content, build_line, build_packet, build_text};
use parser::{Figure, FigureContents, FigureContentsData, Line, RgbaImage, Vector2};

#[test]
fn text() {
    let t = build_text("hello world".to_string());
    let mut expected = vec![0, 0, 0, 0, 11, 0, 0, 0];
    expected.extend_from_slice(b"hello world");
    assert_eq!(t, expected);
}

#[test]
fn empty_fig() {
    let fig = Figure { dimensions: Vector2::new(200, 200), contents: vec![] };
    let bytes = build_figure(fig);
    assert_eq!(bytes, vec![1, 0, 0, 0, 8, 0, 0, 0, 200, 0, 0, 0, 200, 0, 0, 0]);
}

#[test]
fn image() {
    let fig = Figure {
        dimensions: Vector2::new(200, 200),
        contents: vec![FigureContents {
            data: FigureContentsData::Image(RgbaImage::new(10, 10)),
            position: Vector2::new(0, 0),
        }],
    };
    let bytes = build_figure(fig);
    assert_eq!(bytes.len(), 8 + 8 + 16 + 8 + 400);
    assert_eq!(&bytes[..8], &[1, 0, 0, 0, 176, 1, 0, 0]);
    assert_eq!(&bytes[8..16], &[200, 0, 0, 0, 200, 0, 0, 0]);
    assert_eq!(&bytes[16..32], &[0, 0, 0, 0, 152, 1, 0, 0, 0, 0, 0, 0, 0, 0, 0, 0]);
    assert_eq!(&bytes[32..40], &[10, 0, 0, 0, 10, 0, 0, 0]);
    assert!(bytes[40..].iter().all(|b| *b == 0));
}

#[test]
fn lines() {
    let fig = Figure {
        dimensions: Vector2::new(200, 200),
        contents: vec![FigureContents {
            data: FigureContentsData::Line(Line {
                color: 0x00_00_00_ff,
                thickness: 1.0f32.to_bits(),
                segments: vec![
                    Vector2::new(0.0f32.to_bits(), 0.0f32.to_bits()),
                    Vector2::new(1.0f32.to_bits(), 1.0f32.to_bits()),
                ],
            }),
            position: Vector2::new(0, 0),
        }],
    };
    let bytes = build_figure(fig);
    let mut expected = vec![1, 0, 0, 0, 48, 0, 0, 0, 200, 0, 0, 0, 200, 0, 0, 0];
    expected.extend_from_slice(&[1, 0, 0, 0, 24, 0, 0, 0, 0, 0, 0, 0, 0, 0, 0, 0]);
    expected.extend_from_slice(&[0xff, 0, 0, 0]);
    expected.extend_from_slice(&1.0f32.to_le_bytes());
    expected.extend_from_slice(&0.0f32.to_le_bytes());
    expected.extend_from_slice(&0.0f32.to_le_bytes());
    expected.extend_from_slice(&1.0f32.to_le_bytes());
    expected.extend_from_slice(&1.0f32.to_le_bytes());
    assert_eq!(bytes, expected);
}

#[test]
fn packet_frames_and_drains_its_payload() {
    let mut payload = vec![9, 8, 7];
    let bytes = build_packet(0x0102_0304, &mut payload);
    assert_eq!(bytes, vec![4, 3, 2, 1, 3, 0, 0, 0, 9, 8, 7]);
    assert!(payload.is_empty());
}

#[test]
fn packet_of_nothing_is_a_bare_header() {
    let mut payload = vec![];
    assert_eq!(build_packet(1, &mut payload), vec![1, 0, 0, 0, 0, 0, 0, 0]);
}

#[test]
fn packet_length_is_little_endian() {
    let mut payload = vec![0u8; 0x0001_0203];
    let bytes = build_packet(0, &mut payload);
    assert_eq!(&bytes[..8], &[0, 0, 0, 0, 3, 2, 1, 0]);
    assert_eq!(bytes.len(), 8 + 0x0001_0203);
}

#[test]
fn empty_text_is_a_bare_header() {
    assert_eq!(build_text(String::new()), vec![0, 0, 0, 0, 0, 0, 0, 0]);
}

#[test]
fn text_is_framed_as_utf8() {
    let bytes = build_text("h\u{e9}\u{20ac}\u{1f600}".to_string());
    assert_eq!(
        bytes,
        vec![0, 0, 0, 0, 10, 0, 0, 0, b'h', 0xc3, 0xa9, 0xe2, 0x82, 0xac, 0xf0, 0x9f, 0x98, 0x80]
    );
}

#[test]
fn line_payload_is_colour_thickness_points() {
    let line = Line {
        color: 0x1122_3344,
        thickness: 2.5f32.to_bits(),
        segments: vec![Vector2::new((-1.0f32).to_bits(), 0.5f32.to_bits())],
    };
    let mut expected = vec![0x44, 0x33, 0x22, 0x11];
    expected.extend_from_slice(&2.5f32.to_le_bytes());
    expected.extend_from_slice(&(-1.0f32).to_le_bytes());
    expected.extend_from_slice(&0.5f32.to_le_bytes());
    assert_eq!(build_line(&line), expected);
}

#[test]
fn line_without_points_is_eight_bytes() {
    let line = Line { color: 1, thickness: 2, segments: vec![] };
    assert_eq!(build_line(&line), vec![1, 0, 0, 0, 2, 0, 0, 0]);
}

#[test]
fn element_header_holds_a_negative_position() {
    let content = FigureContents {
        data: FigureContentsData::Line(Line { color: 0, thickness: 0, segments: vec![] }),
        position: Vector2::new(-1, i32::MIN),
    };
    assert_eq!(
        build_figure_content(&content),
        vec![
            1, 0, 0, 0, 8, 0, 0, 0, 0xff, 0xff, 0xff, 0xff, 0, 0, 0, 0x80, 0, 0, 0, 0, 0, 0, 0, 0
        ]
    );
}

#[test]
fn image_element_holds_size_then_pixels() {
    let image = RgbaImage::from_raw(2, 1, vec![1, 2, 3, 4, 5, 6, 7, 8]).unwrap();
    let content =
        FigureContents { data: FigureContentsData::Image(image), position: Vector2::new(3, 258) };
    assert_eq!(
        build_figure_content(&content),
        vec![
            0, 0, 0, 0, 16, 0, 0, 0, 3, 0, 0, 0, 2, 1, 0, 0, 2, 0, 0, 0, 1, 0, 0, 0, 1, 2, 3, 4,
            5, 6, 7, 8
        ]
    );
}

#[test]
fn figure_keeps_paint_order() {
    let first = FigureContents {
        data: FigureContentsData::Line(Line { color: 1, thickness: 0, segments: vec![] }),
        position: Vector2::new(0, 0),
    };
    let second = FigureContents {
        data: FigureContentsData::Line(Line { color: 2, thickness: 0, segments: vec![] }),
        position: Vector2::new(0, 0),
    };
    let mut expected = vec![1, 0, 0, 0, 56, 0, 0, 0, 7, 0, 0, 0, 9, 0, 0, 0];
    expected.extend_from_slice(&build_figure_content(&first));
    expected.extend_from_slice(&build_figure_content(&second));
    let fig = Figure { dimensions: Vector2::new(7, 9), contents: vec![first, second] };
    assert_eq!(build_figure(fig), expected);
}

#[test]
fn building_twice_gives_the_same_bytes() {
    let fig = Figure {
        dimensions: Vector2::new(1, 2),
        contents: vec![FigureContents {
            data: FigureContentsData::Image(RgbaImage::from_pixel(2, 2, [1, 2, 3, 4])),
            position: Vector2::new(-5, 5),
        }],
    };
    assert_eq!(build_figure(fig.clone()), build_figure(fig));
    assert_eq!(build_text("same".to_string()), build_text("same".to_string()));
}

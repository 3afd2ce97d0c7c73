use parser::deserializer::{
    decode_element, decode_elements, decode_figure, decode_image, decode_line, decode_payload,
    decode_record, Decoder,
};
use parser::serializer::{build_figure, build_figure_content, build_line, build_text};
use parser::{
    Figure, FigureContents, FigureContentsData, Line, ParseError, ParsedAST, RgbaImage, Vector2,
};

fn sample_line() -> Line {
    Line {
        color: 0xdead_beef,
        thickness: 1.5f32.to_bits(),
        segments: vec![
            Vector2::new(0.0f32.to_bits(), (-0.0f32).to_bits()),
            Vector2::new(f32::MAX.to_bits(), f32::NAN.to_bits()),
            Vector2::new(f32::INFINITY.to_bits(), 3.25f32.to_bits()),
        ],
    }
}

fn sample_figure() -> Figure {
    Figure {
        dimensions: Vector2::new(640, 480),
        contents: vec![
            FigureContents {
                data: FigureContentsData::Image(
                    RgbaImage::from_raw(2, 3, (0u8..24).collect()).unwrap(),
                ),
                position: Vector2::new(-7, 12),
            },
            FigureContents {
                data: FigureContentsData::Line(sample_line()),
                position: Vector2::new(i32::MAX, i32::MIN),
            },
            FigureContents {
                data: FigureContentsData::Image(RgbaImage::new(0, 5)),
                position: Vector2::new(0, 0),
            },
        ],
    }
}

fn figure_record(elements: &[u8]) -> Vec<u8> {
    let mut bytes = vec![1, 0, 0, 0];
    bytes.extend_from_slice(&((elements.len() + 8) as u32).to_le_bytes());
    bytes.extend_from_slice(&[4, 0, 0, 0, 4, 0, 0, 0]);
    bytes.extend_from_slice(elements);
    bytes
}

fn element(kind: u32, payload: &[u8]) -> Vec<u8> {
    let mut bytes = kind.to_le_bytes().to_vec();
    bytes.extend_from_slice(&(payload.len() as u32).to_le_bytes());
    bytes.extend_from_slice(&[0; 8]);
    bytes.extend_from_slice(payload);
    bytes
}

#[test]
fn decodes_one_text_record() {
    let mut decoder = Decoder::new();
    let out = decoder.feed(vec![0, 0, 0, 0, 1, 0, 0, 0, b'a']);
    assert_eq!(out, Ok(vec![ParsedAST::Text("a".to_string())]));
    assert!(decoder.pending().is_empty());
}

#[test]
fn keeps_an_unfinished_record() {
    let mut decoder = Decoder::new();
    let out = decoder.feed(vec![0, 0, 0, 0, 3, 0, 0, 0, b'a']);
    assert_eq!(out, Ok(vec![]));
    assert_eq!(decoder.pending(), &vec![0, 0, 0, 0, 3, 0, 0, 0, b'a']);
    let out = decoder.feed(vec![b'b', b'c']);
    assert_eq!(out, Ok(vec![ParsedAST::Text("abc".to_string())]));
    assert!(decoder.pending().is_empty());
}

#[test]
fn decodes_an_empty_figure() {
    let mut decoder = Decoder::new();
    let out = decoder.feed(vec![1, 0, 0, 0, 8, 0, 0, 0, 5, 0, 0, 0, 5, 0, 0, 0]);
    assert_eq!(
        out,
        Ok(vec![ParsedAST::Figure(Figure { dimensions: Vector2::new(5, 5), contents: vec![] })])
    );
    assert!(decoder.pending().is_empty());
}

#[test]
fn decodes_an_empty_text() {
    let mut decoder = Decoder::new();
    let out = decoder.feed(vec![0, 0, 0, 0, 0, 0, 0, 0]);
    assert_eq!(out, Ok(vec![ParsedAST::Text(String::new())]));
    assert!(decoder.pending().is_empty());
}

#[test]
fn a_new_decoder_holds_nothing() {
    let mut decoder = Decoder::new();
    assert!(decoder.pending().is_empty());
    assert_eq!(decoder.feed(vec![]), Ok(vec![]));
    assert!(decoder.pending().is_empty());
}

#[test]
fn keeps_a_partial_header() {
    let mut decoder = Decoder::new();
    assert_eq!(decoder.feed(vec![0, 0, 0]), Ok(vec![]));
    assert_eq!(decoder.pending(), &vec![0, 0, 0]);
    assert_eq!(decoder.feed(vec![0, 2, 0, 0]), Ok(vec![]));
    assert_eq!(decoder.pending(), &vec![0, 0, 0, 0, 2, 0, 0]);
    assert_eq!(decoder.feed(vec![0, b'o', b'k', 1]), Ok(vec![ParsedAST::Text("ok".to_string())]));
    assert_eq!(decoder.pending(), &vec![1]);
}

#[test]
fn text_round_trip() {
    let text = "gr\u{fc}\u{df}e, \u{4e16}\u{754c} \u{1f980}".to_string();
    let mut decoder = Decoder::new();
    assert_eq!(decoder.feed(build_text(text.clone())), Ok(vec![ParsedAST::Text(text)]));
    assert!(decoder.pending().is_empty());
}

#[test]
fn figure_round_trip() {
    let figure = sample_figure();
    let mut decoder = Decoder::new();
    assert_eq!(decoder.feed(build_figure(figure.clone())), Ok(vec![ParsedAST::Figure(figure)]));
    assert!(decoder.pending().is_empty());
}

#[test]
fn split_at_every_offset_gives_the_same() {
    let frames = vec![
        build_text("split me".to_string()),
        build_text(String::new()),
        build_figure(sample_figure()),
        build_figure(Figure { dimensions: Vector2::new(0, 0), contents: vec![] }),
    ];
    for frame in frames {
        let mut whole = Decoder::new();
        let expected = whole.feed(frame.clone()).unwrap();
        assert_eq!(expected.len(), 1);
        for cut in 0..=frame.len() {
            let mut decoder = Decoder::new();
            let mut got = decoder.feed(frame[..cut].to_vec()).unwrap();
            if cut < frame.len() {
                assert!(got.is_empty());
                assert_eq!(decoder.pending(), &frame[..cut].to_vec());
            }
            got.extend(decoder.feed(frame[cut..].to_vec()).unwrap());
            assert_eq!(got, expected);
            assert!(decoder.pending().is_empty());
        }
    }
}

#[test]
fn byte_by_byte_gives_the_same() {
    let mut stream = build_text("one".to_string());
    stream.extend(build_figure(sample_figure()));
    stream.extend(build_text("two".to_string()));
    let mut decoder = Decoder::new();
    let mut got = vec![];
    for byte in stream {
        got.extend(decoder.feed(vec![byte]).unwrap());
    }
    assert_eq!(
        got,
        vec![
            ParsedAST::Text("one".to_string()),
            ParsedAST::Figure(sample_figure()),
            ParsedAST::Text("two".to_string()),
        ]
    );
    assert!(decoder.pending().is_empty());
}

#[test]
fn several_records_in_one_chunk_come_out_in_order() {
    let mut stream = build_text("first".to_string());
    stream.extend(build_figure(sample_figure()));
    stream.extend(build_text("third".to_string()));
    stream.extend_from_slice(&[0, 0, 0, 0, 9]);
    let mut decoder = Decoder::new();
    assert_eq!(
        decoder.feed(stream),
        Ok(vec![
            ParsedAST::Text("first".to_string()),
            ParsedAST::Figure(sample_figure()),
            ParsedAST::Text("third".to_string()),
        ])
    );
    assert_eq!(decoder.pending(), &vec![0, 0, 0, 0, 9]);
}

#[test]
fn rejects_an_unknown_record_type() {
    let mut decoder = Decoder::new();
    assert_eq!(decoder.feed(vec![2, 0, 0, 0, 0, 0, 0, 0]), Err(ParseError::UnknownRecordType));
}

#[test]
fn an_unknown_record_type_waits_for_its_payload() {
    let mut decoder = Decoder::new();
    assert_eq!(decoder.feed(vec![9, 0, 0, 0, 2, 0, 0, 0, 1]), Ok(vec![]));
    assert_eq!(decoder.feed(vec![1]), Err(ParseError::UnknownRecordType));
}

#[test]
fn rejects_text_that_is_not_utf8() {
    let mut decoder = Decoder::new();
    assert_eq!(decoder.feed(vec![0, 0, 0, 0, 2, 0, 0, 0, 0xc3, 0x28]), Err(ParseError::InvalidText));
    let mut decoder = Decoder::new();
    assert_eq!(decoder.feed(vec![0, 0, 0, 0, 1, 0, 0, 0, 0xff]), Err(ParseError::InvalidText));
    let mut decoder = Decoder::new();
    assert_eq!(
        decoder.feed(vec![0, 0, 0, 0, 3, 0, 0, 0, 0xed, 0xa0, 0x80]),
        Err(ParseError::InvalidText)
    );
    let mut decoder = Decoder::new();
    assert_eq!(decoder.feed(vec![0, 0, 0, 0, 2, 0, 0, 0, 0xc0, 0x80]), Err(ParseError::InvalidText));
}

#[test]
fn rejects_an_unknown_element_type() {
    let mut decoder = Decoder::new();
    assert_eq!(
        decoder.feed(figure_record(&element(7, &[1, 2, 3]))),
        Err(ParseError::InvalidDatatype(7))
    );
}

#[test]
fn rejects_an_image_of_the_wrong_size() {
    let mut payload = vec![2, 0, 0, 0, 2, 0, 0, 0];
    payload.extend_from_slice(&[0; 15]);
    let mut decoder = Decoder::new();
    assert_eq!(decoder.feed(figure_record(&element(0, &payload))), Err(ParseError::InvalidImage));
    payload.extend_from_slice(&[0; 2]);
    let mut decoder = Decoder::new();
    assert_eq!(decoder.feed(figure_record(&element(0, &payload))), Err(ParseError::InvalidImage));
    let mut decoder = Decoder::new();
    assert_eq!(
        decoder.feed(figure_record(&element(0, &[1, 0, 0, 0, 1, 0, 0]))),
        Err(ParseError::InvalidImage)
    );
}

#[test]
fn an_image_of_the_wrong_size_spoils_the_whole_call() {
    let good = build_figure_content(&FigureContents {
        data: FigureContentsData::Line(sample_line()),
        position: Vector2::new(1, 1),
    });
    let mut elements = good.clone();
    elements.extend(element(0, &[1, 0, 0, 0, 1, 0, 0, 0, 1, 2, 3]));
    elements.extend(good);
    let mut stream = build_text("before".to_string());
    stream.extend(figure_record(&elements));
    stream.extend(build_text("after".to_string()));
    let mut decoder = Decoder::new();
    assert_eq!(decoder.feed(stream), Err(ParseError::InvalidImage));
}

#[test]
fn an_image_size_that_overflows_is_rejected() {
    let payload = vec![0, 0, 0, 0x40, 4, 0, 0, 0];
    let mut decoder = Decoder::new();
    assert_eq!(decoder.feed(figure_record(&element(0, &payload))), Err(ParseError::InvalidImage));
    let payload = vec![0xff, 0xff, 0xff, 0xff, 0xff, 0xff, 0xff, 0xff, 1, 2, 3, 4];
    let mut decoder = Decoder::new();
    assert_eq!(decoder.feed(figure_record(&element(0, &payload))), Err(ParseError::InvalidImage));
}

#[test]
fn rejects_a_line_with_a_broken_point() {
    let mut payload = build_line(&sample_line());
    payload.pop();
    let mut decoder = Decoder::new();
    assert_eq!(decoder.feed(figure_record(&element(1, &payload))), Err(ParseError::InvalidLine));
    let mut decoder = Decoder::new();
    assert_eq!(
        decoder.feed(figure_record(&element(1, &[1, 2, 3, 4, 5, 6, 7]))),
        Err(ParseError::InvalidLine)
    );
    let mut decoder = Decoder::new();
    assert_eq!(
        decoder.feed(figure_record(&element(1, &[0; 12]))),
        Err(ParseError::InvalidLine)
    );
}

#[test]
fn rejects_a_figure_without_room_for_its_size() {
    let mut decoder = Decoder::new();
    assert_eq!(
        decoder.feed(vec![1, 0, 0, 0, 7, 0, 0, 0, 1, 2, 3, 4, 5, 6, 7]),
        Err(ParseError::TruncatedFigure)
    );
    let mut decoder = Decoder::new();
    assert_eq!(decoder.feed(vec![1, 0, 0, 0, 0, 0, 0, 0]), Err(ParseError::TruncatedFigure));
}

#[test]
fn rejects_elements_that_do_not_fill_the_figure() {
    let whole = element(1, &[0; 8]);
    let mut short_header = whole.clone();
    short_header.extend_from_slice(&[1, 0, 0, 0, 0, 0, 0, 0, 0, 0, 0, 0, 0, 0, 0]);
    let mut decoder = Decoder::new();
    assert_eq!(decoder.feed(figure_record(&short_header)), Err(ParseError::TruncatedFigure));
    let mut overrun = element(1, &[0; 8]);
    overrun[4] = 9;
    let mut decoder = Decoder::new();
    assert_eq!(decoder.feed(figure_record(&overrun)), Err(ParseError::TruncatedFigure));
    let mut slack = whole;
    slack.push(0);
    let mut decoder = Decoder::new();
    assert_eq!(decoder.feed(figure_record(&slack)), Err(ParseError::TruncatedFigure));
}

#[test]
fn the_first_bad_element_decides_the_error() {
    let mut elements = element(1, &[0; 9]);
    elements.extend(element(7, &[]));
    let mut decoder = Decoder::new();
    assert_eq!(decoder.feed(figure_record(&elements)), Err(ParseError::InvalidLine));
    let mut elements = element(7, &[]);
    elements.extend(element(1, &[0; 9]));
    let mut decoder = Decoder::new();
    assert_eq!(decoder.feed(figure_record(&elements)), Err(ParseError::InvalidDatatype(7)));
}

#[test]
fn an_error_stays() {
    let mut stream = build_text("fine".to_string());
    stream.extend_from_slice(&[5, 0, 0, 0, 1, 0, 0, 0, 0]);
    let mut decoder = Decoder::new();
    assert_eq!(decoder.feed(stream), Err(ParseError::UnknownRecordType));
    assert_eq!(decoder.pending(), &vec![5, 0, 0, 0, 1, 0, 0, 0, 0]);
    assert_eq!(decoder.feed(build_text("more".to_string())), Err(ParseError::UnknownRecordType));
    assert_eq!(decoder.feed(vec![]), Err(ParseError::UnknownRecordType));
}

#[test]
fn decode_record_reads_at_an_offset() {
    let mut buf = vec![0xaa, 0xbb];
    buf.extend(build_text("x".to_string()));
    buf.extend_from_slice(&[0, 0, 0, 0, 4, 0, 0, 0, b'y']);
    assert_eq!(decode_record(&buf, 2), Some(Ok((ParsedAST::Text("x".to_string()), 11))));
    assert_eq!(decode_record(&buf, 11), None);
    assert_eq!(decode_record(&buf, buf.len()), None);
    assert_eq!(decode_record(&vec![3, 0, 0, 0, 0, 0, 0, 0], 0), Some(Err(ParseError::UnknownRecordType)));
}

#[test]
fn decode_payload_dispatches_on_the_type() {
    let buf = vec![b'h', b'i', 5, 0, 0, 0, 6, 0, 0, 0];
    assert_eq!(decode_payload(0, &buf, 0, 2), Ok(ParsedAST::Text("hi".to_string())));
    assert_eq!(
        decode_payload(1, &buf, 2, 10),
        Ok(ParsedAST::Figure(Figure { dimensions: Vector2::new(5, 6), contents: vec![] }))
    );
    assert_eq!(decode_payload(2, &buf, 0, 2), Err(ParseError::UnknownRecordType));
    assert_eq!(decode_payload(0, &buf, 2, 2), Ok(ParsedAST::Text(String::new())));
}

#[test]
fn decode_line_reads_what_build_line_wrote() {
    let mut buf = vec![1, 2, 3];
    buf.extend(build_line(&sample_line()));
    buf.push(9);
    assert_eq!(decode_line(&buf, 3, buf.len() - 1), Ok(sample_line()));
    assert_eq!(decode_line(&buf, 3, buf.len()), Err(ParseError::InvalidLine));
    assert_eq!(
        decode_line(&buf, 3, 11),
        Ok(Line { color: 0xdead_beef, thickness: 1.5f32.to_bits(), segments: vec![] })
    );
    assert_eq!(decode_line(&buf, 3, 10), Err(ParseError::InvalidLine));
}

#[test]
fn decode_image_checks_the_size() {
    let buf = vec![1, 0, 0, 0, 2, 0, 0, 0, 1, 2, 3, 4, 5, 6, 7, 8, 9];
    assert_eq!(
        decode_image(&buf, 0, 16),
        Ok(RgbaImage::from_raw(1, 2, vec![1, 2, 3, 4, 5, 6, 7, 8]).unwrap())
    );
    assert_eq!(decode_image(&buf, 0, 17), Err(ParseError::InvalidImage));
    assert_eq!(decode_image(&buf, 0, 15), Err(ParseError::InvalidImage));
    assert_eq!(decode_image(&buf, 0, 7), Err(ParseError::InvalidImage));
    let empty = vec![0, 0, 0, 0, 9, 0, 0, 0];
    assert_eq!(decode_image(&empty, 0, 8), Ok(RgbaImage::new(0, 9)));
}

#[test]
fn decode_element_says_where_the_next_begins() {
    let content = FigureContents {
        data: FigureContentsData::Line(sample_line()),
        position: Vector2::new(-3, 4),
    };
    let mut buf = vec![0; 5];
    buf.extend(build_figure_content(&content));
    buf.extend_from_slice(&[1, 2, 3]);
    let end = buf.len();
    assert_eq!(decode_element(&buf, 5, end), Ok((content, end - 3)));
    assert_eq!(decode_element(&buf, 5, end - 4), Err(ParseError::TruncatedFigure));
    assert_eq!(decode_element(&buf, 5, 20), Err(ParseError::TruncatedFigure));
}

#[test]
fn decode_elements_and_figure_read_a_region() {
    let figure = sample_figure();
    let record = build_figure(figure.clone());
    assert_eq!(decode_figure(&record, 8, record.len()), Ok(figure.clone()));
    assert_eq!(decode_elements(&record, 16, record.len()), Ok(figure.contents));
    assert_eq!(decode_elements(&record, 16, 16), Ok(vec![]));
    assert_eq!(decode_elements(&record, 16, record.len() - 1), Err(ParseError::TruncatedFigure));
    assert_eq!(decode_figure(&record, 8, 15), Err(ParseError::TruncatedFigure));
}

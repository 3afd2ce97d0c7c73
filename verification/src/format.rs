//! The wire format, stated over byte sequences and the models of the
//! instructions.
//!
//! ```text
//! Record         := type:u32 length:u32 payload[length]
//! Text payload   := utf8[length]
//! Figure payload := width:u32 height:u32 element[...]
//! Element        := etype:u32 elen:u32 x:i32 y:i32 payload[elen]
//! Image payload  := width:u32 height:u32 rgba8[width*height*4]
//! Line payload   := color:u32 thickness:f32 (x:f32 y:f32){n}
//! ```
//!
//! All integers and floats are little-endian. Each layout is given twice: as
//! the bytes that a value is written to, and as the value that bytes are read
//! as, or the reason why they are rejected.

use vstd::prelude::*;
use vstd::utf8::*;
use crate::ast::{
    FigureContentsDataView, FigureContentsView, FigureView, ImageView, LineView, ParseError,
    ParsedASTView, Vector2,
};
use crate::wire::{i32_at, i32_le, u32_at, u32_le};

verus! {

/// The type tag of a text record.
pub const TEXT: u32 = 0;

/// The type tag of a figure record.
pub const FIGURE: u32 = 1;

/// The type tag of an image element.
pub const IMAGE: u32 = 0;

/// The type tag of a line element.
pub const LINE: u32 = 1;

/// The largest payload that a length field can declare.
pub const MAX_PAYLOAD: usize = 0xffff_ffff;

/// What a length field holds for a payload of `n` bytes: `n` itself as long
/// as it fits, its low 32 bits otherwise.
pub open spec fn length_field(n: nat) -> u32 {
    (n % 0x1_0000_0000) as u32
}

/// A record: type tag, payload length, payload.
pub open spec fn packet(data_type: u32, payload: Seq<u8>) -> Seq<u8> {
    u32_le(data_type) + u32_le(length_field(payload.len())) + payload
}

/// The record of a text.
pub open spec fn text_packet(text: Seq<char>) -> Seq<u8> {
    packet(TEXT, encode_utf8(text))
}

/// The points of a line, each as `x` then `y`.
pub open spec fn segments_bytes(segments: Seq<Vector2<u32>>) -> Seq<u8>
    decreases segments.len(),
{
    if segments.len() == 0 {
        Seq::empty()
    } else {
        segments_bytes(segments.drop_last()) + u32_le(segments.last().x) + u32_le(
            segments.last().y,
        )
    }
}

/// The payload of a line element.
pub open spec fn line_payload(line: LineView) -> Seq<u8> {
    u32_le(line.color) + u32_le(line.thickness) + segments_bytes(line.segments)
}

/// The payload of an image element.
pub open spec fn image_payload(image: ImageView) -> Seq<u8> {
    u32_le(image.width) + u32_le(image.height) + image.pixels
}

/// The type tag of an element.
pub open spec fn element_type(data: FigureContentsDataView) -> u32 {
    match data {
        FigureContentsDataView::Image(_) => IMAGE,
        FigureContentsDataView::Line(_) => LINE,
    }
}

/// The payload of an element.
pub open spec fn element_payload(data: FigureContentsDataView) -> Seq<u8> {
    match data {
        FigureContentsDataView::Image(image) => image_payload(image),
        FigureContentsDataView::Line(line) => line_payload(line),
    }
}

/// An element: type tag, payload length, position, payload.
pub open spec fn element_bytes(element: FigureContentsView) -> Seq<u8> {
    u32_le(element_type(element.data)) + u32_le(
        length_field(element_payload(element.data).len()),
    ) + i32_le(element.position.x) + i32_le(element.position.y) + element_payload(element.data)
}

/// The elements of a figure, one after the other with nothing between them.
pub open spec fn elements_bytes(elements: Seq<FigureContentsView>) -> Seq<u8>
    decreases elements.len(),
{
    if elements.len() == 0 {
        Seq::empty()
    } else {
        elements_bytes(elements.drop_last()) + element_bytes(elements.last())
    }
}

/// The payload of a figure record.
pub open spec fn figure_payload(figure: FigureView) -> Seq<u8> {
    u32_le(figure.dimensions.x) + u32_le(figure.dimensions.y) + elements_bytes(figure.contents)
}

/// The record of a figure.
pub open spec fn figure_packet(figure: FigureView) -> Seq<u8> {
    packet(FIGURE, figure_payload(figure))
}

/// The record of an instruction.
pub open spec fn ast_packet(ast: ParsedASTView) -> Seq<u8> {
    match ast {
        ParsedASTView::Text(text) => text_packet(text),
        ParsedASTView::Figure(figure) => figure_packet(figure),
    }
}

/// The records of a sequence of instructions, one after the other.
pub open spec fn asts_packets(asts: Seq<ParsedASTView>) -> Seq<u8>
    decreases asts.len(),
{
    if asts.len() == 0 {
        Seq::empty()
    } else {
        asts_packets(asts.drop_last()) + ast_packet(asts.last())
    }
}

/// A payload short enough for its length field.
pub open spec fn fits(payload: Seq<u8>) -> bool {
    payload.len() <= MAX_PAYLOAD
}

/// An element that the format can carry: its payload fits its length field,
/// and an image has four bytes for each pixel.
pub open spec fn element_encodable(element: FigureContentsView) -> bool {
    &&& fits(element_payload(element.data))
    &&& element.data matches FigureContentsDataView::Image(image) ==> image.well_sized()
}

/// A figure that the format can carry: each element can be carried, and the
/// payload fits its length field.
pub open spec fn figure_encodable(figure: FigureView) -> bool {
    &&& forall|i: int| 0 <= i < figure.contents.len() ==> element_encodable(#[trigger] figure.contents[i])
    &&& fits(figure_payload(figure))
}

/// An instruction that the format can carry.
pub open spec fn ast_encodable(ast: ParsedASTView) -> bool {
    match ast {
        ParsedASTView::Text(text) => fits(encode_utf8(text)),
        ParsedASTView::Figure(figure) => figure_encodable(figure),
    }
}

/// The points held in a line payload behind colour and thickness.
pub open spec fn parse_segments(payload: Seq<u8>) -> Seq<Vector2<u32>> {
    Seq::new(
        ((payload.len() - 8) / 8) as nat,
        |i: int| Vector2 { x: u32_at(payload, 8 + 8 * i), y: u32_at(payload, 12 + 8 * i) },
    )
}

/// Reads a line payload.
pub open spec fn parse_line(payload: Seq<u8>) -> Result<LineView, ParseError> {
    if payload.len() < 8 || (payload.len() - 8) % 8 != 0 {
        Err(ParseError::InvalidLine)
    } else {
        Ok(
            LineView {
                color: u32_at(payload, 0),
                thickness: u32_at(payload, 4),
                segments: parse_segments(payload),
            },
        )
    }
}

/// Reads an image payload.
pub open spec fn parse_image(payload: Seq<u8>) -> Result<ImageView, ParseError> {
    if payload.len() < 8 {
        Err(ParseError::InvalidImage)
    } else {
        let image = ImageView {
            width: u32_at(payload, 0),
            height: u32_at(payload, 4),
            pixels: payload.skip(8),
        };
        if image.well_sized() {
            Ok(image)
        } else {
            Err(ParseError::InvalidImage)
        }
    }
}

/// Reads the payload of an element of the given type.
pub open spec fn parse_element_data(element_type: u32, payload: Seq<u8>) -> Result<
    FigureContentsDataView,
    ParseError,
> {
    if element_type == IMAGE {
        match parse_image(payload) {
            Ok(image) => Ok(FigureContentsDataView::Image(image)),
            Err(e) => Err(e),
        }
    } else if element_type == LINE {
        match parse_line(payload) {
            Ok(line) => Ok(FigureContentsDataView::Line(line)),
            Err(e) => Err(e),
        }
    } else {
        Err(ParseError::InvalidDatatype(element_type))
    }
}

/// Whether `region` begins with a whole element: a header, and as many bytes
/// behind it as the header declares.
pub open spec fn element_complete(region: Seq<u8>) -> bool {
    region.len() >= 16 && region.len() - 16 >= u32_at(region, 4)
}

/// The size of the element that `region` begins with.
pub open spec fn element_len(region: Seq<u8>) -> int {
    16 + u32_at(region, 4)
}

/// Reads the element that `region` begins with.
pub open spec fn parse_element(region: Seq<u8>) -> Result<FigureContentsView, ParseError> {
    if !element_complete(region) {
        Err(ParseError::TruncatedFigure)
    } else {
        match parse_element_data(u32_at(region, 0), region.subrange(16, element_len(region))) {
            Ok(data) => Ok(
                FigureContentsView {
                    data,
                    position: Vector2 { x: i32_at(region, 8), y: i32_at(region, 12) },
                },
            ),
            Err(e) => Err(e),
        }
    }
}

/// `parsed` with `head` put in front of what it read, its error unchanged.
pub open spec fn after_elements(
    head: Seq<FigureContentsView>,
    parsed: Result<Seq<FigureContentsView>, ParseError>,
) -> Result<Seq<FigureContentsView>, ParseError> {
    match parsed {
        Ok(rest) => Ok(head + rest),
        Err(e) => Err(e),
    }
}

/// Reads elements from `region` until it is used up. The first element that
/// is cut short or malformed decides the error.
pub open spec fn parse_elements(region: Seq<u8>) -> Result<Seq<FigureContentsView>, ParseError>
    decreases region.len(),
{
    if region.len() == 0 {
        Ok(Seq::empty())
    } else {
        match parse_element(region) {
            Err(e) => Err(e),
            Ok(element) => match parse_elements(region.skip(element_len(region))) {
                Err(e) => Err(e),
                Ok(rest) => Ok(seq![element] + rest),
            },
        }
    }
}

/// Reads a figure payload.
pub open spec fn parse_figure(payload: Seq<u8>) -> Result<FigureView, ParseError> {
    if payload.len() < 8 {
        Err(ParseError::TruncatedFigure)
    } else {
        match parse_elements(payload.skip(8)) {
            Err(e) => Err(e),
            Ok(contents) => Ok(
                FigureView {
                    dimensions: Vector2 { x: u32_at(payload, 0), y: u32_at(payload, 4) },
                    contents,
                },
            ),
        }
    }
}

/// Reads the payload of a record of the given type.
pub open spec fn parse_payload(data_type: u32, payload: Seq<u8>) -> Result<
    ParsedASTView,
    ParseError,
> {
    if data_type == TEXT {
        if valid_utf8(payload) {
            Ok(ParsedASTView::Text(decode_utf8(payload)))
        } else {
            Err(ParseError::InvalidText)
        }
    } else if data_type == FIGURE {
        match parse_figure(payload) {
            Ok(figure) => Ok(ParsedASTView::Figure(figure)),
            Err(e) => Err(e),
        }
    } else {
        Err(ParseError::UnknownRecordType)
    }
}

/// Whether `buffer` begins with a whole record: a header, and as many bytes
/// behind it as the header declares.
pub open spec fn record_complete(buffer: Seq<u8>) -> bool {
    buffer.len() >= 8 && buffer.len() - 8 >= u32_at(buffer, 4)
}

/// The size of the record that `buffer` begins with.
pub open spec fn record_len(buffer: Seq<u8>) -> int {
    8 + u32_at(buffer, 4)
}

/// Reads the record that `buffer` begins with.
pub open spec fn parse_record(buffer: Seq<u8>) -> Result<ParsedASTView, ParseError>
    recommends
        record_complete(buffer),
{
    parse_payload(u32_at(buffer, 0), buffer.subrange(8, record_len(buffer)))
}

/// What decoding makes of a buffer.
pub struct Decoded {
    /// The instructions of the whole records at the front of the buffer, in
    /// order, or the error of the first record that is malformed.
    pub result: Result<Seq<ParsedASTView>, ParseError>,
    /// What stays buffered: behind the last whole record if all were well
    /// formed, from the malformed record on otherwise.
    pub rest: Seq<u8>,
}

impl Decoded {
    /// This outcome where `head` was decoded first: `head` comes in front of
    /// the instructions, an error stays what it is.
    pub open spec fn after(self, head: Seq<ParsedASTView>) -> Decoded {
        match self.result {
            Ok(asts) => Decoded { result: Ok(head + asts), rest: self.rest },
            Err(e) => self,
        }
    }
}

/// Putting nothing in front changes nothing.
pub proof fn lemma_after_nothing(outcome: Decoded)
    ensures
        outcome.after(Seq::empty()) == outcome,
{
    if let Ok(asts) = outcome.result {
        assert(Seq::<ParsedASTView>::empty() + asts =~= asts);
    }
}

/// Putting `second` in front and then `first` puts `first + second` in front.
pub proof fn lemma_after_twice(
    outcome: Decoded,
    first: Seq<ParsedASTView>,
    second: Seq<ParsedASTView>,
)
    ensures
        outcome.after(second).after(first) == outcome.after(first + second),
{
    if let Ok(asts) = outcome.result {
        assert(first + (second + asts) =~= (first + second) + asts);
    }
}

/// Decodes records from the front of `buffer` for as long as a whole record
/// is there. An unfinished record at the end is no error: it stays in `rest`.
#[verifier::opaque]
pub open spec fn decode(buffer: Seq<u8>) -> Decoded
    decreases buffer.len(),
{
    if !record_complete(buffer) {
        Decoded { result: Ok(Seq::empty()), rest: buffer }
    } else {
        match parse_record(buffer) {
            Err(e) => Decoded { result: Err(e), rest: buffer },
            Ok(ast) => decode(buffer.skip(record_len(buffer))).after(seq![ast]),
        }
    }
}

/// How decoding goes on behind a whole, well-formed record at the front.
pub proof fn lemma_decode_record(buffer: Seq<u8>, ast: ParsedASTView)
    requires
        record_complete(buffer),
        parse_record(buffer) == Ok::<_, ParseError>(ast),
    ensures
        decode(buffer) == decode(buffer.skip(record_len(buffer))).after(seq![ast]),
{
    reveal(decode);
}

/// Decoding stops at a malformed record, and keeps it.
pub proof fn lemma_decode_malformed(buffer: Seq<u8>, e: ParseError)
    requires
        record_complete(buffer),
        parse_record(buffer) == Err::<ParsedASTView, _>(e),
    ensures
        decode(buffer) == (Decoded { result: Err(e), rest: buffer }),
{
    reveal(decode);
}

/// Decoding stops at an unfinished record, and keeps it.
pub proof fn lemma_decode_unfinished(buffer: Seq<u8>)
    requires
        !record_complete(buffer),
    ensures
        decode(buffer) == (Decoded { result: Ok(Seq::empty()), rest: buffer }),
{
    reveal(decode);
}

} // verus!

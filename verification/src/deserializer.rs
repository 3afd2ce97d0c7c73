//! The decoder: a byte stream, delivered in chunks cut at any place, to the
//! instructions of the records in it.

use vstd::prelude::*;
use vstd::slice::{slice_subrange, slice_to_vec};
use vstd::utf8::{decode_utf8, valid_utf8};
use crate::ast::{
    Figure, FigureContents, FigureContentsData, FigureContentsView, Line, ParseError, ParsedAST,
    ParsedASTView, RgbaImage, Vector2, asts_result_view, asts_view, contents_result_view,
    contents_view, result_view,
};
use crate::format::{
    FIGURE, IMAGE, LINE, TEXT, after_elements, decode, element_len, lemma_after_nothing,
    lemma_after_twice, lemma_decode_malformed, lemma_decode_record, lemma_decode_unfinished, parse_element,
    parse_elements, parse_figure, parse_image, parse_line, parse_payload, parse_record,
    parse_segments, record_complete, record_len,
};
use crate::wire::{read_i32, read_u32};

verus! {

/// The error of `String::from_utf8`. Nothing is read from it.
#[verifier::external_type_specification]
#[verifier::external_body]
pub struct ExFromUtf8Error(std::string::FromUtf8Error);

/// `String::from_utf8` of the standard library accepts exactly the byte
/// sequences that are well-formed UTF-8, and the string it then gives holds
/// the characters that those bytes encode.
pub assume_specification[ String::from_utf8 ](vec: Vec<u8>) -> (r: Result<
    String,
    std::string::FromUtf8Error,
>)
    ensures
        r is Ok <==> valid_utf8(vec@),
        r is Ok ==> r->Ok_0@ == decode_utf8(vec@),
;

/// The bytes of `buf` from `start` up to `end`.
fn copy_range(buf: &Vec<u8>, start: usize, end: usize) -> (bytes: Vec<u8>)
    requires
        start <= end <= buf.len(),
    ensures
        bytes@ == buf@.subrange(start as int, end as int),
{
    slice_to_vec(slice_subrange(buf.as_slice(), start, end))
}

/// Reads the line payload that lies in `buf` from `start` up to `end`.
pub fn decode_line(buf: &Vec<u8>, start: usize, end: usize) -> (r: Result<Line, ParseError>)
    requires
        start <= end <= buf.len(),
    ensures
        result_view(r) == parse_line(buf@.subrange(start as int, end as int)),
{
    let ghost payload = buf@.subrange(start as int, end as int);
    let len: usize = end - start;
    if len < 8 || (len - 8) % 8 != 0 {
        return Err(ParseError::InvalidLine);
    }
    let color: u32 = read_u32(buf, start);
    let thickness: u32 = read_u32(buf, start + 4);
    let count: usize = (len - 8) / 8;
    let mut segments: Vec<Vector2<u32>> = Vec::new();
    let mut i: usize = 0;
    while i < count
        invariant
            start <= end <= buf.len(),
            len == end - start,
            len >= 8,
            count == (len - 8) / 8,
            (len - 8) % 8 == 0,
            i <= count,
            payload == buf@.subrange(start as int, end as int),
            segments@ == parse_segments(payload).take(i as int),
        decreases count - i,
    {
        let at: usize = start + 8 + 8 * i;
        let x: u32 = read_u32(buf, at);
        let y: u32 = read_u32(buf, at + 4);
        segments.push(Vector2 { x, y });
        assert(segments@ =~= parse_segments(payload).take(i + 1));
        i += 1;
    }
    assert(segments@ =~= parse_segments(payload));
    Ok(Line { color, thickness, segments })
}

/// Reads the image payload that lies in `buf` from `start` up to `end`.
pub fn decode_image(buf: &Vec<u8>, start: usize, end: usize) -> (r: Result<RgbaImage, ParseError>)
    requires
        start <= end <= buf.len(),
    ensures
        result_view(r) == parse_image(buf@.subrange(start as int, end as int)),
{
    let ghost payload = buf@.subrange(start as int, end as int);
    if end - start < 8 {
        return Err(ParseError::InvalidImage);
    }
    let width: u32 = read_u32(buf, start);
    let height: u32 = read_u32(buf, start + 4);
    let pixels: Vec<u8> = copy_range(buf, start + 8, end);
    assert(pixels@ =~= payload.skip(8));
    match RgbaImage::from_raw(width, height, pixels) {
        Some(image) => Ok(image),
        None => Err(ParseError::InvalidImage),
    }
}

/// Reads the element that begins in `buf` at `start`, in a region that ends
/// at `end`, and says where the next one begins.
pub fn decode_element(buf: &Vec<u8>, start: usize, end: usize) -> (r: Result<
    (FigureContents, usize),
    ParseError,
>)
    requires
        start <= end <= buf.len(),
    ensures
        parse_element(buf@.subrange(start as int, end as int)) == match r {
            Ok((element, _)) => Ok(element@),
            Err(e) => Err(e),
        },
        r matches Ok((_, next)) ==> {
            &&& next == start + element_len(buf@.subrange(start as int, end as int))
            &&& start < next <= end
        },
{
    let ghost region = buf@.subrange(start as int, end as int);
    if end - start < 16 {
        return Err(ParseError::TruncatedFigure);
    }
    let element_type: u32 = read_u32(buf, start);
    let length: usize = read_u32(buf, start + 4) as usize;
    let x: i32 = read_i32(buf, start + 8);
    let y: i32 = read_i32(buf, start + 12);
    let body: usize = start + 16;
    if end - body < length {
        return Err(ParseError::TruncatedFigure);
    }
    let next: usize = body + length;
    assert(region.subrange(16, element_len(region)) =~= buf@.subrange(body as int, next as int));
    let data: FigureContentsData = if element_type == IMAGE {
        match decode_image(buf, body, next) {
            Ok(image) => FigureContentsData::Image(image),
            Err(e) => {
                return Err(e);
            },
        }
    } else if element_type == LINE {
        match decode_line(buf, body, next) {
            Ok(line) => FigureContentsData::Line(line),
            Err(e) => {
                return Err(e);
            },
        }
    } else {
        return Err(ParseError::InvalidDatatype(element_type));
    };
    Ok((FigureContents { data, position: Vector2 { x, y } }, next))
}

/// Reads the elements that fill `buf` from `start` up to `end`.
pub fn decode_elements(buf: &Vec<u8>, start: usize, end: usize) -> (r: Result<
    Vec<FigureContents>,
    ParseError,
>)
    requires
        start <= end <= buf.len(),
    ensures
        contents_result_view(r) == parse_elements(buf@.subrange(start as int, end as int)),
{
    let ghost region = buf@.subrange(start as int, end as int);
    let mut contents: Vec<FigureContents> = Vec::new();
    let mut pos: usize = start;
    proof {
        assert(buf@.subrange(pos as int, end as int) =~= region);
        if let Ok(all) = parse_elements(region) {
            assert(contents_view(contents@) + all =~= all);
        }
    }
    while pos < end
        invariant
            start <= pos <= end <= buf.len(),
            region == buf@.subrange(start as int, end as int),
            parse_elements(region) == after_elements(
                contents_view(contents@),
                parse_elements(buf@.subrange(pos as int, end as int)),
            ),
        decreases end - pos,
    {
        let ghost here = buf@.subrange(pos as int, end as int);
        let ghost before = contents_view(contents@);
        match decode_element(buf, pos, end) {
            Err(e) => {
                return Err(e);
            },
            Ok((element, next)) => {
                proof {
                    assert(here.skip(element_len(here)) =~= buf@.subrange(next as int, end as int));
                    let tail = parse_elements(buf@.subrange(next as int, end as int));
                    assert(contents_view(contents@.push(element)) =~= before + seq![element@]);
                    if let Ok(rest) = tail {
                        assert(before + (seq![element@] + rest) =~= (before + seq![element@])
                            + rest);
                    }
                }
                contents.push(element);
                pos = next;
            },
        }
    }
    assert(contents_view(contents@) + Seq::<FigureContentsView>::empty() =~= contents_view(
        contents@,
    ));
    Ok(contents)
}

/// Reads the figure payload that lies in `buf` from `start` up to `end`.
pub fn decode_figure(buf: &Vec<u8>, start: usize, end: usize) -> (r: Result<Figure, ParseError>)
    requires
        start <= end <= buf.len(),
    ensures
        result_view(r) == parse_figure(buf@.subrange(start as int, end as int)),
{
    let ghost payload = buf@.subrange(start as int, end as int);
    if end - start < 8 {
        return Err(ParseError::TruncatedFigure);
    }
    let width: u32 = read_u32(buf, start);
    let height: u32 = read_u32(buf, start + 4);
    assert(payload.skip(8) =~= buf@.subrange(start + 8, end as int));
    match decode_elements(buf, start + 8, end) {
        Ok(contents) => Ok(Figure { dimensions: Vector2 { x: width, y: height }, contents }),
        Err(e) => Err(e),
    }
}

/// Reads the payload of a record of type `data_type` that lies in `buf` from
/// `start` up to `end`.
pub fn decode_payload(data_type: u32, buf: &Vec<u8>, start: usize, end: usize) -> (r: Result<
    ParsedAST,
    ParseError,
>)
    requires
        start <= end <= buf.len(),
    ensures
        result_view(r) == parse_payload(data_type, buf@.subrange(start as int, end as int)),
{
    if data_type == TEXT {
        match String::from_utf8(copy_range(buf, start, end)) {
            Ok(text) => Ok(ParsedAST::Text(text)),
            Err(_) => Err(ParseError::InvalidText),
        }
    } else if data_type == FIGURE {
        match decode_figure(buf, start, end) {
            Ok(figure) => Ok(ParsedAST::Figure(figure)),
            Err(e) => Err(e),
        }
    } else {
        Err(ParseError::UnknownRecordType)
    }
}

/// Reads the record that begins in `buf` at `pos`, if it is whole, and says
/// where the next one begins.
pub fn decode_record(buf: &Vec<u8>, pos: usize) -> (r: Option<Result<(ParsedAST, usize), ParseError>>)
    requires
        pos <= buf.len(),
    ensures
        r is Some <==> record_complete(buf@.skip(pos as int)),
        r matches Some(step) ==> parse_record(buf@.skip(pos as int)) == match step {
            Ok((ast, _)) => Ok(ast@),
            Err(e) => Err(e),
        },
        r matches Some(Ok((_, next))) ==> {
            &&& next == pos + record_len(buf@.skip(pos as int))
            &&& pos < next <= buf.len()
        },
{
    let ghost here = buf@.skip(pos as int);
    if buf.len() - pos < 8 {
        return None;
    }
    let data_type: u32 = read_u32(buf, pos);
    let length: usize = read_u32(buf, pos + 4) as usize;
    let body: usize = pos + 8;
    if buf.len() - body < length {
        return None;
    }
    let next: usize = body + length;
    assert(here.subrange(8, record_len(here)) =~= buf@.subrange(body as int, next as int));
    match decode_payload(data_type, buf, body, next) {
        Ok(ast) => Some(Ok((ast, next))),
        Err(e) => Some(Err(e)),
    }
}

/// An incremental decoder. It keeps the bytes that have arrived and do not yet
/// make up a whole record; its view is that sequence of bytes.
pub struct Decoder {
    buffer: Vec<u8>,
}

impl View for Decoder {
    type V = Seq<u8>;

    closed spec fn view(&self) -> Seq<u8> {
        self.buffer@
    }
}

impl Decoder {
    /// A decoder with nothing buffered.
    pub fn new() -> (decoder: Self)
        ensures
            decoder@ == Seq::<u8>::empty(),
    {
        Decoder { buffer: Vec::new() }
    }

    /// The bytes that are waiting for the rest of their record.
    pub fn pending(&self) -> (bytes: &Vec<u8>)
        ensures
            bytes@ == self@,
    {
        &self.buffer
    }

    /// Takes `new_bytes` behind what is buffered and decodes every record that
    /// is now whole.
    ///
    /// Gives the instructions of those records in order, none if no record is
    /// whole yet, and keeps the bytes behind the last of them. If a record is
    /// malformed, gives its error alone; that record and what follows it stay
    /// buffered, so that every later call gives the same error.
    pub fn feed(&mut self, new_bytes: Vec<u8>) -> (r: Result<Vec<ParsedAST>, ParseError>)
        ensures
            asts_result_view(r) == decode(old(self)@ + new_bytes@).result,
            final(self)@ == decode(old(self)@ + new_bytes@).rest,
    {
        let mut new_bytes = new_bytes;
        self.buffer.append(&mut new_bytes);
        let ghost whole = self.buffer@;
        let mut asts: Vec<ParsedAST> = Vec::new();
        let mut failure: Option<ParseError> = None;
        let mut pos: usize = 0;
        proof {
            assert(whole.skip(0) =~= whole);
            assert(asts_view(asts@) =~= Seq::empty());
            lemma_after_nothing(decode(whole));
        }
        loop
            invariant_except_break
                failure is None,
            invariant
                whole == self.buffer@,
                pos <= whole.len(),
                decode(whole) == decode(whole.skip(pos as int)).after(asts_view(asts@)),
            ensures
                decode(whole).result == asts_result_view(
                    match failure {
                        Some(e) => Err(e),
                        None => Ok(asts),
                    },
                ),
                decode(whole).rest == whole.skip(pos as int),
            decreases whole.len() - pos,
        {
            let ghost here = whole.skip(pos as int);
            let ghost before = asts_view(asts@);
            match decode_record(&self.buffer, pos) {
                None => {
                    proof {
                        lemma_decode_unfinished(here);
                        assert(before + Seq::<ParsedASTView>::empty() =~= before);
                    }
                    break;
                },
                Some(Err(e)) => {
                    proof {
                        lemma_decode_malformed(here, e);
                    }
                    failure = Some(e);
                    break;
                },
                Some(Ok((ast, next))) => {
                    proof {
                        assert(here.skip(record_len(here)) =~= whole.skip(next as int));
                        lemma_decode_record(here, ast@);
                        lemma_after_twice(decode(whole.skip(next as int)), before, seq![ast@]);
                        assert(asts_view(asts@.push(ast)) =~= before + seq![ast@]);
                    }
                    asts.push(ast);
                    pos = next;
                },
            }
        }
        let rest: Vec<u8> = self.buffer.split_off(pos);
        assert(rest@ =~= whole.skip(pos as int));
        self.buffer = rest;
        match failure {
            Some(e) => Err(e),
            None => Ok(asts),
        }
    }
}

} // verus!

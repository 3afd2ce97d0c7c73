//! The encoder: instructions to the bytes of their records.

use vstd::prelude::*;
use vstd::slice::slice_to_vec;
use crate::ast::{Figure, FigureContents, FigureContentsData, Line, contents_view};
use crate::format::{
    FIGURE, IMAGE, LINE, TEXT, element_bytes, elements_bytes, figure_packet, figure_payload,
    length_field, line_payload, packet, segments_bytes, text_packet,
};
use crate::wire::{put_i32, put_u32, u32_le};

verus! {

/// The value of the length field for a payload of `n` bytes.
fn length_bits(n: usize) -> (bits: u32)
    ensures
        bits == length_field(n as nat),
{
    ((n as u64) % 0x1_0000_0000u64) as u32
}

/// Frames `data` as the payload of a record of type `data_type`, and leaves
/// `data` empty.
///
/// The length field has 32 bits. A payload of 4 GiB or more is still written
/// out whole, behind a length field that holds the low 32 bits of its length;
/// no decoder will take such a record for what it was.
pub fn build_packet(data_type: u32, data: &mut Vec<u8>) -> (bytes: Vec<u8>)
    ensures
        bytes@ == packet(data_type, old(data)@),
        final(data)@ == Seq::<u8>::empty(),
{
    let mut bytes: Vec<u8> = Vec::new();
    put_u32(&mut bytes, data_type);
    put_u32(&mut bytes, length_bits(data.len()));
    bytes.append(data);
    assert(bytes@ =~= packet(data_type, old(data)@));
    bytes
}

/// The record of a text.
pub fn build_text(text: String) -> (bytes: Vec<u8>)
    ensures
        bytes@ == text_packet(text@),
{
    let mut payload: Vec<u8> = slice_to_vec(text.as_str().as_bytes());
    build_packet(TEXT, &mut payload)
}

/// The payload of a line element: colour, thickness, then each point.
pub fn build_line(line: &Line) -> (bytes: Vec<u8>)
    ensures
        bytes@ == line_payload(line@),
{
    let mut bytes: Vec<u8> = Vec::new();
    put_u32(&mut bytes, line.color);
    put_u32(&mut bytes, line.thickness);
    let ghost head = bytes@;
    let mut i: usize = 0;
    while i < line.segments.len()
        invariant
            i <= line.segments.len(),
            bytes@ == head + segments_bytes(line.segments@.take(i as int)),
        decreases line.segments.len() - i,
    {
        put_u32(&mut bytes, line.segments[i].x);
        put_u32(&mut bytes, line.segments[i].y);
        proof {
            let next = line.segments@.take(i + 1);
            assert(next.drop_last() =~= line.segments@.take(i as int));
            assert(bytes@ =~= head + segments_bytes(next));
        }
        i += 1;
    }
    assert(line.segments@.take(i as int) =~= line.segments@);
    assert(head =~= u32_le(line.color) + u32_le(line.thickness));
    bytes
}

/// The bytes of one element of a figure: header, then payload.
pub fn build_figure_content(content: &FigureContents) -> (bytes: Vec<u8>)
    ensures
        bytes@ == element_bytes(content@),
{
    let mut payload: Vec<u8> = Vec::new();
    let element_type: u32 = match &content.data {
        FigureContentsData::Image(image) => {
            put_u32(&mut payload, image.width());
            put_u32(&mut payload, image.height());
            let mut pixels: Vec<u8> = image.as_raw().clone();
            assert(pixels@ =~= image@.pixels);
            payload.append(&mut pixels);
            IMAGE
        },
        FigureContentsData::Line(line) => {
            payload = build_line(line);
            LINE
        },
    };
    let mut bytes: Vec<u8> = Vec::new();
    put_u32(&mut bytes, element_type);
    put_u32(&mut bytes, length_bits(payload.len()));
    put_i32(&mut bytes, content.position.x);
    put_i32(&mut bytes, content.position.y);
    bytes.append(&mut payload);
    assert(bytes@ =~= element_bytes(content@));
    bytes
}

/// The record of a figure: its size, then each element in paint order.
pub fn build_figure(figure: Figure) -> (bytes: Vec<u8>)
    ensures
        bytes@ == figure_packet(figure@),
{
    let mut payload: Vec<u8> = Vec::new();
    put_u32(&mut payload, figure.dimensions.x);
    put_u32(&mut payload, figure.dimensions.y);
    let ghost head = payload@;
    let ghost contents = contents_view(figure.contents@);
    let mut i: usize = 0;
    while i < figure.contents.len()
        invariant
            i <= figure.contents.len(),
            contents == contents_view(figure.contents@),
            payload@ == head + elements_bytes(contents.take(i as int)),
        decreases figure.contents.len() - i,
    {
        let mut element: Vec<u8> = build_figure_content(&figure.contents[i]);
        proof {
            let next = contents.take(i + 1);
            assert(next.drop_last() =~= contents.take(i as int));
            assert(next.last() == figure.contents@[i as int]@);
        }
        payload.append(&mut element);
        assert(payload@ =~= head + elements_bytes(contents.take(i + 1)));
        i += 1;
    }
    assert(contents.take(i as int) =~= contents);
    assert(payload@ =~= figure_payload(figure@));
    build_packet(FIGURE, &mut payload)
}

} // verus!

//! The encoder undoes the decoder: whatever bytes the decoder accepts are the
//! bytes that the encoder writes for what was decoded. So every instruction
//! has one encoding, and no two byte streams decode to the same instructions
//! and leftover.

use vstd::prelude::*;
use vstd::utf8::decode_utf8_encode_utf8;
use crate::ast::{FigureContentsDataView, ParsedASTView};
use crate::format::{
    IMAGE, TEXT, ast_encodable, ast_packet, asts_packets, decode, element_bytes, element_encodable,
    element_len, element_payload, elements_bytes, figure_payload, image_payload,
    lemma_decode_malformed, lemma_decode_record, lemma_decode_unfinished, length_field,
    line_payload, parse_element, parse_element_data, parse_elements, parse_figure, parse_image,
    parse_line, parse_record, parse_segments, record_complete, record_len, segments_bytes,
};
use crate::laws::lemma_elements_bytes_front;
use crate::wire::{
    i32_at, i32_le, lemma_i32_bits_inverse, lemma_i32_le_len, lemma_u32_le_len, lemma_u32_read_le,
    u32_at, u32_le,
};

verus! {

broadcast use {lemma_u32_le_len, lemma_i32_le_len};

/// Writing out what is read at an offset gives the four bytes that stand
/// there.
pub proof fn lemma_u32_le_of_at(s: Seq<u8>, i: int)
    requires
        0 <= i,
        i + 4 <= s.len(),
    ensures
        u32_le(u32_at(s, i)) == s.subrange(i, i + 4),
{
    lemma_u32_read_le(s[i], s[i + 1], s[i + 2], s[i + 3]);
    assert(s.subrange(i, i + 4) =~= seq![s[i], s[i + 1], s[i + 2], s[i + 3]]);
}

/// Writing out the signed integer that is read at an offset gives the four
/// bytes that stand there.
pub proof fn lemma_i32_le_of_at(s: Seq<u8>, i: int)
    requires
        0 <= i,
        i + 4 <= s.len(),
    ensures
        i32_le(i32_at(s, i)) == s.subrange(i, i + 4),
{
    lemma_i32_bits_inverse(0, u32_at(s, i));
    lemma_u32_le_of_at(s, i);
}

/// The points read from a line payload are written back as the bytes behind
/// its colour and thickness.
pub proof fn lemma_segments_written_back(payload: Seq<u8>)
    requires
        payload.len() >= 8,
        (payload.len() - 8) % 8 == 0,
    ensures
        segments_bytes(parse_segments(payload)) == payload.skip(8),
    decreases payload.len(),
{
    let points = parse_segments(payload);
    if payload.len() == 8 {
        assert(payload.skip(8) =~= Seq::<u8>::empty());
    } else {
        let shorter = payload.take(payload.len() - 8);
        let at = payload.len() - 8;
        lemma_segments_written_back(shorter);
        assert(parse_segments(shorter) =~= points.drop_last());
        lemma_u32_le_of_at(payload, at);
        lemma_u32_le_of_at(payload, at + 4);
        assert(payload.skip(8) =~= shorter.skip(8) + payload.subrange(at, at + 4)
            + payload.subrange(at + 4, at + 8));
    }
}

/// A line payload that the decoder accepts is the payload of the line it is
/// read as.
pub proof fn lemma_line_written_back(payload: Seq<u8>)
    requires
        parse_line(payload) is Ok,
    ensures
        line_payload(parse_line(payload)->Ok_0) == payload,
{
    lemma_segments_written_back(payload);
    lemma_u32_le_of_at(payload, 0);
    lemma_u32_le_of_at(payload, 4);
    assert(payload =~= payload.subrange(0, 4) + payload.subrange(4, 8) + payload.skip(8));
}

/// An image payload that the decoder accepts is the payload of the image it
/// is read as, and that image has four bytes for each pixel.
pub proof fn lemma_image_written_back(payload: Seq<u8>)
    requires
        parse_image(payload) is Ok,
    ensures
        image_payload(parse_image(payload)->Ok_0) == payload,
        parse_image(payload)->Ok_0.well_sized(),
{
    lemma_u32_le_of_at(payload, 0);
    lemma_u32_le_of_at(payload, 4);
    assert(payload =~= payload.subrange(0, 4) + payload.subrange(4, 8) + payload.skip(8));
}

/// An element payload that the decoder accepts is the payload of what it is
/// read as, under the same type tag.
pub proof fn lemma_element_data_written_back(element_type: u32, payload: Seq<u8>)
    requires
        parse_element_data(element_type, payload) is Ok,
    ensures
        element_payload(parse_element_data(element_type, payload)->Ok_0) == payload,
        crate::format::element_type(parse_element_data(element_type, payload)->Ok_0)
            == element_type,
        parse_element_data(element_type, payload)->Ok_0 matches FigureContentsDataView::Image(
            image,
        ) ==> image.well_sized(),
{
    if element_type == IMAGE {
        lemma_image_written_back(payload);
    } else {
        lemma_line_written_back(payload);
    }
}

/// The element that a region is found to begin with is written back as the
/// bytes that the region begins with, and the format can carry it.
pub proof fn lemma_element_written_back(region: Seq<u8>)
    requires
        parse_element(region) is Ok,
    ensures
        element_bytes(parse_element(region)->Ok_0) == region.take(element_len(region)),
        element_encodable(parse_element(region)->Ok_0),
{
    let element = parse_element(region)->Ok_0;
    let n = element_len(region);
    let payload = region.subrange(16, n);
    lemma_element_data_written_back(u32_at(region, 0), payload);
    lemma_u32_le_of_at(region, 0);
    lemma_u32_le_of_at(region, 4);
    lemma_i32_le_of_at(region, 8);
    lemma_i32_le_of_at(region, 12);
    assert(length_field(payload.len()) == u32_at(region, 4));
    assert(region.take(n) =~= region.subrange(0, 4) + region.subrange(4, 8) + region.subrange(
        8,
        12,
    ) + region.subrange(12, 16) + payload);
}

/// A region that the decoder reads as a run of elements is the bytes of that
/// run, and the format can carry each of the elements.
pub proof fn lemma_elements_written_back(region: Seq<u8>)
    requires
        parse_elements(region) is Ok,
    ensures
        elements_bytes(parse_elements(region)->Ok_0) == region,
        forall|i: int|
            0 <= i < parse_elements(region)->Ok_0.len() ==> element_encodable(
                #[trigger] parse_elements(region)->Ok_0[i],
            ),
    decreases region.len(),
{
    let elements = parse_elements(region)->Ok_0;
    if region.len() == 0 {
        assert(elements_bytes(elements) =~= region);
    } else {
        let first = parse_element(region)->Ok_0;
        let n = element_len(region);
        let others = parse_elements(region.skip(n))->Ok_0;
        assert(elements == seq![first] + others);
        lemma_element_written_back(region);
        lemma_elements_written_back(region.skip(n));
        assert(elements.drop_first() =~= others);
        lemma_elements_bytes_front(elements);
        assert(region =~= region.take(n) + region.skip(n));
        assert forall|i: int| 0 <= i < elements.len() implies element_encodable(
            #[trigger] elements[i],
        ) by {
            if i > 0 {
                assert(elements[i] == others[i - 1]);
            }
        }
    }
}

/// A figure payload that the decoder accepts is the payload of the figure it
/// is read as, and the format can carry each of its elements.
pub proof fn lemma_figure_written_back(payload: Seq<u8>)
    requires
        parse_figure(payload) is Ok,
    ensures
        figure_payload(parse_figure(payload)->Ok_0) == payload,
        forall|i: int|
            0 <= i < parse_figure(payload)->Ok_0.contents.len() ==> element_encodable(
                #[trigger] parse_figure(payload)->Ok_0.contents[i],
            ),
{
    lemma_elements_written_back(payload.skip(8));
    lemma_u32_le_of_at(payload, 0);
    lemma_u32_le_of_at(payload, 4);
    assert(payload =~= payload.subrange(0, 4) + payload.subrange(4, 8) + payload.skip(8));
}

/// The record that a buffer is found to begin with is written back as the
/// bytes that the buffer begins with, and the format can carry its
/// instruction.
pub proof fn lemma_record_written_back(buffer: Seq<u8>)
    requires
        record_complete(buffer),
        parse_record(buffer) is Ok,
    ensures
        ast_packet(parse_record(buffer)->Ok_0) == buffer.take(record_len(buffer)),
        ast_encodable(parse_record(buffer)->Ok_0),
{
    let n = record_len(buffer);
    let payload = buffer.subrange(8, n);
    let data_type = u32_at(buffer, 0);
    lemma_u32_le_of_at(buffer, 0);
    lemma_u32_le_of_at(buffer, 4);
    assert(length_field(payload.len()) == u32_at(buffer, 4));
    assert(buffer.take(n) =~= buffer.subrange(0, 4) + buffer.subrange(4, 8) + payload);
    if data_type == TEXT {
        decode_utf8_encode_utf8(payload);
    } else {
        lemma_figure_written_back(payload);
    }
}

/// The records of an instruction followed by more instructions begin with
/// the record of the first.
pub proof fn lemma_asts_packets_front(first: ParsedASTView, others: Seq<ParsedASTView>)
    ensures
        asts_packets(seq![first] + others) == ast_packet(first) + asts_packets(others),
    decreases others.len(),
{
    let all = seq![first] + others;
    if others.len() == 0 {
        assert(all.drop_last() =~= Seq::<ParsedASTView>::empty());
        assert(asts_packets(all.drop_last()) =~= Seq::<u8>::empty());
        assert(asts_packets(all) =~= ast_packet(first) + asts_packets(others));
    } else {
        assert(all.drop_last() =~= seq![first] + others.drop_last());
        assert(all.last() == others.last());
        lemma_asts_packets_front(first, others.drop_last());
        assert(asts_packets(all) =~= ast_packet(first) + asts_packets(others));
    }
}

/// Encoding undoes decoding: the bytes that the decoder took off a buffer
/// are the records of the instructions it gave, so those records followed by
/// what stays buffered are the buffer again; and the format can carry each
/// of the instructions.
pub proof fn lemma_decode_written_back(buffer: Seq<u8>)
    requires
        decode(buffer).result is Ok,
    ensures
        asts_packets(decode(buffer).result->Ok_0) + decode(buffer).rest == buffer,
        forall|i: int|
            0 <= i < decode(buffer).result->Ok_0.len() ==> ast_encodable(
                #[trigger] decode(buffer).result->Ok_0[i],
            ),
    decreases buffer.len(),
{
    let asts = decode(buffer).result->Ok_0;
    if !record_complete(buffer) {
        lemma_decode_unfinished(buffer);
        assert(asts_packets(asts) + buffer =~= buffer);
    } else {
        match parse_record(buffer) {
            Err(e) => {
                lemma_decode_malformed(buffer, e);
            },
            Ok(first) => {
                let n = record_len(buffer);
                let inner = buffer.skip(n);
                lemma_decode_record(buffer, first);
                let others = decode(inner).result->Ok_0;
                assert(asts == seq![first] + others);
                lemma_record_written_back(buffer);
                lemma_decode_written_back(inner);
                lemma_asts_packets_front(first, others);
                assert(buffer =~= buffer.take(n) + inner);
                assert(asts_packets(asts) + decode(buffer).rest =~= buffer.take(n) + (
                asts_packets(others) + decode(inner).rest));
                assert forall|i: int| 0 <= i < asts.len() implies ast_encodable(
                    #[trigger] asts[i],
                ) by {
                    if i > 0 {
                        assert(asts[i] == others[i - 1]);
                    }
                }
            },
        }
    }
}

} // verus!

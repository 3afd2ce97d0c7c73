//! What holds of the codec as a whole: the decoder undoes the encoder, and
//! does not care where the stream was cut.

use vstd::prelude::*;
use vstd::utf8::{encode_utf8, encode_utf8_decode_utf8, encode_utf8_valid_utf8};
use crate::ast::{
    FigureContentsDataView, FigureContentsView, FigureView, ImageView, LineView, ParseError,
    ParsedASTView, Vector2,
};
use crate::format::{
    Decoded, FIGURE, TEXT, after_elements, ast_encodable, ast_packet, asts_packets, decode,
    element_bytes, element_complete, element_encodable, element_len, element_payload, element_type,
    elements_bytes, figure_payload, fits, image_payload, lemma_after_nothing, lemma_after_twice,
    lemma_decode_malformed, lemma_decode_record, lemma_decode_unfinished, length_field,
    line_payload, packet, parse_element, parse_element_data, parse_elements, parse_figure,
    parse_image, parse_line, parse_payload, parse_record, parse_segments, record_complete,
    record_len, segments_bytes,
};
use crate::wire::{
    i32_le, lemma_i32_at_written, lemma_i32_le_len, lemma_u32_at_back, lemma_u32_at_front,
    lemma_u32_at_written, lemma_u32_le_len, lemma_u32_le_read, u32_at, u32_le,
};

verus! {

broadcast use {lemma_u32_le_len, lemma_i32_le_len};

/// A record whose payload fits its length field is whole, is as long as its
/// header and payload, and holds its type and payload where the decoder
/// looks for them, whatever follows it.
pub proof fn lemma_packet_layout(data_type: u32, payload: Seq<u8>, behind: Seq<u8>)
    requires
        fits(payload),
    ensures
        packet(data_type, payload).len() == 8 + payload.len(),
        record_complete(packet(data_type, payload) + behind),
        record_len(packet(data_type, payload) + behind) == 8 + payload.len(),
        parse_record(packet(data_type, payload) + behind) == parse_payload(data_type, payload),
        (packet(data_type, payload) + behind).skip(8 + payload.len() as int) == behind,
{
    let length = length_field(payload.len());
    let record = packet(data_type, payload);
    let buffer = record + behind;
    lemma_u32_le_read(data_type);
    lemma_u32_le_read(length);
    assert(buffer =~= Seq::<u8>::empty() + u32_le(data_type) + (u32_le(length) + payload
        + behind));
    lemma_u32_at_written(Seq::empty(), data_type, u32_le(length) + payload + behind);
    assert(buffer =~= u32_le(data_type) + u32_le(length) + (payload + behind));
    lemma_u32_at_written(u32_le(data_type), length, payload + behind);
    assert(buffer.subrange(8, 8 + payload.len() as int) =~= payload);
    assert(buffer.skip(8 + payload.len() as int) =~= behind);
}

/// The decoder reads a text back from its payload.
pub proof fn lemma_text_round_trip(text: Seq<char>)
    ensures
        parse_payload(TEXT, encode_utf8(text)) == Ok::<_, ParseError>(ParsedASTView::Text(text)),
{
    encode_utf8_valid_utf8(text);
    encode_utf8_decode_utf8(text);
}

/// The points of a line take eight bytes each, and each coordinate is read
/// back where the decoder looks for it.
pub proof fn lemma_segments_layout(segments: Seq<Vector2<u32>>)
    ensures
        segments_bytes(segments).len() == 8 * segments.len(),
        forall|i: int|
            0 <= i < segments.len() ==> {
                &&& #[trigger] u32_at(segments_bytes(segments), 8 * i) == segments[i].x
                &&& u32_at(segments_bytes(segments), 8 * i + 4) == segments[i].y
            },
    decreases segments.len(),
{
    if segments.len() > 0 {
        let front = segments.drop_last();
        let last = segments.last();
        lemma_segments_layout(front);
        let bytes = segments_bytes(segments);
        assert(bytes == segments_bytes(front) + u32_le(last.x) + u32_le(last.y));
        assert forall|i: int| 0 <= i < segments.len() implies {
            &&& #[trigger] u32_at(bytes, 8 * i) == segments[i].x
            &&& u32_at(bytes, 8 * i + 4) == segments[i].y
        } by {
            if i < front.len() {
                assert(bytes =~= segments_bytes(front) + (u32_le(last.x) + u32_le(last.y)));
                lemma_u32_at_front(segments_bytes(front), u32_le(last.x) + u32_le(last.y), 8 * i);
                lemma_u32_at_front(
                    segments_bytes(front),
                    u32_le(last.x) + u32_le(last.y),
                    8 * i + 4,
                );
                assert(front[i] == segments[i]);
            } else {
                lemma_u32_at_written(segments_bytes(front), last.x, u32_le(last.y));
                assert(bytes =~= segments_bytes(front) + u32_le(last.x) + u32_le(last.y)
                    + Seq::<u8>::empty());
                lemma_u32_at_written(segments_bytes(front) + u32_le(last.x), last.y, Seq::empty());
            }
        }
    }
}

/// The decoder reads a line back from its payload.
pub proof fn lemma_line_round_trip(line: LineView)
    ensures
        parse_line(line_payload(line)) == Ok::<_, ParseError>(line),
{
    let head = u32_le(line.color) + u32_le(line.thickness);
    let tail = segments_bytes(line.segments);
    let payload = line_payload(line);
    lemma_segments_layout(line.segments);
    assert(payload =~= Seq::<u8>::empty() + u32_le(line.color) + (u32_le(line.thickness) + tail));
    lemma_u32_at_written(Seq::empty(), line.color, u32_le(line.thickness) + tail);
    lemma_u32_at_written(u32_le(line.color), line.thickness, tail);
    assert(payload == head + tail);
    assert(payload.len() == 8 + 8 * line.segments.len());
    assert forall|i: int| 0 <= i < line.segments.len() implies parse_segments(payload)[i]
        == line.segments[i] by {
        lemma_u32_at_back(head, tail, 8 * i);
        lemma_u32_at_back(head, tail, 8 * i + 4);
    }
    assert(parse_segments(payload) =~= line.segments);
}

/// The decoder reads an image back from its payload, if the image has four
/// bytes for each pixel.
pub proof fn lemma_image_round_trip(image: ImageView)
    requires
        image.well_sized(),
    ensures
        parse_image(image_payload(image)) == Ok::<_, ParseError>(image),
{
    let payload = image_payload(image);
    assert(payload =~= Seq::<u8>::empty() + u32_le(image.width) + (u32_le(image.height)
        + image.pixels));
    lemma_u32_at_written(Seq::empty(), image.width, u32_le(image.height) + image.pixels);
    lemma_u32_at_written(u32_le(image.width), image.height, image.pixels);
    assert(payload.skip(8) =~= image.pixels);
}

/// An image payload is rejected if its pixel bytes are not four for each
/// pixel of the size it declares.
pub proof fn lemma_image_missized(image: ImageView)
    requires
        !image.well_sized(),
    ensures
        parse_image(image_payload(image)) == Err::<ImageView, _>(ParseError::InvalidImage),
{
    let payload = image_payload(image);
    assert(payload =~= Seq::<u8>::empty() + u32_le(image.width) + (u32_le(image.height)
        + image.pixels));
    lemma_u32_at_written(Seq::empty(), image.width, u32_le(image.height) + image.pixels);
    lemma_u32_at_written(u32_le(image.width), image.height, image.pixels);
    assert(payload.skip(8) =~= image.pixels);
}

/// An element whose payload fits its length field is whole, is as long as
/// its header and payload, and holds its type, position and payload where the
/// decoder looks for them, whatever follows it.
pub proof fn lemma_element_layout(element: FigureContentsView, behind: Seq<u8>)
    requires
        fits(element_payload(element.data)),
    ensures
        element_bytes(element).len() == 16 + element_payload(element.data).len(),
        element_complete(element_bytes(element) + behind),
        element_len(element_bytes(element) + behind) == element_bytes(element).len(),
        parse_element(element_bytes(element) + behind) == match parse_element_data(
            element_type(element.data),
            element_payload(element.data),
        ) {
            Ok(data) => Ok(FigureContentsView { data, position: element.position }),
            Err(e) => Err(e),
        },
        (element_bytes(element) + behind).skip(element_bytes(element).len() as int) == behind,
{
    let kind = element_type(element.data);
    let payload = element_payload(element.data);
    let length = length_field(payload.len());
    let x = element.position.x;
    let y = element.position.y;
    let region = element_bytes(element) + behind;
    assert(region =~= Seq::<u8>::empty() + u32_le(kind) + (u32_le(length) + i32_le(x) + i32_le(y)
        + payload + behind));
    lemma_u32_at_written(
        Seq::empty(),
        kind,
        u32_le(length) + i32_le(x) + i32_le(y) + payload + behind,
    );
    assert(region =~= u32_le(kind) + u32_le(length) + (i32_le(x) + i32_le(y) + payload + behind));
    lemma_u32_at_written(u32_le(kind), length, i32_le(x) + i32_le(y) + payload + behind);
    assert(region =~= u32_le(kind) + u32_le(length) + i32_le(x) + (i32_le(y) + payload + behind));
    lemma_i32_at_written(u32_le(kind) + u32_le(length), x, i32_le(y) + payload + behind);
    assert(region =~= u32_le(kind) + u32_le(length) + i32_le(x) + i32_le(y) + (payload + behind));
    lemma_i32_at_written(u32_le(kind) + u32_le(length) + i32_le(x), y, payload + behind);
    assert(region.subrange(16, 16 + payload.len() as int) =~= payload);
    assert(region.skip(16 + payload.len() as int) =~= behind);
}

/// The decoder reads an element back from its bytes, whatever follows them.
pub proof fn lemma_element_round_trip(element: FigureContentsView, behind: Seq<u8>)
    requires
        element_encodable(element),
    ensures
        parse_element(element_bytes(element) + behind) == Ok::<_, ParseError>(element),
{
    lemma_element_layout(element, behind);
    match element.data {
        FigureContentsDataView::Image(image) => {
            lemma_image_round_trip(image);
        },
        FigureContentsDataView::Line(line) => {
            lemma_line_round_trip(line);
        },
    }
}

/// The bytes of two runs of elements, joined, are the bytes of the joined
/// runs.
pub proof fn lemma_elements_bytes_joined(
    first: Seq<FigureContentsView>,
    second: Seq<FigureContentsView>,
)
    ensures
        elements_bytes(first + second) == elements_bytes(first) + elements_bytes(second),
    decreases second.len(),
{
    if second.len() == 0 {
        assert(first + second =~= first);
        assert(elements_bytes(first) + elements_bytes(second) =~= elements_bytes(first));
    } else {
        let whole = first + second;
        assert(whole.drop_last() =~= first + second.drop_last());
        assert(whole.last() == second.last());
        lemma_elements_bytes_joined(first, second.drop_last());
        assert(elements_bytes(first) + elements_bytes(second.drop_last()) + element_bytes(
            second.last(),
        ) =~= elements_bytes(first) + (elements_bytes(second.drop_last()) + element_bytes(
            second.last(),
        )));
    }
}

/// The bytes of a run of elements begin with the bytes of its first element.
pub proof fn lemma_elements_bytes_front(elements: Seq<FigureContentsView>)
    requires
        elements.len() > 0,
    ensures
        elements_bytes(elements) == element_bytes(elements[0]) + elements_bytes(
            elements.drop_first(),
        ),
{
    let first = elements[0];
    let single = seq![first];
    assert(elements =~= single + elements.drop_first());
    lemma_elements_bytes_joined(single, elements.drop_first());
    assert(single.drop_last() =~= Seq::<FigureContentsView>::empty());
    assert(elements_bytes(single.drop_last()) =~= Seq::<u8>::empty());
    assert(single.last() == first);
    assert(elements_bytes(single) =~= element_bytes(first));
}

/// The decoder reads an element back from its bytes, and goes on with what
/// follows them.
pub proof fn lemma_element_then(element: FigureContentsView, behind: Seq<u8>)
    requires
        element_encodable(element),
    ensures
        parse_elements(element_bytes(element) + behind) == after_elements(
            seq![element],
            parse_elements(behind),
        ),
{
    lemma_element_layout(element, behind);
    lemma_element_round_trip(element, behind);
}

/// The decoder reads a run of elements back from its bytes, and goes on with
/// what follows them.
pub proof fn lemma_elements_then(elements: Seq<FigureContentsView>, behind: Seq<u8>)
    requires
        forall|i: int| 0 <= i < elements.len() ==> element_encodable(#[trigger] elements[i]),
    ensures
        parse_elements(elements_bytes(elements) + behind) == after_elements(
            elements,
            parse_elements(behind),
        ),
    decreases elements.len(),
{
    if elements.len() == 0 {
        assert(elements_bytes(elements) + behind =~= behind);
        if let Ok(rest) = parse_elements(behind) {
            assert(elements + rest =~= rest);
        }
    } else {
        let first = elements[0];
        let others = elements.drop_first();
        let tail = elements_bytes(others) + behind;
        assert(element_encodable(first));
        assert forall|i: int| 0 <= i < others.len() implies element_encodable(
            #[trigger] others[i],
        ) by {
            assert(others[i] == elements[i + 1]);
        }
        lemma_elements_then(others, behind);
        lemma_element_then(first, tail);
        assert(elements_bytes(elements) + behind =~= element_bytes(first) + tail) by {
            lemma_elements_bytes_front(elements);
        }
        if let Ok(rest) = parse_elements(behind) {
            assert(seq![first] + (others + rest) =~= elements + rest);
        }
    }
}

/// The decoder reads the elements of a figure back from their bytes.
pub proof fn lemma_elements_round_trip(elements: Seq<FigureContentsView>)
    requires
        forall|i: int| 0 <= i < elements.len() ==> element_encodable(#[trigger] elements[i]),
    ensures
        parse_elements(elements_bytes(elements)) == Ok::<_, ParseError>(elements),
{
    lemma_elements_then(elements, Seq::empty());
    assert(elements_bytes(elements) + Seq::<u8>::empty() =~= elements_bytes(elements));
    assert(elements + Seq::<FigureContentsView>::empty() =~= elements);
}

/// The decoder reads a figure back from its payload.
pub proof fn lemma_figure_round_trip(figure: FigureView)
    requires
        forall|i: int|
            0 <= i < figure.contents.len() ==> element_encodable(#[trigger] figure.contents[i]),
    ensures
        parse_figure(figure_payload(figure)) == Ok::<_, ParseError>(figure),
{
    let payload = figure_payload(figure);
    let body = elements_bytes(figure.contents);
    assert(payload =~= Seq::<u8>::empty() + u32_le(figure.dimensions.x) + (u32_le(
        figure.dimensions.y,
    ) + body));
    lemma_u32_at_written(Seq::empty(), figure.dimensions.x, u32_le(figure.dimensions.y) + body);
    lemma_u32_at_written(u32_le(figure.dimensions.x), figure.dimensions.y, body);
    assert(payload.skip(8) =~= body);
    lemma_elements_round_trip(figure.contents);
}

/// The decoder reads an instruction back from the payload of its record.
pub proof fn lemma_payload_round_trip(ast: ParsedASTView)
    requires
        ast_encodable(ast),
    ensures
        match ast {
            ParsedASTView::Text(text) => parse_payload(TEXT, encode_utf8(text)),
            ParsedASTView::Figure(figure) => parse_payload(FIGURE, figure_payload(figure)),
        } == Ok::<_, ParseError>(ast),
{
    match ast {
        ParsedASTView::Text(text) => {
            lemma_text_round_trip(text);
        },
        ParsedASTView::Figure(figure) => {
            lemma_figure_round_trip(figure);
        },
    }
}

/// Decoding the record of an instruction, and whatever follows it, gives the
/// instruction and then what decoding the rest gives.
pub proof fn lemma_decode_packet_then(ast: ParsedASTView, behind: Seq<u8>)
    requires
        ast_encodable(ast),
    ensures
        decode(ast_packet(ast) + behind) == decode(behind).after(seq![ast]),
{
    lemma_payload_round_trip(ast);
    match ast {
        ParsedASTView::Text(text) => {
            lemma_packet_layout(TEXT, encode_utf8(text), behind);
        },
        ParsedASTView::Figure(figure) => {
            lemma_packet_layout(FIGURE, figure_payload(figure), behind);
        },
    }
    lemma_decode_record(ast_packet(ast) + behind, ast);
}

/// Decoding undoes encoding: the record of an instruction that the format can
/// carry decodes to that instruction alone, and nothing stays buffered.
pub proof fn lemma_round_trip(ast: ParsedASTView)
    requires
        ast_encodable(ast),
    ensures
        decode(ast_packet(ast)) == (Decoded { result: Ok(seq![ast]), rest: Seq::empty() }),
{
    lemma_decode_packet_then(ast, Seq::empty());
    lemma_decode_unfinished(Seq::empty());
    assert(ast_packet(ast) + Seq::<u8>::empty() =~= ast_packet(ast));
    assert(seq![ast] + Seq::<ParsedASTView>::empty() =~= seq![ast]);
}

/// A whole record at the front of a buffer is read the same whatever is
/// added behind the buffer.
pub proof fn lemma_record_unchanged(buffer: Seq<u8>, more: Seq<u8>)
    requires
        record_complete(buffer),
    ensures
        record_complete(buffer + more),
        record_len(buffer + more) == record_len(buffer),
        parse_record(buffer + more) == parse_record(buffer),
        (buffer + more).skip(record_len(buffer)) == buffer.skip(record_len(buffer)) + more,
{
    let whole = buffer + more;
    lemma_u32_at_front(buffer, more, 0);
    lemma_u32_at_front(buffer, more, 4);
    assert(whole.subrange(8, record_len(buffer)) =~= buffer.subrange(8, record_len(buffer)));
    assert(whole.skip(record_len(buffer)) =~= buffer.skip(record_len(buffer)) + more);
}

/// The decoder does not care where the stream is cut. Decoding `first`, then
/// decoding what that left buffered together with `second`, gives in all what
/// decoding `first + second` at once gives: the same instructions in the same
/// order and the same bytes left over, or the same error.
pub proof fn lemma_decode_split(first: Seq<u8>, second: Seq<u8>)
    ensures
        decode(first + second) == match decode(first).result {
            Ok(asts) => decode(decode(first).rest + second).after(asts),
            Err(e) => Decoded { result: Err(e), rest: decode(first).rest + second },
        },
    decreases first.len(),
{
    let whole = first + second;
    if !record_complete(first) {
        lemma_decode_unfinished(first);
        lemma_after_nothing(decode(whole));
    } else {
        lemma_record_unchanged(first, second);
        let n = record_len(first);
        match parse_record(first) {
            Err(e) => {
                lemma_decode_malformed(first, e);
                lemma_decode_malformed(whole, e);
            },
            Ok(ast) => {
                let inner = first.skip(n);
                lemma_decode_record(first, ast);
                lemma_decode_record(whole, ast);
                lemma_decode_split(inner, second);
                match decode(inner).result {
                    Ok(asts) => {
                        lemma_after_twice(decode(decode(inner).rest + second), seq![ast], asts);
                    },
                    Err(e) => {},
                }
            },
        }
    }
}

/// What decoding leaves buffered holds no whole well-formed record at its
/// front: decoding it again gives no instruction and leaves it as it is, or
/// gives the same error again.
pub proof fn lemma_decode_rest(buffer: Seq<u8>)
    ensures
        decode(decode(buffer).rest) == (Decoded {
            result: match decode(buffer).result {
                Ok(_) => Ok(Seq::empty()),
                Err(e) => Err(e),
            },
            rest: decode(buffer).rest,
        }),
    decreases buffer.len(),
{
    if record_complete(buffer) {
        match parse_record(buffer) {
            Ok(ast) => {
                lemma_decode_record(buffer, ast);
                lemma_decode_rest(buffer.skip(record_len(buffer)));
            },
            Err(e) => {
                lemma_decode_malformed(buffer, e);
            },
        }
    } else {
        lemma_decode_unfinished(buffer);
    }
}

/// Decoding takes whole records off the front and nothing else: what stays
/// buffered is the end of the buffer, and unless a record was malformed it
/// does not begin with a whole record.
pub proof fn lemma_decode_keeps_tail(buffer: Seq<u8>)
    ensures
        decode(buffer).rest.len() <= buffer.len(),
        decode(buffer).rest == buffer.skip(buffer.len() - decode(buffer).rest.len()),
        decode(buffer).result is Ok ==> !record_complete(decode(buffer).rest),
    decreases buffer.len(),
{
    if record_complete(buffer) {
        match parse_record(buffer) {
            Ok(ast) => {
                let n = record_len(buffer);
                let inner = buffer.skip(n);
                lemma_decode_record(buffer, ast);
                lemma_decode_keeps_tail(inner);
                let kept = decode(inner).rest;
                assert(inner.skip(inner.len() - kept.len()) =~= buffer.skip(
                    buffer.len() - kept.len(),
                ));
            },
            Err(e) => {
                lemma_decode_malformed(buffer, e);
                assert(buffer.skip(0) =~= buffer);
            },
        }
    } else {
        lemma_decode_unfinished(buffer);
        assert(buffer.skip(0) =~= buffer);
    }
}

/// A decoder that has met a malformed record gives the same error whatever
/// arrives afterwards.
pub proof fn lemma_error_stays(buffer: Seq<u8>, more: Seq<u8>)
    requires
        decode(buffer).result is Err,
    ensures
        decode(decode(buffer).rest + more).result == decode(buffer).result,
{
    lemma_decode_rest(buffer);
    lemma_decode_split(decode(buffer).rest, more);
}

/// Two chunks fed one after the other give in all what the two give when fed
/// as one, whatever the decoder had buffered before: after a first call
/// without error, the second call adds what is missing and leaves the same
/// bytes buffered; after an error, both the second call and the single call
/// give that error.
pub proof fn lemma_feed_in_two(buffered: Seq<u8>, first: Seq<u8>, second: Seq<u8>)
    ensures
        match decode(buffered + first).result {
            Ok(asts) => decode(buffered + (first + second)) == decode(
                decode(buffered + first).rest + second,
            ).after(asts),
            Err(e) => {
                &&& decode(buffered + (first + second)).result == Err::<Seq<ParsedASTView>, _>(e)
                &&& decode(decode(buffered + first).rest + second).result == Err::<
                    Seq<ParsedASTView>,
                    _,
                >(e)
            },
        },
{
    assert(buffered + (first + second) =~= (buffered + first) + second);
    lemma_decode_split(buffered + first, second);
    if decode(buffered + first).result is Err {
        lemma_error_stays(buffered + first, second);
    }
}

/// A record of which only a part has arrived gives no instruction and no
/// error, and all of the part stays buffered.
pub proof fn lemma_partial_packet_waits(data_type: u32, payload: Seq<u8>, cut: int)
    requires
        fits(payload),
        0 <= cut < packet(data_type, payload).len(),
    ensures
        decode(packet(data_type, payload).take(cut)) == (Decoded {
            result: Ok(Seq::empty()),
            rest: packet(data_type, payload).take(cut),
        }),
{
    let record = packet(data_type, payload);
    let part = record.take(cut);
    lemma_packet_layout(data_type, payload, Seq::empty());
    assert(record + Seq::<u8>::empty() =~= record);
    if cut >= 8 {
        assert(record =~= part + record.skip(cut));
        lemma_u32_at_front(part, record.skip(cut), 4);
    }
    lemma_decode_unfinished(part);
}

/// A record cut in two at any place and fed in two calls gives what it gives
/// when fed whole: the first call fails on nothing, the two calls together
/// give the instruction once, and nothing stays buffered.
pub proof fn lemma_packet_in_two(ast: ParsedASTView, cut: int)
    requires
        ast_encodable(ast),
        0 <= cut <= ast_packet(ast).len(),
    ensures
        ({
            let first = decode(ast_packet(ast).take(cut));
            let second = decode(first.rest + ast_packet(ast).skip(cut));
            &&& first.result is Ok
            &&& second.result is Ok
            &&& first.result->Ok_0 + second.result->Ok_0 == seq![ast]
            &&& second.rest == Seq::<u8>::empty()
        }),
{
    let record = ast_packet(ast);
    assert(record.take(cut) + record.skip(cut) =~= record);
    lemma_round_trip(ast);
    lemma_decode_split(record.take(cut), record.skip(cut));
}

/// One more record behind records that decode to `front` and leave nothing
/// buffered gives one more instruction behind `front`.
pub proof fn lemma_decode_one_more(head: Seq<u8>, front: Seq<ParsedASTView>, last: ParsedASTView)
    requires
        decode(head) == (Decoded { result: Ok(front), rest: Seq::empty() }),
        ast_encodable(last),
    ensures
        decode(head + ast_packet(last)) == (Decoded {
            result: Ok(front.push(last)),
            rest: Seq::empty(),
        }),
{
    let tail = ast_packet(last);
    lemma_round_trip(last);
    lemma_decode_split(head, tail);
    assert(Seq::<u8>::empty() + tail =~= tail);
    assert(front + seq![last] =~= front.push(last));
}

/// The records of several instructions, one after the other, decode to those
/// instructions in order, and nothing stays buffered.
pub proof fn lemma_decode_packets(asts: Seq<ParsedASTView>)
    requires
        forall|i: int| 0 <= i < asts.len() ==> ast_encodable(#[trigger] asts[i]),
    ensures
        decode(asts_packets(asts)) == (Decoded { result: Ok(asts), rest: Seq::empty() }),
    decreases asts.len(),
{
    if asts.len() == 0 {
        lemma_decode_unfinished(asts_packets(asts));
        assert(asts =~= Seq::empty());
    } else {
        let front = asts.drop_last();
        let last = asts.last();
        assert(ast_encodable(last));
        assert forall|i: int| 0 <= i < front.len() implies ast_encodable(#[trigger] front[i]) by {
            assert(front[i] == asts[i]);
        }
        lemma_decode_packets(front);
        lemma_decode_one_more(asts_packets(front), front, last);
        assert(front.push(last) =~= asts);
    }
}

/// A figure record is rejected as a whole if one of its images has not four
/// bytes for each pixel of the size it declares: whatever elements come
/// before the image, whatever bytes follow it in the figure, and whatever
/// follows the record, the outcome is the error and no instruction.
pub proof fn lemma_missized_image_rejected(
    dimensions: Vector2<u32>,
    before: Seq<FigureContentsView>,
    image: ImageView,
    position: Vector2<i32>,
    behind: Seq<u8>,
    more: Seq<u8>,
)
    requires
        forall|i: int| 0 <= i < before.len() ==> element_encodable(#[trigger] before[i]),
        !image.well_sized(),
        fits(image_payload(image)),
        fits(
            u32_le(dimensions.x) + u32_le(dimensions.y) + elements_bytes(before) + element_bytes(
                FigureContentsView { data: FigureContentsDataView::Image(image), position },
            ) + behind,
        ),
    ensures
        decode(
            packet(
                FIGURE,
                u32_le(dimensions.x) + u32_le(dimensions.y) + elements_bytes(before)
                    + element_bytes(
                    FigureContentsView { data: FigureContentsDataView::Image(image), position },
                ) + behind,
            ) + more,
        ).result == Err::<Seq<ParsedASTView>, _>(ParseError::InvalidImage),
{
    let bad = FigureContentsView { data: FigureContentsDataView::Image(image), position };
    let payload = u32_le(dimensions.x) + u32_le(dimensions.y) + elements_bytes(before)
        + element_bytes(bad) + behind;
    let region = element_bytes(bad) + behind;
    assert(parse_element(region) == Err::<FigureContentsView, _>(ParseError::InvalidImage)) by {
        lemma_element_layout(bad, behind);
        lemma_image_missized(image);
    }
    assert(region.len() > 0) by {
        lemma_element_layout(bad, behind);
    }
    assert(parse_elements(region) == Err::<Seq<FigureContentsView>, _>(ParseError::InvalidImage));
    lemma_elements_then(before, region);
    assert(payload.skip(8) =~= elements_bytes(before) + region);
    assert(parse_figure(payload) == Err::<FigureView, _>(ParseError::InvalidImage));
    lemma_packet_layout(FIGURE, payload, more);
    lemma_decode_malformed(packet(FIGURE, payload) + more, ParseError::InvalidImage);
}

} // verus!

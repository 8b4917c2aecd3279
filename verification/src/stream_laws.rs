//! What holds of columns of texts in Arrow memory: which bytes make the text of a row.
use vstd::prelude::*;
use vstd::utf8::*;
use vstd::arithmetic::power2::*;
use crate::raw_arrow::{CArrowArray, CArrowArrayStream, TextLayout};

verus! {

/// Four bytes stand for a signed integer, the lowest byte first.
pub proof fn law_integers_of_four_bytes(b: Seq<u8>, at: int)
    ensures
        ({
            let u = b[at] + 0x100 * b[at + 1] + 0x1_0000 * b[at + 2] + 0x100_0000 * b[at + 3];
            crate::raw_arrow::le_i32(b, at) == (if b[at + 3] < 0x80 {
                u
            } else {
                u - 0x1_0000_0000
            })
        }),
{
    reveal_with_fuel(crate::raw_arrow::le_unsigned, 5);
}

/// Eight bytes stand for a signed integer, the lower four first.
pub proof fn law_integers_of_eight_bytes(b: Seq<u8>, at: int)
    ensures
        ({
            let low = b[at] + 0x100 * b[at + 1] + 0x1_0000 * b[at + 2] + 0x100_0000 * b[at + 3];
            let high = b[at + 4] + 0x100 * b[at + 5] + 0x1_0000 * b[at + 6] + 0x100_0000 * b[at + 7];
            crate::raw_arrow::le_i64(b, at) == low + 0x1_0000_0000 * (if b[at + 7] < 0x80 {
                high
            } else {
                high - 0x1_0000_0000
            })
        }),
{
    reveal_with_fuel(crate::raw_arrow::le_unsigned, 9);
}

/// A row is null exactly where there are nulls at all, there is a first buffer, and the bit of the row
/// in it, eight to a byte and the lowest first, is not set.
pub proof fn law_nulls(arr: CArrowArray, i: int)
    requires
        0 <= i,
        0 <= arr.offset,
    ensures
        ({
            let at = arr.offset + i;
            arr.null(i) <==> arr.null_count != 0 && arr.buffers@.len() > 0 && (
            arr.buffers@[0] matches Some(bits) && (bits@[at / 8] as int / pow2((at % 8) as nat)
                as int) % 2 == 0)
        }),
{
    let at = arr.offset + i;
    if arr.buffers@.len() > 0 {
        if let Some(bits) = arr.buffers@[0] {
            let byte = bits@[at / 8];
            let k = (at % 8) as u8;
            assert((byte & (1u8 << k) != 0) == ((byte >> k) % 2 == 1)) by (bit_vector)
                requires
                    k < 8,
            ;
            vstd::bits::lemma_u8_shr_is_div(byte, k);
        }
    }
}

/// There is a text or a null for each row, in order, and none where there are no buffers of texts.
pub proof fn law_rows_of_a_batch(arr: CArrowArray, layout: TextLayout)
    requires
        arr.length >= 0,
    ensures
        arr.texts(layout).len() == (if arr.buffers@.len() >= 3 {
            arr.length as int
        } else {
            0
        }),
        forall|i: int|
            0 <= i < arr.texts(layout).len() && arr.null(i) ==> #[trigger] arr.texts(layout)[i]
                is None,
        layout != TextLayout::View ==> forall|i: int|
            0 <= i < arr.texts(layout).len() && !arr.null(i) ==> #[trigger] arr.texts(layout)[i]
                is Some,
{
}

/// Where the bytes between the offset of a row and that of the next are the UTF-8 of a text, the row
/// has that text. The offsets stand one after the other in the second buffer, the texts in the third.
pub proof fn law_offset_rows(arr: CArrowArray, i: int, text: Seq<char>)
    requires
        arr.buffers@.len() >= 3,
        0 <= i < arr.length,
        !arr.null(i),
    ensures
        ({
            let from = crate::raw_arrow::le_i32(arr.bytes(1), 4 * (arr.offset + i));
            let to = crate::raw_arrow::le_i32(arr.bytes(1), 4 * (arr.offset + i + 1));
            arr.bytes(2).subrange(from, to) == encode_utf8(text) ==> arr.texts(TextLayout::Utf8)[i]
                == Some(text)
        }),
        ({
            let from = crate::raw_arrow::le_i64(arr.bytes(1), 8 * (arr.offset + i));
            let to = crate::raw_arrow::le_i64(arr.bytes(1), 8 * (arr.offset + i + 1));
            arr.bytes(2).subrange(from, to) == encode_utf8(text) ==> arr.texts(
                TextLayout::LargeUtf8,
            )[i] == Some(text)
        }),
{
    crate::raw_arrow::law_text_is_kept(text);
    assert(4 * (arr.offset + (i + 1)) == 4 * (arr.offset + i + 1));
    assert(8 * (arr.offset + (i + 1)) == 8 * (arr.offset + i + 1));
}

/// A view has sixteen bytes: the length of the text, and up to twelve bytes of it; or else, from the
/// ninth byte on, the number of the data buffer that holds it and the place there.
pub proof fn law_view_rows(arr: CArrowArray, i: int, text: Seq<char>)
    requires
        arr.buffers@.len() >= 3,
        0 <= i < arr.length,
        !arr.null(i),
    ensures
        ({
            let views = arr.bytes(1);
            let at = 16 * (arr.offset + i);
            let length = crate::raw_arrow::le_i32(views, at);
            let buffer = crate::raw_arrow::le_i32(views, at + 8);
            let from = crate::raw_arrow::le_i32(views, at + 12);
            &&& length <= 12 && views.subrange(at + 4, at + 4 + length) == encode_utf8(text)
                ==> arr.texts(TextLayout::View)[i] == Some(text)
            &&& length > 12 && 0 <= buffer && 2 + buffer < arr.buffers@.len() - 1 && arr.bytes(
                2 + buffer,
            ).subrange(from, from + length) == encode_utf8(text) ==> arr.texts(TextLayout::View)[i]
                == Some(text)
            &&& length > 12 && !(0 <= buffer && 2 + buffer < arr.buffers@.len() - 1) ==> arr.texts(
                TextLayout::View,
            )[i] is None
        }),
{
    crate::raw_arrow::law_text_is_kept(text);
}

/// The formats that are read: views, and texts behind offsets of 32 and of 64 bits.
pub proof fn law_formats(format: Seq<char>)
    ensures
        crate::raw_arrow::layout_of(format) == Some(TextLayout::View) <==> format == seq!['v', 'u'],
        crate::raw_arrow::layout_of(format) == Some(TextLayout::Utf8) <==> format == seq!['u'],
        crate::raw_arrow::layout_of(format) == Some(TextLayout::LargeUtf8) <==> format == seq!['U'],
{
    reveal_strlit("vu");
    reveal_strlit("u");
    reveal_strlit("U");
    assert("vu"@ =~= seq!['v', 'u']);
    assert("u"@ =~= seq!['u']);
    assert("U"@ =~= seq!['U']);
    assert(seq!['u'][0] != seq!['U'][0]);
    assert(seq!['v', 'u'].len() == 2);
}

/// A stream gives the texts of all its batches, one after the other. It gives none without its
/// callbacks, without a schema, with a format of no texts, and where it ended in an error.
pub proof fn law_streams(stream: CArrowArrayStream)
    ensures
        match stream.texts() {
            Some(texts) => {
                &&& stream.get_schema && stream.get_next
                &&& stream.schema_status == 0 && stream.last_status == 0
                &&& stream.schema.format matches Some(f) && (
                crate::raw_arrow::layout_of(f@) matches Some(layout) && texts
                    == crate::raw_arrow::batch_texts(stream.batches@, layout))
            },
            None => {
                ||| !stream.get_schema || !stream.get_next
                ||| stream.schema_status != 0 || stream.last_status != 0
                ||| match stream.schema.format {
                    Some(f) => crate::raw_arrow::layout_of(f@) is None,
                    None => true,
                }
            },
        },
        stream.format() is Some <==> stream.get_schema && stream.get_next && stream.schema_status
            == 0 && stream.schema.format is Some,
        stream.layout() matches Some(layout) ==> (stream.schema.format matches Some(f)
            && crate::raw_arrow::layout_of(f@) == Some(layout)),
{
}

/// The texts of one batch are its own.
pub proof fn law_single_batch(batch: CArrowArray, layout: TextLayout)
    ensures
        crate::raw_arrow::batch_texts(seq![batch], layout) == batch.texts(layout),
        crate::raw_arrow::batch_texts(Seq::empty(), layout) == Seq::<Option<Seq<char>>>::empty(),
{
    let one = seq![batch];
    assert(one.drop_last() =~= Seq::empty());
    assert(one.last() == batch);
    assert(crate::raw_arrow::batch_texts(one.drop_last(), layout) =~= Seq::empty());
    assert(crate::raw_arrow::batch_texts(one, layout) =~= batch.texts(layout));
}

/// An array with offsets can be read where it has an offset more than rows, from its first row on, they
/// ascend, and they end within the bytes of the texts. Null rows may have any offsets, as long as there
/// is a bit for each row that says which are null.
pub proof fn law_arrays_with_offsets_are_read(arr: CArrowArray, large: bool)
    requires
        arr.length >= 0,
        arr.offset >= 0,
        arr.offset + arr.length <= i64::MAX,
        arr.buffers@.len() >= 3,
        arr.null_count == 0 || arr.buffers@[0] is None || arr.offset + arr.length <= 8
            * arr.bytes(0).len(),
        arr.bytes(1).len() >= (if large {
            8
        } else {
            4int
        }) * (arr.offset + arr.length + 1),
        forall|i: int|
            0 <= i < arr.length && !arr.null(i) ==> 0 <= #[trigger] arr.offset_of(i, large)
                <= arr.offset_of(i + 1, large) <= arr.bytes(2).len(),
    ensures
        arr.laid_out(
            if large {
                TextLayout::LargeUtf8
            } else {
                TextLayout::Utf8
            },
        ),
{
    assert forall|i: int| 0 <= i < arr.length implies #[trigger] arr.offsets_in_bounds(i, large) by {
        if !arr.null(i) {
            assert(0 <= arr.offset_of(i, large));
        }
    }
}

/// The offset of a row stands in the second buffer, in 4 bytes or in 8, as far on as the rows before it
/// and those that the array leaves out.
pub proof fn law_where_offsets_stand(arr: CArrowArray, i: int)
    ensures
        arr.offset_of(i, false) == crate::raw_arrow::le_i32(arr.bytes(1), 4 * (arr.offset + i)),
        arr.offset_of(i, true) == crate::raw_arrow::le_i64(arr.bytes(1), 8 * (arr.offset + i)),
        0 <= i < arr.buffers@.len() ==> arr.bytes(i) == (match arr.buffers@[i] {
            Some(b) => b@,
            None => Seq::empty(),
        }),
{
}

/// An array of views can be read where it has sixteen bytes for each row, from its first row on, and the
/// texts that are longer than twelve bytes lie within their data buffers.
pub proof fn law_arrays_of_views_are_read(arr: CArrowArray)
    requires
        arr.length >= 0,
        arr.offset >= 0,
        arr.offset + arr.length <= i64::MAX,
        arr.buffers@.len() >= 3,
        arr.null_count == 0 || arr.buffers@[0] is None || arr.offset + arr.length <= 8
            * arr.bytes(0).len(),
        arr.bytes(1).len() >= 16 * (arr.offset + arr.length),
        forall|i: int|
            0 <= i < arr.length && !arr.null(i) ==> #[trigger] arr.view_length(i) >= 0 && (
            arr.view_length(i) > 12 ==> 0 <= arr.view_buffer(i) < arr.buffers@.len() - 3 && 0
                <= arr.view_offset(i) && arr.view_offset(i) + arr.view_length(i) <= arr.bytes(
                2 + arr.view_buffer(i),
            ).len()),
    ensures
        arr.laid_out(TextLayout::View),
{
    assert forall|i: int| 0 <= i < arr.length implies #[trigger] arr.view_in_bounds(i) by {
        if !arr.null(i) {
            assert(arr.view_length(i) >= 0);
        }
    }
}

}

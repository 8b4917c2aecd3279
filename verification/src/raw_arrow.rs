//! Columns of text in the memory layouts of the Arrow C data and stream interfaces: texts behind
//! offsets of 32 or 64 bits, and views, which hold short texts themselves.
use vstd::prelude::*;
use vstd::slice::slice_subrange;
use vstd::string::*;
use vstd::utf8::*;
use crate::text::texts_equal;

verus! {

/// The description of a column, as far as it is read: its format, unless the producer left it out.
pub struct CArrowSchema {
    pub format: Option<String>,
}

/// A batch of rows. A buffer that the producer left out is none; the others hold at least the bytes
/// that the rows refer to.
pub struct CArrowArray {
    pub length: i64,
    pub null_count: i64,
    pub offset: i64,
    pub buffers: Vec<Option<Vec<u8>>>,
}

/// What came out of a stream: which of its callbacks are there, the description of its column with
/// the status of the call that gave it, and the batches up to the call that gave none, with its
/// status, which is 0 at the end of the stream.
pub struct CArrowArrayStream {
    pub get_schema: bool,
    pub get_next: bool,
    pub schema_status: i32,
    pub schema: CArrowSchema,
    pub batches: Vec<CArrowArray>,
    pub last_status: i32,
}

/// A column of texts, some of them missing.
pub struct ParsedTextColumn {
    pub values: Vec<Option<String>>,
}

/// What was read from a stream: the column, unless there is none to be had, and whether the stream is
/// to be released now.
pub struct StreamReading {
    pub column: Option<ParsedTextColumn>,
    pub release: bool,
}

/// The layouts of texts.
#[derive(Clone, Copy, Debug, PartialEq, Eq, Structural)]
pub enum TextLayout {
    /// Format `vu`: a view for each row.
    View,
    /// Format `u`: offsets of 32 bits.
    Utf8,
    /// Format `U`: offsets of 64 bits.
    LargeUtf8,
}

/// What `String::from_utf8_lossy` makes of bytes that are not UTF-8.
pub uninterp spec fn repaired_utf8(bytes: Seq<u8>) -> Seq<char>;

/// The text that bytes hold: decoded where they are UTF-8, repaired where they are not.
pub open spec fn lossy_text(bytes: Seq<u8>) -> Seq<char> {
    if valid_utf8(bytes) {
        decode_utf8(bytes)
    } else {
        repaired_utf8(bytes)
    }
}

/// Calls `String::from_utf8_lossy`, which decodes UTF-8, and puts a replacement character for what
/// is not UTF-8.
#[verifier::external_body]
fn from_utf8_lossy(bytes: &[u8]) -> (r: String)
    ensures
        valid_utf8(bytes@) ==> r@ == decode_utf8(bytes@),
        !valid_utf8(bytes@) ==> r@ == repaired_utf8(bytes@),
{
    String::from_utf8_lossy(bytes).into_owned()
}

/// The bytes of a buffer.
pub open spec fn buffer_bytes(buffer: Option<Vec<u8>>) -> Seq<u8> {
    match buffer {
        Some(b) => b@,
        None => Seq::empty(),
    }
}

/// The unsigned integer that `width` bytes stand for, the lowest first.
pub open spec fn le_unsigned(bytes: Seq<u8>, at: int, width: nat) -> int
    decreases width,
{
    if width == 0 {
        0
    } else {
        bytes[at] + 256 * le_unsigned(bytes, at + 1, (width - 1) as nat)
    }
}

/// The signed integer of 4 bytes.
pub open spec fn le_i32(bytes: Seq<u8>, at: int) -> int {
    let u = le_unsigned(bytes, at, 4);
    if u < 0x8000_0000 {
        u
    } else {
        u - 0x1_0000_0000
    }
}

/// The signed integer of 8 bytes.
pub open spec fn le_i64(bytes: Seq<u8>, at: int) -> int {
    let u = le_unsigned(bytes, at, 8);
    if u < 0x8000_0000_0000_0000 {
        u
    } else {
        u - 0x1_0000_0000_0000_0000
    }
}

/// Whether a bit of a byte is set, counted from the lowest.
pub open spec fn bit_set(byte: u8, k: u8) -> bool {
    byte & (1u8 << k) != 0
}

/// Whether the row `at` is null, by the first buffer, which has a bit for each row that is not.
/// Without nulls or without that buffer none is.
pub open spec fn null_at(buffers: Seq<Option<Vec<u8>>>, at: int, null_count: int) -> bool {
    &&& null_count != 0
    &&& buffers.len() > 0
    &&& buffers[0] is Some
    &&& !bit_set(buffer_bytes(buffers[0])[at / 8], (at % 8) as u8)
}

/// Whether there is a bit for the row `at`, where one is looked at.
pub open spec fn has_validity(buffers: Seq<Option<Vec<u8>>>, at: int, null_count: int) -> bool {
    null_count == 0 || buffers.len() == 0 || buffers[0] is None || at / 8 < buffer_bytes(
        buffers[0],
    ).len()
}

impl CArrowArray {
    /// Whether a row is null.
    pub open spec fn null(&self, i: int) -> bool {
        null_at(self.buffers@, self.offset + i, self.null_count as int)
    }

    /// Whether there are rows to be read.
    pub open spec fn has_rows(&self) -> bool {
        self.length != 0 && self.buffers@.len() >= 3
    }

    /// Whether the counts are those of an array.
    pub open spec fn counted(&self) -> bool {
        &&& self.length >= 0
        &&& self.has_rows() ==> self.offset >= 0 && self.offset + self.length <= i64::MAX
            && has_validity(
            self.buffers@,
            self.offset + self.length - 1,
            self.null_count as int,
        )
    }

    /// The bytes of a buffer.
    pub open spec fn bytes(&self, b: int) -> Seq<u8> {
        buffer_bytes(self.buffers@[b])
    }

    /// Where the view of a row begins.
    pub open spec fn view_start(&self, i: int) -> int {
        16 * (self.offset + i)
    }

    /// The length of the text of a row that has a view.
    pub open spec fn view_length(&self, i: int) -> int {
        le_i32(self.bytes(1), self.view_start(i))
    }

    /// Which of the data buffers holds the text of a row, where its view does not.
    pub open spec fn view_buffer(&self, i: int) -> int {
        le_i32(self.bytes(1), self.view_start(i) + 8)
    }

    /// Where in the data buffer the text of a row begins.
    pub open spec fn view_offset(&self, i: int) -> int {
        le_i32(self.bytes(1), self.view_start(i) + 12)
    }

    /// How many data buffers there are: all but the first two and the last.
    pub open spec fn data_buffers(&self) -> int {
        self.buffers@.len() - 3
    }

    /// Whether the view of a row refers to bytes that are there.
    pub open spec fn view_in_bounds(&self, i: int) -> bool {
        self.null(i) || (self.view_length(i) >= 0 && (self.view_length(i) > 12 && 0
            <= self.view_buffer(i) < self.data_buffers() ==> self.view_offset(i) >= 0
            && self.view_offset(i) + self.view_length(i) <= self.bytes(
            2 + self.view_buffer(i),
        ).len()))
    }

    /// Whether the array can be read as one of views.
    pub open spec fn viewable(&self) -> bool {
        &&& self.counted()
        &&& self.has_rows() ==> self.bytes(1).len() >= 16 * (self.offset + self.length)
            && forall|i: int| 0 <= i < self.length ==> #[trigger] self.view_in_bounds(i)
    }

    /// The text of a row that has a view: of up to 12 bytes in the view itself, behind its length;
    /// otherwise in a data buffer. None where the row is null, or there is no such buffer.
    pub open spec fn view_cell(&self, i: int) -> Option<Seq<char>> {
        if self.null(i) {
            None
        } else if self.view_length(i) <= 12 {
            Some(
                lossy_text(
                    self.bytes(1).subrange(
                        self.view_start(i) + 4,
                        self.view_start(i) + 4 + self.view_length(i),
                    ),
                ),
            )
        } else if 0 <= self.view_buffer(i) < self.data_buffers() {
            Some(
                lossy_text(
                    self.bytes(2 + self.view_buffer(i)).subrange(
                        self.view_offset(i),
                        self.view_offset(i) + self.view_length(i),
                    ),
                ),
            )
        } else {
            None
        }
    }

    /// The offset at which the text of row `i` begins, and at which that of the row before ends.
    pub open spec fn offset_of(&self, i: int, large: bool) -> int {
        if large {
            le_i64(self.bytes(1), 8 * (self.offset + i))
        } else {
            le_i32(self.bytes(1), 4 * (self.offset + i))
        }
    }

    /// Whether the offsets of a row refer to bytes that are there.
    pub open spec fn offsets_in_bounds(&self, i: int, large: bool) -> bool {
        self.null(i) || 0 <= self.offset_of(i, large) <= self.offset_of(i + 1, large)
            <= self.bytes(2).len()
    }

    /// Whether the array can be read as one with offsets.
    pub open spec fn readable(&self, large: bool) -> bool {
        &&& self.counted()
        &&& self.has_rows() ==> self.bytes(1).len() >= (if large {
            8int
        } else {
            4int
        }) * (self.offset + self.length + 1) && forall|i: int|
            0 <= i < self.length ==> #[trigger] self.offsets_in_bounds(i, large)
    }

    /// The text of a row that has offsets; none where the row is null.
    pub open spec fn offset_cell(&self, i: int, large: bool) -> Option<Seq<char>> {
        if self.null(i) {
            None
        } else {
            Some(
                lossy_text(
                    self.bytes(2).subrange(
                        self.offset_of(i, large),
                        self.offset_of(i + 1, large),
                    ),
                ),
            )
        }
    }

    /// Whether the array can be read in a layout.
    pub open spec fn laid_out(&self, layout: TextLayout) -> bool {
        match layout {
            TextLayout::View => self.viewable(),
            TextLayout::Utf8 => self.readable(false),
            TextLayout::LargeUtf8 => self.readable(true),
        }
    }

    /// The texts of the array in a layout.
    pub open spec fn texts(&self, layout: TextLayout) -> Seq<Option<Seq<char>>> {
        if !self.has_rows() {
            Seq::empty()
        } else {
            Seq::new(
                self.length as nat,
                |i: int|
                    match layout {
                        TextLayout::View => self.view_cell(i),
                        TextLayout::Utf8 => self.offset_cell(i, false),
                        TextLayout::LargeUtf8 => self.offset_cell(i, true),
                    },
            )
        }
    }
}

/// The bytes of a buffer.
fn bytes_of(buffer: &Option<Vec<u8>>) -> (r: &[u8])
    ensures
        r@ == buffer_bytes(*buffer),
{
    match buffer {
        Some(b) => b.as_slice(),
        None => &[],
    }
}

/// The signed integer of 4 bytes.
fn read_i32(bytes: &[u8], at: usize) -> (r: i32)
    requires
        at + 4 <= bytes@.len(),
    ensures
        r == le_i32(bytes@, at as int),
{
    proof {
        reveal_with_fuel(le_unsigned, 5);
    }
    let u: i64 = (bytes[at] as i64) + 256 * (bytes[at + 1] as i64) + 65536 * (bytes[at + 2] as i64)
        + 16777216 * (bytes[at + 3] as i64);
    if u < 0x8000_0000 {
        u as i32
    } else {
        (u - 0x1_0000_0000) as i32
    }
}

/// The signed integer of 8 bytes.
fn read_i64(bytes: &[u8], at: usize) -> (r: i64)
    requires
        at + 8 <= bytes@.len(),
    ensures
        r == le_i64(bytes@, at as int),
{
    proof {
        reveal_with_fuel(le_unsigned, 9);
    }
    let low: i128 = (bytes[at] as i128) + 256 * (bytes[at + 1] as i128) + 65536 * (bytes[at
        + 2] as i128) + 16777216 * (bytes[at + 3] as i128);
    let high: i128 = (bytes[at + 4] as i128) + 256 * (bytes[at + 5] as i128) + 65536 * (bytes[at
        + 6] as i128) + 16777216 * (bytes[at + 7] as i128);
    let u = low + 0x1_0000_0000 * high;
    if u < 0x8000_0000_0000_0000 {
        u as i64
    } else {
        (u - 0x1_0000_0000_0000_0000) as i64
    }
}

/// Whether a row is null.
pub fn read_validity(buffers: &Vec<Option<Vec<u8>>>, offset: i64, i: i64, null_count: i64) -> (r:
    bool)
    requires
        0 <= offset + i <= i64::MAX,
        has_validity(buffers@, offset + i, null_count as int),
    ensures
        r == null_at(buffers@, offset + i, null_count as int),
{
    if null_count == 0 || buffers.len() == 0 {
        return false;
    }
    match &buffers[0] {
        Some(bits) => {
            let at = offset + i;
            let n = bits.len();
            assert(at / 8 < n);
            let byte = bits[(at / 8) as usize];
            let k = (at % 8) as u8;
            (byte & (1u8 << k)) == 0
        },
        None => false,
    }
}

/// The text in some bytes of a buffer.
fn text_in(bytes: &[u8], from: usize, to: usize) -> (r: String)
    requires
        from <= to <= bytes@.len(),
    ensures
        r@ == lossy_text(bytes@.subrange(from as int, to as int)),
{
    from_utf8_lossy(slice_subrange(bytes, from, to))
}

/// The row before the last has a bit where the last has one.
proof fn lemma_validity(buffers: Seq<Option<Vec<u8>>>, at: int, last: int, null_count: int)
    requires
        0 <= at <= last,
        has_validity(buffers, last, null_count),
    ensures
        has_validity(buffers, at, null_count),
{
    assert(at / 8 <= last / 8);
}

/// The text of a row that has a view.
fn view_text(arr: &CArrowArray, i: i64) -> (r: Option<String>)
    requires
        arr.viewable(),
        arr.has_rows(),
        0 <= i < arr.length,
    ensures
        match r {
            Some(s) => arr.view_cell(i as int) == Some(s@),
            None => arr.view_cell(i as int) is None,
        },
{
    proof {
        lemma_validity(
            arr.buffers@,
            arr.offset + i,
            arr.offset + arr.length - 1,
            arr.null_count as int,
        );
        assert(arr.view_in_bounds(i as int));
    }
    if read_validity(&arr.buffers, arr.offset, i, arr.null_count) {
        return None;
    }
    let views = bytes_of(&arr.buffers[1]);
    let size = views.len();
    assert(arr.view_start(i as int) + 16 <= size);
    let start = (arr.offset + i) as usize * 16;
    let length = read_i32(views, start);
    if length <= 12 {
        return Some(text_in(views, start + 4, start + 4 + length as usize));
    }
    let buffer = read_i32(views, start + 8);
    let from = read_i32(views, start + 12);
    if buffer < 0 || buffer as usize >= arr.buffers.len() - 3 {
        return None;
    }
    let data = bytes_of(&arr.buffers[2 + buffer as usize]);
    let size = data.len();
    assert(0 <= from && from + length <= size);
    Some(text_in(data, from as usize, from as usize + length as usize))
}

/// Reads an array of views.
pub fn parse_stringview_array(arr: &CArrowArray) -> (r: ParsedTextColumn)
    requires
        arr.viewable(),
    ensures
        crate::masks::text_views(r.values@) == arr.texts(TextLayout::View),
{
    let mut values: Vec<Option<String>> = Vec::new();
    if arr.length == 0 || arr.buffers.len() < 3 {
        assert(crate::masks::text_views(values@) =~= arr.texts(TextLayout::View));
        return ParsedTextColumn { values };
    }
    let mut i: i64 = 0;
    while i < arr.length
        invariant
            arr.viewable(),
            arr.has_rows(),
            0 <= i <= arr.length,
            values@.len() == i,
            forall|k: int|
                0 <= k < i ==> #[trigger] crate::masks::text_views(values@)[k] == arr.view_cell(k),
        decreases arr.length - i,
    {
        let ghost before = values@;
        values.push(view_text(arr, i));
        proof {
            assert forall|k: int| 0 <= k < i + 1 implies #[trigger] crate::masks::text_views(
                values@,
            )[k] == arr.view_cell(k) by {
                if k < i {
                    assert(crate::masks::text_views(before)[k] == arr.view_cell(k));
                }
            }
        }
        i = i + 1;
    }
    assert(crate::masks::text_views(values@) =~= arr.texts(TextLayout::View));
    ParsedTextColumn { values }
}

/// The layout with offsets of either width.
pub open spec fn offset_layout(large: bool) -> TextLayout {
    if large {
        TextLayout::LargeUtf8
    } else {
        TextLayout::Utf8
    }
}

/// The text of a row that has offsets.
fn offset_text(arr: &CArrowArray, i: i64, large: bool) -> (r: Option<String>)
    requires
        arr.readable(large),
        arr.has_rows(),
        0 <= i < arr.length,
    ensures
        match r {
            Some(s) => arr.offset_cell(i as int, large) == Some(s@),
            None => arr.offset_cell(i as int, large) is None,
        },
{
    proof {
        lemma_validity(
            arr.buffers@,
            arr.offset + i,
            arr.offset + arr.length - 1,
            arr.null_count as int,
        );
        assert(arr.offsets_in_bounds(i as int, large));
    }
    if read_validity(&arr.buffers, arr.offset, i, arr.null_count) {
        return None;
    }
    let offsets = bytes_of(&arr.buffers[1]);
    let size = offsets.len();
    let data = bytes_of(&arr.buffers[2]);
    let data_size = data.len();
    let ghost width = if large {
        8int
    } else {
        4int
    };
    assert(width * (arr.offset + i + 2) <= width * (arr.offset + arr.length + 1)) by (nonlinear_arith)
        requires
            width > 0,
            arr.offset + i + 2 <= arr.offset + arr.length + 1,
    ;
    assert(width * (arr.offset + i + 2) <= size);
    let row = (arr.offset + i) as usize;
    let (start, end): (i64, i64) = if large {
        (read_i64(offsets, row * 8), read_i64(offsets, row * 8 + 8))
    } else {
        (read_i32(offsets, row * 4) as i64, read_i32(offsets, row * 4 + 4) as i64)
    };
    assert(0 <= start <= end <= data_size);
    Some(text_in(data, start as usize, end as usize))
}

/// Reads an array with offsets of 64 bits (`large`) or of 32.
pub fn parse_offset_array(arr: &CArrowArray, large: bool) -> (r: ParsedTextColumn)
    requires
        arr.readable(large),
    ensures
        crate::masks::text_views(r.values@) == arr.texts(offset_layout(large)),
{
    let mut values: Vec<Option<String>> = Vec::new();
    if arr.length == 0 || arr.buffers.len() < 3 {
        assert(crate::masks::text_views(values@) =~= arr.texts(offset_layout(large)));
        return ParsedTextColumn { values };
    }
    let mut i: i64 = 0;
    while i < arr.length
        invariant
            arr.readable(large),
            arr.has_rows(),
            0 <= i <= arr.length,
            values@.len() == i,
            forall|k: int|
                0 <= k < i ==> #[trigger] crate::masks::text_views(values@)[k] == arr.offset_cell(
                    k,
                    large,
                ),
        decreases arr.length - i,
    {
        let ghost before = values@;
        values.push(offset_text(arr, i, large));
        proof {
            assert forall|k: int| 0 <= k < i + 1 implies #[trigger] crate::masks::text_views(
                values@,
            )[k] == arr.offset_cell(k, large) by {
                if k < i {
                    assert(crate::masks::text_views(before)[k] == arr.offset_cell(k, large));
                }
            }
        }
        i = i + 1;
    }
    assert(crate::masks::text_views(values@) =~= arr.texts(offset_layout(large)));
    ParsedTextColumn { values }
}

/// Whether a row refers to bytes that are there.
pub open spec fn row_in_bounds(arr: CArrowArray, i: int, layout: TextLayout) -> bool {
    match layout {
        TextLayout::View => arr.view_in_bounds(i),
        TextLayout::Utf8 => arr.offsets_in_bounds(i, false),
        TextLayout::LargeUtf8 => arr.offsets_in_bounds(i, true),
    }
}

/// How many bytes the second buffer has for some rows.
spec fn second_buffer(rows: int, layout: TextLayout) -> int {
    match layout {
        TextLayout::View => 16 * rows,
        TextLayout::Utf8 => 4int * (rows + 1),
        TextLayout::LargeUtf8 => 8int * (rows + 1),
    }
}

fn is_row_in_bounds(arr: &CArrowArray, i: i64, layout: TextLayout) -> (r: bool)
    requires
        arr.counted(),
        arr.has_rows(),
        0 <= i < arr.length,
        arr.bytes(1).len() >= second_buffer(arr.offset + arr.length, layout),
    ensures
        r == row_in_bounds(*arr, i as int, layout),
{
    proof {
        lemma_validity(
            arr.buffers@,
            arr.offset + i,
            arr.offset + arr.length - 1,
            arr.null_count as int,
        );
    }
    if read_validity(&arr.buffers, arr.offset, i, arr.null_count) {
        return true;
    }
    let second = bytes_of(&arr.buffers[1]);
    let size = second.len();
    assert(4 * (arr.offset + i + 1) <= size);
    let row = (arr.offset + i) as usize;
    match layout {
        TextLayout::View => {
            let start = row * 16;
            let length = read_i32(second, start);
            if length <= 12 {
                return length >= 0;
            }
            let buffer = read_i32(second, start + 8);
            if buffer < 0 || buffer as usize >= arr.buffers.len() - 3 {
                return true;
            }
            let from = read_i32(second, start + 12);
            let data = bytes_of(&arr.buffers[2 + buffer as usize]);
            from >= 0 && from as u64 + length as u64 <= data.len() as u64
        },
        TextLayout::Utf8 => {
            let start = read_i32(second, row * 4);
            let end = read_i32(second, row * 4 + 4);
            let data = bytes_of(&arr.buffers[2]);
            0 <= start && start <= end && end as u64 <= data.len() as u64
        },
        TextLayout::LargeUtf8 => {
            let start = read_i64(second, row * 8);
            let end = read_i64(second, row * 8 + 8);
            let data = bytes_of(&arr.buffers[2]);
            0 <= start && start <= end && end as u64 <= data.len() as u64
        },
    }
}

/// Whether an array can be read in a layout.
pub fn is_laid_out(arr: &CArrowArray, layout: TextLayout) -> (r: bool)
    ensures
        r == arr.laid_out(layout),
{
    if arr.length < 0 {
        return false;
    }
    if arr.length == 0 || arr.buffers.len() < 3 {
        return true;
    }
    if arr.offset < 0 || arr.offset > i64::MAX - arr.length {
        return false;
    }
    let rows = arr.offset + arr.length;
    if arr.null_count != 0 {
        if let Some(bits) = &arr.buffers[0] {
            if ((rows - 1) / 8) as u64 >= bits.len() as u64 {
                return false;
            }
        }
    }
    assert(arr.counted());
    let need: i128 = match layout {
        TextLayout::View => 16 * (rows as i128),
        TextLayout::Utf8 => 4 * (rows as i128 + 1),
        TextLayout::LargeUtf8 => 8 * (rows as i128 + 1),
    };
    let second = bytes_of(&arr.buffers[1]);
    if (second.len() as i128) < need {
        return false;
    }
    let mut i: i64 = 0;
    while i < arr.length
        invariant
            arr.counted(),
            arr.has_rows(),
            0 <= i <= arr.length,
            arr.bytes(1).len() >= second_buffer(arr.offset + arr.length, layout),
            forall|k: int| 0 <= k < i ==> row_in_bounds(*arr, k, layout),
        decreases arr.length - i,
    {
        if !is_row_in_bounds(arr, i, layout) {
            proof {
                match layout {
                    TextLayout::View => {
                        assert(!arr.view_in_bounds(i as int));
                    },
                    TextLayout::Utf8 => {
                        assert(!arr.offsets_in_bounds(i as int, false));
                    },
                    TextLayout::LargeUtf8 => {
                        assert(!arr.offsets_in_bounds(i as int, true));
                    },
                }
            }
            return false;
        }
        i = i + 1;
    }
    proof {
        assert forall|k: int|
            0 <= k < arr.length && layout
                == TextLayout::View implies #[trigger] arr.view_in_bounds(k) by {
            assert(row_in_bounds(*arr, k, layout));
        }
        assert forall|k: int, large: bool|
            0 <= k < arr.length && layout == offset_layout(
                large,
            ) implies #[trigger] arr.offsets_in_bounds(k, large) by {
            assert(row_in_bounds(*arr, k, layout));
        }
    }
    true
}

/// The layout that a format names. Any other is not read.
pub open spec fn layout_of(format: Seq<char>) -> Option<TextLayout> {
    if format == "vu"@ {
        Some(TextLayout::View)
    } else if format == "u"@ {
        Some(TextLayout::Utf8)
    } else if format == "U"@ {
        Some(TextLayout::LargeUtf8)
    } else {
        None
    }
}

/// The layout that a format names.
pub fn text_layout(format: &str) -> (r: Option<TextLayout>)
    ensures
        r == layout_of(format@),
{
    if texts_equal(format, "vu") {
        Some(TextLayout::View)
    } else if texts_equal(format, "u") {
        Some(TextLayout::Utf8)
    } else if texts_equal(format, "U") {
        Some(TextLayout::LargeUtf8)
    } else {
        None
    }
}

/// The texts of some batches, one after the other.
pub open spec fn batch_texts(batches: Seq<CArrowArray>, layout: TextLayout) -> Seq<Option<Seq<char>>>
    decreases batches.len(),
{
    if batches.len() == 0 {
        Seq::empty()
    } else {
        batch_texts(batches.drop_last(), layout) + batches.last().texts(layout)
    }
}

impl CArrowArrayStream {
    /// The format of the column, if the stream gives it.
    pub open spec fn format(&self) -> Option<Seq<char>> {
        if self.get_schema && self.get_next && self.schema_status == 0 {
            match self.schema.format {
                Some(f) => Some(f@),
                None => None,
            }
        } else {
            None
        }
    }

    /// The layout of the column, if it is one of texts.
    pub open spec fn layout(&self) -> Option<TextLayout> {
        match self.format() {
            Some(f) => layout_of(f),
            None => None,
        }
    }

    /// The texts of the stream: of all batches, unless an error came in place of the end.
    pub open spec fn texts(&self) -> Option<Seq<Option<Seq<char>>>> {
        match self.layout() {
            Some(layout) => if self.last_status == 0 {
                Some(batch_texts(self.batches@, layout))
            } else {
                None
            },
            None => None,
        }
    }
}

/// The texts of a column, if there is one.
pub open spec fn column_texts(column: Option<ParsedTextColumn>) -> Option<Seq<Option<Seq<char>>>> {
    match column {
        Some(c) => Some(crate::masks::text_views(c.values@)),
        None => None,
    }
}

/// Reads a stream as a column of texts. What is not a column of texts, and what ends in an error,
/// gives no column. A stream whose format is known is released when it is done with.
pub fn try_read_stream_as_text(stream: &CArrowArrayStream) -> (r: StreamReading)
    requires
        stream.layout() matches Some(layout) ==> forall|b: int|
            0 <= b < stream.batches@.len() ==> (#[trigger] stream.batches@[b]).laid_out(layout),
    ensures
        column_texts(r.column) == stream.texts(),
        r.release == (stream.format() is Some),
{
    if !stream.get_schema || !stream.get_next || stream.schema_status != 0 {
        return StreamReading { column: None, release: false };
    }
    let format = match &stream.schema.format {
        Some(f) => f,
        None => {
            return StreamReading { column: None, release: false };
        },
    };
    let layout = match text_layout(format.as_str()) {
        Some(layout) => layout,
        None => {
            return StreamReading { column: None, release: true };
        },
    };
    if stream.last_status != 0 {
        return StreamReading { column: None, release: true };
    }
    let mut values: Vec<Option<String>> = Vec::new();
    let mut b: usize = 0;
    assert(crate::masks::text_views(values@) =~= Seq::empty());
    while b < stream.batches.len()
        invariant
            b <= stream.batches@.len(),
            forall|b: int|
                0 <= b < stream.batches@.len() ==> (#[trigger] stream.batches@[b]).laid_out(layout),
            crate::masks::text_views(values@) == batch_texts(
                stream.batches@.take(b as int),
                layout,
            ),
        decreases stream.batches@.len() - b,
    {
        let ghost before = values@;
        assert(stream.batches@.take(b + 1).drop_last() =~= stream.batches@.take(b as int));
        assert(stream.batches@[b as int].laid_out(layout));
        let mut parsed = match layout {
            TextLayout::View => parse_stringview_array(&stream.batches[b]),
            TextLayout::Utf8 => parse_offset_array(&stream.batches[b], false),
            TextLayout::LargeUtf8 => parse_offset_array(&stream.batches[b], true),
        };
        let ghost more = parsed.values@;
        values.append(&mut parsed.values);
        assert(crate::masks::text_views(values@) =~= crate::masks::text_views(before)
            + crate::masks::text_views(more));
        b = b + 1;
    }
    assert(stream.batches@.take(b as int) =~= stream.batches@);
    StreamReading { column: Some(ParsedTextColumn { values }), release: true }
}

/// A text that is stored as UTF-8 is read back as it was.
pub proof fn law_text_is_kept(text: Seq<char>)
    ensures
        lossy_text(encode_utf8(text)) == text,
{
    encode_utf8_valid_utf8(text);
    encode_utf8_decode_utf8(text);
}

/// The texts of some batches and of more are the texts of all of them, one after the other.
pub proof fn law_batches_are_read_in_turn(
    a: Seq<CArrowArray>,
    b: Seq<CArrowArray>,
    layout: TextLayout,
)
    ensures
        batch_texts(a + b, layout) == batch_texts(a, layout) + batch_texts(b, layout),
    decreases b.len(),
{
    if b.len() == 0 {
        assert(a + b =~= a);
        assert(batch_texts(a, layout) + batch_texts(b, layout) =~= batch_texts(a, layout));
    } else {
        law_batches_are_read_in_turn(a, b.drop_last(), layout);
        assert((a + b).drop_last() =~= a + b.drop_last());
        assert((a + b).last() == b.last());
        assert(batch_texts(a + b, layout) =~= batch_texts(a, layout) + batch_texts(b, layout));
    }
}

}

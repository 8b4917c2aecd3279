//! Columns of text in Arrow arrays.
use vstd::prelude::*;
use arrow::array::{Array, ArrayData, LargeStringArray, StringArray};
use arrow::datatypes::DataType;
use crate::parallel::map_rows;
use crate::text::{is_blank, text_eq_ci};

verus! {

/// The data of an Arrow array of any type.
#[verifier::external_type_specification]
#[verifier::external_body]
pub struct ExArrayData(ArrayData);

/// An Arrow array of texts with 32-bit offsets.
#[verifier::external_body]
pub struct Utf8Array {
    inner: StringArray,
}

/// An Arrow array of texts with 64-bit offsets.
#[verifier::external_body]
pub struct LargeUtf8Array {
    inner: LargeStringArray,
}

/// Whether the data are texts: with 32-bit offsets (`false`), with 64-bit offsets (`true`), or not.
pub uninterp spec fn data_text_type(data: ArrayData) -> Option<bool>;

/// The texts that the data of an array of texts hold; none where a cell is null.
pub uninterp spec fn data_cells(data: ArrayData) -> Seq<Option<Seq<char>>>;

/// How many buffers the data have.
pub uninterp spec fn data_buffers(data: ArrayData) -> nat;

/// By how many bytes the first buffer of the data misses an address that is a multiple of `width`.
/// The pointer to the buffer is a part of the data, and does not change while they live.
pub uninterp spec fn data_misaligned(data: ArrayData, width: usize) -> nat;

/// The texts that an array holds; none where a cell is null.
pub uninterp spec fn utf8_cells(array: Utf8Array) -> Seq<Option<Seq<char>>>;

/// The texts that an array holds; none where a cell is null.
pub uninterp spec fn large_utf8_cells(array: LargeUtf8Array) -> Seq<Option<Seq<char>>>;

/// How many cells are null.
pub open spec fn null_cells(cells: Seq<Option<Seq<char>>>) -> nat
    decreases cells.len(),
{
    if cells.len() == 0 {
        0
    } else if cells.last() is None {
        null_cells(cells.drop_last()) + 1
    } else {
        null_cells(cells.drop_last())
    }
}

/// Without nulls, every cell has a text.
proof fn lemma_no_nulls(cells: Seq<Option<Seq<char>>>)
    requires
        null_cells(cells) == 0,
    ensures
        forall|i: int| 0 <= i < cells.len() ==> #[trigger] cells[i] is Some,
    decreases cells.len(),
{
    if cells.len() > 0 {
        let before = cells.drop_last();
        lemma_no_nulls(before);
        assert forall|i: int| 0 <= i < cells.len() implies #[trigger] cells[i] is Some by {
            if i < before.len() {
                assert(before[i] == cells[i]);
            }
        }
    }
}

/// Calls `ArrayData::data_type`, and tells `Utf8` and `LargeUtf8` from the other types.
#[verifier::external_body]
fn text_type(data: &ArrayData) -> (r: Option<bool>)
    ensures
        r == data_text_type(*data),
{
    match data.data_type() {
        DataType::Utf8 => Some(false),
        DataType::LargeUtf8 => Some(true),
        _ => None,
    }
}

/// Calls `ArrayData::buffers`, and counts them.
#[verifier::external_body]
fn buffer_count(data: &ArrayData) -> (r: usize)
    ensures
        r == data_buffers(*data),
{
    data.buffers().len()
}

/// Calls `align_offset` on the pointer to the first of `ArrayData::buffers`: by how many bytes it
/// misses a multiple of `width`, which has to be a power of two.
#[verifier::external_body]
fn misalignment(data: &ArrayData, width: usize) -> (r: usize)
    requires
        data_buffers(*data) > 0,
        width == 4 || width == 8,
    ensures
        r == data_misaligned(*data, width),
{
    data.buffers()[0].as_ptr().align_offset(width)
}

/// The width of the offsets.
pub open spec fn offset_width(large: bool) -> usize {
    if large {
        8
    } else {
        4
    }
}

/// Whether the data are those of an array of texts that can be read: of one of the two types, with
/// the offsets and the texts as buffers, and the offsets aligned.
pub open spec fn is_text_data(data: ArrayData) -> bool {
    match data_text_type(data) {
        Some(large) => data_buffers(data) == 2 && data_misaligned(data, offset_width(large)) == 0,
        None => false,
    }
}

impl Utf8Array {
    /// Calls `StringArray::from` with the data of an array. It panics on data of another type, with
    /// another number of buffers, or with offsets that are not aligned. That there are enough
    /// offsets, and that they and the texts are valid, rests on `ArrayData` being valid, which is
    /// what its constructors ask for.
    #[verifier::external_body]
    fn from_data(data: ArrayData) -> (r: Utf8Array)
        requires
            data_text_type(data) == Some(false),
            data_buffers(data) == 2,
            data_misaligned(data, 4) == 0,
        ensures
            utf8_cells(r) == data_cells(data),
    {
        Utf8Array { inner: StringArray::from(data) }
    }

    /// Calls `StringArray::len`: the number of cells.
    #[verifier::external_body]
    fn len(&self) -> (r: usize)
        ensures
            r == utf8_cells(*self).len(),
    {
        self.inner.len()
    }

    /// Calls `StringArray::null_count`. A count of 0 means that no cell is null. Of another count
    /// nothing is said: the producer of an imported array gives it, and may leave it unknown.
    #[verifier::external_body]
    fn null_count(&self) -> (r: usize)
        ensures
            r == 0 ==> null_cells(utf8_cells(*self)) == 0,
    {
        self.inner.null_count()
    }

    /// Calls `StringArray::is_null`, which panics beyond the end.
    #[verifier::external_body]
    fn is_null(&self, i: usize) -> (r: bool)
        requires
            i < utf8_cells(*self).len(),
        ensures
            r == (utf8_cells(*self)[i as int] is None),
    {
        self.inner.is_null(i)
    }

    /// Calls `StringArray::value`: the text in a cell. It panics beyond the end.
    #[verifier::external_body]
    fn value(&self, i: usize) -> (r: &str)
        requires
            i < utf8_cells(*self).len(),
            utf8_cells(*self)[i as int] is Some,
        ensures
            utf8_cells(*self)[i as int] == Some(r@),
    {
        self.inner.value(i)
    }
}

impl LargeUtf8Array {
    /// Calls `LargeStringArray::from` with the data of an array. It panics on data of another type,
    /// with another number of buffers, or with offsets that are not aligned. That there are enough
    /// offsets, and that they and the texts are valid, rests on `ArrayData` being valid, which is
    /// what its constructors ask for.
    #[verifier::external_body]
    fn from_data(data: ArrayData) -> (r: LargeUtf8Array)
        requires
            data_text_type(data) == Some(true),
            data_buffers(data) == 2,
            data_misaligned(data, 8) == 0,
        ensures
            large_utf8_cells(r) == data_cells(data),
    {
        LargeUtf8Array { inner: LargeStringArray::from(data) }
    }

    /// Calls `LargeStringArray::len`: the number of cells.
    #[verifier::external_body]
    fn len(&self) -> (r: usize)
        ensures
            r == large_utf8_cells(*self).len(),
    {
        self.inner.len()
    }

    /// Calls `LargeStringArray::null_count`. A count of 0 means that no cell is null. Of another count
    /// nothing is said: the producer of an imported array gives it, and may leave it unknown.
    #[verifier::external_body]
    fn null_count(&self) -> (r: usize)
        ensures
            r == 0 ==> null_cells(large_utf8_cells(*self)) == 0,
    {
        self.inner.null_count()
    }

    /// Calls `LargeStringArray::is_null`, which panics beyond the end.
    #[verifier::external_body]
    fn is_null(&self, i: usize) -> (r: bool)
        requires
            i < large_utf8_cells(*self).len(),
        ensures
            r == (large_utf8_cells(*self)[i as int] is None),
    {
        self.inner.is_null(i)
    }

    /// Calls `LargeStringArray::value`: the text in a cell. It panics beyond the end.
    #[verifier::external_body]
    fn value(&self, i: usize) -> (r: &str)
        requires
            i < large_utf8_cells(*self).len(),
            large_utf8_cells(*self)[i as int] is Some,
        ensures
            large_utf8_cells(*self)[i as int] == Some(r@),
    {
        self.inner.value(i)
    }
}

/// An Arrow array of texts, of either width.
pub enum ArrowStringArrayRef {
    Utf8(Utf8Array),
    LargeUtf8(LargeUtf8Array),
}

/// A column of texts in an Arrow array.
pub struct ArrowTextColumn {
    pub array: ArrowStringArrayRef,
}

/// Whether a cell equals a text but for case, or with `negate` whether it does not. A null cell and
/// a blank one equal none.
pub open spec fn equal_cell(cell: Option<Seq<char>>, needle: Seq<char>, negate: bool) -> bool {
    match cell {
        Some(t) => (crate::text::same_text(t, needle) && !crate::text::blank(t)) != negate,
        None => negate,
    }
}

/// Whether a text that is not blank equals another but for case.
pub(crate) fn cell_eq(hay: &str, needle: &str) -> (r: bool)
    ensures
        r == (crate::text::same_text(hay@, needle@) && !crate::text::blank(hay@)),
{
    text_eq_ci(hay, needle) && !is_blank(hay)
}

/// Whether each cell equals a text but for case, or with `negate` whether it does not.
pub open spec fn equal_mask(cells: Seq<Option<Seq<char>>>, needle: Seq<char>, negate: bool) -> Seq<
    bool,
> {
    Seq::new(cells.len(), |i: int| equal_cell(cells[i], needle, negate))
}

impl View for ArrowTextColumn {
    type V = Seq<Option<Seq<char>>>;

    open spec fn view(&self) -> Seq<Option<Seq<char>>> {
        match self.array {
            ArrowStringArrayRef::Utf8(a) => utf8_cells(a),
            ArrowStringArrayRef::LargeUtf8(a) => large_utf8_cells(a),
        }
    }
}

impl ArrowTextColumn {
    /// The column of an array's data, if they are texts that can be read.
    pub fn from_data(data: ArrayData) -> (r: Option<ArrowTextColumn>)
        ensures
            r is Some <==> is_text_data(data),
            r matches Some(c) ==> c@ == data_cells(data),
    {
        match text_type(&data) {
            Some(large) => if buffer_count(&data) != 2 || misalignment(
                &data,
                if large {
                    8
                } else {
                    4
                },
            ) != 0 {
                None
            } else if large {
                Some(
                    ArrowTextColumn {
                        array: ArrowStringArrayRef::LargeUtf8(LargeUtf8Array::from_data(data)),
                    },
                )
            } else {
                Some(
                    ArrowTextColumn { array: ArrowStringArrayRef::Utf8(Utf8Array::from_data(data)) },
                )
            },
            None => None,
        }
    }

    /// The number of rows.
    pub fn len(&self) -> (r: usize)
        ensures
            r == self@.len(),
    {
        match &self.array {
            ArrowStringArrayRef::Utf8(a) => a.len(),
            ArrowStringArrayRef::LargeUtf8(a) => a.len(),
        }
    }

    /// The text in a row; none where the cell is null.
    pub fn get(&self, i: usize) -> (r: Option<&str>)
        requires
            i < self@.len(),
        ensures
            self@[i as int] == match r {
                Some(s) => Some(s@),
                None => None,
            },
    {
        match &self.array {
            ArrowStringArrayRef::Utf8(a) => if a.is_null(i) {
                None
            } else {
                Some(a.value(i))
            },
            ArrowStringArrayRef::LargeUtf8(a) => if a.is_null(i) {
                None
            } else {
                Some(a.value(i))
            },
        }
    }

    /// Whether each cell equals a text but for case, or with `negate` whether it does not. Where the
    /// array has no nulls, none is looked for.
    pub fn eq_mask(&self, needle: &str, negate: bool) -> (r: Vec<bool>)
        ensures
            r@ == equal_mask(self@, needle@, negate),
    {
        let n = self.len();
        let mask = match &self.array {
            ArrowStringArrayRef::Utf8(a) => {
                let nulls = a.null_count() != 0;
                proof {
                    if !nulls {
                        lemma_no_nulls(utf8_cells(*a));
                    }
                }
                map_rows(
                    n,
                    |i: usize| -> (b: bool)
                        requires
                            i < n,
                        ensures
                            b == equal_cell(utf8_cells(*a)[i as int], needle@, negate)
                        {
                            if nulls && a.is_null(i) {
                                negate
                            } else {
                                cell_eq(a.value(i), needle) != negate
                            }
                        },
                )
            },
            ArrowStringArrayRef::LargeUtf8(a) => {
                let nulls = a.null_count() != 0;
                proof {
                    if !nulls {
                        lemma_no_nulls(large_utf8_cells(*a));
                    }
                }
                map_rows(
                    n,
                    |i: usize| -> (b: bool)
                        requires
                            i < n,
                        ensures
                            b == equal_cell(large_utf8_cells(*a)[i as int], needle@, negate)
                        {
                            if nulls && a.is_null(i) {
                                negate
                            } else {
                                cell_eq(a.value(i), needle) != negate
                            }
                        },
                )
            },
        };
        assert(mask@ =~= equal_mask(self@, needle@, negate));
        mask
    }
}

}

//! The value of a cell, as a spreadsheet sees it: a number, a text, or nothing.
use vstd::prelude::*;
use crate::number::Number;
use crate::text::{is_blank, to_lowercase};

verus! {

/// A Python value, as far as a cell is made from it. Texts and numbers that Python itself has to
/// work out come with the value.
#[derive(Clone, Debug)]
pub enum RawValue {
    /// `None`.
    Nothing,
    /// A `bool`.
    Bool(bool),
    /// A `float`.
    Float(Number),
    /// An `int`: the double that it converts to, unless it is too large, and its digits.
    Int { number: Option<Number>, text: Option<String> },
    /// A `str`.
    Str(String),
    /// Anything else: the double that it converts to, if it does, and what `str()` makes of it, if
    /// that does not fail.
    Other { number: Option<Number>, text: Option<String> },
}

/// The value of a cell.
#[derive(Clone, Debug)]
pub enum CellValue {
    Num(Number),
    Text(String),
    Empty,
}

/// A [`CellValue`] with its text as a sequence of characters.
pub enum CellView {
    Num(Number),
    Text(Seq<char>),
    Empty,
}

impl View for CellValue {
    type V = CellView;

    open spec fn view(&self) -> CellView {
        match *self {
            CellValue::Num(n) => CellView::Num(n),
            CellValue::Text(s) => CellView::Text(s@),
            CellValue::Empty => CellView::Empty,
        }
    }
}

/// What stands for a value of which Python knows the text alone.
pub open spec fn text_or_empty(text: Option<String>) -> CellView {
    match text {
        Some(s) => CellView::Text(s@),
        None => CellView::Empty,
    }
}

impl RawValue {
    /// The cell that a Python value makes: truth values count as 1 and 0, what is not a number and
    /// a blank text as nothing, and whatever converts to a double as a number.
    pub open spec fn cell(self) -> CellView {
        match self {
            RawValue::Nothing => CellView::Empty,
            RawValue::Bool(b) => CellView::Num(
                Number::of(if b { crate::number::ONE as int } else { 0 }),
            ),
            RawValue::Float(n) => if n.nan() {
                CellView::Empty
            } else {
                CellView::Num(n)
            },
            RawValue::Int { number, text } => match number {
                Some(n) => if n.nan() {
                    CellView::Empty
                } else {
                    CellView::Num(n)
                },
                None => text_or_empty(text),
            },
            RawValue::Str(s) => if crate::text::blank(s@) {
                CellView::Empty
            } else {
                CellView::Text(s@)
            },
            RawValue::Other { number, text } => match number {
                Some(n) => if n.nan() {
                    CellView::Empty
                } else {
                    CellView::Num(n)
                },
                None => text_or_empty(text),
            },
        }
    }
}

/// The cell of a text that may be missing.
fn text_cell(text: &Option<String>) -> (r: CellValue)
    ensures
        r@ == text_or_empty(*text),
{
    match text {
        Some(s) => CellValue::Text(s.clone()),
        None => CellValue::Empty,
    }
}

impl CellValue {
    /// The cell that a Python value makes.
    pub fn from_py(raw: &RawValue) -> (r: CellValue)
        ensures
            r@ == raw.cell(),
            r@ matches CellView::Num(n) ==> !n.nan(),
    {
        match raw {
            RawValue::Nothing => CellValue::Empty,
            RawValue::Bool(b) => CellValue::Num(Number::from_bool(*b)),
            RawValue::Float(n) => if n.is_nan() {
                CellValue::Empty
            } else {
                CellValue::Num(*n)
            },
            RawValue::Int { number, text } => match number {
                Some(n) => if n.is_nan() {
                    CellValue::Empty
                } else {
                    CellValue::Num(*n)
                },
                None => text_cell(text),
            },
            RawValue::Str(s) => if is_blank(s.as_str()) {
                CellValue::Empty
            } else {
                CellValue::Text(s.clone())
            },
            RawValue::Other { number, text } => match number {
                Some(n) => if n.is_nan() {
                    CellValue::Empty
                } else {
                    CellValue::Num(*n)
                },
                None => text_cell(text),
            },
        }
    }

    /// The number in the cell, if it is numeric.
    pub fn number(&self) -> (r: Option<Number>)
        ensures
            r == self@.number(),
    {
        match self {
            CellValue::Num(n) => Some(*n),
            _ => None,
        }
    }
}

/// A key by which cells are found: a number, a text in lower case, or a blank.
#[derive(Clone, Debug)]
pub enum LookupKey {
    Num(Number),
    Text(String),
    Empty,
}

/// A [`LookupKey`] with its text as a sequence of characters.
pub enum KeyView {
    Num(Number),
    Text(Seq<char>),
    Empty,
}

impl View for LookupKey {
    type V = KeyView;

    open spec fn view(&self) -> KeyView {
        match *self {
            LookupKey::Num(n) => KeyView::Num(n),
            LookupKey::Text(s) => KeyView::Text(s@),
            LookupKey::Empty => KeyView::Empty,
        }
    }
}

impl KeyView {
    /// Whether two keys are those of equal cells: numbers within the tolerance, texts in lower case.
    pub open spec fn meets(self, other: KeyView) -> bool {
        match (self, other) {
            (KeyView::Num(a), KeyView::Num(b)) => a.near(b),
            (KeyView::Text(a), KeyView::Text(b)) => a == b,
            (KeyView::Empty, KeyView::Empty) => true,
            _ => false,
        }
    }

    /// Whether one key is the same as the other. What is not a number is the same as nothing.
    pub open spec fn finds(self, other: KeyView) -> bool {
        self == other && (self matches KeyView::Num(n) ==> !n.nan())
    }
}

impl CellView {
    /// The number in the cell, if it is numeric.
    pub open spec fn number(self) -> Option<Number> {
        match self {
            CellView::Num(n) => Some(n),
            _ => None,
        }
    }

    /// The key of the cell.
    pub open spec fn key(self) -> KeyView {
        match self {
            CellView::Num(n) => KeyView::Num(n),
            CellView::Text(s) => KeyView::Text(crate::text::lowercase(s)),
            CellView::Empty => KeyView::Empty,
        }
    }

    /// Whether two cells hold the same value: numbers within the tolerance, texts but for case.
    pub open spec fn equals(self, other: CellView) -> bool {
        match (self, other) {
            (CellView::Num(a), CellView::Num(b)) => a.near(b),
            (CellView::Text(a), CellView::Text(b)) => crate::text::same_text(a, b),
            (CellView::Empty, CellView::Empty) => true,
            _ => false,
        }
    }
}

/// Whether two cells hold the same value.
pub fn values_equal(a: &CellValue, b: &CellValue) -> (r: bool)
    ensures
        r == a@.equals(b@),
{
    match (a, b) {
        (CellValue::Num(x), CellValue::Num(y)) => x.is_near(*y),
        (CellValue::Text(x), CellValue::Text(y)) => crate::text::text_eq_ci(
            x.as_str(),
            y.as_str(),
        ),
        (CellValue::Empty, CellValue::Empty) => true,
        _ => false,
    }
}

/// The key of a cell.
pub fn cell_to_key(cv: &CellValue) -> (r: LookupKey)
    ensures
        r@ == cv@.key(),
{
    match cv {
        CellValue::Num(n) => LookupKey::Num(*n),
        CellValue::Text(s) => LookupKey::Text(to_lowercase(s.as_str())),
        CellValue::Empty => LookupKey::Empty,
    }
}

}

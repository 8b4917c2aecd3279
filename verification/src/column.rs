//! Columns as they come from arrays, lists and Arrow buffers, and what the formulas read of them.
use vstd::prelude::*;
use vstd::string::*;
use vstd::utf8::*;
use crate::arrow_text::ArrowTextColumn;
use crate::cell::{cell_to_key, CellValue, CellView, KeyView, LookupKey, RawValue};
use crate::criteria::{Criteria, CriteriaView, Op};
use crate::masks::native_text_eq_mask;
use crate::number::Number;
use crate::parallel::map_rows;
use crate::text::{is_blank, text_eq_ci, to_lowercase};

verus! {

/// A column, in the form in which it is read fastest.
pub enum FastColumn {
    /// An array of doubles.
    Numeric(Vec<Number>),
    /// An array of 64-bit integers.
    NumericI64(Vec<i64>),
    /// A list of texts.
    Text(Vec<String>),
    /// Texts read from an Arrow stream, some of them missing.
    NativeText(Vec<Option<String>>),
    /// Texts in an Arrow array.
    ArrowText(ArrowTextColumn),
    /// Anything else, value by value.
    Generic(Vec<RawValue>),
}

/// The text of a cell in lower case: the text itself where it is in lower case already.
pub enum CellTextRef<'a> {
    Borrowed(&'a str),
    Owned(String),
}

/// What a row of a column is handed back as.
pub enum ColumnObject {
    /// `None`.
    Nothing,
    Float(Number),
    Int(i64),
    Text(String),
    /// The value itself that stands in the row.
    Same(usize),
}

/// A [`ColumnObject`] with its text as a sequence of characters.
pub enum ObjectView {
    Nothing,
    Float(Number),
    Int(i64),
    Text(Seq<char>),
    Same(usize),
}

impl View for ColumnObject {
    type V = ObjectView;

    open spec fn view(&self) -> ObjectView {
        match *self {
            ColumnObject::Nothing => ObjectView::Nothing,
            ColumnObject::Float(n) => ObjectView::Float(n),
            ColumnObject::Int(n) => ObjectView::Int(n),
            ColumnObject::Text(s) => ObjectView::Text(s@),
            ColumnObject::Same(i) => ObjectView::Same(i),
        }
    }
}

impl<'a> View for CellTextRef<'a> {
    type V = Seq<char>;

    open spec fn view(&self) -> Seq<char> {
        match *self {
            CellTextRef::Borrowed(s) => s@,
            CellTextRef::Owned(s) => s@,
        }
    }
}

/// The cell of a number, which is blank when it is not one.
pub open spec fn number_cell(n: Number) -> CellView {
    if n.nan() {
        CellView::Empty
    } else {
        CellView::Num(n)
    }
}

/// The cell of a text, which is blank where the text is blank or missing.
pub open spec fn text_or_blank(text: Option<Seq<char>>) -> CellView {
    match text {
        Some(s) => if crate::text::blank(s) {
            CellView::Empty
        } else {
            CellView::Text(s)
        },
        None => CellView::Empty,
    }
}

/// The comparison of a number of an array with another. Inequality is the contrary of equality, so
/// that a blank is unequal to every number.
pub open spec fn array_comparison(op: Op, v: Number, c: Number) -> bool {
    match op {
        Op::Ne => !v.near(c),
        _ => op.of_numbers(v, c),
    }
}

impl FastColumn {
    /// The number of rows.
    pub open spec fn size(&self) -> nat {
        match *self {
            FastColumn::Numeric(v) => v@.len(),
            FastColumn::NumericI64(v) => v@.len(),
            FastColumn::Text(v) => v@.len(),
            FastColumn::NativeText(v) => v@.len(),
            FastColumn::ArrowText(c) => c@.len(),
            FastColumn::Generic(v) => v@.len(),
        }
    }

    /// The text in a row of a column of texts.
    pub open spec fn text(&self, i: int) -> Option<Seq<char>> {
        match *self {
            FastColumn::Text(v) => Some(v@[i]@),
            FastColumn::NativeText(v) => crate::masks::text_views(v@)[i],
            FastColumn::ArrowText(c) => c@[i],
            _ => None,
        }
    }

    /// The number in a row of a column of numbers.
    pub open spec fn array_number(&self, i: int) -> Option<Number> {
        match *self {
            FastColumn::Numeric(v) => Some(v@[i]),
            FastColumn::NumericI64(v) => Some(Number::of_integer(v@[i] as int)),
            _ => None,
        }
    }

    /// The cell in a row.
    pub open spec fn cell(&self, i: int) -> CellView {
        match *self {
            FastColumn::Generic(v) => v@[i].cell(),
            _ => match self.array_number(i) {
                Some(n) => number_cell(n),
                None => text_or_blank(self.text(i)),
            },
        }
    }

    /// The cells of the column.
    pub open spec fn cells(&self) -> Seq<CellView> {
        Seq::new(self.size(), |i: int| self.cell(i))
    }

    /// The key of a row.
    pub open spec fn key(&self, i: int) -> KeyView {
        self.cell(i).key()
    }

    /// Whether a row satisfies a criterion.
    pub open spec fn holds(&self, criterion: CriteriaView, i: int) -> bool {
        criterion.holds(self.cell(i))
    }

    /// Whether each row is selected by a criterion. The rows of an array are compared with a number
    /// directly.
    pub open spec fn mask(&self, criterion: CriteriaView) -> Seq<bool> {
        Seq::new(
            self.size(),
            |i: int|
                match (criterion.value, self.array_number(i)) {
                    (CellView::Num(c), Some(v)) => if criterion.wildcard is None {
                        array_comparison(criterion.op, v, c)
                    } else {
                        self.holds(criterion, i)
                    },
                    _ => self.holds(criterion, i),
                },
        )
    }

    /// What a row is handed back as.
    pub open spec fn object(&self, i: int) -> ObjectView {
        match *self {
            FastColumn::Numeric(v) => if v@[i].nan() {
                ObjectView::Nothing
            } else {
                ObjectView::Float(v@[i])
            },
            FastColumn::NumericI64(v) => ObjectView::Int(v@[i]),
            FastColumn::Generic(v) => ObjectView::Same(i as usize),
            _ => match self.text(i) {
                Some(s) => ObjectView::Text(s),
                None => ObjectView::Nothing,
            },
        }
    }

    /// The number of rows.
    pub fn len(&self) -> (r: usize)
        ensures
            r == self.size(),
    {
        match self {
            FastColumn::Numeric(v) => v.len(),
            FastColumn::NumericI64(v) => v.len(),
            FastColumn::Text(v) => v.len(),
            FastColumn::NativeText(v) => v.len(),
            FastColumn::ArrowText(c) => c.len(),
            FastColumn::Generic(v) => v.len(),
        }
    }

    /// The number in a row, if it is numeric. What is not a number counts as blank.
    pub fn numeric_at(&self, i: usize) -> (r: Option<Number>)
        requires
            i < self.size(),
        ensures
            r == self.cell(i as int).number(),
    {
        match self {
            FastColumn::Numeric(v) => if v[i].is_nan() {
                None
            } else {
                Some(v[i])
            },
            FastColumn::NumericI64(v) => {
                let n = Number::from_i64(v[i]);
                proof {
                    crate::number::lemma_integer_is_number(v@[i as int] as int, n);
                }
                Some(n)
            },
            FastColumn::Generic(v) => CellValue::from_py(&v[i]).number(),
            _ => None,
        }
    }

    /// The text in a row of a column of texts.
    pub fn cell_text_exact_at(&self, i: usize) -> (r: Option<&str>)
        requires
            i < self.size(),
        ensures
            self.text(i as int) == match r {
                Some(s) => Some(s@),
                None => None,
            },
    {
        match self {
            FastColumn::Text(v) => Some(v[i].as_str()),
            FastColumn::ArrowText(c) => c.get(i),
            FastColumn::NativeText(v) => match &v[i] {
                Some(s) => Some(s.as_str()),
                None => None,
            },
            _ => None,
        }
    }

    /// The text in a row of a column of texts, in lower case, unless the cell is blank.
    pub fn cell_text_ref_at(&self, i: usize) -> (r: Option<CellTextRef<'_>>)
        requires
            i < self.size(),
        ensures
            r is Some <==> self.text(i as int) is Some && !crate::text::blank(
                self.text(i as int)->0,
            ),
            r matches Some(t) ==> t@ == crate::text::lowercase(self.text(i as int)->0),
            r matches Some(CellTextRef::Borrowed(s)) ==> self.text(i as int) == Some(s@),
    {
        match self.cell_text_exact_at(i) {
            Some(s) => if is_blank(s) {
                None
            } else {
                Some(lower_case(s))
            },
            None => None,
        }
    }

    /// The key of a row.
    pub fn cell_key_at(&self, i: usize) -> (r: LookupKey)
        requires
            i < self.size(),
        ensures
            r@ == self.key(i as int),
    {
        match self {
            FastColumn::Generic(v) => cell_to_key(&CellValue::from_py(&v[i])),
            _ => match self.numeric_at(i) {
                Some(n) => LookupKey::Num(n),
                None => match self.cell_text_exact_at(i) {
                    Some(s) => if is_blank(s) {
                        LookupKey::Empty
                    } else {
                        LookupKey::Text(to_lowercase(s))
                    },
                    None => LookupKey::Empty,
                },
            },
        }
    }

    /// What a row is handed back as.
    pub fn to_object_at(&self, i: usize) -> (r: ColumnObject)
        requires
            i < self.size(),
        ensures
            r@ == self.object(i as int),
            crate::lookup_laws::stands_in(*self, i as int, r@),
    {
        match self {
            FastColumn::Numeric(v) => if v[i].is_nan() {
                ColumnObject::Nothing
            } else {
                ColumnObject::Float(v[i])
            },
            FastColumn::NumericI64(v) => ColumnObject::Int(v[i]),
            FastColumn::Generic(v) => ColumnObject::Same(i),
            _ => match self.cell_text_exact_at(i) {
                Some(s) => ColumnObject::Text(s.to_owned()),
                None => ColumnObject::Nothing,
            },
        }
    }

    /// The mask of a column of texts in an Arrow array or from an Arrow stream, for the equality or
    /// inequality with a text; none for other columns and criteria.
    pub fn try_fast_eq_mask(&self, crit: &Criteria) -> (r: Option<Vec<bool>>)
        ensures
            r is Some <==> (crit@.wildcard is None && (crit@.op == Op::Eq || crit@.op == Op::Ne)
                && crit@.value is Text && (self is ArrowText || self is NativeText)),
            r matches Some(m) ==> m@ == self.mask(crit@),
    {
        if crit.wildcard.is_some() {
            return None;
        }
        let negate = match crit.op {
            Op::Eq => false,
            Op::Ne => true,
            _ => {
                return None;
            },
        };
        match &crit.value {
            CellValue::Text(needle) => match self {
                FastColumn::ArrowText(c) => {
                    let m = c.eq_mask(needle.as_str(), negate);
                    assert(m@ =~= self.mask(crit@));
                    Some(m)
                },
                FastColumn::NativeText(v) => {
                    let m = native_text_eq_mask(v, needle.as_str(), negate);
                    assert(m@ =~= self.mask(crit@));
                    Some(m)
                },
                _ => None,
            },
            _ => None,
        }
    }

    /// The mask of an array of numbers, for any comparison with a number; none for other columns and
    /// criteria.
    pub fn try_fast_numeric_mask(&self, crit: &Criteria) -> (r: Option<Vec<bool>>)
        ensures
            r is Some <==> (crit@.wildcard is None && crit@.value is Num && (
            self matches FastColumn::Numeric(_) || self
                matches FastColumn::NumericI64(_))),
            r matches Some(m) ==> m@ == self.mask(crit@),
    {
        if crit.wildcard.is_some() {
            return None;
        }
        let op = crit.op;
        match &crit.value {
            CellValue::Num(needle) => {
                let c = *needle;
                match self {
                    FastColumn::Numeric(v) => {
                        let m = map_rows(
                            v.len(),
                            |i: usize| -> (b: bool)
                                requires
                                    i < v@.len(),
                                ensures
                                    b == array_comparison(op, v@[i as int], c)
                                {
                                    compare_in_array(op, v[i], c)
                                },
                        );
                        assert(m@ =~= self.mask(crit@));
                        Some(m)
                    },
                    FastColumn::NumericI64(v) => {
                        let m = map_rows(
                            v.len(),
                            |i: usize| -> (b: bool)
                                requires
                                    i < v@.len(),
                                ensures
                                    b == array_comparison(op, Number::of_integer(v@[i as int] as int), c)
                                {
                                    compare_in_array(op, Number::from_i64(v[i]), c)
                                },
                        );
                        assert(m@ =~= self.mask(crit@));
                        Some(m)
                    },
                    _ => None,
                }
            },
            _ => None,
        }
    }

    /// Whether each row is selected by a criterion.
    pub fn build_mask(&self, crit: &Criteria, n: usize) -> (r: Vec<bool>)
        requires
            n == self.size(),
        ensures
            r@ == self.mask(crit@),
    {
        if let Some(mask) = self.try_fast_eq_mask(crit) {
            return mask;
        }
        if let Some(mask) = self.try_fast_numeric_mask(crit) {
            return mask;
        }
        let mut mask: Vec<bool> = Vec::new();
        let mut i: usize = 0;
        while i < n
            invariant
                i <= n == self.size(),
                mask@.len() == i,
                forall|k: int| 0 <= k < i ==> #[trigger] mask@[k] == self.holds(crit@, k),
            decreases n - i,
        {
            mask.push(self.matches_at(i, crit));
            i = i + 1;
        }
        assert(mask@ =~= self.mask(crit@));
        mask
    }

    /// The numbers of an array of numbers.
    pub fn as_f64_slice(&self) -> (r: Option<Vec<Number>>)
        ensures
            r is Some <==> (self matches FastColumn::Numeric(_) || self
                matches FastColumn::NumericI64(_)),
            r matches Some(v) ==> v@.len() == self.size() && forall|i: int|
                0 <= i < v@.len() ==> self.array_number(i) == Some(#[trigger] v@[i]),
    {
        match self {
            FastColumn::Numeric(v) => {
                let mut out: Vec<Number> = Vec::new();
                let mut i: usize = 0;
                while i < v.len()
                    invariant
                        i <= v@.len(),
                        out@.len() == i,
                        forall|k: int| 0 <= k < i ==> #[trigger] out@[k] == v@[k],
                    decreases v@.len() - i,
                {
                    out.push(v[i]);
                    i = i + 1;
                }
                Some(out)
            },
            FastColumn::NumericI64(v) => {
                let mut out: Vec<Number> = Vec::new();
                let mut i: usize = 0;
                while i < v.len()
                    invariant
                        i <= v@.len(),
                        out@.len() == i,
                        forall|k: int|
                            0 <= k < i ==> #[trigger] out@[k] == Number::of_integer(v@[k] as int),
                    decreases v@.len() - i,
                {
                    out.push(Number::from_i64(v[i]));
                    i = i + 1;
                }
                Some(out)
            },
            _ => None,
        }
    }

    /// Whether a row satisfies a criterion.
    pub fn matches_at(&self, i: usize, crit: &Criteria) -> (r: bool)
        requires
            i < self.size(),
        ensures
            r == self.holds(crit@, i as int),
    {
        match self {
            FastColumn::Numeric(v) => Self::num_matches(v[i], crit),
            FastColumn::NumericI64(v) => Self::num_matches(Number::from_i64(v[i]), crit),
            FastColumn::Generic(v) => {
                if let RawValue::Str(s) = &v[i] {
                    if !is_blank(s.as_str()) {
                        if let Some(eq) = text_equality(s.as_str(), crit) {
                            return eq;
                        }
                    }
                }
                crate::criteria::matches(&CellValue::from_py(&v[i]), crit)
            },
            _ => match self.cell_text_exact_at(i) {
                Some(s) => if is_blank(s) {
                    crate::criteria::matches(&CellValue::Empty, crit)
                } else {
                    match text_equality(s, crit) {
                        Some(eq) => eq,
                        None => crate::criteria::matches(&CellValue::Text(s.to_owned()), crit),
                    }
                },
                None => crate::criteria::matches(&CellValue::Empty, crit),
            },
        }
    }

    /// Whether a number of an array satisfies a criterion. What is not a number counts as blank.
    pub fn num_matches(v: Number, crit: &Criteria) -> (r: bool)
        ensures
            r == crit@.holds(number_cell(v)),
    {
        if v.is_nan() {
            crate::criteria::matches(&CellValue::Empty, crit)
        } else {
            crate::criteria::matches(&CellValue::Num(v), crit)
        }
    }
}

/// Compares a number of an array with another.
fn compare_in_array(op: Op, v: Number, c: Number) -> (r: bool)
    ensures
        r == array_comparison(op, v, c),
{
    match op {
        Op::Ne => !v.is_near(c),
        _ => op.compare_numbers(v, c),
    }
}

/// The equality or inequality of a text with a text; none for other criteria.
fn text_equality(s: &str, crit: &Criteria) -> (r: Option<bool>)
    ensures
        r is Some <==> (crit@.wildcard is None && (crit@.op == Op::Eq || crit@.op == Op::Ne)
            && crit@.value is Text),
        r matches Some(b) ==> b == crit@.holds(CellView::Text(s@)),
{
    if crit.wildcard.is_some() {
        return None;
    }
    match (&crit.value, crit.op) {
        (CellValue::Text(c), Op::Eq) => Some(text_eq_ci(s, c.as_str())),
        (CellValue::Text(c), Op::Ne) => Some(!text_eq_ci(s, c.as_str())),
        _ => None,
    }
}

/// A text in lower case.
fn lower_case<'a>(s: &'a str) -> (r: CellTextRef<'a>)
    ensures
        r@ == crate::text::lowercase(s@),
        r matches CellTextRef::Borrowed(t) ==> t@ == s@,
{
    if s.is_ascii() && no_capitals(s) {
        assert(crate::text::lowercase(s@) =~= s@);
        CellTextRef::Borrowed(s)
    } else {
        CellTextRef::Owned(to_lowercase(s))
    }
}

/// Whether no ASCII capital is in an ASCII text.
fn no_capitals(s: &str) -> (r: bool)
    requires
        is_ascii_chars(s@),
    ensures
        r == forall|k: int| 0 <= k < s@.len() ==> !('A' <= #[trigger] s@[k] <= 'Z'),
{
    let b = s.as_bytes();
    proof {
        is_ascii_chars_encode_utf8(s@);
    }
    let mut i: usize = 0;
    while i < b.len()
        invariant
            i <= b@.len() == s@.len(),
            is_ascii_chars(s@),
            forall|j: int| 0 <= j < b@.len() ==> s@[j] as u8 == #[trigger] b@[j],
            forall|k: int| 0 <= k < i ==> !('A' <= #[trigger] s@[k] <= 'Z'),
        decreases b@.len() - i,
    {
        assert(s@[i as int] as u8 == b@[i as int]);
        if 65 <= b[i] && b[i] <= 90 {
            assert('A' <= s@[i as int] <= 'Z');
            return false;
        }
        i = i + 1;
    }
    true
}

}

//! Criteria such as `">10"`, `"<>0"`, `"ab*"` or a plain value, and the cells that satisfy them.
use vstd::prelude::*;
use vstd::string::*;
use crate::cell::{cell_to_key, CellValue, CellView, LookupKey};
use crate::decimal::{parse_decimal, parse_number};
use crate::error::{ErrorView, FormulaError};
use crate::number::Number;
use crate::text::{contains_char, text_eq_ci, text_less, to_lowercase, trim, wildcard_match};

verus! {

/// A comparison.
#[derive(Clone, Copy, Debug, PartialEq, Eq, Structural)]
pub enum Op {
    Eq,
    Ne,
    Gt,
    Ge,
    Lt,
    Le,
}

/// A criterion: a comparison with a value, or with a pattern of wildcards.
#[derive(Clone, Debug)]
pub struct Criteria {
    pub op: Op,
    pub value: CellValue,
    pub wildcard: Option<String>,
}

/// A [`Criteria`] with its texts as sequences of characters.
pub struct CriteriaView {
    pub op: Op,
    pub value: CellView,
    pub wildcard: Option<Seq<char>>,
}

impl View for Criteria {
    type V = CriteriaView;

    open spec fn view(&self) -> CriteriaView {
        CriteriaView {
            op: self.op,
            value: self.value@,
            wildcard: match self.wildcard {
                Some(s) => Some(s@),
                None => None,
            },
        }
    }
}

impl Op {
    /// How the comparison is written before its operand.
    pub open spec fn written(self) -> Seq<char> {
        match self {
            Op::Eq => "="@,
            Op::Ne => "<>"@,
            Op::Gt => ">"@,
            Op::Ge => ">="@,
            Op::Lt => "<"@,
            Op::Le => "<="@,
        }
    }

    /// Whether the comparison is one of order.
    pub open spec fn ordering(self) -> bool {
        self != Op::Eq && self != Op::Ne
    }

    /// Whether an operand of the comparison reads as a number: a decimal number, and for a
    /// comparison of order one of the words for infinity and for what is not a number too.
    pub open spec fn reads(self, operand: Seq<char>) -> bool {
        if self.ordering() {
            crate::text::number_literal(operand)
        } else {
            crate::text::decimal(crate::text::unsigned(operand))
        }
    }

    /// The number that an operand of the comparison reads as.
    fn read_number(self, operand: &str) -> (r: Option<Number>)
        ensures
            r is Some <==> self.reads(operand@),
            r matches Some(n) ==> n == crate::decimal::literal_number(operand@),
    {
        match self {
            Op::Eq | Op::Ne => parse_decimal(operand),
            _ => parse_number(operand),
        }
    }

    /// How the comparison is written before its operand.
    pub fn symbol(self) -> (r: &'static str)
        ensures
            r@ == self.written(),
    {
        match self {
            Op::Eq => "=",
            Op::Ne => "<>",
            Op::Gt => ">",
            Op::Ge => ">=",
            Op::Lt => "<",
            Op::Le => "<=",
        }
    }
}

/// The comparison that a criterion begins with, the longer before the shorter.
pub open spec fn operator(s: Seq<char>) -> Option<Op> {
    if s.len() >= 2 && s[0] == '>' && s[1] == '=' {
        Some(Op::Ge)
    } else if s.len() >= 2 && s[0] == '<' && s[1] == '=' {
        Some(Op::Le)
    } else if s.len() >= 2 && s[0] == '<' && s[1] == '>' {
        Some(Op::Ne)
    } else if s.len() >= 1 && s[0] == '>' {
        Some(Op::Gt)
    } else if s.len() >= 1 && s[0] == '<' {
        Some(Op::Lt)
    } else if s.len() >= 1 && s[0] == '=' {
        Some(Op::Eq)
    } else {
        None
    }
}

/// How the comparison of a criterion is written; nothing where there is none.
pub open spec fn operator_text(s: Seq<char>) -> Seq<char> {
    match operator(s) {
        Some(op) => op.written(),
        None => ""@,
    }
}

/// What a criterion compares with: the text behind the comparison, trimmed.
pub open spec fn operand(s: Seq<char>) -> Seq<char> {
    match operator(s) {
        Some(op) => if op == Op::Ge || op == Op::Le || op == Op::Ne {
            crate::text::trimmed(s.skip(2))
        } else {
            crate::text::trimmed(s.skip(1))
        },
        None => crate::text::trimmed(s),
    }
}

/// Whether a text holds a wildcard.
pub open spec fn has_wildcard(s: Seq<char>) -> bool {
    s.contains('*') || s.contains('?')
}

/// The comparison that a criterion begins with, and its operand.
pub fn split_operator(s: &str) -> (r: (Option<Op>, String))
    ensures
        r.0 == operator(s@),
        r.1@ == operand(s@),
{
    let n = s.unicode_len();
    let first: Option<char> = if n >= 1 {
        Some(s.get_char(0))
    } else {
        None
    };
    let second: Option<char> = if n >= 2 {
        Some(s.get_char(1))
    } else {
        None
    };
    let (op, k): (Option<Op>, usize) = match (first, second) {
        (Some('>'), Some('=')) => (Some(Op::Ge), 2),
        (Some('<'), Some('=')) => (Some(Op::Le), 2),
        (Some('<'), Some('>')) => (Some(Op::Ne), 2),
        (Some('>'), _) => (Some(Op::Gt), 1),
        (Some('<'), _) => (Some(Op::Lt), 1),
        (Some('='), _) => (Some(Op::Eq), 1),
        _ => (None, 0),
    };
    let rest = s.substring_char(k, n);
    assert(rest@ =~= s@.skip(k as int));
    assert(s@.skip(0) =~= s@);
    (op, trim(rest).to_owned())
}

impl CellView {
    /// The criterion that a cell stands for, or the text of one that combines a wildcard with an
    /// order comparison. A plain value stands for equality.
    pub open spec fn meaning(self) -> Result<CriteriaView, ErrorView> {
        match self {
            CellView::Text(s) => {
                let rest = operand(s);
                match operator(s) {
                    Some(op) => if op.reads(rest) {
                        Ok(criterion(op, CellView::Num(crate::decimal::literal_number(rest))))
                    } else if has_wildcard(rest) {
                        if op == Op::Eq || op == Op::Ne {
                            Ok(pattern(op, rest))
                        } else {
                            Err(ErrorView::InvalidCriteria(s))
                        }
                    } else {
                        Ok(criterion(op, CellView::Text(rest)))
                    },
                    None => if has_wildcard(s) {
                        Ok(pattern(Op::Eq, s))
                    } else if Op::Eq.reads(rest) {
                        Ok(criterion(Op::Eq, CellView::Num(crate::decimal::literal_number(rest))))
                    } else {
                        Ok(criterion(Op::Eq, self))
                    },
                }
            },
            _ => Ok(criterion(Op::Eq, self)),
        }
    }
}

/// A comparison with a value.
pub open spec fn criterion(op: Op, value: CellView) -> CriteriaView {
    CriteriaView { op, value, wildcard: None }
}

/// A comparison with a pattern.
pub open spec fn pattern(op: Op, text: Seq<char>) -> CriteriaView {
    CriteriaView { op, value: CellView::Text(text), wildcard: Some(text) }
}

/// Whether a text holds a wildcard.
fn is_wildcard(s: &str) -> (r: bool)
    ensures
        r == has_wildcard(s@),
{
    contains_char(s, '*') || contains_char(s, '?')
}

/// Parses a criterion. A wildcard with an order comparison can match nothing, and is refused.
pub fn parse_criteria(given: &CellValue) -> (r: Result<Criteria, FormulaError>)
    ensures
        match r {
            Ok(c) => given@.meaning() == Ok::<CriteriaView, ErrorView>(c@),
            Err(e) => given@.meaning() == Err::<CriteriaView, ErrorView>(e@),
        },
{
    match given {
        CellValue::Num(n) => Ok(
            Criteria { op: Op::Eq, value: CellValue::Num(*n), wildcard: None },
        ),
        CellValue::Empty => Ok(
            Criteria { op: Op::Eq, value: CellValue::Empty, wildcard: None },
        ),
        CellValue::Text(s) => {
            let (op, rest) = split_operator(s.as_str());
            match op {
                Some(op) => if let Some(n) = op.read_number(rest.as_str()) {
                    Ok(Criteria { op, value: CellValue::Num(n), wildcard: None })
                } else if is_wildcard(rest.as_str()) {
                    if op == Op::Eq || op == Op::Ne {
                        Ok(
                            Criteria {
                                op,
                                value: CellValue::Text(rest.clone()),
                                wildcard: Some(rest),
                            },
                        )
                    } else {
                        Err(FormulaError::InvalidCriteria(s.clone()))
                    }
                } else {
                    Ok(Criteria { op, value: CellValue::Text(rest), wildcard: None })
                },
                None => if is_wildcard(s.as_str()) {
                    Ok(
                        Criteria {
                            op: Op::Eq,
                            value: CellValue::Text(s.clone()),
                            wildcard: Some(s.clone()),
                        },
                    )
                } else if let Some(n) = Op::Eq.read_number(rest.as_str()) {
                    Ok(Criteria { op: Op::Eq, value: CellValue::Num(n), wildcard: None })
                } else {
                    Ok(
                        Criteria {
                            op: Op::Eq,
                            value: CellValue::Text(s.clone()),
                            wildcard: None,
                        },
                    )
                },
            }
        },
    }
}

impl Op {
    /// The comparison of two numbers, `v` against `c`. Equality is within the tolerance.
    pub open spec fn of_numbers(self, v: Number, c: Number) -> bool {
        match self {
            Op::Eq => v.near(c),
            Op::Ne => v.apart(c),
            Op::Gt => c.lt(v),
            Op::Ge => c.le(v),
            Op::Lt => v.lt(c),
            Op::Le => v.le(c),
        }
    }

    /// The comparison of two texts, `v` against `c`, in lower case.
    pub open spec fn of_texts(self, v: Seq<char>, c: Seq<char>) -> bool {
        let a = crate::text::lowercase(v);
        let b = crate::text::lowercase(c);
        match self {
            Op::Eq => a == b,
            Op::Ne => a != b,
            Op::Gt => crate::text::text_before(b, a),
            Op::Ge => !crate::text::text_before(a, b),
            Op::Lt => crate::text::text_before(a, b),
            Op::Le => !crate::text::text_before(b, a),
        }
    }

    /// Compares two numbers.
    pub fn compare_numbers(self, v: Number, c: Number) -> (r: bool)
        ensures
            r == self.of_numbers(v, c),
    {
        match self {
            Op::Eq => v.is_near(c),
            Op::Ne => v.is_apart(c),
            Op::Gt => c.below(v),
            Op::Ge => c.at_most(v),
            Op::Lt => v.below(c),
            Op::Le => v.at_most(c),
        }
    }

    /// Compares two texts.
    pub fn compare_texts(self, v: &str, c: &str) -> (r: bool)
        ensures
            r == self.of_texts(v@, c@),
    {
        match self {
            Op::Eq => text_eq_ci(v, c),
            Op::Ne => !text_eq_ci(v, c),
            _ => {
                let x = to_lowercase(v);
                let y = to_lowercase(c);
                let (a, b) = (x.as_str(), y.as_str());
                match self {
                    Op::Gt => text_less(b, a),
                    Op::Ge => !text_less(a, b),
                    Op::Lt => text_less(a, b),
                    _ => !text_less(b, a),
                }
            },
        }
    }
}

impl CriteriaView {
    /// Whether a cell satisfies the criterion. Patterns apply to texts alone; values of different
    /// kinds are unequal, and equal to none in any other way.
    pub open spec fn holds(self, cell: CellView) -> bool {
        match self.wildcard {
            Some(p) => match cell {
                CellView::Text(t) => {
                    let hit = crate::text::glob(
                        crate::text::lowercase(p),
                        crate::text::lowercase(t),
                    );
                    (self.op == Op::Eq && hit) || (self.op == Op::Ne && !hit)
                },
                _ => false,
            },
            None => match (self.value, cell) {
                (CellView::Num(c), CellView::Num(v)) => self.op.of_numbers(v, c),
                (CellView::Text(c), CellView::Text(v)) => self.op.of_texts(v, c),
                (CellView::Empty, CellView::Empty) => self.op == Op::Eq,
                _ => self.op == Op::Ne,
            },
        }
    }

    /// Whether the criterion is a plain equality, and so is answered by a key.
    pub open spec fn keyed(self) -> bool {
        self.wildcard is None && self.op == Op::Eq
    }
}

/// Whether a cell satisfies a criterion.
pub fn matches(cell: &CellValue, criteria: &Criteria) -> (r: bool)
    ensures
        r == criteria@.holds(cell@),
{
    if let Some(p) = &criteria.wildcard {
        return match cell {
            CellValue::Text(t) => {
                let hit = wildcard_match(p.as_str(), t.as_str());
                match criteria.op {
                    Op::Eq => hit,
                    Op::Ne => !hit,
                    _ => false,
                }
            },
            _ => false,
        };
    }
    match (&criteria.value, cell) {
        (CellValue::Num(c), CellValue::Num(v)) => criteria.op.compare_numbers(*v, *c),
        (CellValue::Text(c), CellValue::Text(v)) => criteria.op.compare_texts(
            v.as_str(),
            c.as_str(),
        ),
        (CellValue::Empty, CellValue::Empty) => criteria.op == Op::Eq,
        _ => criteria.op == Op::Ne,
    }
}

/// The key of a plain equality; none for any other criterion.
pub fn criteria_key(c: &Criteria) -> (r: Option<LookupKey>)
    ensures
        r is Some <==> c@.keyed(),
        r matches Some(k) ==> k@ == c@.value.key(),
{
    if c.wildcard.is_some() || c.op != Op::Eq {
        None
    } else {
        Some(cell_to_key(&c.value))
    }
}

/// What a list of criteria stands for, or what is wrong with the first that is refused.
pub open spec fn meanings(inputs: Seq<CellView>) -> Result<Seq<CriteriaView>, ErrorView>
    decreases inputs.len(),
{
    if inputs.len() == 0 {
        Ok(Seq::empty())
    } else {
        match meanings(inputs.drop_last()) {
            Ok(before) => match inputs.last().meaning() {
                Ok(c) => Ok(before.push(c)),
                Err(e) => Err(e),
            },
            Err(e) => Err(e),
        }
    }
}

/// Some criteria, as contracts speak of them.
pub open spec fn views(criteria: Seq<Criteria>) -> Seq<CriteriaView> {
    Seq::new(criteria.len(), |i: int| criteria[i]@)
}

/// A criterion that is refused has all of the list refused.
pub(crate) proof fn lemma_first_refusal(inputs: Seq<CellView>, k: int)
    requires
        0 < k <= inputs.len(),
        meanings(inputs.take(k)) is Err,
    ensures
        meanings(inputs) == meanings(inputs.take(k)),
    decreases inputs.len(),
{
    if k == inputs.len() {
        assert(inputs.take(k) =~= inputs);
    } else {
        assert(inputs.drop_last().take(k) =~= inputs.take(k));
        lemma_first_refusal(inputs.drop_last(), k);
    }
}

/// A list of criteria stands for one criterion each.
pub(crate) proof fn lemma_meanings(inputs: Seq<CellView>)
    ensures
        meanings(inputs) matches Ok(v) ==> v.len() == inputs.len() && forall|i: int|
            0 <= i < v.len() ==> (#[trigger] inputs[i]).meaning() == Ok::<CriteriaView, ErrorView>(
                v[i],
            ),
    decreases inputs.len(),
{
    if inputs.len() > 0 {
        lemma_meanings(inputs.drop_last());
        if let Ok(v) = meanings(inputs) {
            assert forall|i: int| 0 <= i < v.len() implies (#[trigger] inputs[i]).meaning() == Ok::<
                CriteriaView,
                ErrorView,
            >(v[i]) by {
                if i < inputs.len() - 1 {
                    assert(inputs.drop_last()[i] == inputs[i]);
                }
            }
        }
    }
}

/// Parses a list of criteria, up to the first that is refused.
pub(crate) fn parse_all(inputs: &Vec<CellValue>) -> (r: Result<Vec<Criteria>, FormulaError>)
    ensures
        match r {
            Ok(v) => meanings(crate::selection::cells(inputs@)) == Ok::<Seq<CriteriaView>, ErrorView>(views(v@)),
            Err(e) => meanings(crate::selection::cells(inputs@)) == Err::<Seq<CriteriaView>, ErrorView>(e@),
        },
{
    let ghost all = crate::selection::cells(inputs@);
    let mut out: Vec<Criteria> = Vec::new();
    let mut i: usize = 0;
    assert(views(out@) =~= Seq::empty());
    while i < inputs.len()
        invariant
            i <= inputs@.len(),
            all == crate::selection::cells(inputs@),
            meanings(all.take(i as int)) == Ok::<Seq<CriteriaView>, ErrorView>(views(out@)),
        decreases inputs@.len() - i,
    {
        assert(all.take(i + 1).drop_last() =~= all.take(i as int));
        match parse_criteria(&inputs[i]) {
            Ok(c) => {
                let ghost before = views(out@);
                out.push(c);
                assert(views(out@) =~= before.push(c@));
            },
            Err(e) => {
                proof {
                    lemma_first_refusal(all, i + 1);
                }
                return Err(e);
            },
        }
        i = i + 1;
    }
    assert(all.take(i as int) =~= all);
    Ok(out)
}

}

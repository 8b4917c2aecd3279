//! What the formulas answer when they have no value.
use vstd::prelude::*;
use vstd::string::*;

verus! {

/// The formulas, as their errors name them.
#[derive(Clone, Copy, Debug, PartialEq, Eq, Structural)]
pub enum Formula {
    Min,
    Max,
    Average,
    SumIf,
    AverageIf,
    CountIfs,
    SumIfs,
    AverageIfs,
    MinIfs,
    MaxIfs,
    LookupIfs,
    Vlookup,
    Xlookup,
}

/// Why a formula has no value.
#[derive(Clone, Debug)]
pub enum FormulaError {
    /// No cell of the range is numeric.
    NoNumericValues(Formula),
    /// No selected cell is numeric.
    NoMatchingValues(Formula),
    /// The second range is not as long as the first.
    TargetLength(Formula),
    /// No range with a criterion was given.
    NoPairs(Formula),
    /// The ranges differ in length.
    RangeLength(Formula),
    /// The columns of criteria differ in length.
    CriteriaLength(Formula),
    /// The column number is 0.
    ColumnZero,
    /// The column number is beyond the end of the row.
    ColumnBeyondRow,
    /// The keys and the values to return differ in length.
    ReturnLength(Formula),
    /// No row comes at or before the value looked up.
    NoApproximateMatch,
    /// The value looked up is not there.
    NotFound(Formula),
    /// The criterion combines a wildcard with an order comparison.
    InvalidCriteria(String),
}

/// A [`FormulaError`] with its text as a sequence of characters.
pub enum ErrorView {
    NoNumericValues(Formula),
    NoMatchingValues(Formula),
    TargetLength(Formula),
    NoPairs(Formula),
    RangeLength(Formula),
    CriteriaLength(Formula),
    ColumnZero,
    ColumnBeyondRow,
    ReturnLength(Formula),
    NoApproximateMatch,
    NotFound(Formula),
    InvalidCriteria(Seq<char>),
}

impl View for FormulaError {
    type V = ErrorView;

    open spec fn view(&self) -> ErrorView {
        match *self {
            FormulaError::NoNumericValues(f) => ErrorView::NoNumericValues(f),
            FormulaError::NoMatchingValues(f) => ErrorView::NoMatchingValues(f),
            FormulaError::TargetLength(f) => ErrorView::TargetLength(f),
            FormulaError::NoPairs(f) => ErrorView::NoPairs(f),
            FormulaError::RangeLength(f) => ErrorView::RangeLength(f),
            FormulaError::CriteriaLength(f) => ErrorView::CriteriaLength(f),
            FormulaError::ColumnZero => ErrorView::ColumnZero,
            FormulaError::ColumnBeyondRow => ErrorView::ColumnBeyondRow,
            FormulaError::ReturnLength(f) => ErrorView::ReturnLength(f),
            FormulaError::NoApproximateMatch => ErrorView::NoApproximateMatch,
            FormulaError::NotFound(f) => ErrorView::NotFound(f),
            FormulaError::InvalidCriteria(s) => ErrorView::InvalidCriteria(s@),
        }
    }
}

/// What `{:?}` makes of a string.
pub uninterp spec fn debug_quoted(s: Seq<char>) -> Seq<char>;

/// Calls `format!` with `{:?}`, the `Debug` form of a string: its characters escaped and between
/// double quotes. The result is named [`debug_quoted`].
#[verifier::external_body]
fn quote(s: &str) -> (r: String)
    ensures
        r@ == debug_quoted(s@),
{
    format!("{:?}", s)
}

impl Formula {
    /// The name of the formula.
    pub open spec fn title(self) -> Seq<char> {
        match self {
            Formula::Min => "MIN"@,
            Formula::Max => "MAX"@,
            Formula::Average => "AVERAGE"@,
            Formula::SumIf => "SUMIF"@,
            Formula::AverageIf => "AVERAGEIF"@,
            Formula::CountIfs => "COUNTIFS"@,
            Formula::SumIfs => "SUMIFS"@,
            Formula::AverageIfs => "AVERAGEIFS"@,
            Formula::MinIfs => "MINIFS"@,
            Formula::MaxIfs => "MAXIFS"@,
            Formula::LookupIfs => "LOOKUPIFS"@,
            Formula::Vlookup => "VLOOKUP"@,
            Formula::Xlookup => "XLOOKUP"@,
        }
    }

    /// The name of the formula.
    pub fn name(self) -> (r: &'static str)
        ensures
            r@ == self.title(),
    {
        match self {
            Formula::Min => "MIN",
            Formula::Max => "MAX",
            Formula::Average => "AVERAGE",
            Formula::SumIf => "SUMIF",
            Formula::AverageIf => "AVERAGEIF",
            Formula::CountIfs => "COUNTIFS",
            Formula::SumIfs => "SUMIFS",
            Formula::AverageIfs => "AVERAGEIFS",
            Formula::MinIfs => "MINIFS",
            Formula::MaxIfs => "MAXIFS",
            Formula::LookupIfs => "LOOKUPIFS",
            Formula::Vlookup => "VLOOKUP",
            Formula::Xlookup => "XLOOKUP",
        }
    }

    /// What the formula calls its second range, in the words of its length errors.
    pub open spec fn target_title(self) -> Seq<char> {
        match self {
            Formula::SumIf => "sum_range"@,
            Formula::SumIfs => "sum_range"@,
            Formula::AverageIf => "average_range"@,
            Formula::AverageIfs => "average_range"@,
            Formula::MinIfs => "min_range"@,
            Formula::MaxIfs => "max_range"@,
            _ => ""@,
        }
    }

    fn target_name(self) -> (r: &'static str)
        ensures
            r@ == self.target_title(),
    {
        match self {
            Formula::SumIf => "sum_range",
            Formula::SumIfs => "sum_range",
            Formula::AverageIf => "average_range",
            Formula::AverageIfs => "average_range",
            Formula::MinIfs => "min_range",
            Formula::MaxIfs => "max_range",
            _ => "",
        }
    }
}

impl ErrorView {
    /// The message of an error.
    pub open spec fn words(self) -> Seq<char> {
        match self {
            ErrorView::NoNumericValues(f) => f.title() + ": no numeric values found"@ + (if f
                == Formula::Average {
                " (division by zero)"@
            } else {
                ""@
            }),
            ErrorView::NoMatchingValues(f) => f.title() + ": no matching numeric values found"@,
            ErrorView::TargetLength(f) => f.title() + ": "@ + f.target_title()
                + " must be the same length as range"@,
            ErrorView::NoPairs(f) => f.title()
                + ": at least one range/criteria pair is required"@,
            ErrorView::RangeLength(f) => f.title() + ": all ranges must be the same length"@ + (
            if f.target_title() == ""@ {
                ""@
            } else {
                " as "@ + f.target_title()
            }),
            ErrorView::CriteriaLength(f) => f.title()
                + ": all criteria columns must be the same length"@,
            ErrorView::ColumnZero =>
                "VLOOKUP: col_index is 1-based; use 1 for the first column"@,
            ErrorView::ColumnBeyondRow => "VLOOKUP: col_index is out of range for the table"@,
            ErrorView::ReturnLength(f) => if f == Formula::Xlookup {
                "XLOOKUP: lookup_array and return_array must be the same length"@
            } else {
                "VLOOKUP: key column and return column must be the same length"@
            },
            ErrorView::NoApproximateMatch => "VLOOKUP: #N/A - no approximate match found"@,
            ErrorView::NotFound(f) => f.title() + ": #N/A - value not found"@,
            ErrorView::InvalidCriteria(s) => "Invalid criteria "@ + debug_quoted(s)
                + ": a wildcard ('*' or '?') can't be combined with the '"@
                + crate::criteria::operator_text(s)
                + "' comparison operator. Wildcards only work with equality ('=') or not-equal ('<>') — e.g. \"="@
                + crate::criteria::operand(s) + "\" or \"<>"@ + crate::criteria::operand(s)
                + "\"."@,
        }
    }
}

/// Joins two pieces of text.
fn join(a: &str, b: &str) -> (r: String)
    ensures
        r@ == a@ + b@,
{
    let mut r = a.to_owned();
    r.append(b);
    r
}

impl FormulaError {
    /// The message of the error.
    pub fn message(&self) -> (r: String)
        ensures
            r@ == self@.words(),
    {
        match self {
            FormulaError::NoNumericValues(f) => {
                let mut r = join(f.name(), ": no numeric values found");
                r.append(
                    if *f == Formula::Average {
                        " (division by zero)"
                    } else {
                        ""
                    },
                );
                r
            },
            FormulaError::NoMatchingValues(f) => join(
                f.name(),
                ": no matching numeric values found",
            ),
            FormulaError::TargetLength(f) => {
                let mut r = join(f.name(), ": ");
                r.append(f.target_name());
                r.append(" must be the same length as range");
                r
            },
            FormulaError::NoPairs(f) => join(
                f.name(),
                ": at least one range/criteria pair is required",
            ),
            FormulaError::RangeLength(f) => {
                let mut r = join(f.name(), ": all ranges must be the same length");
                let target = f.target_name();
                proof {
                    reveal_strlit("");
                }
                if target.is_empty() {
                    assert(target@ =~= ""@);
                    r.append("");
                } else {
                    r.append(join(" as ", target).as_str());
                }
                r
            },
            FormulaError::CriteriaLength(f) => join(
                f.name(),
                ": all criteria columns must be the same length",
            ),
            FormulaError::ColumnZero =>
                "VLOOKUP: col_index is 1-based; use 1 for the first column".to_owned(),
            FormulaError::ColumnBeyondRow =>
                "VLOOKUP: col_index is out of range for the table".to_owned(),
            FormulaError::ReturnLength(f) => if *f == Formula::Xlookup {
                "XLOOKUP: lookup_array and return_array must be the same length".to_owned()
            } else {
                "VLOOKUP: key column and return column must be the same length".to_owned()
            },
            FormulaError::NoApproximateMatch =>
                "VLOOKUP: #N/A - no approximate match found".to_owned(),
            FormulaError::NotFound(f) => join(f.name(), ": #N/A - value not found"),
            FormulaError::InvalidCriteria(s) => {
                let (op, operand) = crate::criteria::split_operator(s.as_str());
                let prefix = match op {
                    Some(op) => op.symbol(),
                    None => "",
                };
                let mut r = join("Invalid criteria ", quote(s.as_str()).as_str());
                r.append(": a wildcard ('*' or '?') can't be combined with the '");
                r.append(prefix);
                r.append(
                    "' comparison operator. Wildcards only work with equality ('=') or not-equal ('<>') — e.g. \"=",
                );
                r.append(operand.as_str());
                r.append("\" or \"<>");
                r.append(operand.as_str());
                r.append("\".");
                r
            },
        }
    }
}

}

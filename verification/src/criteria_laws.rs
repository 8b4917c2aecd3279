//! What holds of criteria: how they are read, and which cells satisfy them.
use vstd::prelude::*;
use vstd::string::*;
use vstd::utf8::*;
use crate::cell::{CellView, RawValue};
use crate::criteria::{CriteriaView, Op};
use crate::error::ErrorView;
use crate::number::{Number, INFINITY, SIGN};

verus! {

/// A criterion begins with its comparison, the longest that fits; what is behind it, without the
/// white space at the ends, is what it compares with.
pub proof fn law_operators(r: Seq<char>)
    ensures
        crate::criteria::operator(seq!['>', '='] + r) == Some(Op::Ge),
        crate::criteria::operator(seq!['<', '='] + r) == Some(Op::Le),
        crate::criteria::operator(seq!['<', '>'] + r) == Some(Op::Ne),
        crate::criteria::operator(seq!['='] + r) == Some(Op::Eq),
        crate::criteria::operand(seq!['>', '='] + r) == crate::text::trimmed(r),
        crate::criteria::operand(seq!['<', '='] + r) == crate::text::trimmed(r),
        crate::criteria::operand(seq!['<', '>'] + r) == crate::text::trimmed(r),
        crate::criteria::operand(seq!['='] + r) == crate::text::trimmed(r),
        r.len() == 0 || r[0] != '=' ==> crate::criteria::operator(seq!['>'] + r) == Some(Op::Gt)
            && crate::criteria::operand(seq!['>'] + r) == crate::text::trimmed(r),
        r.len() == 0 || (r[0] != '=' && r[0] != '>') ==> crate::criteria::operator(seq!['<'] + r)
            == Some(Op::Lt) && crate::criteria::operand(seq!['<'] + r) == crate::text::trimmed(r),
        r.len() == 0 || (r[0] != '=' && r[0] != '<' && r[0] != '>') ==> crate::criteria::operator(r)
            is None && crate::criteria::operand(r) == crate::text::trimmed(r),
{
    assert((seq!['>', '='] + r).skip(2) =~= r);
    assert((seq!['<', '='] + r).skip(2) =~= r);
    assert((seq!['<', '>'] + r).skip(2) =~= r);
    assert((seq!['='] + r).skip(1) =~= r);
    assert((seq!['>'] + r).skip(1) =~= r);
    assert((seq!['<'] + r).skip(1) =~= r);
    assert((seq!['>', '='] + r)[0] == '>' && (seq!['>', '='] + r)[1] == '=');
    assert((seq!['<', '='] + r)[0] == '<' && (seq!['<', '='] + r)[1] == '=');
    assert((seq!['<', '>'] + r)[0] == '<' && (seq!['<', '>'] + r)[1] == '>');
    assert((seq!['='] + r)[0] == '=');
    assert((seq!['>'] + r)[0] == '>');
    assert((seq!['<'] + r)[0] == '<');
    if r.len() > 0 {
        assert((seq!['>'] + r)[1] == r[0]);
        assert((seq!['<'] + r)[1] == r[0]);
    }
}

/// A comparison is written in front of its operand as it is read there.
pub proof fn law_written_operators(op: Op, r: Seq<char>)
    requires
        op == Op::Gt ==> r.len() == 0 || r[0] != '=',
        op == Op::Lt ==> r.len() == 0 || (r[0] != '=' && r[0] != '>'),
    ensures
        crate::criteria::operator(op.written() + r) == Some(op),
        crate::criteria::operand(op.written() + r) == crate::text::trimmed(r),
        crate::criteria::operator_text(op.written() + r) == op.written(),
{
    reveal_strlit("=");
    reveal_strlit("<>");
    reveal_strlit(">");
    reveal_strlit(">=");
    reveal_strlit("<");
    reveal_strlit("<=");
    law_operators(r);
    match op {
        Op::Eq => assert(op.written() =~= seq!['=']),
        Op::Ne => assert(op.written() =~= seq!['<', '>']),
        Op::Gt => assert(op.written() =~= seq!['>']),
        Op::Ge => assert(op.written() =~= seq!['>', '=']),
        Op::Lt => assert(op.written() =~= seq!['<']),
        Op::Le => assert(op.written() =~= seq!['<', '=']),
    }
}

/// A criterion with a number compares numbers by their values: `>` holds of the greater ones, `<` of
/// the lesser ones, `>=` and `<=` of equal ones too. `=` holds where the difference is below the
/// tolerance, and `<>` where it does not.
pub proof fn law_numbers_are_compared(c: Number, v: Number)
    requires
        c.finite(),
        v.finite(),
    ensures
        crate::criteria::criterion(Op::Gt, CellView::Num(c)).holds(CellView::Num(v)) <==> v.exact()
            > c.exact(),
        crate::criteria::criterion(Op::Ge, CellView::Num(c)).holds(CellView::Num(v)) <==> v.exact()
            >= c.exact(),
        crate::criteria::criterion(Op::Lt, CellView::Num(c)).holds(CellView::Num(v)) <==> v.exact()
            < c.exact(),
        crate::criteria::criterion(Op::Le, CellView::Num(c)).holds(CellView::Num(v)) <==> v.exact()
            <= c.exact(),
        v.exact() == c.exact() ==> crate::criteria::criterion(Op::Eq, CellView::Num(c)).holds(
            CellView::Num(v),
        ),
        forall|d: Number| #[trigger]
            d.nearest(v.distance(c)) ==> (crate::criteria::criterion(
                Op::Eq,
                CellView::Num(c),
            ).holds(CellView::Num(v)) <==> d.lt(Number::of(crate::number::TOLERANCE as int))),
        crate::criteria::criterion(Op::Ne, CellView::Num(c)).holds(CellView::Num(v))
            <==> !crate::criteria::criterion(Op::Eq, CellView::Num(c)).holds(CellView::Num(v)),
{
    crate::number::law_order_is_by_value(c, v);
    crate::number::law_order_is_by_value(v, c);
    crate::laws::law_near_is_symmetric(v, c);
    crate::number::lemma_tolerance_is_positive();
    assert forall|d: Number| #[trigger] d.nearest(v.distance(c)) implies (
    crate::criteria::criterion(Op::Eq, CellView::Num(c)).holds(CellView::Num(v)) <==> d.lt(
        Number::of(crate::number::TOLERANCE as int),
    )) by {
        crate::number::law_near_is_rounded_difference(v, c, d);
    }
}

/// Every finite number is below infinity and above its opposite, and equal to neither. Nothing
/// compares with what is not a number.
pub proof fn law_infinities_are_compared(op: Op, c: Number, v: Number)
    requires
        v.finite(),
    ensures
        c.bits == INFINITY ==> (crate::criteria::criterion(op, CellView::Num(c)).holds(
            CellView::Num(v),
        ) <==> op == Op::Lt || op == Op::Le || op == Op::Ne),
        c.bits == INFINITY + SIGN ==> (crate::criteria::criterion(op, CellView::Num(c)).holds(
            CellView::Num(v),
        ) <==> op == Op::Gt || op == Op::Ge || op == Op::Ne),
        c.nan() ==> !crate::criteria::criterion(op, CellView::Num(c)).holds(CellView::Num(v)),
{
}

/// The tolerance is the double nearest to one billionth: its significand times a billion, in the unit
/// of its last place, is within half a billion of the power of two that stands for 1.
pub proof fn law_tolerance_is_one_billionth()
    ensures
        ({
            let t = Number::of(crate::number::TOLERANCE as int);
            let one: int = 0x4_0000_0000_0000_0000_0000;
            &&& t.scale() + 82 == 1074
            &&& one == vstd::arithmetic::power2::pow2(82)
            &&& 2 * (t.significand() * 1_000_000_000 - one) <= 1_000_000_000
            &&& 2 * (one - t.significand() * 1_000_000_000) <= 1_000_000_000
        }),
{
    vstd::arithmetic::power2::lemma_pow2_adds(41, 41);
    vstd::arithmetic::power2::lemma2_to64_rest();
}

/// A criterion with a text compares texts in lower case, in the order of texts: `>` holds of those
/// that come after it, `<` of those that come before it, and `=` of those that are the same.
pub proof fn law_texts_are_compared(c: Seq<char>, v: Seq<char>)
    ensures
        ({
            let (x, y) = (crate::text::lowercase(v), crate::text::lowercase(c));
            let cell = CellView::Text(v);
            &&& crate::criteria::criterion(Op::Eq, CellView::Text(c)).holds(cell) <==> x == y
            &&& crate::criteria::criterion(Op::Ne, CellView::Text(c)).holds(cell) <==> x != y
            &&& crate::criteria::criterion(Op::Gt, CellView::Text(c)).holds(cell)
                <==> crate::text::text_before(y, x)
            &&& crate::criteria::criterion(Op::Ge, CellView::Text(c)).holds(cell) <==> (x == y
                || crate::text::text_before(y, x))
            &&& crate::criteria::criterion(Op::Lt, CellView::Text(c)).holds(cell)
                <==> crate::text::text_before(x, y)
            &&& crate::criteria::criterion(Op::Le, CellView::Text(c)).holds(cell) <==> (x == y
                || crate::text::text_before(x, y))
        }),
{
    let (x, y) = (crate::text::lowercase(v), crate::text::lowercase(c));
    crate::text::law_text_order(x, y, x);
    crate::text::law_text_order(y, x, y);
}

/// A cell of another kind than the value of a criterion is unequal to it, and compares with it in no
/// other way; a blank is equal to a blank, and not unequal.
pub proof fn law_kinds_do_not_mix(op: Op, value: CellView, cell: CellView)
    requires
        !(value is Num && cell is Num),
        !(value is Text && cell is Text),
    ensures
        crate::criteria::criterion(op, value).holds(cell) <==> (if value is Empty && cell is Empty {
            op == Op::Eq
        } else {
            op == Op::Ne
        }),
{
}

/// A pattern is held against texts alone, without regard to letter case.
pub proof fn law_patterns_are_matched(p: Seq<char>, cell: CellView)
    ensures
        crate::criteria::pattern(Op::Eq, p).holds(cell) <==> (cell matches CellView::Text(t)
            && crate::text::glob(crate::text::lowercase(p), crate::text::lowercase(t))),
        crate::criteria::pattern(Op::Ne, p).holds(cell) <==> (cell matches CellView::Text(t)
            && !crate::text::glob(crate::text::lowercase(p), crate::text::lowercase(t))),
{
}

/// With stars around it, a plain ASCII text finds the texts that hold it, with a star behind it those
/// that begin with it, and with one before it those that end with it, whatever their letter case.
pub proof fn law_stars_around_a_text(p: Seq<char>, t: Seq<char>)
    requires
        is_ascii_chars(p),
        !p.contains('*'),
        !p.contains('?'),
    ensures
        ({
            let x = crate::text::lowercase(p);
            let y = crate::text::lowercase(t);
            let cell = CellView::Text(t);
            &&& crate::criteria::pattern(Op::Eq, seq!['*'] + p + seq!['*']).holds(cell)
                <==> crate::text_laws::within(x, y)
            &&& crate::criteria::pattern(Op::Eq, p + seq!['*']).holds(cell) <==> x.len() <= y.len()
                && y.take(x.len() as int) == x
            &&& crate::criteria::pattern(Op::Eq, seq!['*'] + p).holds(cell) <==> x.len() <= y.len()
                && y.skip(y.len() - x.len()) == x
        }),
{
    let x = crate::text::lowercase(p);
    let y = crate::text::lowercase(t);
    assert forall|c: char| c == '*' || c == '?' implies !x.contains(c) by {
        if x.contains(c) {
            let i = x.index_of(c);
            assert(x[i] == crate::text::ascii_lower(p[i]));
            assert(p.contains(p[i]));
        }
    }
    let star = seq!['*'];
    assert(is_ascii_chars(star + p + star));
    assert(is_ascii_chars(star + p));
    assert(is_ascii_chars(p + star));
    assert(crate::text::lowercase(star + p + star) =~= star + x + star);
    assert(crate::text::lowercase(star + p) =~= star + x);
    assert(crate::text::lowercase(p + star) =~= x + star);
    assert(x + star =~= x.push('*'));
    crate::text_laws::law_suffix_and_infix_patterns(x, y);
    crate::text::law_prefix_pattern(x, y);
}

/// A number or a blank stands for equality with it. A text with a comparison stands for it, with the
/// number that its operand reads as, or else the text of its operand, which is a pattern where it
/// holds a wildcard; a wildcard with a comparison of order is refused, and nothing else is.
pub proof fn law_criteria_are_read(input: CellView)
    ensures
        !(input is Text) ==> input.meaning() == Ok::<CriteriaView, ErrorView>(
            CriteriaView { op: Op::Eq, value: input, wildcard: None },
        ),
        input matches CellView::Text(s) ==> {
            let r = crate::criteria::operand(s);
            let op = match crate::criteria::operator(s) {
                Some(op) => op,
                None => Op::Eq,
            };
            let order = op == Op::Gt || op == Op::Ge || op == Op::Lt || op == Op::Le;
            &&& input.meaning() is Err <==> order && (r.contains('*') || r.contains('?'))
            &&& input.meaning() matches Err(e) ==> e == ErrorView::InvalidCriteria(s)
            &&& input.meaning() matches Ok(c) ==> c.op == op
            &&& crate::text::decimal(crate::text::unsigned(r)) ==> input.meaning() == Ok::<
                CriteriaView,
                ErrorView,
            >(
                CriteriaView {
                    op,
                    value: CellView::Num(crate::decimal::literal_number(r)),
                    wildcard: None,
                },
            )
            &&& order && crate::text::number_word(crate::text::unsigned(r)) ==> input.meaning()
                == Ok::<CriteriaView, ErrorView>(
                CriteriaView {
                    op,
                    value: CellView::Num(crate::decimal::literal_number(r)),
                    wildcard: None,
                },
            )
        },
{
    if let CellView::Text(s) = input {
        let r = crate::criteria::operand(s);
        if crate::text::number_literal(r) {
            crate::text::lemma_number_has_no_wildcard(r);
            if crate::criteria::operator(s) is None {
                if s.contains('*') {
                    lemma_trimming_keeps(s, '*');
                }
                if s.contains('?') {
                    lemma_trimming_keeps(s, '?');
                }
            }
        }
    }
}

/// What is no white space is not trimmed away.
proof fn lemma_trimming_keeps(s: Seq<char>, c: char)
    requires
        s.contains(c),
        !crate::text::white_space(c),
    ensures
        crate::text::trimmed(s).contains(c),
{
    let (a, b) = crate::text_laws::law_trimming(s);
    let i = s.index_of(c);
    assert(a <= i < b);
    assert(crate::text::trimmed(s)[i - a] == c);
}

/// A criterion that reads as no number compares with its text: with a pattern where it holds a
/// wildcard, else with the text, which a bare criterion leaves as it is given.
pub proof fn law_text_criteria_are_read(s: Seq<char>)
    ensures
        ({
            let r = crate::criteria::operand(s);
            let input = CellView::Text(s);
            match crate::criteria::operator(s) {
                Some(op) => !crate::text::number_literal(r) ==> {
                    &&& !r.contains('*') && !r.contains('?') ==> input.meaning() == Ok::<
                        CriteriaView,
                        ErrorView,
                    >(CriteriaView { op, value: CellView::Text(r), wildcard: None })
                    &&& (op == Op::Eq || op == Op::Ne) && (r.contains('*') || r.contains('?'))
                        ==> input.meaning() == Ok::<CriteriaView, ErrorView>(
                        CriteriaView { op, value: CellView::Text(r), wildcard: Some(r) },
                    )
                },
                None => {
                    &&& s.contains('*') || s.contains('?') ==> input.meaning() == Ok::<
                        CriteriaView,
                        ErrorView,
                    >(CriteriaView { op: Op::Eq, value: input, wildcard: Some(s) })
                    &&& !s.contains('*') && !s.contains('?') && !crate::text::decimal(
                        crate::text::unsigned(r),
                    ) ==> input.meaning() == Ok::<CriteriaView, ErrorView>(
                        CriteriaView { op: Op::Eq, value: input, wildcard: None },
                    )
                },
            }
        }),
{
}

/// A Python value makes the cell that it is: a number the number, a text the text, truth 1 and 0;
/// nothing, what is not a number and a blank text make a blank; and what has no number makes its text.
pub proof fn law_cells_of_values(raw: RawValue)
    ensures
        match raw {
            RawValue::Nothing => raw.cell() == CellView::Empty,
            RawValue::Bool(b) => {
                &&& raw.cell() matches CellView::Num(n) && n.bits == (if b {
                    crate::number::ONE
                } else {
                    0
                })
            },
            RawValue::Float(n) => raw.cell() == (if n.nan() {
                CellView::Empty
            } else {
                CellView::Num(n)
            }),
            RawValue::Str(s) => {
                &&& (forall|i: int| 0 <= i < s@.len() ==> crate::text::white_space(#[trigger] s@[i]))
                    ==> raw.cell() == CellView::Empty
                &&& (exists|i: int| 0 <= i < s@.len() && !crate::text::white_space(#[trigger] s@[i]))
                    ==> raw.cell() == CellView::Text(s@)
            },
            RawValue::Int { number, text } => match number {
                Some(n) => raw.cell() == RawValue::Float(n).cell(),
                None => raw.cell() == (match text {
                    Some(t) => CellView::Text(t@),
                    None => CellView::Empty,
                }),
            },
            RawValue::Other { number, text } => match number {
                Some(n) => raw.cell() == RawValue::Float(n).cell(),
                None => raw.cell() == (match text {
                    Some(t) => CellView::Text(t@),
                    None => CellView::Empty,
                }),
            },
        },
        raw.cell() matches CellView::Num(n) ==> !n.nan(),
{
    if let RawValue::Str(s) = raw {
        let ends = crate::text_laws::law_trimming(s@);
    }
}

/// The message on a criterion that is refused shows the criterion in quotes and its comparison, and
/// what to write for equality and for inequality with its operand.
pub proof fn law_refusals_say_what_to_write(s: Seq<char>)
    ensures
        ({
            let words = ErrorView::InvalidCriteria(s).words();
            let operand = crate::criteria::operand(s);
            &&& crate::text_laws::within(crate::error::debug_quoted(s), words)
            &&& crate::text_laws::within(
                seq!['\''] + crate::criteria::operator_text(s) + seq!['\''],
                words,
            )
            &&& crate::text_laws::within(seq!['"', '='] + operand + seq!['"'], words)
            &&& crate::text_laws::within(seq!['"', '<', '>'] + operand + seq!['"'], words)
        }),
{
    let words = ErrorView::InvalidCriteria(s).words();
    let operand = crate::criteria::operand(s);
    let op = crate::criteria::operator_text(s);
    let q = crate::error::debug_quoted(s);
    reveal_strlit("Invalid criteria ");
    reveal_strlit(": a wildcard ('*' or '?') can't be combined with the '");
    reveal_strlit(
        "' comparison operator. Wildcards only work with equality ('=') or not-equal ('<>') — e.g. \"=",
    );
    reveal_strlit("\" or \"<>");
    reveal_strlit("\".");
    let a = "Invalid criteria "@;
    let b = ": a wildcard ('*' or '?') can't be combined with the '"@;
    let c =
        "' comparison operator. Wildcards only work with equality ('=') or not-equal ('<>') — e.g. \"="@;
    let d = "\" or \"<>"@;
    let e = "\"."@;
    let i = a.len() as int;
    assert(words.subrange(i, i + q.len()) =~= q);
    let j = i + q.len() + b.len();
    let x = seq!['\''] + op + seq!['\''];
    assert(b[b.len() - 1] == '\'' && c[0] == '\'');
    assert(words.subrange(j - 1, j - 1 + x.len()) =~= x);
    let k = j + op.len() + c.len();
    let y = seq!['"', '='] + operand + seq!['"'];
    assert(c[c.len() - 1] == '=' && c[c.len() - 2] == '"' && d[0] == '"');
    assert(words.subrange(k - 2, k - 2 + y.len()) =~= y);
    let l = k + operand.len() + d.len();
    let z = seq!['"', '<', '>'] + operand + seq!['"'];
    assert(d[d.len() - 1] == '>' && d[d.len() - 2] == '<' && d[d.len() - 3] == '"' && e[0] == '"');
    assert(words.subrange(l - 3, l - 3 + z.len()) =~= z);
}

}

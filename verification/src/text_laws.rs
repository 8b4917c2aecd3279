//! What holds of texts: patterns, letter case, white space and order.
use vstd::prelude::*;
use vstd::utf8::*;

verus! {

/// A pattern of two parts matches a text exactly where the text can be cut so that each part matches
/// its piece.
pub proof fn law_pattern_parts(p: Seq<char>, q: Seq<char>, t: Seq<char>)
    ensures
        crate::text::glob(p + q, t) <==> exists|k: int|
            0 <= k <= t.len() && crate::text::glob(p, #[trigger] t.take(k)) && crate::text::glob(
                q,
                t.skip(k),
            ),
    decreases p.len(),
{
    if p.len() == 0 {
        assert(p + q =~= q);
        assert(t.skip(0) =~= t);
        assert(t.take(0).len() == 0);
        if crate::text::glob(q, t) {
            assert(crate::text::glob(p, t.take(0)));
        }
        if exists|k: int|
            0 <= k <= t.len() && crate::text::glob(p, #[trigger] t.take(k)) && crate::text::glob(
                q,
                t.skip(k),
            ) {
            let k = choose|k: int|
                0 <= k <= t.len() && crate::text::glob(p, #[trigger] t.take(k))
                    && crate::text::glob(q, t.skip(k));
            assert(t.take(k).len() == 0);
        }
    } else {
        let rest = p.drop_first();
        assert((p + q).drop_first() =~= rest + q);
        assert((p + q)[0] == p[0]);
        if p[0] == '*' {
            if crate::text::glob(p + q, t) {
                let i = choose|i: int|
                    0 <= i <= t.len() && crate::text::glob(
                        (p + q).drop_first(),
                        #[trigger] t.skip(i),
                    );
                let u = t.skip(i);
                law_pattern_parts(rest, q, u);
                let k = choose|k: int|
                    0 <= k <= u.len() && crate::text::glob(rest, #[trigger] u.take(k))
                        && crate::text::glob(q, u.skip(k));
                assert(t.take(i + k).skip(i) =~= u.take(k));
                assert(t.skip(i + k) =~= u.skip(k));
                assert(crate::text::glob(p, t.take(i + k)));
            }
            if exists|k: int|
                0 <= k <= t.len() && crate::text::glob(p, #[trigger] t.take(k))
                    && crate::text::glob(q, t.skip(k)) {
                let k = choose|k: int|
                    0 <= k <= t.len() && crate::text::glob(p, #[trigger] t.take(k))
                        && crate::text::glob(q, t.skip(k));
                let i = choose|i: int|
                    0 <= i <= t.take(k).len() && crate::text::glob(
                        rest,
                        #[trigger] t.take(k).skip(i),
                    );
                let u = t.skip(i);
                assert(t.take(k).skip(i) =~= u.take(k - i));
                assert(t.skip(k) =~= u.skip(k - i));
                law_pattern_parts(rest, q, u);
                assert(crate::text::glob(rest, u.take(k - i)));
                assert(crate::text::glob((p + q).drop_first(), u));
            }
        } else {
            if crate::text::glob(p + q, t) {
                let u = t.drop_first();
                law_pattern_parts(rest, q, u);
                let k = choose|k: int|
                    0 <= k <= u.len() && crate::text::glob(rest, #[trigger] u.take(k))
                        && crate::text::glob(q, u.skip(k));
                assert(t.take(k + 1).drop_first() =~= u.take(k));
                assert(t.skip(k + 1) =~= u.skip(k));
                assert(crate::text::glob(p, t.take(k + 1)));
            }
            if exists|k: int|
                0 <= k <= t.len() && crate::text::glob(p, #[trigger] t.take(k))
                    && crate::text::glob(q, t.skip(k)) {
                let k = choose|k: int|
                    0 <= k <= t.len() && crate::text::glob(p, #[trigger] t.take(k))
                        && crate::text::glob(q, t.skip(k));
                assert(t.take(k).len() > 0);
                let u = t.drop_first();
                law_pattern_parts(rest, q, u);
                assert(t.take(k).drop_first() =~= u.take(k - 1));
                assert(t.skip(k) =~= u.skip(k - 1));
                assert(crate::text::glob(rest, u.take(k - 1)));
            }
        }
    }
}

/// What each piece of a pattern stands for: nothing for nothing, `*` for any text, `?` for any one
/// character, any other character for itself.
pub proof fn law_pattern_pieces(c: char, t: Seq<char>)
    ensures
        crate::text::glob(Seq::empty(), t) <==> t.len() == 0,
        crate::text::glob(seq!['*'], t),
        crate::text::glob(seq!['?'], t) <==> t.len() == 1,
        c != '*' && c != '?' ==> (crate::text::glob(seq![c], t) <==> t == seq![c]),
{
    crate::text::law_star_matches_all(t);
    crate::text::law_question_marks_match_length(seq!['?'], t);
    if c != '*' && c != '?' {
        let p = seq![c];
        assert(p[0] == c);
        assert(!p.contains('*'));
        assert(!p.contains('?'));
        crate::text::law_plain_pattern_is_equality(p, t);
    }
}

/// A star stands for whatever is between a text's beginning that the pattern before it matches and an
/// end that the pattern behind it matches: for nothing, too.
pub proof fn law_star_is_any_run(p: Seq<char>, q: Seq<char>, t: Seq<char>)
    ensures
        crate::text::glob(p + seq!['*'] + q, t) <==> exists|i: int, j: int|
            0 <= i <= j <= t.len() && crate::text::glob(p, #[trigger] t.take(i))
                && crate::text::glob(q, #[trigger] t.skip(j)),
        crate::text::glob(p + q, t) ==> crate::text::glob(p + seq!['*'] + q, t),
{
    let star = seq!['*'];
    law_pattern_parts(p + star, q, t);
    law_pattern_parts(p, q, t);
    if crate::text::glob(p + star + q, t) {
        let j = choose|k: int|
            0 <= k <= t.len() && crate::text::glob(p + star, #[trigger] t.take(k))
                && crate::text::glob(q, t.skip(k));
        let u = t.take(j);
        law_pattern_parts(p, star, u);
        let i = choose|k: int|
            0 <= k <= u.len() && crate::text::glob(p, #[trigger] u.take(k)) && crate::text::glob(
                star,
                u.skip(k),
            );
        assert(u.take(i) =~= t.take(i));
        assert(crate::text::glob(p, t.take(i)) && crate::text::glob(q, t.skip(j)));
    }
    if crate::text::glob(p + q, t) {
        let k = choose|k: int|
            0 <= k <= t.len() && crate::text::glob(p, #[trigger] t.take(k)) && crate::text::glob(
                q,
                t.skip(k),
            );
        assert(crate::text::glob(p, t.take(k)) && crate::text::glob(q, t.skip(k)));
        assert(0 <= k <= k <= t.len());
    }
    if exists|i: int, j: int|
        0 <= i <= j <= t.len() && crate::text::glob(p, #[trigger] t.take(i)) && crate::text::glob(
            q,
            #[trigger] t.skip(j),
        ) {
        let (i, j) = choose|i: int, j: int|
            0 <= i <= j <= t.len() && crate::text::glob(p, #[trigger] t.take(i))
                && crate::text::glob(q, #[trigger] t.skip(j));
        let u = t.take(j);
        law_pattern_parts(p, star, u);
        assert(u.take(i) =~= t.take(i));
        crate::text::law_star_matches_all(u.skip(i));
        assert(crate::text::glob(p, u.take(i)));
        assert(crate::text::glob(p + star, t.take(j)));
    }
}

/// Whether a text stands in another, from some place on.
pub open spec fn within(part: Seq<char>, t: Seq<char>) -> bool {
    exists|k: int|
        0 <= k && k + part.len() <= t.len() && #[trigger] t.subrange(k, k + part.len()) == part
}

/// A plain text behind a star matches the texts that end with it, and between two stars those that
/// hold it anywhere.
pub proof fn law_suffix_and_infix_patterns(p: Seq<char>, t: Seq<char>)
    requires
        !p.contains('*'),
        !p.contains('?'),
    ensures
        crate::text::glob(seq!['*'] + p, t) <==> p.len() <= t.len() && t.skip(t.len() - p.len()) == p,
        crate::text::glob(seq!['*'] + p + seq!['*'], t) <==> within(p, t),
{
    let star = seq!['*'];
    law_pattern_parts(star, p, t);
    if crate::text::glob(star + p, t) {
        let k = choose|k: int|
            0 <= k <= t.len() && crate::text::glob(star, #[trigger] t.take(k))
                && crate::text::glob(p, t.skip(k));
        crate::text::law_plain_pattern_is_equality(p, t.skip(k));
        assert(k == t.len() - p.len());
    }
    if p.len() <= t.len() && t.skip(t.len() - p.len()) == p {
        let k = t.len() - p.len();
        crate::text::law_plain_pattern_is_equality(p, t.skip(k));
        crate::text::law_star_matches_all(t.take(k));
        assert(crate::text::glob(star, t.take(k)));
    }
    law_pattern_parts(star + p, star, t);
    if crate::text::glob(star + p + star, t) {
        let j = choose|k: int|
            0 <= k <= t.len() && crate::text::glob(star + p, #[trigger] t.take(k))
                && crate::text::glob(star, t.skip(k));
        let u = t.take(j);
        law_pattern_parts(star, p, u);
        let k = choose|k: int|
            0 <= k <= u.len() && crate::text::glob(star, #[trigger] u.take(k))
                && crate::text::glob(p, u.skip(k));
        crate::text::law_plain_pattern_is_equality(p, u.skip(k));
        assert(t.subrange(k, k + p.len()) =~= u.skip(k));
        assert(within(p, t));
    }
    if within(p, t) {
        let k = choose|k: int|
            0 <= k && k + p.len() <= t.len() && #[trigger] t.subrange(k, k + p.len()) == p;
        let u = t.take(k + p.len());
        assert(u.skip(k) =~= t.subrange(k, k + p.len()));
        crate::text::law_plain_pattern_is_equality(p, u.skip(k));
        law_pattern_parts(star, p, u);
        crate::text::law_star_matches_all(u.take(k));
        assert(crate::text::glob(star, u.take(k)));
        crate::text::law_star_matches_all(t.skip(k + p.len()));
        assert(crate::text::glob(star + p, t.take(k + p.len())));
    }
}

/// A plain text before a star and another behind it match the texts that begin with the one and end
/// with the other, without the two overlapping.
pub proof fn law_pattern_with_ends(p: Seq<char>, q: Seq<char>, t: Seq<char>)
    requires
        !p.contains('*'),
        !p.contains('?'),
        !q.contains('*'),
        !q.contains('?'),
    ensures
        crate::text::glob(p + seq!['*'] + q, t) <==> p.len() + q.len() <= t.len() && t.take(
            p.len() as int,
        ) == p && t.skip(t.len() - q.len()) == q,
{
    law_star_is_any_run(p, q, t);
    if crate::text::glob(p + seq!['*'] + q, t) {
        let (i, j) = choose|i: int, j: int|
            0 <= i <= j <= t.len() && crate::text::glob(p, #[trigger] t.take(i))
                && crate::text::glob(q, #[trigger] t.skip(j));
        crate::text::law_plain_pattern_is_equality(p, t.take(i));
        crate::text::law_plain_pattern_is_equality(q, t.skip(j));
        assert(i == p.len());
        assert(j == t.len() - q.len());
    }
    if p.len() + q.len() <= t.len() && t.take(p.len() as int) == p && t.skip(t.len() - q.len()) == q {
        let i = p.len() as int;
        let j = t.len() - q.len();
        crate::text::law_plain_pattern_is_equality(p, t.take(i));
        crate::text::law_plain_pattern_is_equality(q, t.skip(j));
        assert(crate::text::glob(p, t.take(i)) && crate::text::glob(q, t.skip(j)));
    }
}

/// Trimming takes off white space at both ends, all of it, and nothing else: what is left stands in
/// the text between white space, and neither begins nor ends with it. A text is blank exactly where
/// it is white space throughout.
pub proof fn law_trimming(s: Seq<char>) -> (ends: (int, int))
    ensures
        0 <= ends.0 <= ends.1 <= s.len(),
        crate::text::trimmed(s) == s.subrange(ends.0, ends.1),
        forall|i: int| 0 <= i < ends.0 ==> crate::text::white_space(#[trigger] s[i]),
        forall|i: int| ends.1 <= i < s.len() ==> crate::text::white_space(#[trigger] s[i]),
        ends.0 < ends.1 ==> !crate::text::white_space(s[ends.0]) && !crate::text::white_space(
            s[ends.1 - 1],
        ),
        crate::text::blank(s) <==> forall|i: int|
            0 <= i < s.len() ==> crate::text::white_space(#[trigger] s[i]),
    decreases s.len(),
{
    if s.len() > 0 && crate::text::white_space(s[0]) {
        let t = s.drop_first();
        let (a, b) = law_trimming(t);
        assert forall|i: int| 0 <= i < t.len() implies #[trigger] s[i + 1] == t[i] by {}
        assert(t.subrange(a, b) =~= s.subrange(a + 1, b + 1));
        assert forall|i: int| 0 <= i < a + 1 implies crate::text::white_space(#[trigger] s[i]) by {
            if i > 0 {
                assert(t[i - 1] == s[i]);
            }
        }
        assert forall|i: int| b + 1 <= i < s.len() implies crate::text::white_space(
            #[trigger] s[i],
        ) by {
            assert(t[i - 1] == s[i]);
        }
        if a < b {
            assert(s[a + 1] == t[a]);
        }
        (a + 1, b + 1)
    } else if s.len() > 0 && crate::text::white_space(s.last()) {
        let t = s.drop_last();
        let (a, b) = law_trimming(t);
        assert forall|i: int| 0 <= i < t.len() implies #[trigger] s[i] == t[i] by {}
        assert(t.subrange(a, b) =~= s.subrange(a, b));
        assert forall|i: int| 0 <= i < a implies crate::text::white_space(#[trigger] s[i]) by {
            assert(t[i] == s[i]);
        }
        assert forall|i: int| b <= i < s.len() implies crate::text::white_space(#[trigger] s[i]) by {
            if i < t.len() {
                assert(t[i] == s[i]);
            }
        }
        if a < b {
            assert(s[a] == t[a]);
            assert(s[b - 1] == t[b - 1]);
        }
        (a, b)
    } else {
        assert(s.subrange(0, s.len() as int) =~= s);
        (0, s.len() as int)
    }
}

/// Of the characters of ASCII, the space, the tab and the ends of lines and pages are white space.
pub proof fn law_white_space_in_ascii(c: char)
    requires
        c <= '\u{7f}',
    ensures
        crate::text::white_space(c) <==> (c == ' ' || c == '\t' || c == '\n' || c == '\u{b}' || c
            == '\u{c}' || c == '\r'),
{
}

/// Two ASCII texts differ in letter case alone exactly where they are of the same length and differ
/// at no place but in the case of a letter.
pub proof fn law_same_text_in_ascii(a: Seq<char>, b: Seq<char>)
    requires
        is_ascii_chars(a),
        is_ascii_chars(b),
    ensures
        crate::text::same_text(a, b) <==> a.len() == b.len() && forall|i: int|
            0 <= i < a.len() ==> {
                ||| #[trigger] a[i] == b[i]
                ||| 'A' <= a[i] <= 'Z' && b[i] as int == a[i] as int + 32
                ||| 'A' <= b[i] <= 'Z' && a[i] as int == b[i] as int + 32
            },
{
    let x = crate::text::lowercase(a);
    let y = crate::text::lowercase(b);
    assert(x.len() == a.len());
    assert(y.len() == b.len());
    if x == y {
        assert forall|i: int| 0 <= i < a.len() implies {
            ||| #[trigger] a[i] == b[i]
            ||| 'A' <= a[i] <= 'Z' && b[i] as int == a[i] as int + 32
            ||| 'A' <= b[i] <= 'Z' && a[i] as int == b[i] as int + 32
        } by {
            assert(x[i] == y[i]);
            assert(x[i] == crate::text::ascii_lower(a[i]));
            assert(y[i] == crate::text::ascii_lower(b[i]));
        }
    }
    if a.len() == b.len() && forall|i: int|
        0 <= i < a.len() ==> {
            ||| #[trigger] a[i] == b[i]
            ||| 'A' <= a[i] <= 'Z' && b[i] as int == a[i] as int + 32
            ||| 'A' <= b[i] <= 'Z' && a[i] as int == b[i] as int + 32
        } {
        assert forall|i: int| 0 <= i < a.len() implies x[i] == y[i] by {
            assert(x[i] == crate::text::ascii_lower(a[i]));
            assert(y[i] == crate::text::ascii_lower(b[i]));
        }
        assert(x =~= y);
    }
}

/// A text that begins another comes before it, and otherwise the first byte at which two texts
/// differ, in UTF-8, decides which comes first.
pub proof fn law_order_of_bytes(a: Seq<u8>, b: Seq<u8>, k: int)
    requires
        0 <= k <= a.len(),
        k <= b.len(),
        a.take(k) == b.take(k),
        k < a.len() && k < b.len() ==> a[k] != b[k],
    ensures
        k < a.len() && k < b.len() ==> (crate::text::bytes_before(a, b) <==> a[k] < b[k]),
        k == a.len() ==> (crate::text::bytes_before(a, b) <==> k < b.len()),
        k == b.len() ==> !crate::text::bytes_before(a, b),
    decreases a.len(),
{
    if k > 0 {
        assert(a.take(k)[0] == a[0]);
        assert(b.take(k)[0] == b[0]);
        assert(a.drop_first().take(k - 1) =~= a.take(k).drop_first());
        assert(b.drop_first().take(k - 1) =~= b.take(k).drop_first());
        law_order_of_bytes(a.drop_first(), b.drop_first(), k - 1);
    }
}

/// The order of texts is the one of a dictionary: of two ASCII texts the first character at which
/// they differ decides, and a text comes before those that it begins.
pub proof fn law_order_of_ascii_texts(a: Seq<char>, b: Seq<char>, k: int)
    requires
        is_ascii_chars(a),
        is_ascii_chars(b),
        0 <= k <= a.len(),
        k <= b.len(),
        a.take(k) == b.take(k),
        k < a.len() && k < b.len() ==> a[k] != b[k],
    ensures
        k < a.len() && k < b.len() ==> (crate::text::text_before(a, b) <==> a[k] < b[k]),
        k == a.len() ==> (crate::text::text_before(a, b) <==> k < b.len()),
        k == b.len() ==> !crate::text::text_before(a, b),
{
    is_ascii_chars_encode_utf8(a);
    is_ascii_chars_encode_utf8(b);
    let x = encode_utf8(a);
    let y = encode_utf8(b);
    assert(x.take(k) =~= y.take(k)) by {
        assert forall|i: int| 0 <= i < k implies x[i] == y[i] by {
            assert(a.take(k)[i] == a[i]);
            assert(b.take(k)[i] == b[i]);
            assert(a[i] as u8 == x[i]);
            assert(b[i] as u8 == y[i]);
        }
    }
    if k < a.len() && k < b.len() {
        assert(a[k] as u8 == x[k]);
        assert(b[k] as u8 == y[k]);
    }
    law_order_of_bytes(x, y, k);
}

/// Whether a text is made of decimal digits, one to four of them.
pub open spec fn short_digits(s: Seq<char>) -> bool {
    1 <= s.len() <= 4 && forall|i: int| 0 <= i < s.len() ==> '0' <= #[trigger] s[i] <= '9'
}

/// Three runs of digits with dashes or slashes between them look like a date where one of them has four
/// digits, and there are no more than ten characters in all. What looks like a date is made so.
pub proof fn law_dates(s: Seq<char>)
    ensures
        crate::text::date_like(s) ==> exists|i: int, j: int|
            0 <= i < j < s.len() && parts_of_a_date(
                #[trigger] s.take(i),
                s[i],
                #[trigger] s.subrange(i + 1, j),
                s[j],
                s.skip(j + 1),
            ),
        forall|a: Seq<char>, p: char, b: Seq<char>, q: char, c: Seq<char>|
            s.len() <= 10 && #[trigger] parts_of_a_date(a, p, b, q, c) && s == a + seq![p] + b
                + seq![q] + c ==> crate::text::date_like(s),
        s.len() > 10 ==> !crate::text::date_like(s),
{
    if crate::text::date_like(s) {
        let (i, j) = choose|i: int, j: int| crate::text::date_at(s, i, j);
        let (a, b, c) = (s.take(i), s.subrange(i + 1, j), s.skip(j + 1));
        assert forall|k: int| 0 <= k < a.len() implies '0' <= #[trigger] a[k] <= '9' by {
            assert(crate::text::digit(s[k]));
        }
        assert forall|k: int| 0 <= k < b.len() implies '0' <= #[trigger] b[k] <= '9' by {
            assert(crate::text::digit(s[i + 1 + k]));
        }
        assert forall|k: int| 0 <= k < c.len() implies '0' <= #[trigger] c[k] <= '9' by {
            assert(crate::text::digit(s[j + 1 + k]));
        }
        assert(parts_of_a_date(a, s[i], b, s[j], c));
    }
    assert forall|a: Seq<char>, p: char, b: Seq<char>, q: char, c: Seq<char>|
        s.len() <= 10 && #[trigger] parts_of_a_date(a, p, b, q, c) && s == a + seq![p] + b + seq![q]
            + c implies crate::text::date_like(s) by {
        let i = a.len() as int;
        let j = i + 1 + b.len();
        assert forall|k: int| 0 <= k < i implies crate::text::digit(#[trigger] s[k]) by {
            assert(s[k] == a[k]);
        }
        assert forall|k: int| i + 1 <= k < j implies crate::text::digit(#[trigger] s[k]) by {
            assert(s[k] == b[k - i - 1]);
        }
        assert forall|k: int| j + 1 <= k < s.len() implies crate::text::digit(#[trigger] s[k]) by {
            assert(s[k] == c[k - j - 1]);
        }
        assert(s[i] == p && s[j] == q);
        assert(crate::text::date_at(s, i, j));
    }
}

/// Whether these are the parts of what looks like a date.
pub open spec fn parts_of_a_date(
    a: Seq<char>,
    p: char,
    b: Seq<char>,
    q: char,
    c: Seq<char>,
) -> bool {
    &&& short_digits(a) && short_digits(b) && short_digits(c)
    &&& p == '-' || p == '/'
    &&& q == '-' || q == '/'
    &&& a.len() == 4 || b.len() == 4 || c.len() == 4
}

}

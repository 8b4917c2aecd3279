//! Text of cells: case-insensitive comparison, trimming, order, wildcards, and the tests for text
//! that reads as a number or as a date.
use vstd::prelude::*;
use vstd::string::*;
use vstd::utf8::*;

verus! {

/// What `str::to_lowercase` makes of a text that is not all ASCII.
pub uninterp spec fn unicode_lowercase(s: Seq<char>) -> Seq<char>;

/// Whether a character is white space, by the property of that name in Unicode.
pub open spec fn white_space(c: char) -> bool {
    ||| '\u{9}' <= c <= '\u{d}'
    ||| c == ' '
    ||| c == '\u{85}'
    ||| c == '\u{a0}'
    ||| c == '\u{1680}'
    ||| '\u{2000}' <= c <= '\u{200a}'
    ||| c == '\u{2028}'
    ||| c == '\u{2029}'
    ||| c == '\u{202f}'
    ||| c == '\u{205f}'
    ||| c == '\u{3000}'
}

/// The lower case of an ASCII letter; any other character itself.
pub open spec fn ascii_lower(c: char) -> char {
    if 'A' <= c <= 'Z' {
        (c as u32 + 32) as char
    } else {
        c
    }
}

/// The lower case of a text: letter by letter in ASCII text, by the rules of Unicode in other text.
pub open spec fn lowercase(s: Seq<char>) -> Seq<char> {
    if is_ascii_chars(s) {
        s.map_values(|c: char| ascii_lower(c))
    } else {
        unicode_lowercase(s)
    }
}

/// A text without the white space at both ends.
pub open spec fn trimmed(s: Seq<char>) -> Seq<char>
    decreases s.len(),
{
    if s.len() > 0 && white_space(s[0]) {
        trimmed(s.drop_first())
    } else if s.len() > 0 && white_space(s.last()) {
        trimmed(s.drop_last())
    } else {
        s
    }
}

/// Whether nothing but white space is in a text.
pub open spec fn blank(s: Seq<char>) -> bool {
    trimmed(s).len() == 0
}

/// Two texts that differ in letter case alone.
pub open spec fn same_text(a: Seq<char>, b: Seq<char>) -> bool {
    lowercase(a) == lowercase(b)
}

/// Whether `a` comes before `b` in the order of their elements.
pub open spec fn bytes_before(a: Seq<u8>, b: Seq<u8>) -> bool
    decreases a.len(),
{
    if b.len() == 0 {
        false
    } else if a.len() == 0 {
        true
    } else if a[0] != b[0] {
        a[0] < b[0]
    } else {
        bytes_before(a.drop_first(), b.drop_first())
    }
}

/// Whether `a` comes before `b` in the order of strings, which is that of their UTF-8 bytes.
pub open spec fn text_before(a: Seq<char>, b: Seq<char>) -> bool {
    bytes_before(encode_utf8(a), encode_utf8(b))
}

/// Calls `str::to_lowercase`, whose result is named [`unicode_lowercase`]. On ASCII text it maps
/// each letter by itself.
#[verifier::external_body]
pub(crate) fn to_lowercase(s: &str) -> (r: String)
    ensures
        !is_ascii_chars(s@) ==> r@ == unicode_lowercase(s@),
        is_ascii_chars(s@) ==> r@ == s@.map_values(|c: char| ascii_lower(c)),
{
    s.to_lowercase()
}

/// Whether a character is white space.
fn is_white_space(c: char) -> (r: bool)
    ensures
        r == white_space(c),
{
    ('\u{9}' <= c && c <= '\u{d}') || c == ' ' || c == '\u{85}' || c == '\u{a0}' || c == '\u{1680}'
        || ('\u{2000}' <= c && c <= '\u{200a}') || c == '\u{2028}' || c == '\u{2029}' || c
        == '\u{202f}' || c == '\u{205f}' || c == '\u{3000}'
}

/// Taking off white space leaves what stands between it.
proof fn lemma_trimmed(s: Seq<char>, a: int, b: int)
    requires
        0 <= a <= b <= s.len(),
        forall|i: int| 0 <= i < a ==> white_space(#[trigger] s[i]),
        forall|i: int| b <= i < s.len() ==> white_space(#[trigger] s[i]),
        a < b ==> !white_space(s[a]) && !white_space(s[b - 1]),
    ensures
        trimmed(s) == s.subrange(a, b),
    decreases s.len(),
{
    if s.len() > 0 && white_space(s[0]) {
        let t = s.drop_first();
        assert forall|i: int| 0 <= i < t.len() implies #[trigger] t[i] == s[i + 1] by {}
        if a > 0 {
            lemma_trimmed(t, a - 1, b - 1);
            assert(t.subrange(a - 1, b - 1) =~= s.subrange(a, b));
        } else {
            // Nothing but white space.
            assert(a == b);
            lemma_trimmed(t, 0, 0);
            assert(t.subrange(0, 0) =~= s.subrange(a, b));
        }
    } else if s.len() > 0 && white_space(s.last()) {
        let t = s.drop_last();
        lemma_trimmed(t, a, b);
        assert(t.subrange(a, b) =~= s.subrange(a, b));
    } else {
        assert(s.subrange(a, b) =~= s);
    }
}

/// A text without the white space at both ends.
pub(crate) fn trim(s: &str) -> (r: &str)
    ensures
        r@ == trimmed(s@),
{
    let (a, b) = trim_bounds(s);
    s.substring_char(a, b)
}

/// Where a text begins and ends without the white space at both ends.
fn trim_bounds(s: &str) -> (r: (usize, usize))
    ensures
        r.0 <= r.1 <= s@.len(),
        trimmed(s@) == s@.subrange(r.0 as int, r.1 as int),
{
    let n = s.unicode_len();
    let mut a: usize = 0;
    let mut b: usize = 0;
    let mut i: usize = 0;
    for c in it: s.chars()
        invariant
            it.seq() == s@,
            n == s@.len(),
            i == it.index(),
            i <= n,
            a <= b <= i,
            forall|j: int| 0 <= j < a ==> white_space(#[trigger] s@[j]),
            forall|j: int| b <= j < i ==> white_space(#[trigger] s@[j]),
            a < b ==> !white_space(s@[a as int]) && !white_space(s@[b - 1]),
            a == b ==> a == 0,
    {
        assert(c == s@[i as int]);
        if !is_white_space(c) {
            if a == b {
                a = i;
            }
            b = i + 1;
        }
        i = i + 1;
    }
    proof {
        lemma_trimmed(s@, a as int, b as int);
    }
    (a, b)
}

/// Whether nothing but white space is in a text.
pub(crate) fn is_blank(s: &str) -> (r: bool)
    ensures
        r == blank(s@),
{
    let (a, b) = trim_bounds(s);
    a == b
}

/// The characters of a text.
pub(crate) fn chars_of(s: &str) -> (out: Vec<char>)
    ensures
        out@ == s@,
{
    let mut out: Vec<char> = Vec::new();
    for c in it: s.chars()
        invariant
            out@ == s@.take(it.index() as int),
            it.seq() == s@,
    {
        proof {
            let i = it.index() as int;
            assert(s@.take(i + 1) == s@.take(i).push(s@[i]));
        }
        out.push(c);
    }
    assert(s@.take(s@.len() as int) == s@);
    out
}

/// Whether a character occurs in a text.
pub(crate) fn contains_char(s: &str, wanted: char) -> (r: bool)
    ensures
        r == s@.contains(wanted),
{
    for c in it: s.chars()
        invariant
            it.seq() == s@,
            forall|j: int| 0 <= j < it.index() ==> s@[j] != wanted,
    {
        if c == wanted {
            assert(s@[it.index() as int] == wanted);
            return true;
        }
    }
    false
}

/// Whether two texts are the same, letter for letter.
pub(crate) fn texts_equal(a: &str, b: &str) -> (r: bool)
    ensures
        r == (a@ == b@),
{
    let x = a.as_bytes();
    let y = b.as_bytes();
    proof {
        encode_utf8_decode_utf8(a@);
        encode_utf8_decode_utf8(b@);
    }
    if x.len() != y.len() {
        return false;
    }
    let mut i: usize = 0;
    while i < x.len()
        invariant
            i <= x@.len() == y@.len(),
            x@ == encode_utf8(a@),
            y@ == encode_utf8(b@),
            forall|j: int| 0 <= j < i ==> x@[j] == y@[j],
        decreases x@.len() - i,
    {
        if x[i] != y[i] {
            return false;
        }
        i = i + 1;
    }
    assert(x@ =~= y@);
    true
}

fn lower_byte(b: u8) -> (r: u8)
    requires
        b < 128,
    ensures
        r as char == ascii_lower(b as char),
        r < 128,
{
    if 65 <= b && b <= 90 {
        b + 32
    } else {
        b
    }
}

/// Equality of two ASCII texts but for the case of letters.
fn eq_ignore_ascii_case(a: &str, b: &str) -> (r: bool)
    requires
        is_ascii_chars(a@),
        is_ascii_chars(b@),
    ensures
        r == same_text(a@, b@),
{
    let x = a.as_bytes();
    let y = b.as_bytes();
    let ghost la = lowercase(a@);
    let ghost lb = lowercase(b@);
    proof {
        is_ascii_chars_encode_utf8(a@);
        is_ascii_chars_encode_utf8(b@);
        assert(la.len() == x@.len() && lb.len() == y@.len());
    }
    if x.len() != y.len() {
        return false;
    }
    let mut i: usize = 0;
    while i < x.len()
        invariant
            i <= x@.len() == y@.len() == la.len() == lb.len(),
            x@.len() == a@.len() == b@.len(),
            la == lowercase(a@),
            lb == lowercase(b@),
            is_ascii_chars(a@),
            is_ascii_chars(b@),
            forall|j: int| 0 <= j < x@.len() ==> a@[j] as u8 == #[trigger] x@[j],
            forall|j: int| 0 <= j < x@.len() ==> b@[j] as u8 == #[trigger] y@[j],
            forall|j: int| 0 <= j < i ==> la[j] == lb[j],
        decreases x@.len() - i,
    {
        let p = lower_byte(x[i]);
        let q = lower_byte(y[i]);
        proof {
            assert(la[i as int] == ascii_lower(a@[i as int]));
            assert(lb[i as int] == ascii_lower(b@[i as int]));
            assert(a@[i as int] == x@[i as int] as char);
            assert(b@[i as int] == y@[i as int] as char);
        }
        if p != q {
            assert(p as char != q as char);
            return false;
        }
        i = i + 1;
    }
    assert(la =~= lb);
    true
}

/// Case-insensitive equality of two texts. ASCII texts are compared in place; any other text is
/// compared by its lower case.
pub fn text_eq_ci(a: &str, b: &str) -> (r: bool)
    ensures
        r == same_text(a@, b@),
{
    if a.is_ascii() && b.is_ascii() {
        eq_ignore_ascii_case(a, b)
    } else {
        let x = to_lowercase(a);
        let y = to_lowercase(b);
        texts_equal(x.as_str(), y.as_str())
    }
}

/// Whether `a` comes before `b` in the order of strings.
pub(crate) fn text_less(a: &str, b: &str) -> (r: bool)
    ensures
        r == text_before(a@, b@),
{
    let x = a.as_bytes();
    let y = b.as_bytes();
    let mut i: usize = 0;
    assert(x@.skip(0) =~= x@);
    assert(y@.skip(0) =~= y@);
    while i < x.len() && i < y.len()
        invariant
            i <= x@.len(),
            i <= y@.len(),
            x@ == encode_utf8(a@),
            y@ == encode_utf8(b@),
            text_before(a@, b@) == bytes_before(x@.skip(i as int), y@.skip(i as int)),
        decreases x@.len() - i,
    {
        assert(x@.skip(i as int).drop_first() =~= x@.skip(i + 1));
        assert(y@.skip(i as int).drop_first() =~= y@.skip(i + 1));
        if x[i] != y[i] {
            return x[i] < y[i];
        }
        i = i + 1;
    }
    i < y.len()
}

/// Whether a text matches a pattern: `*` stands for any run of characters, `?` for exactly one, any
/// other character for itself.
pub open spec fn glob(p: Seq<char>, t: Seq<char>) -> bool
    decreases p.len(),
{
    if p.len() == 0 {
        t.len() == 0
    } else if p[0] == '*' {
        exists|i: int| 0 <= i <= t.len() && glob(p.drop_first(), #[trigger] t.skip(i))
    } else {
        &&& t.len() > 0
        &&& p[0] == '?' || p[0] == t[0]
        &&& glob(p.drop_first(), t.drop_first())
    }
}

/// One step of the match: from the answers for the rest of the pattern, on every tail of the text,
/// to the answers for the pattern that begins with `c`.
fn glob_step(c: char, t: &Vec<char>, rest: &Vec<bool>, Ghost(p): Ghost<Seq<char>>) -> (out: Vec<bool>)
    requires
        p.len() > 0,
        p[0] == c,
        rest@.len() == t@.len() + 1,
        forall|j: int| 0 <= j <= t@.len() ==> #[trigger] rest@[j] == glob(p.drop_first(), t@.skip(j)),
    ensures
        out@.len() == t@.len() + 1,
        forall|j: int| 0 <= j <= t@.len() ==> #[trigger] out@[j] == glob(p, t@.skip(j)),
{
    let m = rest.len();
    let mut out: Vec<bool> = Vec::new();
    if c == '*' {
        // The pattern matches a tail when the rest of it matches that tail or a shorter one.
        let mut last: Option<usize> = None;
        let mut k: usize = 0;
        while k < m
            invariant
                m == rest@.len(),
                k <= m,
                last matches Some(l) ==> l < k && rest@[l as int],
                forall|j: int| 0 <= j < k && rest@[j] ==> last is Some && j <= last->0,
            decreases m - k,
        {
            if rest[k] {
                last = Some(k);
            }
            k = k + 1;
        }
        let mut j: usize = 0;
        while j < m
            invariant
                m == rest@.len() == t@.len() + 1,
                j <= m,
                out@.len() == j,
                p.len() > 0,
                p[0] == '*',
                last matches Some(l) ==> l < m && rest@[l as int],
                forall|i: int| 0 <= i < m && rest@[i] ==> last is Some && i <= last->0,
                forall|i: int| 0 <= i < m ==> #[trigger] rest@[i] == glob(p.drop_first(), t@.skip(i)),
                forall|i: int| 0 <= i < j ==> #[trigger] out@[i] == glob(p, t@.skip(i)),
            decreases m - j,
        {
            let hit = match last {
                Some(l) => j <= l,
                None => false,
            };
            proof {
                let tail = t@.skip(j as int);
                if hit {
                    let i = last->0 - j;
                    assert(tail.skip(i) =~= t@.skip(last->0 as int));
                    assert(rest@[last->0 as int]);
                    assert(glob(p, tail));
                } else if glob(p, tail) {
                    let i = choose|i: int|
                        0 <= i <= tail.len() && glob(p.drop_first(), #[trigger] tail.skip(i));
                    assert(tail.skip(i) =~= t@.skip(j + i));
                    assert(rest@[j + i]);
                }
            }
            out.push(hit);
            j = j + 1;
        }
    } else {
        let mut j: usize = 0;
        while j < m
            invariant
                m == rest@.len() == t@.len() + 1,
                j <= m,
                out@.len() == j,
                p.len() > 0,
                p[0] == c,
                c != '*',
                forall|i: int| 0 <= i < m ==> #[trigger] rest@[i] == glob(p.drop_first(), t@.skip(i)),
                forall|i: int| 0 <= i < j ==> #[trigger] out@[i] == glob(p, t@.skip(i)),
            decreases m - j,
        {
            let hit = j + 1 < m && (c == '?' || t[j] == c) && rest[j + 1];
            proof {
                let tail = t@.skip(j as int);
                if j + 1 < m {
                    assert(tail.drop_first() =~= t@.skip(j + 1));
                    assert(tail[0] == t@[j as int]);
                    assert(rest@[j + 1] == glob(p.drop_first(), t@.skip(j + 1)));
                } else {
                    assert(tail.len() == 0);
                }
            }
            out.push(hit);
            j = j + 1;
        }
    }
    out
}

/// Case-insensitive wildcard match: `*` stands for any run of characters, `?` for exactly one.
pub fn wildcard_match(pattern: &str, text: &str) -> (r: bool)
    ensures
        r == glob(lowercase(pattern@), lowercase(text@)),
{
    let p = chars_of(to_lowercase(pattern).as_str());
    let t = chars_of(to_lowercase(text).as_str());
    let mut answers: Vec<bool> = Vec::new();
    let n = t.len();
    let mut j: usize = 0;
    while j < n
        invariant
            n == t@.len(),
            j <= n,
            answers@.len() == j,
            forall|i: int| 0 <= i < j ==> #[trigger] answers@[i] == glob(Seq::empty(), t@.skip(i)),
        decreases n - j,
    {
        answers.push(false);
        j = j + 1;
    }
    answers.push(true);
    let mut k = p.len();
    assert(p@.skip(k as int) =~= Seq::empty());
    while k > 0
        invariant
            k <= p@.len(),
            answers@.len() == t@.len() + 1,
            forall|i: int| 0 <= i <= t@.len() ==> #[trigger] answers@[i] == glob(
                p@.skip(k as int),
                t@.skip(i),
            ),
        decreases k,
    {
        k = k - 1;
        assert(p@.skip(k as int).drop_first() =~= p@.skip(k + 1));
        answers = glob_step(p[k], &t, &answers, Ghost(p@.skip(k as int)));
    }
    assert(p@.skip(0) =~= p@);
    assert(t@.skip(0) =~= t@);
    answers[0]
}

/// An ASCII digit.
pub open spec fn digit(c: char) -> bool {
    '0' <= c <= '9'
}

/// Whether all characters from `a` up to `b` are digits.
pub open spec fn digits(s: Seq<char>, a: int, b: int) -> bool {
    forall|i: int| a <= i < b ==> digit(#[trigger] s[i])
}

/// A plus or a minus sign.
pub open spec fn sign(c: char) -> bool {
    c == '+' || c == '-'
}

/// Whether an exponent stands in a text from the place `e` to its end: the letter, a sign or none,
/// at least one digit.
pub open spec fn exponent_from(s: Seq<char>, e: int) -> bool {
    let f = if e + 1 < s.len() && sign(s[e + 1]) {
        e + 2
    } else {
        e + 1
    };
    &&& s[e] == 'e' || s[e] == 'E'
    &&& f < s.len()
    &&& digits(s, f, s.len() as int)
}

/// Whether a text is a decimal number, in which the digits before the point end at `d` and the
/// exponent, if any, begins at `e`.
pub open spec fn decimal_at(s: Seq<char>, d: int, e: int) -> bool {
    &&& 0 <= d <= e <= s.len()
    &&& digits(s, 0, d)
    &&& if e == d {
        d > 0
    } else {
        s[d] == '.' && digits(s, d + 1, e) && (d > 0 || e > d + 1)
    }
    &&& e == s.len() || exponent_from(s, e)
}

/// A decimal number without a sign: digits with a point somewhere or none, at least one of them,
/// and an exponent or none.
pub open spec fn decimal(s: Seq<char>) -> bool {
    exists|d: int, e: int| decimal_at(s, d, e)
}

/// One of the words for infinity and for what is not a number, in any case.
pub open spec fn number_word(s: Seq<char>) -> bool {
    let w = s.map_values(|c: char| ascii_lower(c));
    w == seq!['i', 'n', 'f'] || w == seq!['i', 'n', 'f', 'i', 'n', 'i', 't', 'y'] || w == seq!['n', 'a', 'n']
}

/// Whether a text reads as a double: a sign or none, then a decimal number or a word.
pub open spec fn number_literal(s: Seq<char>) -> bool {
    decimal(unsigned(s)) || number_word(unsigned(s))
}

fn is_digit(c: char) -> (r: bool)
    ensures
        r == digit(c),
{
    '0' <= c && c <= '9'
}

/// The end of the run of digits that begins at `from`.
fn digits_end(s: &Vec<char>, from: usize) -> (end: usize)
    requires
        from <= s@.len(),
    ensures
        from <= end <= s@.len(),
        digits(s@, from as int, end as int),
        end < s@.len() ==> !digit(s@[end as int]),
{
    let mut end = from;
    while end < s.len() && is_digit(s[end])
        invariant
            from <= end <= s@.len(),
            digits(s@, from as int, end as int),
        decreases s@.len() - end,
    {
        end = end + 1;
    }
    end
}

pub(crate) fn lower_char(c: char) -> (r: char)
    ensures
        r == ascii_lower(c),
{
    if 'A' <= c && c <= 'Z' {
        lower_byte(c as u8) as char
    } else {
        c
    }
}

/// Whether a text is a given word, in any case.
fn is_word(s: &Vec<char>, word: &[char]) -> (r: bool)
    ensures
        r == (s@.map_values(|c: char| ascii_lower(c)) == word@),
{
    let ghost w = s@.map_values(|c: char| ascii_lower(c));
    if s.len() != word.len() {
        return false;
    }
    let mut i: usize = 0;
    while i < word.len()
        invariant
            w == s@.map_values(|c: char| ascii_lower(c)),
            w.len() == word@.len() == s@.len(),
            i <= word@.len(),
            forall|j: int| 0 <= j < i ==> w[j] == word@[j],
        decreases word@.len() - i,
    {
        assert(w[i as int] == ascii_lower(s@[i as int]));
        if lower_char(s[i]) != word[i] {
            return false;
        }
        i = i + 1;
    }
    assert(w =~= word@);
    true
}

/// Whether an exponent stands from `e` to the end.
fn has_exponent(s: &Vec<char>, e: usize) -> (r: bool)
    requires
        e < s@.len(),
    ensures
        r == exponent_from(s@, e as int),
{
    let n = s.len();
    if s[e] != 'e' && s[e] != 'E' {
        return false;
    }
    let f = if e + 1 < n && (s[e + 1] == '+' || s[e + 1] == '-') {
        e + 2
    } else {
        e + 1
    };
    if f >= s.len() {
        return false;
    }
    let end = digits_end(s, f);
    end == s.len()
}

/// Where the digits before the point end in a decimal number without a sign, and where its exponent
/// begins; none where the text is no such number.
pub(crate) fn find_decimal(s: &Vec<char>) -> (r: Option<(usize, usize)>)
    ensures
        r is Some <==> decimal(s@),
        r matches Some((d, e)) ==> decimal_at(s@, d as int, e as int) && forall|d2: int, e2: int| #[trigger]
            decimal_at(s@, d2, e2) ==> d2 == d && e2 == e,
{
    let d = digits_end(s, 0);
    let e = if d < s.len() && s[d] == '.' {
        digits_end(s, d + 1)
    } else {
        d
    };
    let whole = if e == d {
        d > 0
    } else {
        d > 0 || e > d + 1
    };
    proof {
        assert forall|d2: int, e2: int| #[trigger] decimal_at(s@, d2, e2) implies d2 == d && e2
            == e by {
            // The digits before the point end at the first place that is no digit.
            if d2 < d {
                assert(digit(s@[d2]));
            } else if d < d2 {
                assert(digit(s@[d as int]));
            }
            if e2 < e {
                if e2 > d {
                    assert(digit(s@[e2]));
                }
            } else if e < e2 {
                assert(digit(s@[e as int]));
            }
        }
    }
    if whole && (e == s.len() || has_exponent(s, e)) {
        assert(decimal_at(s@, d as int, e as int));
        Some((d, e))
    } else {
        proof {
            if decimal(s@) {
                let (d2, e2) = choose|d2: int, e2: int| decimal_at(s@, d2, e2);
                assert(decimal_at(s@, d2, e2));
            }
        }
        None
    }
}

/// A text without its sign, if it has one.
pub open spec fn unsigned(s: Seq<char>) -> Seq<char> {
    if s.len() > 0 && sign(s[0]) {
        s.drop_first()
    } else {
        s
    }
}

/// The characters of a text without its sign, if it has one.
pub(crate) fn unsigned_chars(s: &str) -> (r: Vec<char>)
    ensures
        r@ == unsigned(s@),
{
    let all = chars_of(s);
    let from: usize = if all.len() > 0 && (all[0] == '+' || all[0] == '-') {
        1
    } else {
        0
    };
    let mut rest: Vec<char> = Vec::new();
    let mut i: usize = from;
    while i < all.len()
        invariant
            from <= i <= all@.len(),
            rest@ == all@.subrange(from as int, i as int),
        decreases all@.len() - i,
    {
        rest.push(all[i]);
        i = i + 1;
        assert(rest@ =~= all@.subrange(from as int, i as int));
    }
    assert(rest@ =~= unsigned(s@));
    rest
}

/// Whether a text is one of the words for infinity and for what is not a number.
pub(crate) fn is_number_word(s: &Vec<char>) -> (r: bool)
    ensures
        r == number_word(s@),
{
    is_word(s, &['i', 'n', 'f']) || is_word(s, &['i', 'n', 'f', 'i', 'n', 'i', 't', 'y']) || is_word(
        s,
        &['n', 'a', 'n'],
    )
}

/// Whether a text reads as a double.
pub fn is_number_literal(s: &str) -> (r: bool)
    ensures
        r == number_literal(s@),
{
    let rest = unsigned_chars(s);
    find_decimal(&rest).is_some() || is_number_word(&rest)
}

/// A separator between the parts of a date.
pub open spec fn date_separator(c: char) -> bool {
    c == '-' || c == '/'
}

/// Whether separators at `i` and `j` part a text into three runs of one to four digits, one of four.
pub open spec fn date_at(s: Seq<char>, i: int, j: int) -> bool {
    &&& 0 < i <= 4
    &&& 0 < j - i - 1 <= 4
    &&& 0 < s.len() - j - 1 <= 4
    &&& date_separator(s[i])
    &&& date_separator(s[j])
    &&& digits(s, 0, i)
    &&& digits(s, i + 1, j)
    &&& digits(s, j + 1, s.len() as int)
    &&& i == 4 || j - i - 1 == 4 || s.len() - j - 1 == 4
}

/// Whether a text looks like a date: at most ten characters, three runs of digits parted by `-` or
/// `/`.
pub open spec fn date_like(s: Seq<char>) -> bool {
    6 <= s.len() <= 10 && exists|i: int, j: int| date_at(s, i, j)
}

/// Whether a text looks like a date.
pub fn looks_like_date(s: &str) -> (r: bool)
    ensures
        r == date_like(s@),
{
    let n = s.len();
    if n < 6 || n > 10 {
        proof {
            if date_like(s@) {
                let (i, j) = choose|i: int, j: int| date_at(s@, i, j);
                assert forall|k: int| 0 <= k < s@.len() implies '\0' <= #[trigger] s@[k] <= '\u{7f}' by {
                    if k < i {
                    } else if k == i {
                    } else if k < j {
                    } else if k == j {
                    } else {
                    }
                }
                assert(is_ascii_chars(s@));
                is_ascii_chars_encode_utf8(s@);
            }
        }
        return false;
    }
    let t = chars_of(s);
    let i = digits_end(&t, 0);
    if i == 0 || i > 4 || i >= t.len() || (t[i] != '-' && t[i] != '/') {
        proof {
            if date_like(s@) {
                let (i2, j2) = choose|i2: int, j2: int| date_at(s@, i2, j2);
                assert(i2 < i ==> digit(t@[i2]));
                assert(i < i2 ==> digit(t@[i as int]));
            }
        }
        return false;
    }
    let j = digits_end(&t, i + 1);
    if j == i + 1 || j - i - 1 > 4 || j >= t.len() || (t[j] != '-' && t[j] != '/') {
        proof {
            if date_like(s@) {
                let (i2, j2) = choose|i2: int, j2: int| date_at(s@, i2, j2);
                assert(i2 < i ==> digit(t@[i2]));
                assert(i < i2 ==> digit(t@[i as int]));
                assert(j2 < j ==> digit(t@[j2]));
                assert(j < j2 ==> digit(t@[j as int]));
            }
        }
        return false;
    }
    let k = digits_end(&t, j + 1);
    let r = k == t.len() && k > j + 1 && k - j - 1 <= 4 && (i == 4 || j - i - 1 == 4 || k - j - 1 == 4);
    proof {
        if r {
            assert(date_at(s@, i as int, j as int));
            assert(is_ascii_chars(s@));
            is_ascii_chars_encode_utf8(s@);
        }
        if date_like(s@) {
            let (i2, j2) = choose|i2: int, j2: int| date_at(s@, i2, j2);
            assert(i2 < i ==> digit(t@[i2]));
            assert(i < i2 ==> digit(t@[i as int]));
            assert(j2 < j ==> digit(t@[j2]));
            assert(j < j2 ==> digit(t@[j as int]));
        }
    }
    r
}

/// Sequences with the same first element and the same rest are the same.
proof fn lemma_same_rest<T>(a: Seq<T>, b: Seq<T>)
    requires
        a.len() > 0,
        b.len() > 0,
        a[0] == b[0],
        a.drop_first() == b.drop_first(),
    ensures
        a == b,
{
    assert(a.len() == a.drop_first().len() + 1);
    assert(b.len() == b.drop_first().len() + 1);
    assert forall|i: int| 0 <= i < a.len() implies a[i] == b[i] by {
        if i > 0 {
            assert(a.drop_first()[i - 1] == a[i]);
            assert(b.drop_first()[i - 1] == b[i]);
        }
    }
    assert(a =~= b);
}

proof fn lemma_bytes_order(a: Seq<u8>, b: Seq<u8>, c: Seq<u8>)
    ensures
        !bytes_before(a, a),
        bytes_before(a, b) ==> !bytes_before(b, a),
        a == b || bytes_before(a, b) || bytes_before(b, a),
        bytes_before(a, b) && bytes_before(b, c) ==> bytes_before(a, c),
    decreases a.len(),
{
    if a.len() > 0 {
        let rest = |s: Seq<u8>|
            if s.len() > 0 {
                s.drop_first()
            } else {
                s
            };
        lemma_bytes_order(a.drop_first(), rest(b), rest(c));
        if b.len() > 0 && a[0] == b[0] && a.drop_first() == b.drop_first() {
            lemma_same_rest(a, b);
        }
    } else if b.len() == 0 {
        assert(a =~= b);
    }
}

/// The order of texts is a strict total order.
pub proof fn law_text_order(a: Seq<char>, b: Seq<char>, c: Seq<char>)
    ensures
        !text_before(a, a),
        text_before(a, b) ==> !text_before(b, a),
        a == b || text_before(a, b) || text_before(b, a),
        text_before(a, b) && text_before(b, c) ==> text_before(a, c),
{
    lemma_bytes_order(encode_utf8(a), encode_utf8(b), encode_utf8(c));
    encode_utf8_decode_utf8(a);
    encode_utf8_decode_utf8(b);
}

/// `*` alone matches every text.
pub proof fn law_star_matches_all(t: Seq<char>)
    ensures
        glob(seq!['*'], t),
{
    let p = seq!['*'];
    assert(t.skip(t.len() as int).len() == 0);
    assert(p.drop_first() =~= Seq::empty());
    assert(glob(p.drop_first(), t.skip(t.len() as int)));
}

/// As many `?` as there are characters match a text, and no other number of them does.
pub proof fn law_question_marks_match_length(p: Seq<char>, t: Seq<char>)
    requires
        forall|i: int| 0 <= i < p.len() ==> p[i] == '?',
    ensures
        glob(p, t) <==> p.len() == t.len(),
    decreases p.len(),
{
    if p.len() > 0 && t.len() > 0 {
        law_question_marks_match_length(p.drop_first(), t.drop_first());
    }
}

/// A pattern without wildcards matches itself and nothing else.
pub proof fn law_plain_pattern_is_equality(p: Seq<char>, t: Seq<char>)
    requires
        !p.contains('*'),
        !p.contains('?'),
    ensures
        glob(p, t) <==> p == t,
    decreases p.len(),
{
    if p.len() > 0 {
        assert(p.contains(p[0]));
        let rest = p.drop_first();
        assert forall|c: char| rest.contains(c) implies p.contains(c) by {
            let i = choose|i: int| 0 <= i < rest.len() && rest[i] == c;
            assert(p[i + 1] == c);
        }
        if t.len() > 0 {
            law_plain_pattern_is_equality(rest, t.drop_first());
            if glob(p, t) {
                lemma_same_rest(p, t);
            }
        }
    } else {
        if t.len() == 0 {
            assert(p =~= t);
        }
    }
}

/// A plain text with a star behind it matches the texts that begin with it.
pub proof fn law_prefix_pattern(p: Seq<char>, t: Seq<char>)
    requires
        !p.contains('*'),
        !p.contains('?'),
    ensures
        glob(p.push('*'), t) <==> p.len() <= t.len() && t.take(p.len() as int) == p,
    decreases p.len(),
{
    let q = p.push('*');
    if p.len() == 0 {
        assert(q =~= seq!['*']);
        law_star_matches_all(t);
        assert(t.take(0) =~= p);
    } else {
        let rest = p.drop_first();
        assert(p.contains(p[0]));
        assert forall|c: char| rest.contains(c) implies p.contains(c) by {
            let i = choose|i: int| 0 <= i < rest.len() && rest[i] == c;
            assert(p[i + 1] == c);
        }
        assert(q.drop_first() =~= rest.push('*'));
        if t.len() > 0 {
            let tail = t.drop_first();
            law_prefix_pattern(rest, tail);
            if glob(q, t) {
                assert(t.take(p.len() as int) =~= p) by {
                    assert forall|i: int| 0 <= i < p.len() implies t[i] == p[i] by {
                        if i > 0 {
                            assert(tail.take(rest.len() as int)[i - 1] == rest[i - 1]);
                        }
                    }
                }
            }
            if p.len() <= t.len() && t.take(p.len() as int) == p {
                assert(tail.take(rest.len() as int) =~= rest) by {
                    assert forall|i: int| 0 <= i < rest.len() implies tail[i] == rest[i] by {
                        assert(t.take(p.len() as int)[i + 1] == p[i + 1]);
                    }
                }
                assert(t.take(p.len() as int)[0] == p[0]);
            }
        }
    }
}

/// No text that reads as a number holds a wildcard.
pub(crate) proof fn lemma_number_has_no_wildcard(s: Seq<char>)
    requires
        number_literal(s),
    ensures
        !s.contains('*'),
        !s.contains('?'),
{
    let from: int = if s.len() > 0 && sign(s[0]) {
        1
    } else {
        0
    };
    let t = s.skip(from);
    assert(t =~= unsigned(s));
    assert forall|k: int| 0 <= k < t.len() implies t[k] != '*' && t[k] != '?' by {
        if decimal(t) {
            let (d, e) = choose|d: int, e: int| decimal_at(t, d, e);
            if k < d {
                assert(digit(t[k]));
            } else if k < e {
                if k > d {
                    assert(digit(t[k]));
                }
            } else if k > e {
                let f = if e + 1 < t.len() && sign(t[e + 1]) {
                    e + 2
                } else {
                    e + 1
                };
                if k >= f {
                    assert(digit(t[k]));
                }
            }
        } else {
            let w = t.map_values(|c: char| ascii_lower(c));
            assert(w[k] == ascii_lower(t[k]));
            assert(w.len() == t.len());
            if w == seq!['i', 'n', 'f', 'i', 'n', 'i', 't', 'y'] {
                assert(k == 0 || k == 1 || k == 2 || k == 3 || k == 4 || k == 5 || k == 6 || k == 7);
            } else {
                assert(k == 0 || k == 1 || k == 2);
            }
        }
    }
    assert forall|k: int| 0 <= k < s.len() implies s[k] != '*' && s[k] != '?' by {
        if k >= from {
            assert(t[k - from] == s[k]);
        }
    }
}

}

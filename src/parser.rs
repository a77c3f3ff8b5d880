use vstd::prelude::*;
use crate::ast::{Node, Span, Spanned, SyntaxError, SyntaxReason};
use crate::value::{all_digits, bool_text, is_digit, strip_leading_zeros, strip_trailing_zeros, Decimal};

verus! {

broadcast use vstd::std_specs::vec::axiom_vec_index_decreases;

/// Whitespace as Unicode's White_Space property defines it.
pub open spec fn is_ws(c: char) -> bool {
    ('\u{9}' <= c && c <= '\u{d}') || c == ' ' || c == '\u{85}' || c == '\u{a0}' || c == '\u{1680}'
        || ('\u{2000}' <= c && c <= '\u{200a}') || c == '\u{2028}' || c == '\u{2029}' || c == '\u{202f}'
        || c == '\u{205f}' || c == '\u{3000}'
}

pub open spec fn is_ident_start(c: char) -> bool {
    ('a' <= c && c <= 'z') || ('A' <= c && c <= 'Z') || c == '_'
}

pub open spec fn is_ident_char(c: char) -> bool {
    is_ident_start(c) || is_digit(c)
}

pub open spec fn is_op_char(c: char) -> bool {
    c == '=' || c == '.' || c == ':' || c == '%' || c == ','
}

/// End of the run of whitespace that starts at `i`.
pub open spec fn ws_end(s: Seq<char>, i: int) -> int
    decreases s.len() - i,
{
    if 0 <= i < s.len() && is_ws(s[i]) {
        ws_end(s, i + 1)
    } else {
        i
    }
}

/// End of the run of identifier characters that starts at `i`.
pub open spec fn ident_run_end(s: Seq<char>, i: int) -> int
    decreases s.len() - i,
{
    if 0 <= i < s.len() && is_ident_char(s[i]) {
        ident_run_end(s, i + 1)
    } else {
        i
    }
}

/// End of the run of operator characters that starts at `i`.
pub open spec fn op_run_end(s: Seq<char>, i: int) -> int
    decreases s.len() - i,
{
    if 0 <= i < s.len() && is_op_char(s[i]) {
        op_run_end(s, i + 1)
    } else {
        i
    }
}

proof fn lemma_ws_end(s: Seq<char>, i: int, j: int)
    requires
        0 <= i <= j <= s.len(),
        forall|k: int| i <= k < j ==> is_ws(#[trigger] s[k]),
        j == s.len() || !is_ws(s[j]),
    ensures
        ws_end(s, i) == j,
    decreases j - i,
{
    if i < j {
        lemma_ws_end(s, i + 1, j);
    }
}

proof fn lemma_ident_run_end(s: Seq<char>, i: int, j: int)
    requires
        0 <= i <= j <= s.len(),
        forall|k: int| i <= k < j ==> is_ident_char(#[trigger] s[k]),
        j == s.len() || !is_ident_char(s[j]),
    ensures
        ident_run_end(s, i) == j,
    decreases j - i,
{
    if i < j {
        lemma_ident_run_end(s, i + 1, j);
    }
}

proof fn lemma_op_run_end(s: Seq<char>, i: int, j: int)
    requires
        0 <= i <= j <= s.len(),
        forall|k: int| i <= k < j ==> is_op_char(#[trigger] s[k]),
        j == s.len() || !is_op_char(s[j]),
    ensures
        op_run_end(s, i) == j,
    decreases j - i,
{
    if i < j {
        lemma_op_run_end(s, i + 1, j);
    }
}

/// End of the run of digits that starts at `i`.
pub open spec fn digit_run_end(s: Seq<char>, i: int) -> int
    decreases s.len() - i,
{
    if 0 <= i < s.len() && is_digit(s[i]) {
        digit_run_end(s, i + 1)
    } else {
        i
    }
}

/// End of the digit runs joined by single dots that start at `i`.
pub open spec fn number_end(s: Seq<char>, i: int) -> int
    decreases s.len() - i,
{
    if 0 <= i < s.len() && (is_digit(s[i]) || (s[i] == '.' && i + 1 < s.len() && is_digit(s[i + 1]))) {
        number_end(s, i + 1)
    } else {
        i
    }
}

pub open spec fn digit_value(c: char) -> nat {
    (c as u32 - '0' as u32) as nat
}

/// The number that a run of decimal digits denotes.
pub open spec fn digits_value(d: Seq<char>) -> nat
    decreases d.len(),
{
    if d.len() == 0 {
        0
    } else {
        digits_value(d.drop_last()) * 10 + digit_value(d.last())
    }
}

/// Whether the text at `i` is a range literal: two digit runs joined by `..`.
pub open spec fn is_range_at(s: Seq<char>, i: int) -> bool {
    let e = digit_run_end(s, i);
    e + 2 < s.len() && s[e] == '.' && s[e + 1] == '.' && is_digit(s[e + 2])
}

/// Whether the number literal at `i` has a second digit run after a dot.
pub open spec fn has_fraction_at(s: Seq<char>, i: int) -> bool {
    let e = digit_run_end(s, i);
    e + 1 < s.len() && s[e] == '.' && is_digit(s[e + 1])
}

proof fn lemma_digit_run_end(s: Seq<char>, i: int)
    requires
        0 <= i <= s.len(),
    ensures
        i <= digit_run_end(s, i) <= s.len(),
        forall|k: int| i <= k < digit_run_end(s, i) ==> is_digit(#[trigger] s[k]),
        digit_run_end(s, i) == s.len() || !is_digit(s[digit_run_end(s, i)]),
    decreases s.len() - i,
{
    if i < s.len() && is_digit(s[i]) {
        lemma_digit_run_end(s, i + 1);
    }
}

proof fn lemma_number_end_skips_digits(s: Seq<char>, i: int)
    requires
        0 <= i <= s.len(),
    ensures
        number_end(s, i) == number_end(s, digit_run_end(s, i)),
    decreases s.len() - i,
{
    if i < s.len() && is_digit(s[i]) {
        lemma_number_end_skips_digits(s, i + 1);
    }
}

proof fn lemma_number_end_bounds(s: Seq<char>, i: int)
    requires
        0 <= i <= s.len(),
    ensures
        i <= number_end(s, i) <= s.len(),
    decreases s.len() - i,
{
    if i < s.len() && (is_digit(s[i]) || (s[i] == '.' && i + 1 < s.len() && is_digit(s[i + 1]))) {
        lemma_number_end_bounds(s, i + 1);
    }
}

proof fn lemma_digits_value_push(d: Seq<char>, c: char)
    ensures
        digits_value(d.push(c)) == digits_value(d) * 10 + digit_value(c),
{
    assert(d.push(c).drop_last() =~= d);
}

fn digit_end(s: &Vec<char>, i: usize) -> (j: usize)
    requires
        i <= s@.len(),
    ensures
        j == digit_run_end(s@, i as int),
{
    proof {
        lemma_digit_run_end(s@, i as int);
    }
    let mut j = i;
    while j < s.len() && '0' <= s[j] && s[j] <= '9'
        invariant
            i <= j <= s@.len(),
            digit_run_end(s@, j as int) == digit_run_end(s@, i as int),
        decreases s@.len() - j,
    {
        j = j + 1;
    }
    j
}

fn is_whitespace(c: char) -> (r: bool)
    ensures
        r == is_ws(c),
{
    ('\u{9}' <= c && c <= '\u{d}') || c == ' ' || c == '\u{85}' || c == '\u{a0}' || c == '\u{1680}'
        || ('\u{2000}' <= c && c <= '\u{200a}') || c == '\u{2028}' || c == '\u{2029}' || c == '\u{202f}'
        || c == '\u{205f}' || c == '\u{3000}'
}

fn skip_ws(s: &Vec<char>, i: usize) -> (j: usize)
    requires
        i <= s@.len(),
    ensures
        i <= j <= s@.len(),
        forall|k: int| i <= k < j ==> is_ws(#[trigger] s@[k]),
        j == s@.len() || !is_ws(s@[j as int]),
        j == ws_end(s@, i as int),
{
    let mut j = i;
    while j < s.len() && is_whitespace(s[j])
        invariant
            i <= j <= s@.len(),
            forall|k: int| i <= k < j ==> is_ws(#[trigger] s@[k]),
        decreases s@.len() - j,
    {
        j = j + 1;
    }
    proof {
        lemma_ws_end(s@, i as int, j as int);
    }
    j
}

fn ident_end(s: &Vec<char>, i: usize) -> (j: usize)
    requires
        i < s@.len(),
        is_ident_start(s@[i as int]),
    ensures
        i < j <= s@.len(),
        forall|k: int| i <= k < j ==> is_ident_char(#[trigger] s@[k]),
        j == s@.len() || !is_ident_char(s@[j as int]),
        j == ident_run_end(s@, i as int),
{
    let len = s.len();
    let mut j = i + 1;
    while j < len && (('a' <= s[j] && s[j] <= 'z') || ('A' <= s[j] && s[j] <= 'Z') || s[j] == '_' || ('0' <= s[j] && s[j] <= '9'))
        invariant
            i < j <= s@.len(),
            len == s@.len(),
            forall|k: int| i <= k < j ==> is_ident_char(#[trigger] s@[k]),
        decreases s@.len() - j,
    {
        j = j + 1;
    }
    proof {
        lemma_ident_run_end(s@, i as int, j as int);
    }
    j
}

fn op_end(s: &Vec<char>, i: usize) -> (j: usize)
    requires
        i < s@.len(),
        is_op_char(s@[i as int]),
    ensures
        i < j <= s@.len(),
        forall|k: int| i <= k < j ==> is_op_char(#[trigger] s@[k]),
        j == s@.len() || !is_op_char(s@[j as int]),
        j == op_run_end(s@, i as int),
{
    let len = s.len();
    let mut j = i + 1;
    while j < len && (s[j] == '=' || s[j] == '.' || s[j] == ':' || s[j] == '%' || s[j] == ',')
        invariant
            i < j <= s@.len(),
            len == s@.len(),
            forall|k: int| i <= k < j ==> is_op_char(#[trigger] s@[k]),
        decreases s@.len() - j,
    {
        j = j + 1;
    }
    proof {
        lemma_op_run_end(s@, i as int, j as int);
    }
    j
}

/// Whether `s` holds the characters of `word` from position `i` on.
fn starts_with(s: &Vec<char>, i: usize, word: &str) -> (r: bool)
    requires
        i <= s@.len(),
    ensures
        r == (i + word@.len() <= s@.len() && s@.subrange(i as int, i + word@.len()) == word@),
{
    let n = word.unicode_len();
    let len = s.len();
    if n > len - i {
        return false;
    }
    let mut k: usize = 0;
    while k < n
        invariant
            n == word@.len(),
            len == s@.len(),
            i + n <= len,
            k <= n,
            forall|m: int| 0 <= m < k ==> s@[i + m] == word@[m],
        decreases n - k,
    {
        if s[i + k] != word.get_char(k) {
            assert(s@.subrange(i as int, i + n)[k as int] != word@[k as int]);
            return false;
        }
        k = k + 1;
    }
    assert(s@.subrange(i as int, i + n) =~= word@);
    true
}

proof fn lemma_digits_value_prefix(d: Seq<char>, m: int)
    requires
        0 <= m <= d.len(),
    ensures
        digits_value(d.subrange(0, m)) <= digits_value(d),
    decreases d.len(),
{
    if m < d.len() {
        let p = d.drop_last();
        assert(p.subrange(0, m) =~= d.subrange(0, m));
        lemma_digits_value_prefix(p, m);
    } else {
        assert(d.subrange(0, m) =~= d);
    }
}

/// The value of the digits `s[a..b]`, where it fits in an `i64`.
fn digits_to_i64(s: &Vec<char>, a: usize, b: usize) -> (r: Option<i64>)
    requires
        a <= b <= s@.len(),
        all_digits(s@.subrange(a as int, b as int)),
    ensures
        match r {
            Some(v) => v >= 0 && v as nat == digits_value(s@.subrange(a as int, b as int)),
            None => digits_value(s@.subrange(a as int, b as int)) > i64::MAX,
        },
{
    let ghost whole = s@.subrange(a as int, b as int);
    let mut acc: i64 = 0;
    let mut k: usize = a;
    assert(s@.subrange(a as int, a as int) =~= Seq::<char>::empty());
    while k < b
        invariant
            a <= k <= b,
            b <= s@.len(),
            whole == s@.subrange(a as int, b as int),
            all_digits(whole),
            acc >= 0,
            acc as nat == digits_value(s@.subrange(a as int, k as int)),
        decreases b - k,
    {
        assert(is_digit(whole[k - a]));
        let d: i64 = (s[k] as u32 - '0' as u32) as i64;
        proof {
            assert(s@.subrange(a as int, k + 1) =~= s@.subrange(a as int, k as int).push(s@[k as int]));
            lemma_digits_value_push(s@.subrange(a as int, k as int), s@[k as int]);
        }
        if acc > (i64::MAX - d) / 10 {
            proof {
                assert(whole.subrange(0, k + 1 - a) =~= s@.subrange(a as int, k + 1));
                lemma_digits_value_prefix(whole, k + 1 - a);
            }
            return None;
        }
        acc = acc * 10 + d;
        k = k + 1;
    }
    Some(acc)
}

fn number_scan_end(s: &Vec<char>, i: usize) -> (j: usize)
    requires
        i <= s@.len(),
    ensures
        j == number_end(s@, i as int),
{
    let len = s.len();
    let mut j = i;
    while j < len && (('0' <= s[j] && s[j] <= '9') || (s[j] == '.' && len - j > 1 && '0' <= s[j + 1] && s[j + 1] <= '9'))
        invariant
            i <= j <= len,
            len == s@.len(),
            number_end(s@, j as int) == number_end(s@, i as int),
        decreases len - j,
    {
        j = j + 1;
    }
    j
}

/// `e` is a malformed-literal error with message `m`.
pub open spec fn custom_message(e: SyntaxError, m: Seq<char>) -> bool {
    match e.reason {
        SyntaxReason::Custom(t) => t@ == m,
        _ => false,
    }
}

fn custom_error(start: usize, end: usize, message: &str) -> (r: SyntaxError)
    ensures
        r.span == (Span { start, end }),
        r.reason matches SyntaxReason::Custom(m) && m@ == message@,
{
    SyntaxError { span: Span { start, end }, reason: SyntaxReason::Custom(String::from_str(message)) }
}

/// `r` is a numeric literal node spanning `[start, end)` with the given digits.
pub open spec fn number_result(
    r: Result<(Spanned, usize), SyntaxError>,
    start: int,
    end: int,
    whole: Seq<char>,
    fraction: Seq<char>,
) -> bool {
    match r {
        Ok((n, e)) => e == end && n.1 == (Span { start: start as usize, end: end as usize }) && match n.0 {
            Node::NumericLiteral(d) => d.whole@ == whole && d.fraction@ == fraction,
            _ => false,
        },
        Err(_) => false,
    }
}

/// What reading the number or range literal at `i` gives.
pub open spec fn digit_literal_spec(s: Seq<char>, i: int, r: Result<(Spanned, usize), SyntaxError>) -> bool {
    let e1 = digit_run_end(s, i);
    if is_range_at(s, i) {
        let e2 = digit_run_end(s, e1 + 2);
        let a = digits_value(s.subrange(i, e1));
        let b = digits_value(s.subrange(e1 + 2, e2));
        if a <= i64::MAX && b <= i64::MAX {
            r == Ok::<(Spanned, usize), SyntaxError>(
                ((Node::Range(a as i64, b as i64), Span { start: i as usize, end: e2 as usize }), e2 as usize),
            )
        } else {
            r matches Err(e) && e.span == (Span { start: i as usize, end: e2 as usize })
                && custom_message(e, "number too large to fit in target type"@)
        }
    } else if !has_fraction_at(s, i) {
        number_result(r, i, e1, strip_leading_zeros(s.subrange(i, e1)), Seq::empty())
    } else {
        let e2 = digit_run_end(s, e1 + 1);
        if number_end(s, i) == e2 {
            number_result(
                r,
                i,
                e2,
                strip_leading_zeros(s.subrange(i, e1)),
                strip_trailing_zeros(s.subrange(e1 + 1, e2)),
            )
        } else {
            r matches Err(e) && e.span == (Span { start: i as usize, end: number_end(s, i) as usize })
                && custom_message(e, "invalid float literal"@)
        }
    }
}

/// Reads the number or range literal that starts at the digit at `i`.
fn parse_digit_literal(src: &str, s: &Vec<char>, i: usize) -> (r: Result<(Spanned, usize), SyntaxError>)
    requires
        s@ == src@,
        i < s@.len(),
        is_digit(s@[i as int]),
    ensures
        digit_literal_spec(s@, i as int, r),
{
    let len = s.len();
    let e1 = digit_end(s, i);
    proof {
        lemma_digit_run_end(s@, i as int);
        lemma_number_end_skips_digits(s@, i as int);
        assert(all_digits(s@.subrange(i as int, e1 as int)));
    }
    if len - e1 > 2 && s[e1] == '.' && s[e1 + 1] == '.' && '0' <= s[e1 + 2] && s[e1 + 2] <= '9' {
        let e2 = digit_end(s, e1 + 2);
        proof {
            lemma_digit_run_end(s@, e1 + 2);
            assert(all_digits(s@.subrange(e1 + 2, e2 as int)));
        }
        let a = digits_to_i64(s, i, e1);
        let b = digits_to_i64(s, e1 + 2, e2);
        match (a, b) {
            (Some(a), Some(b)) => {
                let r = Ok(((Node::Range(a, b), Span { start: i, end: e2 }), e2));
                assert(digit_literal_spec(s@, i as int, r));
                r
            },
            _ => Err(custom_error(i, e2, "number too large to fit in target type")),
        }
    } else if len - e1 > 1 && s[e1] == '.' && '0' <= s[e1 + 1] && s[e1 + 1] <= '9' {
        let e2 = digit_end(s, e1 + 1);
        proof {
            lemma_digit_run_end(s@, e1 + 1);
            lemma_number_end_skips_digits(s@, e1 + 1);
            assert(all_digits(s@.subrange(e1 + 1, e2 as int)));
            assert(number_end(s@, e1 as int) == number_end(s@, e1 + 1));
        }
        if len - e2 > 1 && s[e2] == '.' && '0' <= s[e2 + 1] && s[e2 + 1] <= '9' {
            let end = number_scan_end(s, e2);
            proof {
                lemma_number_end_bounds(s@, e2 + 1);
                assert(number_end(s@, e2 as int) == number_end(s@, e2 + 1));
            }
            let r = Err(custom_error(i, end, "invalid float literal"));
            assert(digit_literal_spec(s@, i as int, r));
            r
        } else {
            let d = Decimal::from_digits(src.substring_char(i, e1), src.substring_char(e1 + 1, e2));
            let r = Ok(((Node::NumericLiteral(d), Span { start: i, end: e2 }), e2));
            assert(digit_literal_spec(s@, i as int, r));
            r
        }
    } else {
        proof {
            reveal_strlit("");
            assert(""@ =~= Seq::<char>::empty());
            assert(strip_trailing_zeros(Seq::<char>::empty()) == Seq::<char>::empty());
        }
        let d = Decimal::from_digits(src.substring_char(i, e1), "");
        let r = Ok(((Node::NumericLiteral(d), Span { start: i, end: e1 }), e1));
        assert(digit_literal_spec(s@, i as int, r));
        r
    }
}

/// `e` lies within the text `s`; an unclosed delimiter is reported from the delimiter itself
/// through the end of input.
pub open spec fn error_wf(e: SyntaxError, s: Seq<char>) -> bool {
    &&& e.span.start <= e.span.end <= s.len()
    &&& match e.reason {
        SyntaxReason::Unclosed { delimiter, span } => {
            &&& e.span.start < s.len()
            &&& e.span.end == s.len()
            &&& s[e.span.start as int] == delimiter
            &&& span == (Span { start: e.span.start, end: (e.span.start + 1) as usize })
        },
        _ => true,
    }
}

/// A node read from position `i` spans `[i, end)` and ends after `i`.
pub open spec fn expr_result_wf(s: Seq<char>, i: int, r: Result<(Spanned, usize), SyntaxError>) -> bool {
    match r {
        Ok((n, e)) => i < e <= s.len() && n.1 == (Span { start: i as usize, end: e as usize }),
        Err(err) => i <= err.span.start && error_wf(err, s),
    }
}

fn labels1(a: &str) -> (r: Vec<String>) {
    let mut v = Vec::new();
    v.push(String::from_str(a));
    v
}

fn labels2(a: &str, b: &str) -> (r: Vec<String>) {
    let mut v = labels1(a);
    v.push(String::from_str(b));
    v
}

fn expression_labels() -> (r: Vec<String>) {
    let mut v = labels2("while loop", "boolean");
    v.push(String::from_str("string"));
    v.push(String::from_str("range"));
    v.push(String::from_str("number"));
    v.push(String::from_str("variable"));
    v.push(String::from_str("operator"));
    v.push(String::from_str("function call"));
    v
}

/// An error for position `k`: what stands there (nothing at the end of input) was not expected.
fn unexpected(s: &Vec<char>, k: usize, expected: Vec<String>) -> (r: SyntaxError)
    requires
        k <= s@.len(),
    ensures
        r.span.start == k,
        r.span.end == if k < s@.len() { k + 1 } else { k as int },
        r.reason is Unexpected,
{
    if k < s.len() {
        SyntaxError { span: Span { start: k, end: k + 1 }, reason: SyntaxReason::Unexpected { found: Some(s[k]), expected } }
    } else {
        SyntaxError { span: Span { start: k, end: k }, reason: SyntaxReason::Unexpected { found: None, expected } }
    }
}

/// An error for a delimiter opened at `open` and not closed before the end of input.
fn unclosed(s: &Vec<char>, open: usize) -> (r: SyntaxError)
    requires
        open < s@.len(),
    ensures
        r.span == (Span { start: open, end: s@.len() as usize }),
        r.reason == (SyntaxReason::Unclosed { delimiter: s@[open as int], span: Span { start: open, end: (open + 1) as usize } }),
{
    SyntaxError {
        span: Span { start: open, end: s.len() },
        reason: SyntaxReason::Unclosed { delimiter: s[open], span: Span { start: open, end: open + 1 } },
    }
}

/// First position from `k` on that holds a backtick or a backslash, or the end of `s`.
pub open spec fn string_stop(s: Seq<char>, k: int) -> int
    decreases s.len() - k,
{
    if 0 <= k < s.len() && s[k] != '`' && s[k] != '\\' {
        string_stop(s, k + 1)
    } else {
        k
    }
}

/// What reading the string literal opened at `i` gives: its text up to the closing backtick;
/// an unclosed literal at the end of input; a backslash is not accepted.
pub open spec fn string_literal_spec(s: Seq<char>, i: int, r: Result<(Spanned, usize), SyntaxError>) -> bool {
    let k = string_stop(s, i + 1);
    if k < s.len() && s[k] == '`' {
        match r {
            Ok((n, e)) => e == k + 1 && n.1 == (Span { start: i as usize, end: e }) && match n.0 {
                Node::StringLiteral(t) => t@ == s.subrange(i + 1, k),
                _ => false,
            },
            Err(_) => false,
        }
    } else if k < s.len() {
        r matches Err(err) && err.span == (Span { start: k as usize, end: (k + 1) as usize })
            && err.reason is Unexpected
    } else {
        r matches Err(err) && err.reason is Unclosed
    }
}

/// Reads the string literal whose opening backtick is at `i`.
fn parse_string(src: &str, s: &Vec<char>, i: usize) -> (r: Result<(Spanned, usize), SyntaxError>)
    requires
        s@ == src@,
        i < s@.len(),
        s@[i as int] == '`',
    ensures
        expr_result_wf(s@, i as int, r),
        string_literal_spec(s@, i as int, r),
        reading_of(r) == string_reading(s@, i as int),
{
    let len = s.len();
    let mut k = i + 1;
    while k < len && s[k] != '`' && s[k] != '\\'
        invariant
            i < k <= len,
            len == s@.len(),
            string_stop(s@, k as int) == string_stop(s@, i + 1),
        decreases len - k,
    {
        k = k + 1;
    }
    if k == len {
        Err(unclosed(s, i))
    } else if s[k] == '`' {
        let text = String::from_str(src.substring_char(i + 1, k));
        Ok(((Node::StringLiteral(text), Span { start: i, end: k + 1 }), k + 1))
    } else {
        Err(unexpected(s, k, labels1("`")))
    }
}

/// The kind of a syntax error, as the reading of a program states it.
pub enum Fault {
    Unclosed,
    Unexpected,
    Custom,
}

/// Where reading stopped: the end of what was read, or an error's start, end and kind.
pub type Reading = Result<int, (int, int, Fault)>;

pub open spec fn fault_of(reason: SyntaxReason) -> Fault {
    match reason {
        SyntaxReason::Unclosed { .. } => Fault::Unclosed,
        SyntaxReason::Unexpected { .. } => Fault::Unexpected,
        SyntaxReason::Custom(_) => Fault::Custom,
    }
}

pub open spec fn error_reading(e: SyntaxError) -> (int, int, Fault) {
    (e.span.start as int, e.span.end as int, fault_of(e.reason))
}

/// Where an attempt to read a node stopped.
pub open spec fn reading_of(r: Result<(Spanned, usize), SyntaxError>) -> Reading {
    match r {
        Ok((_, e)) => Ok(e as int),
        Err(err) => Err(error_reading(err)),
    }
}

/// Where an attempt to read a list (of arguments or of block statements) stopped.
pub open spec fn list_reading_of(r: Result<(Vec<Spanned>, usize), SyntaxError>) -> Reading {
    match r {
        Ok((_, e)) => Ok(e as int),
        Err(err) => Err(error_reading(err)),
    }
}

/// An error for position `k`: the character there, or the end of input, was not expected.
pub open spec fn unexpected_at(s: Seq<char>, k: int) -> Reading {
    Err((k, if k < s.len() { k + 1 } else { k }, Fault::Unexpected))
}

/// `s` holds `w` from position `i` on.
pub open spec fn text_at(s: Seq<char>, i: int, w: Seq<char>) -> bool {
    0 <= i && i + w.len() <= s.len() && s.subrange(i, i + w.len()) == w
}

pub open spec fn string_reading(s: Seq<char>, i: int) -> Reading {
    let k = string_stop(s, i + 1);
    if k < s.len() && s[k] == '`' {
        Ok(k + 1)
    } else if k < s.len() {
        Err((k, k + 1, Fault::Unexpected))
    } else {
        Err((i, s.len() as int, Fault::Unclosed))
    }
}

pub open spec fn digit_reading(s: Seq<char>, i: int) -> Reading {
    let e1 = digit_run_end(s, i);
    if is_range_at(s, i) {
        let e2 = digit_run_end(s, e1 + 2);
        if digits_value(s.subrange(i, e1)) <= i64::MAX && digits_value(s.subrange(e1 + 2, e2)) <= i64::MAX {
            Ok(e2)
        } else {
            Err((i, e2, Fault::Custom))
        }
    } else if !has_fraction_at(s, i) {
        Ok(e1)
    } else if number_end(s, i) == digit_run_end(s, e1 + 1) {
        Ok(number_end(s, i))
    } else {
        Err((i, number_end(s, i), Fault::Custom))
    }
}

/// How far the expression at `i` reads. The rules are tried in order: a loop (falling back to a
/// name when no block follows its condition), a string, a number or range, `true`, `false`, a
/// binding or call (or, where a value is wanted, a reference), an operator run.
pub open spec fn expr_reading(s: Seq<char>, i: int, value_position: bool) -> Reading
    decreases s.len() - i, 2nat,
{
    if !(0 <= i < s.len()) {
        unexpected_at(s, i)
    } else if s[i] == '`' {
        string_reading(s, i)
    } else if is_digit(s[i]) {
        digit_reading(s, i)
    } else if text_at(s, i, seq!['w', 'h', 'i', 'l', 'e']) {
        let (r, before_block) = loop_reading(s, i);
        if before_block {
            named_reading(s, i, value_position)
        } else {
            r
        }
    } else if text_at(s, i, seq!['t', 'r', 'u', 'e']) {
        Ok(i + 4)
    } else if text_at(s, i, seq!['f', 'a', 'l', 's', 'e']) {
        Ok(i + 5)
    } else if is_ident_start(s[i]) {
        named_reading(s, i, value_position)
    } else if is_op_char(s[i]) {
        Ok(op_run_end(s, i))
    } else {
        unexpected_at(s, i)
    }
}

/// How far the name at `i` reads: a binding `name := value`, a call `name(args)`, or the bare name.
pub open spec fn named_reading(s: Seq<char>, i: int, value_position: bool) -> Reading
    decreases s.len() - i, 1nat,
{
    let e = ident_run_end(s, i);
    let j = ws_end(s, e);
    if !(0 <= i < e <= j <= s.len()) {
        unexpected_at(s, i)
    } else if text_at(s, j, seq![':', '=']) {
        let k = ws_end(s, j + 2);
        if !(j + 2 <= k <= s.len()) || k == s.len() {
            unexpected_at(s, k)
        } else {
            expr_reading(s, k, true)
        }
    } else if j < s.len() && s[j] == '(' {
        args_reading(s, j, j + 1)
    } else {
        Ok(e)
    }
}

/// How far an argument list opened at `open` reads, from position `k` on.
pub open spec fn args_reading(s: Seq<char>, open: int, k: int) -> Reading
    decreases s.len() - k, 3nat,
{
    let k1 = ws_end(s, k);
    if !(0 <= k <= k1 <= s.len()) || k1 == s.len() {
        Err((open, s.len() as int, Fault::Unclosed))
    } else if s[k1] == ')' {
        Ok(k1 + 1)
    } else {
        match expr_reading(s, k1, true) {
            Err(x) => Err(x),
            Ok(e) => {
                let k2 = ws_end(s, e);
                if !(k1 < e <= k2 <= s.len()) || k2 == s.len() {
                    Err((open, s.len() as int, Fault::Unclosed))
                } else if s[k2] == ')' {
                    Ok(k2 + 1)
                } else if s[k2] != ',' {
                    unexpected_at(s, k2)
                } else {
                    args_reading(s, open, k2 + 1)
                }
            },
        }
    }
}

/// How far the loop at `i` reads, and whether it failed before its block began.
pub open spec fn loop_reading(s: Seq<char>, i: int) -> (Reading, bool)
    decreases s.len() - i, 1nat,
{
    let k = ws_end(s, i + 5);
    if !(0 <= i && i + 5 <= k <= s.len()) || k == s.len() {
        (unexpected_at(s, k), true)
    } else {
        match expr_reading(s, k, true) {
            Err(x) => (Err(x), true),
            Ok(ce) => {
                let b = ws_end(s, ce);
                if !(k < ce <= b <= s.len()) || b == s.len() || s[b] != '{' {
                    (unexpected_at(s, b), true)
                } else {
                    (block_reading(s, b, b + 1), false)
                }
            },
        }
    }
}

/// `c` separates statements.
pub open spec fn is_separator(c: char) -> bool {
    c == '.' || c == ';'
}

/// Where the next statement may begin after one that ends at `e`: past whitespace and at most
/// one separator.
pub open spec fn after_statement(s: Seq<char>, e: int) -> int {
    let w = ws_end(s, e);
    if w < s.len() && is_separator(s[w]) {
        w + 1
    } else {
        w
    }
}

/// How far a block opened at `open` reads, from position `k` on.
pub open spec fn block_reading(s: Seq<char>, open: int, k: int) -> Reading
    decreases s.len() - k, 3nat,
{
    let k1 = ws_end(s, k);
    if !(0 <= k <= k1 <= s.len()) || k1 == s.len() {
        Err((open, s.len() as int, Fault::Unclosed))
    } else if s[k1] == '}' {
        Ok(k1 + 1)
    } else {
        match expr_reading(s, k1, false) {
            Err(x) => Err(x),
            Ok(e) => {
                let n = after_statement(s, e);
                if !(k1 < e <= n <= s.len()) {
                    Err((open, s.len() as int, Fault::Unclosed))
                } else {
                    block_reading(s, open, n)
                }
            },
        }
    }
}

/// `r` is the whole run of operator characters at `i`, kept as text.
pub open spec fn op_literal_spec(s: Seq<char>, i: int, r: Result<(Spanned, usize), SyntaxError>) -> bool {
    match r {
        Ok((n, e)) => {
            &&& n.1 == (Span { start: i as usize, end: e })
            &&& (forall|k: int| i <= k < e ==> is_op_char(#[trigger] s[k]))
            &&& (e == s.len() || !is_op_char(s[e as int]))
            &&& match n.0 {
                Node::Op(t) => t@ == s.subrange(i, e as int),
                _ => false,
            }
        },
        Err(_) => false,
    }
}

/// Reads one expression starting at `i`. Where a value is wanted (an argument, a loop condition,
/// the right side of a binding) a bare name reads a variable; as a statement it is a call
/// without arguments.
fn parse_expr(src: &str, s: &Vec<char>, i: usize, value_position: bool) -> (r: Result<(Spanned, usize), SyntaxError>)
    requires
        s@ == src@,
        i < s@.len(),
    ensures
        expr_result_wf(s@, i as int, r),
        is_digit(s@[i as int]) ==> digit_literal_spec(s@, i as int, r),
        s@[i as int] == '`' ==> string_literal_spec(s@, i as int, r),
        i + 4 <= s@.len() && s@.subrange(i as int, i + 4) == seq!['t', 'r', 'u', 'e'] ==> r == Ok::<(Spanned, usize), SyntaxError>(
            ((Node::BooleanLiteral(true), Span { start: i, end: (i + 4) as usize }), (i + 4) as usize),
        ),
        i + 5 <= s@.len() && s@.subrange(i as int, i + 5) == seq!['f', 'a', 'l', 's', 'e'] ==> r == Ok::<(Spanned, usize), SyntaxError>(
            ((Node::BooleanLiteral(false), Span { start: i, end: (i + 5) as usize }), (i + 5) as usize),
        ),
        is_op_char(s@[i as int]) ==> op_literal_spec(s@, i as int, r),
        reads_result(s@, r, value_position),
        i + 5 <= s@.len() && s@.subrange(i as int, i + 5) == seq!['w', 'h', 'i', 'l', 'e'] ==> loop_spec(r)
            || named_spec(s@, i as int, value_position, r),
        is_ident_start(s@[i as int]) && !(i + 5 <= s@.len() && s@.subrange(i as int, i + 5) == seq!['w', 'h', 'i', 'l', 'e'])
            && !(i + 4 <= s@.len() && s@.subrange(i as int, i + 4) == seq!['t', 'r', 'u', 'e'])
            && !(i + 5 <= s@.len() && s@.subrange(i as int, i + 5) == seq!['f', 'a', 'l', 's', 'e'])
            ==> named_spec(s@, i as int, value_position, r),
        reading_of(r) == expr_reading(s@, i as int, value_position),
    decreases s@.len() - i, 1nat,
{
    proof {
        reveal_strlit("while");
        reveal_strlit("true");
        reveal_strlit("false");
    }
    let len = s.len();
    let c = s[i];
    proof {
        assert("while"@ =~= seq!['w', 'h', 'i', 'l', 'e']);
        assert("true"@ =~= seq!['t', 'r', 'u', 'e']);
        assert("false"@ =~= seq!['f', 'a', 'l', 's', 'e']);
        if i + 5 <= len {
            assert(s@.subrange(i as int, i + 5)[0] == s@[i as int]);
        }
        if i + 4 <= len {
            assert(s@.subrange(i as int, i + 4)[0] == s@[i as int]);
        }
    }
    if c == '`' {
        parse_string(src, s, i)
    } else if '0' <= c && c <= '9' {
        let r = parse_digit_literal(src, s, i);
        proof {
            lemma_digit_run_end(s@, i as int);
            lemma_number_end_bounds(s@, i as int);
            if is_range_at(s@, i as int) {
                lemma_digit_run_end(s@, digit_run_end(s@, i as int) + 2);
            } else if has_fraction_at(s@, i as int) {
                lemma_digit_run_end(s@, digit_run_end(s@, i as int) + 1);
            }
            assert(expr_result_wf(s@, i as int, r));
        }
        r
    } else if starts_with(s, i, "while") {
        let (r, before_block) = parse_while(src, s, i);
        if before_block {
            parse_named(src, s, i, value_position)
        } else {
            r
        }
    } else if starts_with(s, i, "true") {
        Ok(((Node::BooleanLiteral(true), Span { start: i, end: i + 4 }), i + 4))
    } else if starts_with(s, i, "false") {
        Ok(((Node::BooleanLiteral(false), Span { start: i, end: i + 5 }), i + 5))
    } else if ('a' <= c && c <= 'z') || ('A' <= c && c <= 'Z') || c == '_' {
        parse_named(src, s, i, value_position)
    } else if c == '=' || c == '.' || c == ':' || c == '%' || c == ',' {
        let e = op_end(s, i);
        let text = String::from_str(src.substring_char(i, e));
        Ok(((Node::Op(text), Span { start: i, end: e }), e))
    } else {
        Err(unexpected(s, i, expression_labels()))
    }
}

/// `name` is the whole identifier that starts at `i`.
pub open spec fn name_at(s: Seq<char>, i: int, name: Seq<char>) -> bool {
    let j = i + name.len();
    &&& name.len() > 0
    &&& j <= s.len()
    &&& s.subrange(i, j) == name
    &&& forall|k: int| i <= k < j ==> is_ident_char(#[trigger] s[k])
    &&& (j == s.len() || !is_ident_char(s[j]))
}

/// `r` reads the identifier at `i`: a binding of it, a call of it, or (where a value is wanted
/// and neither follows) a reference to it.
pub open spec fn named_spec(s: Seq<char>, i: int, value_position: bool, r: Result<(Spanned, usize), SyntaxError>) -> bool {
    match r {
        Ok((n, _)) => match n.0 {
            Node::Variable(name, _) => name_at(s, i, name@),
            Node::Call(callee, _) => callee.1.start == i && match callee.0 {
                Node::Ident(name) => name_at(s, i, name@),
                _ => false,
            },
            Node::Ident(name) => value_position && name_at(s, i, name@),
            _ => false,
        },
        Err(_) => true,
    }
}

/// Reads a binding, a call or (in argument position) a variable reference at `i`.
fn parse_named(src: &str, s: &Vec<char>, i: usize, value_position: bool) -> (r: Result<(Spanned, usize), SyntaxError>)
    requires
        s@ == src@,
        i < s@.len(),
        is_ident_start(s@[i as int]),
    ensures
        expr_result_wf(s@, i as int, r),
        named_spec(s@, i as int, value_position, r),
        reads_result(s@, r, value_position),
        reading_of(r) == named_reading(s@, i as int, value_position),
    decreases s@.len() - i, 0nat,
{
    proof {
        reveal_strlit(":=");
        assert(":="@ =~= seq![':', '=']);
    }
    let len = s.len();
    let e = ident_end(s, i);
    let name = String::from_str(src.substring_char(i, e));
    let j = skip_ws(s, e);
    if starts_with(s, j, ":=") {
        let k = skip_ws(s, j + 2);
        if k == len {
            return Err(unexpected(s, k, expression_labels()));
        }
        match parse_expr(src, s, k, true) {
            Ok((value, ve)) => Ok(((Node::Variable(name, Box::new(value)), Span { start: i, end: ve }), ve)),
            Err(err) => Err(err),
        }
    } else if j < len && s[j] == '(' {
        match parse_args(src, s, j) {
            Ok((args, end)) => {
                let callee = (Node::Ident(name), Span { start: i, end: e });
                Ok(((Node::Call(Box::new(callee), args), Span { start: i, end }), end))
            },
            Err(err) => Err(err),
        }
    } else if value_position {
        Ok(((Node::Ident(name), Span { start: i, end: e }), e))
    } else {
        let callee = (Node::Ident(name), Span { start: i, end: e });
        Ok(((Node::Call(Box::new(callee), Vec::new()), Span { start: i, end: e }), e))
    }
}

/// Reads the argument list whose opening parenthesis is at `open`; returns the arguments and
/// the position after the closing parenthesis.
#[verifier::rlimit(100)]
fn parse_args(src: &str, s: &Vec<char>, open: usize) -> (r: Result<(Vec<Spanned>, usize), SyntaxError>)
    requires
        s@ == src@,
        open < s@.len(),
    ensures
        match r {
            Ok((args, e)) => open < e <= s@.len() && s@[e - 1] == ')' && items_read(s@, args@, true, open as int, e - 1),
            Err(err) => open <= err.span.start && error_wf(err, s@),
        },
        list_reading_of(r) == args_reading(s@, open as int, open + 1),
        r matches Ok((args, e)) ==> args_closed(s@, open as int, args@, e - 1),
    decreases s@.len() - open, 0nat,
{
    let len = s.len();
    let mut args: Vec<Spanned> = Vec::new();
    let mut k = open + 1;
    proof {
        reveal(args_layout);
    }
    loop
        invariant
            s@ == src@,
            len == s@.len(),
            open < k <= len,
            items_read(s@, args@, true, open as int, k as int),
            args_reading(s@, open as int, k as int) == args_reading(s@, open as int, open + 1),
            args_layout(s@, open as int, args@),
            args@.len() == 0 ==> k == open + 1,
            args@.len() > 0 ==> k == ws_end(s@, args@.last().1.end as int) + 1 && s@[k - 1] == ',',
        decreases len - k,
    {
        let ghost k0 = k;
        k = skip_ws(s, k);
        if k == len {
            return Err(unclosed(s, open));
        }
        if s[k] == ')' {
            return Ok((args, k + 1));
        }
        match parse_expr(src, s, k, true) {
            Ok((arg, e)) => {
                let ghost old_args = args@;
                proof {
                    lemma_items_push(s@, args@, true, open as int, k as int, arg, e as int);
                    lemma_args_push(s@, open as int, args@, arg, k0 as int);
                }
                args.push(arg);
                proof {
                    assert(args@ == old_args.push(arg));
                }
                k = skip_ws(s, e);
            },
            Err(err) => {
                return Err(err);
            },
        }
        if k == len {
            return Err(unclosed(s, open));
        }
        if s[k] == ')' {
            return Ok((args, k + 1));
        }
        if s[k] != ',' {
            return Err(unexpected(s, k, labels2(",", ")")));
        }
        k = k + 1;
    }
}

/// `n` is what the grammar reads from the text it spans, and so, in turn, is each node inside it,
/// each lying within its parent's span. Where a value is wanted (`value_position`) a bare name is a
/// reference; elsewhere it is a call.
pub open spec fn reads_as(s: Seq<char>, n: Spanned, value_position: bool) -> bool
    decreases n,
{
    let i = n.1.start as int;
    let e = n.1.end as int;
    &&& i < e <= s.len()
    &&& match n.0 {
        Node::NumericLiteral(_) => is_digit(s[i]) && digit_literal_spec(s, i, Ok((n, n.1.end))),
        Node::Range(_, _) => is_digit(s[i]) && digit_literal_spec(s, i, Ok((n, n.1.end))),
        Node::StringLiteral(_) => s[i] == '`' && string_literal_spec(s, i, Ok((n, n.1.end))),
        Node::BooleanLiteral(b) => s.subrange(i, e) == bool_text(b),
        Node::Op(_) => is_op_char(s[i]) && op_literal_spec(s, i, Ok((n, n.1.end))),
        Node::Ident(name) => value_position && name_at(s, i, name@) && e == i + name@.len(),
        Node::Call(callee, args) => {
            &&& match callee.0 {
                Node::Ident(name) => name_at(s, i, name@) && callee.1 == (Span {
                    start: i as usize,
                    end: (i + name@.len()) as usize,
                }),
                _ => false,
            }
            &&& (e == callee.1.end && args.len() == 0) || {
                let j = ws_end(s, callee.1.end as int);
                0 <= j < s.len() && s[j] == '(' && args_closed(s, j, args@, e - 1)
            }
            &&& forall|k: int|
                0 <= k < args.len() ==> reads_as(s, #[trigger] args[k], true) && callee.1.end < args[k].1.start
                    && args[k].1.end < e
        },
        Node::While(cond, body) => {
            &&& i + 5 <= s.len() && s.subrange(i, i + 5) == seq!['w', 'h', 'i', 'l', 'e']
            &&& reads_as(s, *cond, true)
            &&& cond.1.start == ws_end(s, i + 5)
            &&& cond.1.end < e
            &&& {
                let b = ws_end(s, cond.1.end as int);
                0 <= b < s.len() && s[b] == '{' && block_closed(s, b, body@, e - 1)
            }
            &&& forall|k: int|
                0 <= k < body.len() ==> reads_as(s, #[trigger] body[k], false) && cond.1.end < body[k].1.start
                    && body[k].1.end < e
        },
        Node::Variable(name, value) => {
            &&& name_at(s, i, name@)
            &&& reads_as(s, *value, true)
            &&& {
                let j = ws_end(s, i + name@.len());
                text_at(s, j, seq![':', '=']) && value.1.start == ws_end(s, j + 2)
            }
            &&& i + name@.len() < value.1.start
            &&& value.1.end == e
        },
    }
}

/// Where reading resumes after the statements `items` of a block opened at `open`.
pub open spec fn block_next(s: Seq<char>, open: int, items: Seq<Spanned>) -> int {
    if items.len() == 0 {
        open + 1
    } else {
        after_statement(s, items.last().1.end as int)
    }
}

/// The statements `items` of the block opened at `open` follow one another as read: the first
/// after whitespace, each next one after whitespace and at most one separator.
#[verifier::opaque]
pub open spec fn block_layout(s: Seq<char>, open: int, items: Seq<Spanned>) -> bool {
    &&& items.len() > 0 ==> items[0].1.start == ws_end(s, open + 1)
    &&& forall|k: int|
        1 <= k < items.len() ==> #[trigger] items[k].1.start == ws_end(s, after_statement(s, items[k - 1].1.end as int))
}

/// The block opened at `open` holds exactly `items` and is closed by the `}` at `close`.
pub open spec fn block_closed(s: Seq<char>, open: int, items: Seq<Spanned>, close: int) -> bool {
    &&& block_layout(s, open, items)
    &&& ws_end(s, block_next(s, open, items)) == close
    &&& 0 <= close < s.len() && s[close] == '}'
}

/// The arguments `items` of the list opened at `open` follow one another as read: the first after
/// whitespace, each next one after whitespace, a comma and whitespace.
#[verifier::opaque]
pub open spec fn args_layout(s: Seq<char>, open: int, items: Seq<Spanned>) -> bool {
    &&& items.len() > 0 ==> items[0].1.start == ws_end(s, open + 1)
    &&& forall|k: int| 1 <= k < items.len() ==> comma_between(s, items[k - 1], #[trigger] items[k])
}

/// Only whitespace, one comma and whitespace stand between arguments `a` and `b`.
pub open spec fn comma_between(s: Seq<char>, a: Spanned, b: Spanned) -> bool {
    let c = ws_end(s, a.1.end as int);
    &&& 0 <= c < s.len()
    &&& s[c] == ','
    &&& b.1.start == ws_end(s, c + 1)
}

/// The list opened at `open` holds exactly `items` and is closed by the `)` at `close`; a comma
/// may follow the last argument.
pub open spec fn args_closed(s: Seq<char>, open: int, items: Seq<Spanned>, close: int) -> bool {
    &&& args_layout(s, open, items)
    &&& if items.len() == 0 {
        ws_end(s, open + 1) == close
    } else {
        let c = ws_end(s, items.last().1.end as int);
        c == close || (0 <= c < s.len() && s[c] == ',' && ws_end(s, c + 1) == close)
    }
    &&& 0 <= close < s.len() && s[close] == ')'
}

proof fn lemma_args_push(s: Seq<char>, open: int, items: Seq<Spanned>, n: Spanned, k: int)
    requires
        args_layout(s, open, items),
        items.len() == 0 ==> k == open + 1,
        items.len() > 0 ==> k == ws_end(s, items.last().1.end as int) + 1 && 0 < k <= s.len() && s[k - 1] == ',',
        n.1.start == ws_end(s, k),
    ensures
        args_layout(s, open, items.push(n)),
{
    reveal(args_layout);
    let p = items.push(n);
    assert forall|x: int| 1 <= x < p.len() implies comma_between(s, p[x - 1], #[trigger] p[x]) by {
        let c = ws_end(s, p[x - 1].1.end as int);
        if x < items.len() {
            assert(p[x] == items[x]);
            assert(p[x - 1] == items[x - 1]);
            let t = items[x].1.start;
            assert(0 <= c < s.len() && s[c] == ',' && t == ws_end(s, c + 1));
        } else {
            assert(p[x - 1] == items.last());
            assert(p[x] == n);
            assert(c == k - 1);
            assert(0 <= c < s.len() && s[c] == ',' && p[x].1.start == ws_end(s, c + 1));
        }
    }
    if items.len() == 0 {
        assert(p[0] == n);
    } else {
        assert(p[0] == items[0]);
    }
}

proof fn lemma_block_push(s: Seq<char>, open: int, items: Seq<Spanned>, n: Spanned)
    requires
        block_layout(s, open, items),
        n.1.start == ws_end(s, block_next(s, open, items)),
    ensures
        block_layout(s, open, items.push(n)),
{
    reveal(block_layout);
    let p = items.push(n);
    assert forall|x: int| 1 <= x < p.len() implies #[trigger] p[x].1.start == ws_end(
        s,
        after_statement(s, p[x - 1].1.end as int),
    ) by {
        if x < items.len() {
            assert(p[x] == items[x]);
            assert(p[x - 1] == items[x - 1]);
        } else {
            assert(p[x - 1] == items.last());
            assert(p[x] == n);
        }
    }
    if items.len() == 0 {
        assert(p[0] == n);
    } else {
        assert(p[0] == items[0]);
    }
}

/// `r`, where it succeeds, is a faithful reading of its text.
pub open spec fn reads_result(s: Seq<char>, r: Result<(Spanned, usize), SyntaxError>, value_position: bool) -> bool {
    match r {
        Ok((n, _)) => reads_as(s, n, value_position),
        Err(_) => true,
    }
}

/// Each of `items` reads faithfully and lies after `after` and ends by `bound`.
pub open spec fn items_read(s: Seq<char>, items: Seq<Spanned>, value_position: bool, after: int, bound: int) -> bool {
    forall|k: int|
        0 <= k < items.len() ==> reads_as(s, #[trigger] items[k], value_position) && after < items[k].1.start
            && items[k].1.end <= bound
}

proof fn lemma_items_push(s: Seq<char>, items: Seq<Spanned>, vp: bool, after: int, bound: int, n: Spanned, new_bound: int)
    requires
        items_read(s, items, vp, after, bound),
        reads_as(s, n, vp),
        after < n.1.start,
        n.1.end <= new_bound,
        bound <= new_bound,
    ensures
        items_read(s, items.push(n), vp, after, new_bound),
{
    assert forall|k: int| 0 <= k < items.push(n).len() implies reads_as(s, #[trigger] items.push(n)[k], vp)
        && after < items.push(n)[k].1.start && items.push(n)[k].1.end <= new_bound by {
        if k < items.len() {
            assert(items.push(n)[k] == items[k]);
        }
    }
}

/// `r`, where it succeeds, is a loop.
pub open spec fn loop_spec(r: Result<(Spanned, usize), SyntaxError>) -> bool {
    match r {
        Ok((n, _)) => n.0 is While,
        Err(_) => true,
    }
}

/// Reads the loop whose keyword `while` starts at `i`. The flag tells whether the reading failed
/// before the loop's block began, in which case the text may still be read as a name.
fn parse_while(src: &str, s: &Vec<char>, i: usize) -> (r: (Result<(Spanned, usize), SyntaxError>, bool))
    requires
        s@ == src@,
        i + 5 <= s@.len(),
        s@.subrange(i as int, i + 5) == seq!['w', 'h', 'i', 'l', 'e'],
    ensures
        expr_result_wf(s@, i as int, r.0),
        loop_spec(r.0),
        reads_result(s@, r.0, true),
        reads_result(s@, r.0, false),
        r.1 ==> r.0 is Err,
        (reading_of(r.0), r.1) == loop_reading(s@, i as int),
    decreases s@.len() - i, 0nat,
{
    let len = s.len();
    let k = skip_ws(s, i + 5);
    if k == len {
        return (Err(unexpected(s, k, expression_labels())), true);
    }
    match parse_expr(src, s, k, true) {
        Ok((cond, ce)) => {
            let b = skip_ws(s, ce);
            if b == len || s[b] != '{' {
                return (Err(unexpected(s, b, labels1("{"))), true);
            }
            match parse_block(src, s, b) {
                Ok((body, end)) => {
                    let r = Ok(((Node::While(Box::new(cond), body), Span { start: i, end }), end));
                    proof {
                        assert(reads_as(s@, r->Ok_0.0, true));
                    }
                    (r, false)
                },
                Err(err) => (Err(err), false),
            }
        },
        Err(err) => (Err(err), true),
    }
}

/// Reads the block whose opening brace is at `open`; returns its statements and the position
/// after the closing brace.
fn parse_block(src: &str, s: &Vec<char>, open: usize) -> (r: Result<(Vec<Spanned>, usize), SyntaxError>)
    requires
        s@ == src@,
        open < s@.len(),
        s@[open as int] == '{',
    ensures
        match r {
            Ok((stmts, e)) => open < e <= s@.len() && s@[e - 1] == '}' && items_read(s@, stmts@, false, open as int, e - 1),
            Err(err) => open <= err.span.start && error_wf(err, s@),
        },
        list_reading_of(r) == block_reading(s@, open as int, open + 1),
        r matches Ok((stmts, e)) ==> block_closed(s@, open as int, stmts@, e - 1),
    decreases s@.len() - open, 0nat,
{
    let len = s.len();
    let mut stmts: Vec<Spanned> = Vec::new();
    let mut k = open + 1;
    proof {
        reveal(block_layout);
    }
    loop
        invariant
            s@ == src@,
            len == s@.len(),
            open < k <= len,
            items_read(s@, stmts@, false, open as int, k as int),
            block_reading(s@, open as int, k as int) == block_reading(s@, open as int, open + 1),
            block_layout(s@, open as int, stmts@),
            k == block_next(s@, open as int, stmts@),
        decreases len - k,
    {
        k = skip_ws(s, k);
        if k == len {
            return Err(unclosed(s, open));
        }
        if s[k] == '}' {
            return Ok((stmts, k + 1));
        }
        match parse_expr(src, s, k, false) {
            Ok((stmt, e)) => {
                let ghost old_stmts = stmts@;
                proof {
                    lemma_items_push(s@, stmts@, false, open as int, k as int, stmt, e as int);
                    lemma_block_push(s@, open as int, stmts@, stmt);
                }
                stmts.push(stmt);
                proof {
                    assert(stmts@ == old_stmts.push(stmt));
                }
                k = skip_ws(s, e);
            },
            Err(err) => {
                return Err(err);
            },
        }
        if k < len && (s[k] == '.' || s[k] == ';') {
            k = k + 1;
        }
    }
}

fn chars_of(src: &str) -> (r: Vec<char>)
    ensures
        r@ == src@,
{
    let n = src.unicode_len();
    let mut v: Vec<char> = Vec::new();
    let mut k: usize = 0;
    while k < n
        invariant
            n == src@.len(),
            k <= n,
            v@ == src@.subrange(0, k as int),
        decreases n - k,
    {
        v.push(src.get_char(k));
        k = k + 1;
        assert(v@ =~= src@.subrange(0, k as int));
    }
    assert(v@ =~= src@);
    v
}

/// The whole of `s` is one number or range literal.
pub open spec fn is_lone_literal(s: Seq<char>) -> bool {
    &&& s.len() > 0
    &&& is_digit(s[0])
    &&& if is_range_at(s, 0) {
        digit_run_end(s, digit_run_end(s, 0) + 2) == s.len()
    } else {
        number_end(s, 0) == s.len()
    }
}

/// The single node, or else the first error, of a reading, as one literal's result.
pub open spec fn lone_result(nodes: Seq<Spanned>, errors: Seq<SyntaxError>, len: int) -> Result<(Spanned, usize), SyntaxError> {
    if nodes.len() == 1 && errors.len() == 0 {
        Ok((nodes[0], len as usize))
    } else {
        Err(errors[0])
    }
}

/// The nodes lie in order, without overlap, each non-empty and ending by `bound`.
pub open spec fn spans_in_order(nodes: Seq<Spanned>, bound: int) -> bool {
    &&& forall|k: int| 0 <= k < nodes.len() ==> #[trigger] nodes[k].1.start < nodes[k].1.end <= bound
    &&& forall|a: int, b: int| 0 <= a < b < nodes.len() ==> #[trigger] nodes[a].1.end <= #[trigger] nodes[b].1.start
}

proof fn lemma_spans_push(nodes: Seq<Spanned>, bound: int, n: Spanned, new_bound: int)
    requires
        spans_in_order(nodes, bound),
        bound <= n.1.start,
        n.1.start < n.1.end <= new_bound,
    ensures
        spans_in_order(nodes.push(n), new_bound),
{
    let p = nodes.push(n);
    assert forall|k: int| 0 <= k < p.len() implies #[trigger] p[k].1.start < p[k].1.end <= new_bound by {
        if k < nodes.len() {
            assert(p[k] == nodes[k]);
        }
    }
    assert forall|a: int, b: int| 0 <= a < b < p.len() implies #[trigger] p[a].1.end <= #[trigger] p[b].1.start by {
        assert(p[a] == nodes[a]);
        assert(nodes[a].1.start < nodes[a].1.end <= bound);
        if b < nodes.len() {
            assert(p[b] == nodes[b]);
        }
    }
}

proof fn lemma_spans_widen(nodes: Seq<Spanned>, bound: int, new_bound: int)
    requires
        spans_in_order(nodes, bound),
        bound <= new_bound,
    ensures
        spans_in_order(nodes, new_bound),
{
}

/// What reading one top-level statement came to: the stretch it was read from, or the error met.
pub type StatementReading = Result<(int, int), (int, int, Fault)>;

/// The top-level statements of a program from position `i` on, in order. Statements are separated
/// by whitespace and at most one `.` or `;`; after an error, reading resumes past its span.
pub open spec fn program_reading(s: Seq<char>, i: int) -> Seq<StatementReading>
    decreases s.len() - i,
{
    let k = ws_end(s, i);
    if !(0 <= i <= k < s.len()) {
        Seq::empty()
    } else {
        match expr_reading(s, k, false) {
            Ok(e) => {
                let n = after_statement(s, e);
                if !(k < e <= n <= s.len()) {
                    Seq::empty()
                } else {
                    seq![Ok((k, e))] + program_reading(s, n)
                }
            },
            Err((a, b, f)) => {
                let n = if b > k { b } else { k + 1 };
                if n > s.len() {
                    Seq::empty()
                } else {
                    seq![Err((a, b, f))] + program_reading(s, n)
                }
            },
        }
    }
}

/// The stretches of the statements read without error, in order.
pub open spec fn read_parts(q: Seq<StatementReading>) -> Seq<(int, int)>
    decreases q.len(),
{
    if q.len() == 0 {
        Seq::empty()
    } else {
        (match q[0] {
            Ok(x) => seq![x],
            Err(_) => Seq::empty(),
        }) + read_parts(q.drop_first())
    }
}

/// The errors met, in order.
pub open spec fn error_parts(q: Seq<StatementReading>) -> Seq<(int, int, Fault)>
    decreases q.len(),
{
    if q.len() == 0 {
        Seq::empty()
    } else {
        (match q[0] {
            Ok(_) => Seq::empty(),
            Err(x) => seq![x],
        }) + error_parts(q.drop_first())
    }
}

pub open spec fn node_stretches(nodes: Seq<Spanned>) -> Seq<(int, int)> {
    nodes.map_values(|n: Spanned| (n.1.start as int, n.1.end as int))
}

pub open spec fn error_readings(errors: Seq<SyntaxError>) -> Seq<(int, int, Fault)> {
    errors.map_values(|e: SyntaxError| error_reading(e))
}

/// Reads a whole program: its top-level statements, separated by `.` or `;`, and the syntax
/// errors met on the way. After an error, reading goes on past the stretch it covers.
///
/// The stretches of the nodes and the errors (their spans and kinds) are exactly those that
/// `program_reading` gives, in order; each node is a faithful reading of its stretch (`reads_as`),
/// down to the layout of arguments, block statements and bindings.
#[verifier::rlimit(60)]
pub fn lexer(src: &str) -> (r: (Vec<Spanned>, Vec<SyntaxError>))
    ensures
        spans_in_order(r.0@, src@.len() as int),
        forall|k: int| 0 <= k < r.0@.len() ==> reads_as(src@, #[trigger] r.0@[k], false),
        forall|k: int| 0 <= k < r.1@.len() ==> error_wf(#[trigger] r.1@[k], src@),
        node_stretches(r.0@) == read_parts(program_reading(src@, 0)),
        error_readings(r.1@) == error_parts(program_reading(src@, 0)),
        is_lone_literal(src@) ==> r.0@.len() + r.1@.len() == 1 && digit_literal_spec(
            src@,
            0,
            lone_result(r.0@, r.1@, src@.len() as int),
        ),
{
    let s = chars_of(src);
    let len = s.len();
    let mut nodes: Vec<Spanned> = Vec::new();
    let mut errors: Vec<SyntaxError> = Vec::new();
    let mut i: usize = 0;
    while i < len
        invariant
            s@ == src@,
            len == s@.len(),
            i <= len,
            spans_in_order(nodes@, i as int),
            forall|k: int| 0 <= k < nodes@.len() ==> reads_as(s@, #[trigger] nodes@[k], false),
            forall|k: int| 0 <= k < errors@.len() ==> error_wf(#[trigger] errors@[k], s@),
            read_parts(program_reading(s@, 0)) == node_stretches(nodes@) + read_parts(program_reading(s@, i as int)),
            error_parts(program_reading(s@, 0)) == error_readings(errors@) + error_parts(program_reading(s@, i as int)),
            is_lone_literal(s@) ==> (i == 0 && nodes@.len() == 0 && errors@.len() == 0) || (i == len
                && nodes@.len() + errors@.len() == 1 && digit_literal_spec(
                s@,
                0,
                lone_result(nodes@, errors@, len as int),
            )),
        decreases len - i,
    {
        let k = skip_ws(&s, i);
        if k == len {
            proof {
                lemma_spans_widen(nodes@, i as int, k as int);
                assert(program_reading(s@, i as int) == Seq::<StatementReading>::empty());
                assert(program_reading(s@, k as int) == Seq::<StatementReading>::empty());
            }
            i = k;
        } else {
            let ghost before = nodes@;
            let ghost errors_before = errors@;
            let res = parse_expr(src, &s, k, false);
            proof {
                if is_lone_literal(s@) {
                    assert(k == 0);
                    let e1 = digit_run_end(s@, 0);
                    lemma_digit_run_end(s@, 0);
                    lemma_number_end_skips_digits(s@, 0);
                    if !is_range_at(s@, 0) && !has_fraction_at(s@, 0) {
                        assert(number_end(s@, e1) == e1);
                    }
                }
            }
            match res {
                Ok((n, e)) => {
                    let ghost old_i = i;
                    nodes.push(n);
                    let w = skip_ws(&s, e);
                    i = w;
                    if i < len && (s[i] == '.' || s[i] == ';') {
                        i = i + 1;
                    }
                    proof {
                        lemma_spans_push(before, k as int, n, i as int);
                        assert(nodes@ == before.push(n));
                        assert(nodes@.subrange(0, before.len() as int) =~= before);
                        assert(errors@.subrange(0, errors@.len() as int) =~= errors@);
                        let q = program_reading(s@, old_i as int);
                        let rest = program_reading(s@, i as int);
                        assert(w == ws_end(s@, e as int));
                        assert(i == after_statement(s@, e as int));
                        assert(q == seq![Ok::<(int, int), (int, int, Fault)>((k as int, e as int))] + rest);
                        assert(q.drop_first() =~= rest);
                        assert(read_parts(q) == seq![(k as int, e as int)] + read_parts(rest));
                        assert(error_parts(q) == Seq::<(int, int, Fault)>::empty() + error_parts(rest));
                        assert(node_stretches(nodes@) =~= node_stretches(before).push((k as int, e as int)));
                        assert(error_parts(q) =~= error_parts(rest));
                        assert(read_parts(program_reading(s@, 0)) =~= node_stretches(nodes@) + read_parts(rest));
                    }
                },
                Err(err) => {
                    let next = if err.span.end > k { err.span.end } else { k + 1 };
                    errors.push(err);
                    proof {
                        assert(errors@ == errors_before.push(err));
                        lemma_spans_widen(nodes@, i as int, next as int);
                        assert(errors@.subrange(0, errors_before.len() as int) =~= errors_before);
                        assert(nodes@.subrange(0, nodes@.len() as int) =~= nodes@);
                        let q = program_reading(s@, i as int);
                        let rest = program_reading(s@, next as int);
                        let x = error_reading(err);
                        assert(q == seq![Err::<(int, int), (int, int, Fault)>(x)] + rest);
                        assert(q.drop_first() =~= rest);
                        assert(error_parts(q) == seq![x] + error_parts(rest));
                        assert(read_parts(q) == Seq::<(int, int)>::empty() + read_parts(rest));
                        assert(read_parts(q) =~= read_parts(rest));
                        assert(error_readings(errors@) =~= error_readings(errors_before).push(x));
                        assert(error_parts(program_reading(s@, 0)) =~= error_readings(errors@) + error_parts(rest));
                    }
                    i = next;
                },
            }
        }
    }
    (nodes, errors)
}

} // verus!

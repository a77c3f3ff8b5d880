use vstd::prelude::*;

verus! {

pub open spec fn is_digit(c: char) -> bool {
    '0' <= c && c <= '9'
}

pub open spec fn all_digits(s: Seq<char>) -> bool {
    forall|i: int| 0 <= i < s.len() ==> is_digit(#[trigger] s[i])
}

/// Drops leading zeros, always keeping at least one digit.
pub open spec fn strip_leading_zeros(s: Seq<char>) -> Seq<char>
    decreases s.len(),
{
    if s.len() > 1 && s[0] == '0' {
        strip_leading_zeros(s.drop_first())
    } else {
        s
    }
}

/// Drops trailing zeros.
pub open spec fn strip_trailing_zeros(s: Seq<char>) -> Seq<char>
    decreases s.len(),
{
    if s.len() > 0 && s.last() == '0' {
        strip_trailing_zeros(s.drop_last())
    } else {
        s
    }
}

pub open spec fn has_nonzero_digit(s: Seq<char>) -> bool {
    exists|i: int| 0 <= i < s.len() && s[i] != '0'
}

pub open spec fn digit_char(d: int) -> char {
    if d == 0 { '0' }
    else if d == 1 { '1' }
    else if d == 2 { '2' }
    else if d == 3 { '3' }
    else if d == 4 { '4' }
    else if d == 5 { '5' }
    else if d == 6 { '6' }
    else if d == 7 { '7' }
    else if d == 8 { '8' }
    else { '9' }
}

/// Decimal digits of a natural number, most significant first.
pub open spec fn nat_text(n: nat) -> Seq<char>
    decreases n,
{
    if n < 10 {
        seq![digit_char(n as int)]
    } else {
        nat_text(n / 10).push(digit_char((n % 10) as int))
    }
}

/// Decimal text of an integer, with a leading `-` when it is negative.
pub open spec fn int_text(i: int) -> Seq<char> {
    if i < 0 {
        seq!['-'] + nat_text((-i) as nat)
    } else {
        nat_text(i as nat)
    }
}

pub open spec fn bool_text(b: bool) -> Seq<char> {
    if b {
        seq!['t', 'r', 'u', 'e']
    } else {
        seq!['f', 'a', 'l', 's', 'e']
    }
}

/// A non-negative decimal number: the digits before the point and after it.
///
/// Every digit of a literal is kept, so a literal with more significant digits than a 64-bit
/// float holds (about 17) prints in full instead of rounded.
#[derive(Debug, Clone, PartialEq)]
pub struct Decimal {
    pub whole: String,
    pub fraction: String,
}

impl Decimal {
    /// Canonical form: no redundant leading or trailing zeros.
    pub open spec fn wf(&self) -> bool {
        &&& self.whole@.len() > 0
        &&& all_digits(self.whole@)
        &&& (self.whole@.len() > 1 ==> self.whole@[0] != '0')
        &&& all_digits(self.fraction@)
        &&& (self.fraction@.len() > 0 ==> self.fraction@.last() != '0')
    }

    pub open spec fn spec_text(&self) -> Seq<char> {
        if self.fraction@.len() > 0 {
            self.whole@ + seq!['.'] + self.fraction@
        } else {
            self.whole@
        }
    }

    pub open spec fn spec_is_positive(&self) -> bool {
        has_nonzero_digit(self.whole@) || has_nonzero_digit(self.fraction@)
    }

    /// The number written `whole.fraction` (an empty `fraction` is a whole number).
    pub fn from_digits(whole: &str, fraction: &str) -> (r: Decimal)
        requires
            whole@.len() > 0,
            all_digits(whole@),
            all_digits(fraction@),
        ensures
            r.whole@ == strip_leading_zeros(whole@),
            r.fraction@ == strip_trailing_zeros(fraction@),
            r.wf(),
    {
        let wlen = whole.unicode_len();
        let mut i: usize = 0;
        assert(whole@.subrange(0, wlen as int) =~= whole@);
        while i + 1 < wlen && whole.get_char(i) == '0'
            invariant
                wlen == whole@.len(),
                wlen > 0,
                i < wlen,
                all_digits(whole@),
                (forall|k: int| 0 <= k < i ==> whole@[k] == '0'),
                strip_leading_zeros(whole@) == strip_leading_zeros(whole@.subrange(i as int, wlen as int)),
            decreases wlen - i,
        {
            assert(whole@.subrange(i as int, wlen as int).drop_first() =~= whole@.subrange(
                i + 1,
                wlen as int,
            ));
            i = i + 1;
        }
        let w = String::from_str(whole.substring_char(i, wlen));
        let flen = fraction.unicode_len();
        let mut j: usize = flen;
        assert(fraction@.subrange(0, flen as int) =~= fraction@);
        while j > 0 && fraction.get_char(j - 1) == '0'
            invariant
                flen == fraction@.len(),
                j <= flen,
                strip_trailing_zeros(fraction@) == strip_trailing_zeros(fraction@.subrange(0, j as int)),
            decreases j,
        {
            assert(fraction@.subrange(0, j as int).drop_last() =~= fraction@.subrange(0, j - 1));
            j = j - 1;
        }
        let f = String::from_str(fraction.substring_char(0, j));
        Decimal { whole: w, fraction: f }
    }

    pub fn is_positive(&self) -> (r: bool)
        ensures
            r == self.spec_is_positive(),
    {
        has_nonzero(self.whole.as_str()) || has_nonzero(self.fraction.as_str())
    }

    pub fn duplicate(&self) -> (r: Decimal)
        ensures
            r == *self,
    {
        Decimal { whole: self.whole.clone(), fraction: self.fraction.clone() }
    }

    pub fn to_string(&self) -> (r: String)
        ensures
            r@ == self.spec_text(),
    {
        let mut s = self.whole.clone();
        if self.fraction.unicode_len() > 0 {
            s.append(".");
            s.append(self.fraction.as_str());
            proof {
                reveal_strlit(".");
            }
        }
        s
    }
}

fn has_nonzero(s: &str) -> (r: bool)
    ensures
        r == has_nonzero_digit(s@),
{
    let n = s.unicode_len();
    let mut i: usize = 0;
    while i < n
        invariant
            n == s@.len(),
            i <= n,
            forall|k: int| 0 <= k < i ==> s@[k] == '0',
        decreases n - i,
    {
        if s.get_char(i) != '0' {
            return true;
        }
        i = i + 1;
    }
    false
}

fn digit_str(d: u64) -> (r: &'static str)
    requires
        d < 10,
    ensures
        r@ == seq![digit_char(d as int)],
{
    proof {
        reveal_strlit("0");
        reveal_strlit("1");
        reveal_strlit("2");
        reveal_strlit("3");
        reveal_strlit("4");
        reveal_strlit("5");
        reveal_strlit("6");
        reveal_strlit("7");
        reveal_strlit("8");
        reveal_strlit("9");
    }
    match d {
        0 => "0",
        1 => "1",
        2 => "2",
        3 => "3",
        4 => "4",
        5 => "5",
        6 => "6",
        7 => "7",
        8 => "8",
        _ => "9",
    }
}

/// Decimal text of `n`.
pub fn nat_string(n: u64) -> (r: String)
    ensures
        r@ == nat_text(n as nat),
    decreases n,
{
    if n < 10 {
        String::from_str(digit_str(n))
    } else {
        let mut s = nat_string(n / 10);
        s.append(digit_str(n % 10));
        s
    }
}

/// Decimal text of `i`, with a leading `-` when it is negative.
pub fn int_string(i: i64) -> (r: String)
    ensures
        r@ == int_text(i as int),
{
    if i < 0 {
        let magnitude: u64 = (0i128 - i as i128) as u64;
        let mut s = String::from_str("-");
        proof {
            reveal_strlit("-");
        }
        s.append(nat_string(magnitude).as_str());
        s
    } else {
        nat_string(i as u64)
    }
}

/// A runtime value of the language.
#[derive(Debug, Clone, PartialEq)]
pub enum Value {
    Null,
    String(String),
    Number(Decimal),
    Range(i64, i64),
    Boolean(bool),
}

impl Value {
    /// The textual form of a value: empty for `Null`, `start..end` for a range.
    pub open spec fn spec_text(&self) -> Seq<char> {
        match self {
            Value::Null => Seq::empty(),
            Value::String(s) => s@,
            Value::Number(d) => d.spec_text(),
            Value::Range(a, b) => int_text(*a as int) + seq!['.', '.'] + int_text(*b as int),
            Value::Boolean(b) => bool_text(*b),
        }
    }

    pub fn to_string(&self) -> (r: String)
        ensures
            r@ == self.spec_text(),
    {
        match self {
            Value::Null => String::new(),
            Value::String(s) => s.clone(),
            Value::Number(d) => d.to_string(),
            Value::Range(a, b) => {
                let mut s = int_string(*a);
                s.append("..");
                s.append(int_string(*b).as_str());
                proof {
                    reveal_strlit("..");
                }
                s
            },
            Value::Boolean(b) => {
                proof {
                    reveal_strlit("true");
                    reveal_strlit("false");
                }
                if *b {
                    String::from_str("true")
                } else {
                    String::from_str("false")
                }
            },
        }
    }

    pub fn duplicate(&self) -> (r: Value)
        ensures
            r == *self,
    {
        match self {
            Value::Null => Value::Null,
            Value::String(s) => Value::String(s.clone()),
            Value::Number(d) => Value::Number(d.duplicate()),
            Value::Range(a, b) => Value::Range(*a, *b),
            Value::Boolean(b) => Value::Boolean(*b),
        }
    }
}

} // verus!

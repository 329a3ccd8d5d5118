//! Type tags, typed values, and the classifier that infers a value's type
//! from its text, with the rendering that turns a value back into text.

use vstd::prelude::*;
use crate::error::{ConfError, ErrorView};
use crate::text::{chars_of, same_text};

verus! {

/// The primitive types a value or a schema declaration can have.
#[derive(Clone, Copy, Debug, PartialEq, Eq, Structural)]
pub enum Type {
    Bool,
    U8,
    U16,
    U32,
    U64,
    U128,
    I8,
    I16,
    I32,
    I64,
    I128,
    Str,
}

/// A value inferred from the text of an entry.
#[derive(Debug, PartialEq)]
pub enum Value<'a> {
    Bool(bool),
    U8(u8),
    U16(u16),
    U32(u32),
    U64(u64),
    U128(u128),
    I8(i8),
    I16(i16),
    I32(i32),
    I64(i64),
    I128(i128),
    Str(&'a str),
}

/// A value as mathematics sees it: an integer carries the type it was read as.
pub enum ValueView {
    Bool(bool),
    Int(Type, int),
    Str(Seq<char>),
}

impl<'a> View for Value<'a> {
    type V = ValueView;

    open spec fn view(&self) -> ValueView {
        match self {
            Value::Bool(b) => ValueView::Bool(*b),
            Value::U8(n) => ValueView::Int(Type::U8, *n as int),
            Value::U16(n) => ValueView::Int(Type::U16, *n as int),
            Value::U32(n) => ValueView::Int(Type::U32, *n as int),
            Value::U64(n) => ValueView::Int(Type::U64, *n as int),
            Value::U128(n) => ValueView::Int(Type::U128, *n as int),
            Value::I8(n) => ValueView::Int(Type::I8, *n as int),
            Value::I16(n) => ValueView::Int(Type::I16, *n as int),
            Value::I32(n) => ValueView::Int(Type::I32, *n as int),
            Value::I64(n) => ValueView::Int(Type::I64, *n as int),
            Value::I128(n) => ValueView::Int(Type::I128, *n as int),
            Value::Str(s) => ValueView::Str(s@),
        }
    }
}

pub open spec fn true_text() -> Seq<char> {
    seq!['t', 'r', 'u', 'e']
}

pub open spec fn false_text() -> Seq<char> {
    seq!['f', 'a', 'l', 's', 'e']
}

pub open spec fn is_digit(c: char) -> bool {
    '0' <= c && c <= '9'
}

pub open spec fn digit_value(c: char) -> nat {
    (c as u32 - '0' as u32) as nat
}

pub open spec fn digit_char(d: nat) -> char {
    seq!['0', '1', '2', '3', '4', '5', '6', '7', '8', '9'][d as int]
}

/// One or more decimal digits.
pub open spec fn is_decimal(s: Seq<char>) -> bool {
    s.len() > 0 && forall|i: int| 0 <= i < s.len() ==> is_digit(#[trigger] s[i])
}

/// The number that a string of decimal digits denotes.
pub open spec fn decimal_value(s: Seq<char>) -> nat
    decreases s.len(),
{
    if s.len() == 0 {
        0
    } else {
        decimal_value(s.drop_last()) * 10 + digit_value(s.last())
    }
}

/// The sign (`true` for `-`) and magnitude written in `s`: an optional `+` or
/// `-` followed by one or more decimal digits.
pub open spec fn sign_and_magnitude(s: Seq<char>) -> Option<(bool, nat)> {
    if s.len() > 0 && (s[0] == '+' || s[0] == '-') && is_decimal(s.drop_first()) {
        Some((s[0] == '-', decimal_value(s.drop_first())))
    } else if is_decimal(s) {
        Some((false, decimal_value(s)))
    } else {
        None
    }
}

/// The integer that `from_str` of an integer type reads from `s`, before its
/// range is checked; a `-` sign is read only by a signed type.
pub open spec fn read_integer(s: Seq<char>, signed: bool) -> Option<int> {
    match sign_and_magnitude(s) {
        Some((neg, m)) => if !neg {
            Some(m as int)
        } else if signed {
            Some(-m)
        } else {
            None
        },
        None => None,
    }
}

impl Type {
    pub open spec fn is_signed(self) -> bool {
        match self {
            Type::I8 | Type::I16 | Type::I32 | Type::I64 | Type::I128 => true,
            _ => false,
        }
    }

    pub open spec fn is_integer(self) -> bool {
        !(self is Bool) && !(self is Str)
    }

    /// The smallest value of an integer type.
    pub open spec fn min_value(self) -> int {
        match self {
            Type::I8 => i8::MIN as int,
            Type::I16 => i16::MIN as int,
            Type::I32 => i32::MIN as int,
            Type::I64 => i64::MIN as int,
            Type::I128 => i128::MIN as int,
            _ => 0,
        }
    }

    /// The largest value of an integer type.
    pub open spec fn max_value(self) -> int {
        match self {
            Type::U8 => u8::MAX as int,
            Type::U16 => u16::MAX as int,
            Type::U32 => u32::MAX as int,
            Type::U64 => u64::MAX as int,
            Type::U128 => u128::MAX as int,
            Type::I8 => i8::MAX as int,
            Type::I16 => i16::MAX as int,
            Type::I32 => i32::MAX as int,
            Type::I64 => i64::MAX as int,
            Type::I128 => i128::MAX as int,
            _ => 0,
        }
    }

    /// Whether `s` parses as this type, as the type's `from_str` decides.
    pub open spec fn accepts(self, s: Seq<char>) -> bool {
        match self {
            Type::Bool => s == true_text() || s == false_text(),
            Type::Str => true,
            _ => match read_integer(s, self.is_signed()) {
                Some(n) => self.min_value() <= n <= self.max_value(),
                None => false,
            },
        }
    }
}

/// The first integer type, in the order unsigned before signed and narrow
/// before wide, that accepts `s`.
pub open spec fn first_integer_type(s: Seq<char>) -> Option<Type> {
    if Type::U8.accepts(s) {
        Some(Type::U8)
    } else if Type::U16.accepts(s) {
        Some(Type::U16)
    } else if Type::U32.accepts(s) {
        Some(Type::U32)
    } else if Type::U64.accepts(s) {
        Some(Type::U64)
    } else if Type::U128.accepts(s) {
        Some(Type::U128)
    } else if Type::I8.accepts(s) {
        Some(Type::I8)
    } else if Type::I16.accepts(s) {
        Some(Type::I16)
    } else if Type::I32.accepts(s) {
        Some(Type::I32)
    } else if Type::I64.accepts(s) {
        Some(Type::I64)
    } else if Type::I128.accepts(s) {
        Some(Type::I128)
    } else {
        None
    }
}

/// The value inferred from the raw text `s`: a boolean, else the first
/// integer type that accepts it, else the text itself.
pub open spec fn classify(s: Seq<char>) -> ValueView {
    if Type::Bool.accepts(s) {
        ValueView::Bool(s == true_text())
    } else {
        match first_integer_type(s) {
            Some(t) => ValueView::Int(t, read_integer(s, t.is_signed())->0),
            None => ValueView::Str(s),
        }
    }
}

/// The decimal digits of `n`, without leading zeros.
pub open spec fn decimal_text(n: nat) -> Seq<char>
    decreases n,
{
    if n < 10 {
        seq![digit_char(n)]
    } else {
        decimal_text(n / 10).push(digit_char(n % 10))
    }
}

/// `n` in decimal, with a `-` sign when negative.
pub open spec fn integer_text(n: int) -> Seq<char> {
    if n < 0 {
        seq!['-'] + decimal_text((-n) as nat)
    } else {
        decimal_text(n as nat)
    }
}

/// The text of a value, as `Display` writes it.
pub open spec fn render(v: ValueView) -> Seq<char> {
    match v {
        ValueView::Bool(b) => if b {
            true_text()
        } else {
            false_text()
        },
        ValueView::Int(_, n) => integer_text(n),
        ValueView::Str(s) => s,
    }
}

/// The magnitude written by the decimal digits of `c[lo..hi]`, where they are
/// one or more digits and their value fits in `u128`.
fn read_magnitude(c: &Vec<char>, lo: usize, hi: usize) -> (r: Option<u128>)
    requires
        lo <= hi <= c@.len(),
    ensures
        r == (if is_decimal(c@.subrange(lo as int, hi as int)) && decimal_value(
            c@.subrange(lo as int, hi as int),
        ) <= u128::MAX {
            Some(decimal_value(c@.subrange(lo as int, hi as int)) as u128)
        } else {
            None
        }),
{
    if lo == hi {
        return None;
    }
    let mut acc: u128 = 0;
    let mut too_large = false;
    let mut i = lo;
    while i < hi
        invariant
            lo <= i <= hi <= c@.len(),
            forall|j: int| lo <= j < i ==> is_digit(#[trigger] c@[j]),
            !too_large ==> acc == decimal_value(c@.subrange(lo as int, i as int)),
            too_large ==> decimal_value(c@.subrange(lo as int, i as int)) > u128::MAX,
        decreases hi - i,
    {
        let ch = c[i];
        if !('0' <= ch && ch <= '9') {
            assert(!is_digit(c@.subrange(lo as int, hi as int)[i - lo]));
            return None;
        }
        let d = (ch as u32 - '0' as u32) as u128;
        assert(c@.subrange(lo as int, i + 1).drop_last() =~= c@.subrange(lo as int, i as int));
        if !too_large {
            if acc < u128::MAX / 10 || (acc == u128::MAX / 10 && d <= 5) {
                acc = acc * 10 + d;
            } else {
                too_large = true;
            }
        }
        i += 1;
    }
    assert(is_decimal(c@.subrange(lo as int, hi as int)));
    if too_large {
        None
    } else {
        Some(acc)
    }
}

/// The sign (`true` for `-`) and magnitude written in `c`, where the
/// magnitude fits in `u128`.
fn read_sign_and_magnitude(c: &Vec<char>) -> (r: Option<(bool, u128)>)
    ensures
        r == (match sign_and_magnitude(c@) {
            Some((neg, m)) => if m <= u128::MAX {
                Some((neg, m as u128))
            } else {
                None
            },
            None => None,
        }),
{
    let n = c.len();
    assert(c@.subrange(0, n as int) =~= c@);
    if n > 0 && (c[0] == '+' || c[0] == '-') {
        assert(c@.subrange(1, n as int) =~= c@.drop_first());
        assert(!is_digit(c@[0]));
        match read_magnitude(c, 1, n) {
            Some(m) => Some((c[0] == '-', m)),
            None => None,
        }
    } else {
        match read_magnitude(c, 0, n) {
            Some(m) => Some((false, m)),
            None => None,
        }
    }
}

/// The negation of a magnitude that fits in `i128` once negated.
fn negate(m: u128) -> (r: i128)
    requires
        m <= 0x8000_0000_0000_0000_0000_0000_0000_0000u128,
    ensures
        r == -(m as int),
{
    if m == 0x8000_0000_0000_0000_0000_0000_0000_0000u128 {
        i128::MIN
    } else {
        -(m as i128)
    }
}

/// Whether `c` spells `true`.
fn is_true_text(c: &Vec<char>) -> (r: bool)
    ensures
        r == (c@ == true_text()),
{
    let r = c.len() == 4 && c[0] == 't' && c[1] == 'r' && c[2] == 'u' && c[3] == 'e';
    if r {
        assert(c@ =~= true_text());
    }
    r
}

/// Whether `c` spells `false`.
fn is_false_text(c: &Vec<char>) -> (r: bool)
    ensures
        r == (c@ == false_text()),
{
    let r = c.len() == 5 && c[0] == 'f' && c[1] == 'a' && c[2] == 'l' && c[3] == 's' && c[4]
        == 'e';
    if r {
        assert(c@ =~= false_text());
    }
    r
}

impl<'a> Value<'a> {
    /// Infers the value that `raw` denotes: `true` or `false` as a boolean,
    /// else an integer of the first type that reads it (unsigned before signed,
    /// narrow before wide), else the text itself.
    pub fn from(raw: &'a str) -> (r: Value<'a>)
        ensures
            r@ == classify(raw@),
            r matches Value::Str(t) ==> t == raw,
    {
        let c = chars_of(raw);
        if is_true_text(&c) {
            return Value::Bool(true);
        }
        if is_false_text(&c) {
            return Value::Bool(false);
        }
        match read_sign_and_magnitude(&c) {
            Some((false, m)) => {
                if m <= u8::MAX as u128 {
                    Value::U8(m as u8)
                } else if m <= u16::MAX as u128 {
                    Value::U16(m as u16)
                } else if m <= u32::MAX as u128 {
                    Value::U32(m as u32)
                } else if m <= u64::MAX as u128 {
                    Value::U64(m as u64)
                } else {
                    Value::U128(m)
                }
            },
            Some((true, m)) => {
                if m <= 0x8000_0000_0000_0000_0000_0000_0000_0000u128 {
                    let n = negate(m);
                    if n >= i8::MIN as i128 {
                        Value::I8(n as i8)
                    } else if n >= i16::MIN as i128 {
                        Value::I16(n as i16)
                    } else if n >= i32::MIN as i128 {
                        Value::I32(n as i32)
                    } else if n >= i64::MIN as i128 {
                        Value::I64(n as i64)
                    } else {
                        Value::I128(n)
                    }
                } else {
                    Value::Str(raw)
                }
            },
            None => Value::Str(raw),
        }
    }
}

/// The one-character text of the decimal digit `d`.
fn digit_text(d: u8) -> (r: &'static str)
    requires
        d < 10,
    ensures
        r@ == seq![digit_char(d as nat)],
{
    proof {
        reveal_strlit("0");
        reveal_strlit("1");
        reveal_strlit("2");
        reveal_strlit("3");
        reveal_strlit("4");
        reveal_strlit("5");
        reveal_strlit("6");
        reveal_strlit("7");
        reveal_strlit("8");
        reveal_strlit("9");
    }
    let r = match d {
        0 => "0",
        1 => "1",
        2 => "2",
        3 => "3",
        4 => "4",
        5 => "5",
        6 => "6",
        7 => "7",
        8 => "8",
        _ => "9",
    };
    assert(r@ =~= seq![digit_char(d as nat)]);
    r
}

/// `n` in decimal.
fn decimal_string(n: u128) -> (r: String)
    ensures
        r@ == decimal_text(n as nat),
{
    let mut q = n;
    let mut s = String::new();
    while q >= 10
        invariant
            decimal_text(n as nat) == decimal_text(q as nat) + s@,
        decreases q,
    {
        let t = String::from_str(digit_text((q % 10) as u8)).concat(s.as_str());
        assert(decimal_text(q as nat) + s@ =~= decimal_text((q / 10) as nat) + t@);
        s = t;
        q = q / 10;
    }
    let r = String::from_str(digit_text(q as u8)).concat(s.as_str());
    r
}

/// `n` in decimal, with a `-` sign when negative.
fn integer_string(n: i128) -> (r: String)
    ensures
        r@ == integer_text(n as int),
{
    if n < 0 {
        let m: u128 = if n == i128::MIN {
            0x8000_0000_0000_0000_0000_0000_0000_0000u128
        } else {
            (-n) as u128
        };
        proof {
            reveal_strlit("-");
        }
        String::from_str("-").concat(decimal_string(m).as_str())
    } else {
        decimal_string(n as u128)
    }
}

impl<'a> Value<'a> {
    /// The text of the value: `true` or `false`, an integer in decimal with a
    /// `-` sign when negative and no leading zeros, or the text itself.
    pub fn to_string(&self) -> (r: String)
        ensures
            r@ == render(self@),
    {
        match self {
            Value::Bool(b) => {
                proof {
                    reveal_strlit("true");
                    reveal_strlit("false");
                }
                let r = if *b {
                    String::from_str("true")
                } else {
                    String::from_str("false")
                };
                assert(r@ =~= render(self@));
                r
            },
            Value::U8(n) => decimal_string(*n as u128),
            Value::U16(n) => decimal_string(*n as u128),
            Value::U32(n) => decimal_string(*n as u128),
            Value::U64(n) => decimal_string(*n as u128),
            Value::U128(n) => decimal_string(*n),
            Value::I8(n) => integer_string(*n as i128),
            Value::I16(n) => integer_string(*n as i128),
            Value::I32(n) => integer_string(*n as i128),
            Value::I64(n) => integer_string(*n as i128),
            Value::I128(n) => integer_string(*n),
            Value::Str(t) => String::from_str(*t),
        }
    }
}

/// The type that a schema names `s`.
pub open spec fn type_named(s: Seq<char>) -> Option<Type> {
    if s == "bool"@ {
        Some(Type::Bool)
    } else if s == "u8"@ {
        Some(Type::U8)
    } else if s == "u16"@ {
        Some(Type::U16)
    } else if s == "u32"@ {
        Some(Type::U32)
    } else if s == "u64"@ {
        Some(Type::U64)
    } else if s == "u128"@ {
        Some(Type::U128)
    } else if s == "i8"@ {
        Some(Type::I8)
    } else if s == "i16"@ {
        Some(Type::I16)
    } else if s == "i32"@ {
        Some(Type::I32)
    } else if s == "i64"@ {
        Some(Type::I64)
    } else if s == "i128"@ {
        Some(Type::I128)
    } else if s == "string"@ {
        Some(Type::Str)
    } else {
        None
    }
}

impl Type {
    /// The type named `name`, case-sensitively: `bool`, `u8` to `u128`,
    /// `i8` to `i128` or `string`.
    pub fn from_str(name: &str) -> (r: Result<Type, ConfError>)
        ensures
            match r {
                Ok(t) => type_named(name@) == Some(t),
                Err(e) => type_named(name@) is None && e@ == (ErrorView::UnknownType {
                    name: name@,
                }),
            },
    {
        if same_text(name, "bool") {
            Ok(Type::Bool)
        } else if same_text(name, "u8") {
            Ok(Type::U8)
        } else if same_text(name, "u16") {
            Ok(Type::U16)
        } else if same_text(name, "u32") {
            Ok(Type::U32)
        } else if same_text(name, "u64") {
            Ok(Type::U64)
        } else if same_text(name, "u128") {
            Ok(Type::U128)
        } else if same_text(name, "i8") {
            Ok(Type::I8)
        } else if same_text(name, "i16") {
            Ok(Type::I16)
        } else if same_text(name, "i32") {
            Ok(Type::I32)
        } else if same_text(name, "i64") {
            Ok(Type::I64)
        } else if same_text(name, "i128") {
            Ok(Type::I128)
        } else if same_text(name, "string") {
            Ok(Type::Str)
        } else {
            Err(ConfError::UnknownType { name: name.to_owned() })
        }
    }

    /// Whether an integer of this type can hold the value with sign `neg`
    /// and magnitude `m`.
    fn holds_integer(self, neg: bool, m: u128) -> (r: bool)
        requires
            self.is_integer(),
        ensures
            r == (if neg {
                self.is_signed() && self.min_value() <= -(m as int)
            } else {
                m <= self.max_value()
            }),
    {
        if neg {
            match self {
                Type::I8 => m <= 0x80,
                Type::I16 => m <= 0x8000,
                Type::I32 => m <= 0x8000_0000,
                Type::I64 => m <= 0x8000_0000_0000_0000,
                Type::I128 => m <= 0x8000_0000_0000_0000_0000_0000_0000_0000,
                _ => false,
            }
        } else {
            match self {
                Type::U8 => m <= u8::MAX as u128,
                Type::U16 => m <= u16::MAX as u128,
                Type::U32 => m <= u32::MAX as u128,
                Type::U64 => m <= u64::MAX as u128,
                Type::I8 => m <= i8::MAX as u128,
                Type::I16 => m <= i16::MAX as u128,
                Type::I32 => m <= i32::MAX as u128,
                Type::I64 => m <= i64::MAX as u128,
                Type::I128 => m <= i128::MAX as u128,
                _ => true,
            }
        }
    }

    /// Checks that the text `value` of the entry `key` parses as this type.
    pub fn validate(self, key: &str, value: &str) -> (r: Result<(), ConfError>)
        ensures
            r is Ok <==> self.accepts(value@),
            r matches Err(e) ==> e@ == (ErrorView::TypeMismatch {
                key: key@,
                expected: self,
                text: value@,
            }),
    {
        let c = chars_of(value);
        let accepted = match self {
            Type::Bool => is_true_text(&c) || is_false_text(&c),
            Type::Str => true,
            _ => match read_sign_and_magnitude(&c) {
                Some((neg, m)) => self.holds_integer(neg, m),
                None => false,
            },
        };
        self.validate_helper(accepted, key, value)
    }

    /// Turns the outcome of parsing `value` as this type into the result of
    /// validating the entry `key`.
    pub fn validate_helper(self, accepted: bool, key: &str, value: &str) -> (r: Result<
        (),
        ConfError,
    >)
        ensures
            r is Ok <==> accepted,
            r matches Err(e) ==> e@ == (ErrorView::TypeMismatch {
                key: key@,
                expected: self,
                text: value@,
            }),
    {
        if accepted {
            Ok(())
        } else {
            Err(ConfError::TypeMismatch { key: key.to_owned(), expected: self, text: value.to_owned() })
        }
    }
}

/// Each decimal digit character stands for its own value.
proof fn lemma_digit(d: nat)
    requires
        d < 10,
    ensures
        is_digit(digit_char(d)),
        digit_value(digit_char(d)) == d,
{
    if d == 0 {
    } else if d == 1 {
    } else if d == 2 {
    } else if d == 3 {
    } else if d == 4 {
    } else if d == 5 {
    } else if d == 6 {
    } else if d == 7 {
    } else if d == 8 {
    } else {
        assert(d == 9);
    }
}

/// The decimal text of `n` is a string of digits that denotes `n`.
pub proof fn lemma_decimal_text(n: nat)
    ensures
        is_decimal(decimal_text(n)),
        decimal_value(decimal_text(n)) == n,
    decreases n,
{
    if n < 10 {
        lemma_digit(n);
        assert(seq![digit_char(n)].drop_last() =~= Seq::<char>::empty());
        assert(decimal_value(Seq::<char>::empty()) == 0);
        assert(decimal_value(seq![digit_char(n)]) == n);
    } else {
        lemma_decimal_text(n / 10);
        lemma_digit(n % 10);
        let t = decimal_text(n);
        assert(t.drop_last() == decimal_text(n / 10));
        assert(t.last() == digit_char(n % 10));
        assert(decimal_value(t) == decimal_value(decimal_text(n / 10)) * 10 + digit_value(
            digit_char(n % 10),
        ));
        assert((n / 10) * 10 + n % 10 == n);
        assert forall|i: int| 0 <= i < t.len() implies is_digit(#[trigger] t[i]) by {
            if i < t.len() - 1 {
                assert(t[i] == decimal_text(n / 10)[i]);
            }
        }
    }
}

/// The text of an integer reads back as its sign and magnitude.
pub proof fn lemma_integer_text(n: int)
    ensures
        sign_and_magnitude(integer_text(n)) == Some(
            (n < 0, (if n < 0 {
                -n
            } else {
                n
            }) as nat),
        ),
        integer_text(n).len() > 0,
        integer_text(n)[0] == '-' || is_digit(integer_text(n)[0]),
{
    let m = (if n < 0 {
        -n
    } else {
        n
    }) as nat;
    lemma_decimal_text(m);
    let d = decimal_text(m);
    assert(is_digit(d[0]));
    if n < 0 {
        let t = integer_text(n);
        assert(t.drop_first() =~= d);
    }
}

/// Rendering a value that the classifier inferred, boolean or integer, and
/// classifying that text gives the same value back. A negative zero such as
/// `-0` is the one exception: it is read as an `i8` zero and rendered as `0`,
/// which reads as a `u8` zero.
pub proof fn lemma_render_classify(s: Seq<char>)
    requires
        !(classify(s) is Str),
        classify(s) != ValueView::Int(Type::I8, 0),
    ensures
        classify(render(classify(s))) == classify(s),
{
    let v = classify(s);
    let t = render(v);
    if let ValueView::Int(ty, n) = v {
        lemma_integer_text(n);
        assert(!(t == true_text()) && !(t == false_text())) by {
            assert(t[0] == '-' || is_digit(t[0]));
            assert(true_text()[0] == 't');
            assert(false_text()[0] == 'f');
        }
        let (neg, m) = sign_and_magnitude(s)->0;
        assert(!(neg && m == 0));
        assert(forall|signed: bool| read_integer(t, signed) == read_integer(s, signed));
    }
}

} // verus!

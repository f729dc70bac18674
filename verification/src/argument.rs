//! The values a command receives, and the parsers that read them from text.

use vstd::prelude::*;
use vstd::std_specs::cmp::PartialEqSpecImpl;
use vstd::string::*;

use crate::text::str_eq;

verus! {

/// Identifies a user.
#[derive(Clone, Copy, Debug, PartialEq, Eq, Hash, Structural)]
pub struct UserId(pub u64);

/// Identifies a channel.
#[derive(Clone, Copy, Debug, PartialEq, Eq, Hash, Structural)]
pub struct ChannelId(pub u64);

/// Identifies a role.
#[derive(Clone, Copy, Debug, PartialEq, Eq, Hash, Structural)]
pub struct RoleId(pub u64);

/// The type of value a schema leaf accepts.
#[derive(Clone, Copy, Debug, PartialEq, Eq, Structural)]
pub enum ArgumentKind {
    String,
    Integer,
    Boolean,
    User,
    Channel,
    Role,
}

/// Represents the argument data sent into commands
#[derive(Clone, Debug, Eq)]
pub enum Argument {
    String(String),
    Integer(i32),
    Boolean(bool),
    User(UserId),
    Channel(ChannelId),
    Role(RoleId),
}

/// What an [`Argument`] holds, as a mathematical value.
pub ghost enum ArgumentValue {
    Text(Seq<char>),
    Integer(i32),
    Boolean(bool),
    User(u64),
    Channel(u64),
    Role(u64),
}

impl View for Argument {
    type V = ArgumentValue;

    open spec fn view(&self) -> ArgumentValue {
        match *self {
            Argument::String(s) => ArgumentValue::Text(s@),
            Argument::Integer(i) => ArgumentValue::Integer(i),
            Argument::Boolean(b) => ArgumentValue::Boolean(b),
            Argument::User(u) => ArgumentValue::User(u.0),
            Argument::Channel(c) => ArgumentValue::Channel(c.0),
            Argument::Role(r) => ArgumentValue::Role(r.0),
        }
    }
}

/// Two arguments are equal where they are of the same variant and hold the
/// same value.
impl PartialEq for Argument {
    fn eq(&self, other: &Argument) -> (equal: bool) {
        match self {
            Argument::String(a) => match other {
                Argument::String(b) => crate::text::str_eq(a.as_str(), b.as_str()),
                _ => false,
            },
            Argument::Integer(a) => match other {
                Argument::Integer(b) => *a == *b,
                _ => false,
            },
            Argument::Boolean(a) => match other {
                Argument::Boolean(b) => *a == *b,
                _ => false,
            },
            Argument::User(a) => match other {
                Argument::User(b) => a.0 == b.0,
                _ => false,
            },
            Argument::Channel(a) => match other {
                Argument::Channel(b) => a.0 == b.0,
                _ => false,
            },
            Argument::Role(a) => match other {
                Argument::Role(b) => a.0 == b.0,
                _ => false,
            },
        }
    }
}

impl PartialEqSpecImpl for Argument {
    open spec fn obeys_eq_spec() -> bool {
        true
    }

    open spec fn eq_spec(&self, other: &Argument) -> bool {
        self@ == other@
    }
}

/// Whether `c` is one of the ten decimal digits.
pub open spec fn is_digit(c: char) -> bool {
    0x30 <= c as u32 <= 0x39
}

/// The number a decimal digit stands for.
pub open spec fn digit_value(c: char) -> nat {
    (c as u32 - 0x30) as nat
}

/// Whether `s` is a non-empty run of decimal digits.
pub open spec fn all_digits(s: Seq<char>) -> bool {
    s.len() > 0 && forall|i: int| 0 <= i < s.len() ==> is_digit(#[trigger] s[i])
}

/// The number that a run of decimal digits denotes, most significant digit first.
pub open spec fn digits_value(s: Seq<char>) -> nat
    decreases s.len(),
{
    if s.len() == 0 {
        0
    } else {
        digits_value(s.drop_last()) * 10 + digit_value(s.last())
    }
}

/// The integer that `s` denotes in decimal: an optional sign (`+`, or `-` where
/// `signed` allows it) followed by at least one digit and nothing else.
pub open spec fn decimal_value(s: Seq<char>, signed: bool) -> Option<int> {
    if s.len() > 0 && s[0] == '+' {
        if all_digits(s.skip(1)) {
            Some(digits_value(s.skip(1)) as int)
        } else {
            None
        }
    } else if signed && s.len() > 0 && s[0] == '-' {
        if all_digits(s.skip(1)) {
            Some(-(digits_value(s.skip(1)) as int))
        } else {
            None
        }
    } else if all_digits(s) {
        Some(digits_value(s) as int)
    } else {
        None
    }
}

/// The value of `s` as a signed 32-bit decimal integer.
pub open spec fn parse_i32_spec(s: Seq<char>) -> Option<i32> {
    match decimal_value(s, true) {
        Some(v) => if i32::MIN <= v <= i32::MAX {
            Some(v as i32)
        } else {
            None
        },
        None => None,
    }
}

/// The value of `s` as an unsigned 64-bit decimal integer.
pub open spec fn parse_u64_spec(s: Seq<char>) -> Option<u64> {
    match decimal_value(s, false) {
        Some(v) => if v <= u64::MAX {
            Some(v as u64)
        } else {
            None
        },
        None => None,
    }
}

/// The value of `s` as a boolean literal: exactly `true` or `false`.
pub open spec fn parse_bool_spec(s: Seq<char>) -> Option<bool> {
    if s == "true"@ {
        Some(true)
    } else if s == "false"@ {
        Some(false)
    } else {
        None
    }
}

/// The value that a leaf of type `kind` reads from `token`, if it accepts it.
pub open spec fn parse_spec(kind: ArgumentKind, token: Seq<char>) -> Option<ArgumentValue> {
    match kind {
        ArgumentKind::String => Some(ArgumentValue::Text(token)),
        ArgumentKind::Integer => match parse_i32_spec(token) {
            Some(i) => Some(ArgumentValue::Integer(i)),
            None => None,
        },
        ArgumentKind::Boolean => match parse_bool_spec(token) {
            Some(b) => Some(ArgumentValue::Boolean(b)),
            None => None,
        },
        ArgumentKind::User => match parse_u64_spec(token) {
            Some(id) => Some(ArgumentValue::User(id)),
            None => None,
        },
        ArgumentKind::Channel => match parse_u64_spec(token) {
            Some(id) => Some(ArgumentValue::Channel(id)),
            None => None,
        },
        ArgumentKind::Role => match parse_u64_spec(token) {
            Some(id) => Some(ArgumentValue::Role(id)),
            None => None,
        },
    }
}

/// The digit that stands for a number below ten.
pub open spec fn digit_char(d: int) -> char {
    if d == 0 {
        '0'
    } else if d == 1 {
        '1'
    } else if d == 2 {
        '2'
    } else if d == 3 {
        '3'
    } else if d == 4 {
        '4'
    } else if d == 5 {
        '5'
    } else if d == 6 {
        '6'
    } else if d == 7 {
        '7'
    } else if d == 8 {
        '8'
    } else {
        '9'
    }
}

/// The digits of a natural number in decimal, without leading zeros.
pub open spec fn decimal_digits(n: nat) -> Seq<char>
    decreases n,
{
    if n < 10 {
        seq![digit_char(n as int)]
    } else {
        decimal_digits(n / 10).push(digit_char((n % 10) as int))
    }
}

/// An integer in decimal, with a `-` in front where it is negative.
pub open spec fn decimal_text(v: int) -> Seq<char> {
    if v < 0 {
        seq!['-'] + decimal_digits((-v) as nat)
    } else {
        decimal_digits(v as nat)
    }
}

/// The text that stands for a value: the reading of it gives the value back.
pub open spec fn text_of(value: ArgumentValue) -> Seq<char> {
    match value {
        ArgumentValue::Text(s) => s,
        ArgumentValue::Integer(i) => decimal_text(i as int),
        ArgumentValue::Boolean(b) => if b {
            "true"@
        } else {
            "false"@
        },
        ArgumentValue::User(id) => decimal_text(id as int),
        ArgumentValue::Channel(id) => decimal_text(id as int),
        ArgumentValue::Role(id) => decimal_text(id as int),
    }
}

/// The type of leaf that accepts a value.
pub open spec fn kind_of(value: ArgumentValue) -> ArgumentKind {
    match value {
        ArgumentValue::Text(_) => ArgumentKind::String,
        ArgumentValue::Integer(_) => ArgumentKind::Integer,
        ArgumentValue::Boolean(_) => ArgumentKind::Boolean,
        ArgumentValue::User(_) => ArgumentKind::User,
        ArgumentValue::Channel(_) => ArgumentKind::Channel,
        ArgumentValue::Role(_) => ArgumentKind::Role,
    }
}

/// The decimal digits of a number are digits, and denote the number.
pub proof fn lemma_decimal_digits(n: nat)
    ensures
        all_digits(decimal_digits(n)),
        digits_value(decimal_digits(n)) == n,
    decreases n,
{
    let d = decimal_digits(n);
    if n < 10 {
        assert(d.drop_last() =~= Seq::<char>::empty());
        assert(digits_value(d.drop_last()) == 0);
        assert(d.last() == digit_char(n as int));
    } else {
        lemma_decimal_digits(n / 10);
        let front = decimal_digits(n / 10);
        assert(d.drop_last() =~= front);
        assert(d.last() == digit_char((n % 10) as int));
        assert forall|i: int| 0 <= i < d.len() implies is_digit(#[trigger] d[i]) by {
            if i < front.len() {
                assert(d[i] == front[i]);
            }
        }
    }
}

/// Reading the text of a value as its own type gives the value back.
pub proof fn lemma_text_of_parses_back(value: ArgumentValue)
    ensures
        parse_spec(kind_of(value), text_of(value)) == Some(value),
{
    match value {
        ArgumentValue::Text(_) => {},
        ArgumentValue::Integer(i) => {
            lemma_decimal_text_value(i as int);
        },
        ArgumentValue::Boolean(b) => {
            reveal_strlit("true");
            reveal_strlit("false");
        },
        ArgumentValue::User(id) => {
            lemma_decimal_text_value(id as int);
        },
        ArgumentValue::Channel(id) => {
            lemma_decimal_text_value(id as int);
        },
        ArgumentValue::Role(id) => {
            lemma_decimal_text_value(id as int);
        },
    }
}

/// The decimal text of an integer denotes it; that of a natural number does
/// so without a sign.
pub proof fn lemma_decimal_text_value(v: int)
    ensures
        decimal_value(decimal_text(v), true) == Some(v),
        v >= 0 ==> decimal_value(decimal_text(v), false) == Some(v),
{
    if v < 0 {
        let digits = decimal_digits((-v) as nat);
        lemma_decimal_digits((-v) as nat);
        assert(decimal_text(v).skip(1) =~= digits);
    } else {
        let digits = decimal_digits(v as nat);
        lemma_decimal_digits(v as nat);
        assert(is_digit(digits[0]));
    }
}

/// A run of digits denotes at least what any of its prefixes denotes.
pub proof fn lemma_digits_value_prefix(s: Seq<char>, k: int)
    requires
        0 <= k <= s.len(),
    ensures
        digits_value(s.take(k)) <= digits_value(s),
    decreases s.len(),
{
    if k == s.len() {
        assert(s.take(k) =~= s);
    } else {
        lemma_digits_value_prefix(s.drop_last(), k);
        assert(s.drop_last().take(k) =~= s.take(k));
    }
}

/// Reads a run of decimal digits as a number that fits in 64 bits.
fn parse_digits(digits: &str) -> (value: Option<u64>)
    ensures
        value == if all_digits(digits@) && digits_value(digits@) <= u64::MAX {
            Some(digits_value(digits@) as u64)
        } else {
            None::<u64>
        },
{
    let mut acc: u64 = 0;
    let mut seen: bool = false;
    for c in it: digits.chars()
        invariant
            it.seq() == digits@,
            seen == (it.index() > 0),
            acc == digits_value(digits@.take(it.index() as int)),
            forall|k: int| 0 <= k < it.index() ==> is_digit(#[trigger] digits@[k]),
    {
        let ghost i = it.index() as int;
        let code: u32 = c as u32;
        if code < 0x30 || code > 0x39 {
            assert(!is_digit(digits@[i]));
            return None;
        }
        let d: u64 = (code - 0x30) as u64;
        proof {
            assert(digits@.take(i + 1).drop_last() =~= digits@.take(i));
            assert(digits@.take(i + 1).last() == digits@[i]);
            lemma_digits_value_prefix(digits@, i + 1);
        }
        if acc > 1844674407370955161 || (acc == 1844674407370955161 && d > 5) {
            return None;
        }
        acc = acc * 10 + d;
        seen = true;
    }
    assert(digits@.take(digits@.len() as int) =~= digits@);
    if seen {
        Some(acc)
    } else {
        None
    }
}

/// The digit for a number below ten, as a string.
fn digit_str(d: u64) -> (digit: &'static str)
    requires
        d < 10,
    ensures
        digit@ == seq![digit_char(d as int)],
{
    proof {
        reveal_strlit("0");
        reveal_strlit("1");
        reveal_strlit("2");
        reveal_strlit("3");
        reveal_strlit("4");
        reveal_strlit("5");
        reveal_strlit("6");
        reveal_strlit("7");
        reveal_strlit("8");
        reveal_strlit("9");
    }
    let digit = if d == 0 {
        "0"
    } else if d == 1 {
        "1"
    } else if d == 2 {
        "2"
    } else if d == 3 {
        "3"
    } else if d == 4 {
        "4"
    } else if d == 5 {
        "5"
    } else if d == 6 {
        "6"
    } else if d == 7 {
        "7"
    } else if d == 8 {
        "8"
    } else {
        "9"
    };
    assert(digit@ =~= seq![digit_char(d as int)]);
    digit
}

/// Appends the decimal digits of `n` to `out`.
fn push_decimal(n: u64, out: &mut String)
    ensures
        final(out)@ == old(out)@ + decimal_digits(n as nat),
    decreases n,
{
    if n >= 10 {
        push_decimal(n / 10, out);
    }
    let ghost before = out@;
    out.append(digit_str(n % 10));
    assert(out@ =~= old(out)@ + decimal_digits(n as nat));
}

/// Reads an optional sign and a run of decimal digits: whether the number is
/// negative, and its magnitude where that fits in 64 bits.
fn parse_decimal(token: &str, signed: bool) -> (value: Option<(bool, u64)>)
    ensures
        value == match decimal_value(token@, signed) {
            Some(v) => if -u64::MAX <= v <= u64::MAX {
                Some((token@[0] == '-', (if v < 0 { -v } else { v }) as u64))
            } else {
                None
            },
            None => None::<(bool, u64)>,
        },
{
    let n = token.unicode_len();
    if n == 0 {
        return None;
    }
    let first = token.get_char(0);
    if first == '+' || (signed && first == '-') {
        let digits = token.substring_char(1, n);
        assert(digits@ =~= token@.skip(1));
        match parse_digits(digits) {
            Some(magnitude) => Some((first == '-', magnitude)),
            None => None,
        }
    } else {
        match parse_digits(token) {
            Some(magnitude) => {
                assert(is_digit(token@[0]));
                Some((false, magnitude))
            },
            None => None,
        }
    }
}

impl Argument {
    /// Reads a token as a signed 32-bit decimal integer.
    pub fn parse_int(string: &str) -> (parsed: Result<Argument, ()>)
        ensures
            parsed == match parse_i32_spec(string@) {
                Some(i) => Ok::<Argument, ()>(Argument::Integer(i)),
                None => Err(()),
            },
    {
        match parse_decimal(string, true) {
            Some((negative, magnitude)) => {
                if negative {
                    if magnitude <= 2147483648 {
                        let wide: i64 = -(magnitude as i64);
                        Ok(Argument::Integer(wide as i32))
                    } else {
                        Err(())
                    }
                } else if magnitude <= 2147483647 {
                    Ok(Argument::Integer(magnitude as i32))
                } else {
                    Err(())
                }
            },
            None => Err(()),
        }
    }

    /// Reads a token as a boolean: exactly `true` or `false`.
    pub fn parse_bool(string: &str) -> (parsed: Result<Argument, ()>)
        ensures
            parsed == match parse_bool_spec(string@) {
                Some(b) => Ok::<Argument, ()>(Argument::Boolean(b)),
                None => Err(()),
            },
    {
        if str_eq(string, "true") {
            Ok(Argument::Boolean(true))
        } else if str_eq(string, "false") {
            Ok(Argument::Boolean(false))
        } else {
            Err(())
        }
    }

    /// Reads a token as an unsigned 64-bit decimal integer, the form of an id.
    pub fn parse_id_int(string: &str) -> (parsed: Result<u64, ()>)
        ensures
            parsed == match parse_u64_spec(string@) {
                Some(id) => Ok::<u64, ()>(id),
                None => Err(()),
            },
    {
        match parse_decimal(string, false) {
            Some((_, magnitude)) => Ok(magnitude),
            None => Err(()),
        }
    }

    /// Reads a token as the id of a role.
    pub fn parse_role_id(string: &str) -> (parsed: Result<Argument, ()>)
        ensures
            parsed == match parse_u64_spec(string@) {
                Some(id) => Ok::<Argument, ()>(Argument::Role(RoleId(id))),
                None => Err(()),
            },
    {
        match Self::parse_id_int(string) {
            Ok(id) => Ok(Argument::Role(RoleId(id))),
            Err(_) => Err(()),
        }
    }

    /// Reads a token as the id of a user.
    pub fn parse_user_id(string: &str) -> (parsed: Result<Argument, ()>)
        ensures
            parsed == match parse_u64_spec(string@) {
                Some(id) => Ok::<Argument, ()>(Argument::User(UserId(id))),
                None => Err(()),
            },
    {
        match Self::parse_id_int(string) {
            Ok(id) => Ok(Argument::User(UserId(id))),
            Err(_) => Err(()),
        }
    }

    /// Reads a token as the id of a channel.
    pub fn parse_channel_id(string: &str) -> (parsed: Result<Argument, ()>)
        ensures
            parsed == match parse_u64_spec(string@) {
                Some(id) => Ok::<Argument, ()>(Argument::Channel(ChannelId(id))),
                None => Err(()),
            },
    {
        match Self::parse_id_int(string) {
            Ok(id) => Ok(Argument::Channel(ChannelId(id))),
            Err(_) => Err(()),
        }
    }

    /// Reads a token as a value of type `kind`.
    pub fn parse_as(kind: ArgumentKind, string: &str) -> (parsed: Result<Argument, ()>)
        ensures
            match parse_spec(kind, string@) {
                Some(value) => parsed matches Ok(a) && a@ == value,
                None => parsed is Err,
            },
    {
        match kind {
            ArgumentKind::String => Self::parse_string(string),
            ArgumentKind::Integer => Self::parse_int(string),
            ArgumentKind::Boolean => Self::parse_bool(string),
            ArgumentKind::User => Self::parse_user_id(string),
            ArgumentKind::Channel => Self::parse_channel_id(string),
            ArgumentKind::Role => Self::parse_role_id(string),
        }
    }

    /// Converts the argument to a string representation
    pub fn to_string(&self) -> (text: String)
        ensures
            text@ == text_of(self@),
    {
        match self {
            Argument::Boolean(b) => if *b {
                "true".to_owned()
            } else {
                "false".to_owned()
            },
            Argument::Channel(c) => {
                let mut text = String::new();
                push_decimal(c.0, &mut text);
                assert(text@ =~= decimal_digits(c.0 as nat));
                text
            },
            Argument::Integer(i) => {
                let mut text = String::new();
                if *i < 0 {
                    proof {
                        reveal_strlit("-");
                    }
                    text.append("-");
                    let magnitude: i64 = -(*i as i64);
                    push_decimal(magnitude as u64, &mut text);
                    assert(text@ =~= seq!['-'] + decimal_digits((-(*i as int)) as nat));
                } else {
                    push_decimal(*i as u64, &mut text);
                    assert(text@ =~= decimal_digits(*i as nat));
                }
                text
            },
            Argument::Role(r) => {
                let mut text = String::new();
                push_decimal(r.0, &mut text);
                assert(text@ =~= decimal_digits(r.0 as nat));
                text
            },
            Argument::String(s) => s.clone(),
            Argument::User(u) => {
                let mut text = String::new();
                push_decimal(u.0, &mut text);
                assert(text@ =~= decimal_digits(u.0 as nat));
                text
            },
        }
    }

    /// Takes a token as text, whatever it holds.
    pub fn parse_string(string: &str) -> (parsed: Result<Argument, ()>)
        ensures
            parsed matches Ok(a) && a@ == ArgumentValue::Text(string@),
    {
        Ok(Argument::String(string.to_owned()))
    }
}

} // verus!

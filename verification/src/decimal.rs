//! Decimal numbers in protocol text: reading a `usize` the way
//! `usize::from_str` does, and writing an integer the way `to_string` does.
use vstd::prelude::*;

verus! {

/// Why a decimal text does not denote a `usize`, as `std::num::IntErrorKind`
/// tells the cases apart.
#[derive(Debug, Clone, Copy, PartialEq, Eq, Structural)]
pub enum IntErrorKind {
    /// The text is empty.
    Empty,
    /// The text holds a character that is not a decimal digit where one is due.
    InvalidDigit,
    /// The number is larger than `usize::MAX`.
    PosOverflow,
}

/// The text by which `std::num::ParseIntError` presents each kind.
pub open spec fn int_error_text(k: IntErrorKind) -> Seq<char> {
    match k {
        IntErrorKind::Empty => "cannot parse integer from empty string"@,
        IntErrorKind::InvalidDigit => "invalid digit found in string"@,
        IntErrorKind::PosOverflow => "number too large to fit in target type"@,
    }
}

impl IntErrorKind {
    /// The text by which `std::num::ParseIntError` presents this kind.
    pub fn message(&self) -> (s: &'static str)
        ensures
            s@ == int_error_text(*self),
    {
        match self {
            IntErrorKind::Empty => "cannot parse integer from empty string",
            IntErrorKind::InvalidDigit => "invalid digit found in string",
            IntErrorKind::PosOverflow => "number too large to fit in target type",
        }
    }
}

/// An ASCII decimal digit.
pub open spec fn is_digit(c: char) -> bool {
    0x30 <= c as u32 <= 0x39
}

/// The value of an ASCII decimal digit.
pub open spec fn digit_value(c: char) -> int {
    c as u32 - 0x30
}

/// The character of a digit value `0 <= d < 10`.
pub open spec fn digit_char(d: int) -> char {
    (d + 0x30) as char
}

/// Reads the digits of `d` from the left onto the value `acc` read so far,
/// failing at the first non-digit or at the first digit that takes the value
/// past `usize::MAX`, whichever comes first.
pub open spec fn scan_digits(d: Seq<char>, acc: int) -> Result<int, IntErrorKind>
    decreases d.len(),
{
    if d.len() == 0 {
        Ok(acc)
    } else if !is_digit(d[0]) {
        Err(IntErrorKind::InvalidDigit)
    } else if acc * 10 + digit_value(d[0]) > usize::MAX {
        Err(IntErrorKind::PosOverflow)
    } else {
        scan_digits(d.drop_first(), acc * 10 + digit_value(d[0]))
    }
}

/// What `usize::from_str` returns for the text `s`: an optional leading `+`,
/// then at least one decimal digit and nothing else, the value at most
/// `usize::MAX`.
pub open spec fn parse_usize_spec(s: Seq<char>) -> Result<usize, IntErrorKind> {
    if s.len() == 0 {
        Err(IntErrorKind::Empty)
    } else {
        let d = if s[0] == '+' {
            s.drop_first()
        } else {
            s
        };
        if d.len() == 0 {
            Err(IntErrorKind::InvalidDigit)
        } else {
            match scan_digits(d, 0) {
                Ok(v) => Ok(v as usize),
                Err(k) => Err(k),
            }
        }
    }
}

/// The decimal text of `n`, without sign or leading zeros.
pub open spec fn decimal(n: nat) -> Seq<char>
    decreases n,
{
    if n < 10 {
        seq![digit_char(n as int)]
    } else {
        decimal(n / 10).push(digit_char((n % 10) as int))
    }
}

/// Reads the decimal text `chars[from..to]` exactly as `usize::from_str` does.
pub fn parse_usize(chars: &Vec<char>, from: usize, to: usize) -> (r: Result<usize, IntErrorKind>)
    requires
        from <= to <= chars@.len(),
    ensures
        r == parse_usize_spec(chars@.subrange(from as int, to as int)),
{
    let ghost s = chars@.subrange(from as int, to as int);
    if from == to {
        return Err(IntErrorKind::Empty);
    }
    let mut i = from;
    if chars[from] == '+' {
        i = from + 1;
        assert(s.drop_first() =~= chars@.subrange(i as int, to as int));
        if i == to {
            return Err(IntErrorKind::InvalidDigit);
        }
    } else {
        assert(s =~= chars@.subrange(i as int, to as int));
    }
    let ghost d = chars@.subrange(i as int, to as int);
    let mut acc: usize = 0;
    while i < to
        invariant
            from < i <= to || (from == i < to),
            to <= chars@.len(),
            d.len() > 0,
            s == chars@.subrange(from as int, to as int),
            parse_usize_spec(s) == (match scan_digits(d, 0) {
                Ok(v) => Ok(v as usize),
                Err(k) => Err(k),
            }),
            scan_digits(d, 0) == scan_digits(chars@.subrange(i as int, to as int), acc as int),
        decreases to - i,
    {
        let c = chars[i];
        let ghost rest = chars@.subrange(i as int, to as int);
        assert(rest[0] == c);
        assert(rest.drop_first() =~= chars@.subrange(i + 1, to as int));
        let u = c as u32;
        if !(0x30 <= u && u <= 0x39) {
            return Err(IntErrorKind::InvalidDigit);
        }
        let digit = (u - 0x30) as usize;
        assert(digit == digit_value(c));
        match acc.checked_mul(10) {
            None => {
                return Err(IntErrorKind::PosOverflow);
            },
            Some(m) => match m.checked_add(digit) {
                None => {
                    return Err(IntErrorKind::PosOverflow);
                },
                Some(v) => {
                    acc = v;
                },
            },
        }
        i += 1;
    }
    Ok(acc)
}

/// The decimal digit of `d < 10` as a one-character string.
fn digit_str(d: u64) -> (s: &'static str)
    requires
        d < 10,
    ensures
        s@ == seq![digit_char(d as int)],
{
    proof {
        reveal_strlit("0");
        reveal_strlit("1");
        reveal_strlit("2");
        reveal_strlit("3");
        reveal_strlit("4");
        reveal_strlit("5");
        reveal_strlit("6");
        reveal_strlit("7");
        reveal_strlit("8");
        reveal_strlit("9");
    }
    match d {
        0 => "0",
        1 => "1",
        2 => "2",
        3 => "3",
        4 => "4",
        5 => "5",
        6 => "6",
        7 => "7",
        8 => "8",
        _ => "9",
    }
}

/// Appends the decimal text of `n` to `out`.
pub fn push_decimal(out: &mut String, n: u64)
    ensures
        final(out)@ == old(out)@ + decimal(n as nat),
    decreases n,
{
    if n >= 10 {
        push_decimal(out, n / 10);
    }
    out.append(digit_str(n % 10));
    proof {
        if n >= 10 {
            assert(decimal(n as nat) == decimal((n / 10) as nat).push(digit_char((n % 10) as int)));
        }
    }
    assert(final(out)@ =~= old(out)@ + decimal(n as nat));
}

/// The decimal text of `n`, as `n.to_string()` gives it.
pub fn decimal_string(n: u64) -> (s: String)
    ensures
        s@ == decimal(n as nat),
{
    let mut s = String::new();
    push_decimal(&mut s, n);
    assert(s@ =~= decimal(n as nat));
    s
}

proof fn lemma_scan_push(d: Seq<char>, c: char, acc: int)
    ensures
        scan_digits(d.push(c), acc) == (match scan_digits(d, acc) {
            Ok(v) => scan_digits(seq![c], v),
            Err(k) => Err(k),
        }),
    decreases d.len(),
{
    if d.len() == 0 {
        assert(d.push(c) =~= seq![c]);
    } else {
        assert(d.push(c).drop_first() =~= d.drop_first().push(c));
        assert(d.push(c)[0] == d[0]);
        if is_digit(d[0]) && acc * 10 + digit_value(d[0]) <= usize::MAX {
            lemma_scan_push(d.drop_first(), c, acc * 10 + digit_value(d[0]));
        }
    }
}

/// The decimal text of a number is a non-empty run of digits that reads back
/// as the number.
pub proof fn lemma_decimal_shape(n: nat)
    requires
        n <= usize::MAX,
    ensures
        decimal(n).len() > 0,
        forall|i: int| 0 <= i < decimal(n).len() ==> is_digit(#[trigger] decimal(n)[i]),
        scan_digits(decimal(n), 0) == Ok::<int, IntErrorKind>(n as int),
    decreases n,
{
    if n < 10 {
        assert(digit_char(n as int) as u32 == n + 0x30);
        assert(is_digit(decimal(n)[0]));
        assert(decimal(n).drop_first() =~= Seq::<char>::empty());
        assert(scan_digits(decimal(n), 0) == scan_digits(decimal(n).drop_first(), n as int));
    } else {
        let q = n / 10;
        let r = n % 10;
        lemma_decimal_shape(q);
        lemma_scan_push(decimal(q), digit_char(r as int), 0);
        assert(seq![digit_char(r as int)].drop_first() =~= Seq::<char>::empty());
        assert(q * 10 + r == n);
        assert(scan_digits(seq![digit_char(r as int)], q as int) == scan_digits(
            seq![digit_char(r as int)].drop_first(),
            n as int,
        ));
        assert forall|i: int| 0 <= i < decimal(n).len() implies is_digit(#[trigger] decimal(n)[i]) by {
            if i < decimal(q).len() {
                assert(decimal(n)[i] == decimal(q)[i]);
            }
        }
    }
}

/// Reading back the decimal text of a number gives the number: what
/// `decimal_string` writes, `parse_usize` reads as the same value.
pub proof fn lemma_decimal_roundtrip(n: usize)
    ensures
        parse_usize_spec(decimal(n as nat)) == Ok::<usize, IntErrorKind>(n),
{
    lemma_decimal_shape(n as nat);
    assert(is_digit(decimal(n as nat)[0]));
}

} // verus!

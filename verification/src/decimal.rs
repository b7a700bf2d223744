use vstd::prelude::*;
use crate::ulid::{payload_of, Ulid, PAYLOAD_MOD};

verus! {

// ----------------------------------------------------------------------------
// Decimal text: the payload of an identifier is shown in base 10, and an
// explicit payload may be supplied in base 10.
// ----------------------------------------------------------------------------

/// The character of one decimal digit.
pub open spec fn dec_digit(d: int) -> char {
    if d == 0 {
        '0'
    } else if d == 1 {
        '1'
    } else if d == 2 {
        '2'
    } else if d == 3 {
        '3'
    } else if d == 4 {
        '4'
    } else if d == 5 {
        '5'
    } else if d == 6 {
        '6'
    } else if d == 7 {
        '7'
    } else if d == 8 {
        '8'
    } else {
        '9'
    }
}

/// The decimal value of a character, or -1 when it is not a decimal digit.
pub open spec fn dec_value(c: char) -> int {
    if c == '0' {
        0
    } else if c == '1' {
        1
    } else if c == '2' {
        2
    } else if c == '3' {
        3
    } else if c == '4' {
        4
    } else if c == '5' {
        5
    } else if c == '6' {
        6
    } else if c == '7' {
        7
    } else if c == '8' {
        8
    } else if c == '9' {
        9
    } else {
        -1
    }
}

/// The decimal text of a nonnegative integer, with no leading zero except
/// in "0" itself.
pub open spec fn dec_of(n: int) -> Seq<char>
    decreases n,
{
    if n < 0 {
        Seq::empty()
    } else if n < 10 {
        seq![dec_digit(n)]
    } else {
        dec_of(n / 10).push(dec_digit(n % 10))
    }
}

/// The digits collected least-significant first, read back as text.
spec fn digits_rev(b: Seq<u8>) -> Seq<char> {
    Seq::new(b.len(), |i: int| dec_digit(b[b.len() - 1 - i] as int))
}

/// One decimal digit as a one-character string.
fn dec_digit_str(d: u8) -> (r: &'static str)
    requires
        d < 10,
    ensures
        r@.len() == 1,
        r@[0] == dec_digit(d as int),
{
    let s: &'static str = if d == 0 {
        "0"
    } else if d == 1 {
        "1"
    } else if d == 2 {
        "2"
    } else if d == 3 {
        "3"
    } else if d == 4 {
        "4"
    } else if d == 5 {
        "5"
    } else if d == 6 {
        "6"
    } else if d == 7 {
        "7"
    } else if d == 8 {
        "8"
    } else {
        "9"
    };
    proof {
        reveal_strlit("0");
        reveal_strlit("1");
        reveal_strlit("2");
        reveal_strlit("3");
        reveal_strlit("4");
        reveal_strlit("5");
        reveal_strlit("6");
        reveal_strlit("7");
        reveal_strlit("8");
        reveal_strlit("9");
    }
    s
}

/// Render a number as its exact decimal text.
pub fn to_decimal(n: u128) -> (r: String)
    ensures
        r@ == dec_of(n as int),
{
    let mut buf: Vec<u8> = Vec::new();
    let mut tmp: u128 = n;
    proof {
        assert(dec_of(n as int) =~= dec_of(tmp as int) + digits_rev(buf@));
    }
    while tmp >= 10
        invariant
            dec_of(n as int) == dec_of(tmp as int) + digits_rev(buf@),
            forall|k: int| 0 <= k < buf.len() ==> #[trigger] buf[k] < 10,
        decreases tmp,
    {
        let d: u8 = (tmp % 10) as u8;
        let ghost old_buf = buf@;
        let ghost old_tmp = tmp as int;
        buf.push(d);
        tmp = tmp / 10;
        proof {
            assert(digits_rev(buf@) =~= seq![dec_digit(d as int)] + digits_rev(old_buf));
            assert(dec_of(old_tmp) == dec_of(old_tmp / 10).push(dec_digit(old_tmp % 10)));
            assert(dec_of(tmp as int) + digits_rev(buf@) =~= dec_of(old_tmp) + digits_rev(
                old_buf,
            ));
        }
    }
    let mut s: String = String::new();
    let first: &'static str = dec_digit_str(tmp as u8);
    s.append(first);
    proof {
        assert(s@ =~= seq![dec_digit(tmp as int)] + digits_rev(buf@).subrange(0, 0));
    }
    let ghost top: int = tmp as int;
    let m: usize = buf.len();
    let mut i: usize = 0;
    while i < m
        invariant
            i <= m,
            m == buf.len(),
            top < 10,
            dec_of(top) == seq![dec_digit(top)],
            dec_of(n as int) == dec_of(top) + digits_rev(buf@),
            forall|k: int| 0 <= k < buf.len() ==> #[trigger] buf[k] < 10,
            s@ == seq![dec_digit(top)] + digits_rev(buf@).subrange(0, i as int),
        decreases m - i,
    {
        let d: u8 = buf[m - 1 - i];
        let ds: &'static str = dec_digit_str(d);
        s.append(ds);
        proof {
            assert(s@ =~= seq![dec_digit(top)] + digits_rev(buf@).subrange(0, i + 1));
        }
        i = i + 1;
    }
    proof {
        assert(digits_rev(buf@).subrange(0, m as int) =~= digits_rev(buf@));
        assert(s@ =~= dec_of(n as int));
    }
    s
}

// ----------------------------------------------------------------------------
// Reading a decimal payload, exactly as a 128-bit register reads it:
// left to right, rejecting the first character that is not a digit and
// stopping at the first step that overflows.
// ----------------------------------------------------------------------------

/// Why a decimal string was rejected.
#[derive(Clone, Copy, PartialEq, Eq, Structural, Debug)]
pub enum NumericParseError {
    /// No digits, or a character that is not a decimal digit.
    Invalid,
    /// The value does not fit in 128 bits.
    Overflow,
}

/// `s` without one leading '+', the sign an unsigned decimal may carry.
pub open spec fn strip_plus(s: Seq<char>) -> Seq<char> {
    if s.len() >= 1 && s[0] == '+' {
        s.drop_first()
    } else {
        s
    }
}

/// Reading the first `k` characters of `d` left to right: the earliest
/// failure wins, and a step overflows when it leaves 128 bits.
pub open spec fn read_u128_rec(d: Seq<char>, k: int) -> Result<int, NumericParseError>
    decreases k,
{
    if k <= 0 {
        Ok(0)
    } else {
        match read_u128_rec(d, k - 1) {
            Err(e) => Err(e),
            Ok(v) => if dec_value(d[k - 1]) < 0 {
                Err(NumericParseError::Invalid)
            } else if v * 10 + dec_value(d[k - 1]) >= 0x1_0000_0000_0000_0000_0000_0000_0000_0000 {
                Err(NumericParseError::Overflow)
            } else {
                Ok(v * 10 + dec_value(d[k - 1]))
            },
        }
    }
}

/// What `parse_u128` returns, for every input string.
pub open spec fn spec_parse_u128(s: Seq<char>) -> Result<u128, NumericParseError> {
    let d = strip_plus(s);
    if d.len() == 0 {
        Err(NumericParseError::Invalid)
    } else {
        match read_u128_rec(d, d.len() as int) {
            Err(e) => Err(e),
            Ok(v) => Ok(v as u128),
        }
    }
}

/// A successful read is a 128-bit value.
proof fn lemma_read_ok_bound(d: Seq<char>, k: int)
    requires
        read_u128_rec(d, k) is Ok,
    ensures
        0 <= read_u128_rec(d, k)->Ok_0 < 0x1_0000_0000_0000_0000_0000_0000_0000_0000,
    decreases k,
{
    if k > 0 {
        lemma_read_ok_bound(d, k - 1);
    }
}

/// A failed read stays failed however much more is read.
proof fn lemma_read_err_sticks(d: Seq<char>, k: int, j: int)
    requires
        read_u128_rec(d, k) is Err,
        k <= j,
    ensures
        read_u128_rec(d, j) == read_u128_rec(d, k),
    decreases j - k,
{
    if k < j {
        lemma_read_err_sticks(d, k, j - 1);
    }
}

/// Read an unsigned decimal, optionally signed with '+', into 128 bits.
pub fn parse_u128(s: &str) -> (r: Result<u128, NumericParseError>)
    ensures
        r == spec_parse_u128(s@),
{
    let n: usize = s.unicode_len();
    let mut i: usize = 0;
    if n >= 1 && s.get_char(0) == '+' {
        i = 1;
    }
    let ghost off: int = i as int;
    let ghost d: Seq<char> = strip_plus(s@);
    proof {
        assert(d =~= s@.subrange(off, n as int));
    }
    if i == n {
        return Err(NumericParseError::Invalid);
    }
    let mut acc: u128 = 0;
    while i < n
        invariant
            off <= i <= n,
            n == s@.len(),
            off < n,
            0 <= off <= 1,
            d == strip_plus(s@),
            d =~= s@.subrange(off, n as int),
            read_u128_rec(d, i - off) == Ok::<int, NumericParseError>(acc as int),
        decreases n - i,
    {
        let c: char = s.get_char(i);
        proof {
            assert(d[i - off] == s@[i as int]);
        }
        match dec_value_of(c) {
            None => {
                proof {
                    lemma_read_err_sticks(d, i - off + 1, d.len() as int);
                }
                return Err(NumericParseError::Invalid);
            },
            Some(dv) => {
                let stepped: Option<u128> = acc.checked_mul(10);
                match stepped {
                    None => {
                        proof {
                            assert(read_u128_rec(d, i - off + 1) == Err::<
                                int,
                                NumericParseError,
                            >(NumericParseError::Overflow));
                            lemma_read_err_sticks(d, i - off + 1, d.len() as int);
                        }
                        return Err(NumericParseError::Overflow);
                    },
                    Some(m10) => {
                        let next: Option<u128> = m10.checked_add(dv as u128);
                        match next {
                            None => {
                                proof {
                                    assert(read_u128_rec(d, i - off + 1) == Err::<
                                        int,
                                        NumericParseError,
                                    >(NumericParseError::Overflow));
                                    lemma_read_err_sticks(d, i - off + 1, d.len() as int);
                                }
                                return Err(NumericParseError::Overflow);
                            },
                            Some(x) => {
                                acc = x;
                            },
                        }
                    },
                }
            },
        }
        i = i + 1;
    }
    proof {
        lemma_read_ok_bound(d, d.len() as int);
    }
    Ok(acc)
}

/// The decimal value of a character, or `None` for anything else.
fn dec_value_of(c: char) -> (r: Option<u8>)
    ensures
        (r matches Some(v) ==> v < 10 && dec_value(c) == v as int),
        (r is None ==> dec_value(c) == -1),
{
    match c {
        '0' => Some(0),
        '1' => Some(1),
        '2' => Some(2),
        '3' => Some(3),
        '4' => Some(4),
        '5' => Some(5),
        '6' => Some(6),
        '7' => Some(7),
        '8' => Some(8),
        '9' => Some(9),
        _ => None,
    }
}

// ----------------------------------------------------------------------------
// Padding modes, seen through the decimal view of the payload.
// ----------------------------------------------------------------------------

/// An all-zero payload always shows as the decimal text "0", whatever the
/// identifier's timestamp is.
pub proof fn lemma_payload_text_zeros(u: Ulid)
    requires
        payload_of(u.value) == 0,
    ensures
        dec_of(payload_of(u.value)) =~= "0"@,
{
    reveal_strlit("0");
}

/// An all-one payload always shows as the decimal text of 2^80 - 1,
/// whatever the identifier's timestamp is.
pub proof fn lemma_payload_text_ones(u: Ulid)
    requires
        payload_of(u.value) == PAYLOAD_MOD - 1,
    ensures
        dec_of(payload_of(u.value)) =~= "1208925819614629174706175"@,
{
    reveal_strlit("1208925819614629174706175");
    reveal_with_fuel(dec_of, 26);
    assert(dec_of(0x1_0000_0000_0000_0000_0000 - 1) =~= "1208925819614629174706175"@);
}

/// A fixed payload of 12345 always shows as the decimal text "12345",
/// whatever the identifier's timestamp is.
pub proof fn lemma_payload_text_fixed(u: Ulid)
    requires
        payload_of(u.value) == 12345,
    ensures
        dec_of(payload_of(u.value)) =~= "12345"@,
{
    reveal_strlit("12345");
    reveal_with_fuel(dec_of, 6);
    assert(dec_of(12345) =~= "12345"@);
}

} // verus!

use vstd::prelude::*;
use vstd::arithmetic::div_mod::{
    lemma_div_denominator, lemma_div_is_ordered, lemma_fundamental_div_mod,
    lemma_hoist_over_denominator, lemma_mod_division_less_than_divisor, lemma_mod_multiples_vanish,
    lemma_multiply_divide_lt, lemma_small_mod,
};
use vstd::arithmetic::mul::lemma_mul_inequality;
use vstd::arithmetic::power::{lemma_pow_adds, lemma_pow_increases, pow};
use crate::ulid::{ts_of, Ulid, PAYLOAD_MOD};

verus! {

// ----------------------------------------------------------------------------
// Crockford Base32 alphabet: 0123456789ABCDEFGHJKMNPQRSTVWXYZ.
// I, L, O and U are left out; decoding also accepts lower-case letters.
// ----------------------------------------------------------------------------

/// The canonical (upper-case) character for one Base32 digit.
pub open spec fn encode_digit(d: int) -> char {
    if d == 0 {
        '0'
    } else if d == 1 {
        '1'
    } else if d == 2 {
        '2'
    } else if d == 3 {
        '3'
    } else if d == 4 {
        '4'
    } else if d == 5 {
        '5'
    } else if d == 6 {
        '6'
    } else if d == 7 {
        '7'
    } else if d == 8 {
        '8'
    } else if d == 9 {
        '9'
    } else if d == 10 {
        'A'
    } else if d == 11 {
        'B'
    } else if d == 12 {
        'C'
    } else if d == 13 {
        'D'
    } else if d == 14 {
        'E'
    } else if d == 15 {
        'F'
    } else if d == 16 {
        'G'
    } else if d == 17 {
        'H'
    } else if d == 18 {
        'J'
    } else if d == 19 {
        'K'
    } else if d == 20 {
        'M'
    } else if d == 21 {
        'N'
    } else if d == 22 {
        'P'
    } else if d == 23 {
        'Q'
    } else if d == 24 {
        'R'
    } else if d == 25 {
        'S'
    } else if d == 26 {
        'T'
    } else if d == 27 {
        'V'
    } else if d == 28 {
        'W'
    } else if d == 29 {
        'X'
    } else if d == 30 {
        'Y'
    } else if d == 31 {
        'Z'
    } else {
        '0'
    }
}

/// The digit a character stands for when decoding, or -1 when the character
/// is not in the alphabet. Decoding is case-insensitive.
pub open spec fn digit_value(c: char) -> int {
    if c == '0' {
        0
    } else if c == '1' {
        1
    } else if c == '2' {
        2
    } else if c == '3' {
        3
    } else if c == '4' {
        4
    } else if c == '5' {
        5
    } else if c == '6' {
        6
    } else if c == '7' {
        7
    } else if c == '8' {
        8
    } else if c == '9' {
        9
    } else if c == 'A' || c == 'a' {
        10
    } else if c == 'B' || c == 'b' {
        11
    } else if c == 'C' || c == 'c' {
        12
    } else if c == 'D' || c == 'd' {
        13
    } else if c == 'E' || c == 'e' {
        14
    } else if c == 'F' || c == 'f' {
        15
    } else if c == 'G' || c == 'g' {
        16
    } else if c == 'H' || c == 'h' {
        17
    } else if c == 'J' || c == 'j' {
        18
    } else if c == 'K' || c == 'k' {
        19
    } else if c == 'M' || c == 'm' {
        20
    } else if c == 'N' || c == 'n' {
        21
    } else if c == 'P' || c == 'p' {
        22
    } else if c == 'Q' || c == 'q' {
        23
    } else if c == 'R' || c == 'r' {
        24
    } else if c == 'S' || c == 's' {
        25
    } else if c == 'T' || c == 't' {
        26
    } else if c == 'V' || c == 'v' {
        27
    } else if c == 'W' || c == 'w' {
        28
    } else if c == 'X' || c == 'x' {
        29
    } else if c == 'Y' || c == 'y' {
        30
    } else if c == 'Z' || c == 'z' {
        31
    } else {
        -1
    }
}

/// Membership in the 32-symbol canonical alphabet.
pub open spec fn in_alphabet(c: char) -> bool {
    exists|d: int| 0 <= d < 32 && c == encode_digit(d)
}

// ----------------------------------------------------------------------------
// The numeric model of the text form: 26 Base32 digits, most significant
// first. The leftmost digit carries only the top 3 of its 5 bits, since
// 26 * 5 = 130 > 128; decoding reduces it modulo 8, exactly as a 128-bit
// accumulator would.
// ----------------------------------------------------------------------------

/// The first `k` digits (most significant first) of `v` written with `k`
/// Base32 places.
pub open spec fn digits_n(v: int, k: nat) -> Seq<char> {
    Seq::new(k, |i: int| encode_digit((v / pow(32, (k - 1 - i) as nat)) % 32))
}

/// The 26-character canonical encoding of a 128-bit value.
pub open spec fn encoding(v: u128) -> Seq<char> {
    digits_n(v as int, 26)
}

/// The value of the first `k` characters of a 26-character group, with the
/// leading digit reduced modulo 8 (the truncation a 128-bit value forces).
pub open spec fn decode_trunc(s: Seq<char>, k: int) -> int
    decreases k,
{
    if k <= 0 {
        0
    } else if k == 1 {
        digit_value(s[0]) % 8
    } else {
        decode_trunc(s, k - 1) * 32 + digit_value(s[k - 1])
    }
}

/// Every character of `s` is an alphabet character (any case).
pub open spec fn all_digits(s: Seq<char>) -> bool {
    forall|i: int| 0 <= i < s.len() ==> digit_value(#[trigger] s[i]) >= 0
}

// ----------------------------------------------------------------------------
// Trimming: leading and trailing ASCII whitespace is ignored before the
// length check.
// ----------------------------------------------------------------------------

/// ASCII whitespace, the characters trimmed from either end of the input.
pub open spec fn is_space(c: char) -> bool {
    c == ' ' || c == '\t' || c == '\n' || c == '\r'
}

/// Length of the run of whitespace at the start of `s`.
pub open spec fn ws_prefix_len(s: Seq<char>) -> nat
    decreases s.len(),
{
    if s.len() == 0 {
        0
    } else if is_space(s[0]) {
        1 + ws_prefix_len(s.drop_first())
    } else {
        0
    }
}

/// Length of the run of whitespace at the end of `s`.
pub open spec fn ws_suffix_len(s: Seq<char>) -> nat
    decreases s.len(),
{
    if s.len() == 0 {
        0
    } else if is_space(s.last()) {
        1 + ws_suffix_len(s.drop_last())
    } else {
        0
    }
}

/// `s` with leading and trailing ASCII whitespace removed.
pub open spec fn trimmed(s: Seq<char>) -> Seq<char> {
    if ws_prefix_len(s) == s.len() {
        Seq::empty()
    } else {
        s.subrange(ws_prefix_len(s) as int, s.len() - ws_suffix_len(s))
    }
}

// ----------------------------------------------------------------------------
// Parsing, specified exactly: which input gives which error, and the value
// a well-formed input decodes to.
// ----------------------------------------------------------------------------

/// Why a string was rejected by `parse`.
#[derive(Clone, Copy, PartialEq, Eq, Structural, Debug)]
pub enum ParseError {
    /// The trimmed input was not exactly 26 characters long.
    InvalidLength,
    /// A character of the trimmed input is outside the alphabet.
    InvalidCharacter,
}

/// What `parse` returns, for every input string.
pub open spec fn spec_parse(s: Seq<char>) -> Result<Ulid, ParseError> {
    let t = trimmed(s);
    if t.len() != 26 {
        Err(ParseError::InvalidLength)
    } else if !all_digits(t) {
        Err(ParseError::InvalidCharacter)
    } else {
        Ok(Ulid { value: decode_trunc(t, 26) as u128 })
    }
}

// ----------------------------------------------------------------------------
// Executable alphabet tables.
// ----------------------------------------------------------------------------

/// The canonical character of digit `d`, as a one-character string.
fn encode_digit_str(d: u8) -> (r: &'static str)
    requires
        d < 32,
    ensures
        r@.len() == 1,
        r@[0] == encode_digit(d as int),
{
    let s: &'static str = if d == 0 {
        "0"
    } else if d == 1 {
        "1"
    } else if d == 2 {
        "2"
    } else if d == 3 {
        "3"
    } else if d == 4 {
        "4"
    } else if d == 5 {
        "5"
    } else if d == 6 {
        "6"
    } else if d == 7 {
        "7"
    } else if d == 8 {
        "8"
    } else if d == 9 {
        "9"
    } else if d == 10 {
        "A"
    } else if d == 11 {
        "B"
    } else if d == 12 {
        "C"
    } else if d == 13 {
        "D"
    } else if d == 14 {
        "E"
    } else if d == 15 {
        "F"
    } else if d == 16 {
        "G"
    } else if d == 17 {
        "H"
    } else if d == 18 {
        "J"
    } else if d == 19 {
        "K"
    } else if d == 20 {
        "M"
    } else if d == 21 {
        "N"
    } else if d == 22 {
        "P"
    } else if d == 23 {
        "Q"
    } else if d == 24 {
        "R"
    } else if d == 25 {
        "S"
    } else if d == 26 {
        "T"
    } else if d == 27 {
        "V"
    } else if d == 28 {
        "W"
    } else if d == 29 {
        "X"
    } else if d == 30 {
        "Y"
    } else {
        "Z"
    };
    proof {
        reveal_strlit("0");
        reveal_strlit("1");
        reveal_strlit("2");
        reveal_strlit("3");
        reveal_strlit("4");
        reveal_strlit("5");
        reveal_strlit("6");
        reveal_strlit("7");
        reveal_strlit("8");
        reveal_strlit("9");
        reveal_strlit("A");
        reveal_strlit("B");
        reveal_strlit("C");
        reveal_strlit("D");
        reveal_strlit("E");
        reveal_strlit("F");
        reveal_strlit("G");
        reveal_strlit("H");
        reveal_strlit("J");
        reveal_strlit("K");
        reveal_strlit("M");
        reveal_strlit("N");
        reveal_strlit("P");
        reveal_strlit("Q");
        reveal_strlit("R");
        reveal_strlit("S");
        reveal_strlit("T");
        reveal_strlit("V");
        reveal_strlit("W");
        reveal_strlit("X");
        reveal_strlit("Y");
        reveal_strlit("Z");
    }
    s
}

/// The digit a character decodes to, or `None` outside the alphabet.
fn digit_value_of(c: char) -> (r: Option<u8>)
    ensures
        (r matches Some(d) ==> d < 32 && digit_value(c) == d as int),
        (r is None ==> digit_value(c) == -1),
{
    match c {
        '0' => Some(0),
        '1' => Some(1),
        '2' => Some(2),
        '3' => Some(3),
        '4' => Some(4),
        '5' => Some(5),
        '6' => Some(6),
        '7' => Some(7),
        '8' => Some(8),
        '9' => Some(9),
        'A' | 'a' => Some(10),
        'B' | 'b' => Some(11),
        'C' | 'c' => Some(12),
        'D' | 'd' => Some(13),
        'E' | 'e' => Some(14),
        'F' | 'f' => Some(15),
        'G' | 'g' => Some(16),
        'H' | 'h' => Some(17),
        'J' | 'j' => Some(18),
        'K' | 'k' => Some(19),
        'M' | 'm' => Some(20),
        'N' | 'n' => Some(21),
        'P' | 'p' => Some(22),
        'Q' | 'q' => Some(23),
        'R' | 'r' => Some(24),
        'S' | 's' => Some(25),
        'T' | 't' => Some(26),
        'V' | 'v' => Some(27),
        'W' | 'w' => Some(28),
        'X' | 'x' => Some(29),
        'Y' | 'y' => Some(30),
        'Z' | 'z' => Some(31),
        _ => None,
    }
}

/// Whether `c` is ASCII whitespace.
fn is_space_char(c: char) -> (r: bool)
    ensures
        r == is_space(c),
{
    c == ' ' || c == '\t' || c == '\n' || c == '\r'
}

// ----------------------------------------------------------------------------
// Concrete powers of 32 used by the loop bounds.
// ----------------------------------------------------------------------------

/// One multiplication step of a power of 32.
pub proof fn lemma_pow32_step(e: nat)
    ensures
        pow(32, e + 1) == 32 * pow(32, e),
        pow(32, e) > 0,
{
    vstd::arithmetic::power::lemma_pow_positive(32, e);
    vstd::arithmetic::power::lemma_pow_adds(32, 1, e);
    vstd::arithmetic::power::lemma_pow1(32);
}

/// Values of the powers of 32 the codec reasons with.
pub proof fn lemma_pow32_values()
    ensures
        pow(32, 0) == 1,
        pow(32, 16) == 0x1_0000_0000_0000_0000_0000,
        pow(32, 25) == 0x2000_0000_0000_0000_0000_0000_0000_0000,
        pow(32, 26) == 0x4_0000_0000_0000_0000_0000_0000_0000_0000,
{
    reveal_with_fuel(pow, 27);
}

// ----------------------------------------------------------------------------
// format
// ----------------------------------------------------------------------------

/// Render an identifier as its canonical 26-character text: always exactly
/// 26 characters, all from the canonical alphabet.
pub fn format(u: &Ulid) -> (r: String)
    ensures
        r@ == encoding(u.value),
        r@.len() == 26,
        forall|i: int| 0 <= i < 26 ==> in_alphabet(#[trigger] r@[i]),
{
    let ghost v: int = u.value as int;
    let mut digits: Vec<u8> = Vec::new();
    let mut tmp: u128 = u.value;
    let mut j: usize = 0;
    proof {
        lemma_pow32_values();
        vstd::arithmetic::div_mod::lemma_div_basics(v);
    }
    while j < 26
        invariant
            j <= 26,
            digits.len() == j,
            tmp as int == v / pow(32, j as nat),
            0 <= v < 0x1_0000_0000_0000_0000_0000_0000_0000_0000,
            forall|k: int|
                0 <= k < j ==> #[trigger] digits[k] as int == (v / pow(32, k as nat)) % 32,
        decreases 26 - j,
    {
        let d: u8 = (tmp % 32) as u8;
        digits.push(d);
        proof {
            lemma_pow32_step(j as nat);
            lemma_div_denominator(v, pow(32, j as nat), 32);
            assert(pow(32, j as nat) * 32 == 32 * pow(32, j as nat)) by (nonlinear_arith);
        }
        tmp = tmp / 32;
        j = j + 1;
    }
    let mut s: String = String::new();
    let mut i: usize = 0;
    while i < 26
        invariant
            i <= 26,
            digits.len() == 26,
            0 <= v < 0x1_0000_0000_0000_0000_0000_0000_0000_0000,
            forall|k: int|
                0 <= k < 26 ==> #[trigger] digits[k] as int == (v / pow(32, k as nat)) % 32,
            s@ == digits_n(v, 26).subrange(0, i as int),
        decreases 26 - i,
    {
        let d: u8 = digits[25 - i];
        let ds: &'static str = encode_digit_str(d);
        s.append(ds);
        proof {
            assert(s@ =~= digits_n(v, 26).subrange(0, i + 1));
        }
        i = i + 1;
    }
    proof {
        assert(s@ =~= digits_n(v, 26));
        assert forall|i2: int| 0 <= i2 < 26 implies in_alphabet(#[trigger] s@[i2]) by {
            let dv = (v / pow(32, (25 - i2) as nat)) % 32;
            assert(0 <= dv < 32);
            assert(s@[i2] == encode_digit(dv));
        }
    }
    s
}

// ----------------------------------------------------------------------------
// parse
// ----------------------------------------------------------------------------

/// The whitespace run at the start of `s` is exactly `i` characters.
proof fn lemma_ws_prefix(s: Seq<char>, i: int)
    requires
        0 <= i <= s.len(),
        forall|j: int| 0 <= j < i ==> is_space(#[trigger] s[j]),
        i == s.len() || !is_space(s[i]),
    ensures
        ws_prefix_len(s) == i,
    decreases s.len(),
{
    if i == 0 {
    } else {
        assert(is_space(s[0]));
        assert(forall|j: int| 0 <= j < i - 1 ==> is_space(#[trigger] s.drop_first()[j]));
        if i < s.len() {
            assert(s.drop_first()[i - 1] == s[i]);
        }
        lemma_ws_prefix(s.drop_first(), i - 1);
    }
}

/// The whitespace run at the end of `s` is exactly `j` characters.
proof fn lemma_ws_suffix(s: Seq<char>, j: int)
    requires
        0 <= j <= s.len(),
        forall|k: int| s.len() - j <= k < s.len() ==> is_space(#[trigger] s[k]),
        j == s.len() || !is_space(s[s.len() - j - 1]),
    ensures
        ws_suffix_len(s) == j,
    decreases s.len(),
{
    if j == 0 {
    } else {
        assert(is_space(s.last()));
        assert(forall|k: int|
            s.drop_last().len() - (j - 1) <= k < s.drop_last().len() ==> is_space(
                #[trigger] s.drop_last()[k],
            ));
        lemma_ws_suffix(s.drop_last(), j - 1);
    }
}

/// Decode a ULID from text. Case-insensitive; leading and trailing ASCII
/// whitespace is ignored. The trimmed text must be exactly 26 characters,
/// all from the alphabet; the leading digit's two high bits are dropped,
/// exactly as a 128-bit accumulator drops them.
pub fn parse(s: &str) -> (r: Result<Ulid, ParseError>)
    ensures
        r == spec_parse(s@),
{
    let n: usize = s.unicode_len();
    let mut start: usize = 0;
    while start < n && is_space_char(s.get_char(start))
        invariant
            0 <= start <= n,
            n == s@.len(),
            forall|j: int| 0 <= j < start ==> is_space(#[trigger] s@[j]),
        decreases n - start,
    {
        start = start + 1;
    }
    let mut end: usize = n;
    while end > start && is_space_char(s.get_char(end - 1))
        invariant
            start <= end <= n,
            n == s@.len(),
            forall|j: int| 0 <= j < start ==> is_space(#[trigger] s@[j]),
            start == n || !is_space(s@[start as int]),
            forall|k: int| end <= k < n ==> is_space(#[trigger] s@[k]),
        decreases end,
    {
        end = end - 1;
    }
    let ghost t: Seq<char> = trimmed(s@);
    proof {
        if start == n {
            lemma_ws_prefix(s@, n as int);
            assert(end == n);
            assert(t =~= s@.subrange(start as int, end as int));
        } else {
            lemma_ws_prefix(s@, start as int);
            lemma_ws_suffix(s@, n - end);
            assert(t =~= s@.subrange(start as int, end as int));
        }
    }
    if end - start != 26 {
        return Err(ParseError::InvalidLength);
    }
    proof {
        lemma_pow32_values();
    }
    let mut acc: u128 = 0;
    let mut i: usize = 0;
    while i < 26
        invariant
            0 <= i <= 26,
            n == s@.len(),
            start + 26 == end <= n,
            t == trimmed(s@),
            t =~= s@.subrange(start as int, end as int),
            forall|j: int| 0 <= j < i ==> digit_value(#[trigger] t[j]) >= 0,
            i > 0 ==> acc as int == decode_trunc(t, i as int),
            i > 0 ==> acc < 8 * pow(32, (i - 1) as nat),
            i == 0 ==> acc == 0,
            pow(32, 25) == 0x2000_0000_0000_0000_0000_0000_0000_0000,
        decreases 26 - i,
    {
        let c: char = s.get_char(start + i);
        proof {
            assert(t[i as int] == s@[start + i]);
        }
        match digit_value_of(c) {
            None => {
                proof {
                    assert(digit_value(t[i as int]) == -1);
                    assert(!all_digits(t));
                }
                return Err(ParseError::InvalidCharacter);
            },
            Some(d) => {
                if i == 0 {
                    acc = (d % 8) as u128;
                    proof {
                        assert(acc as int == decode_trunc(t, 1));
                        assert(pow(32, 0nat) == 1) by {
                            lemma_pow32_values();
                        }
                    }
                } else {
                    proof {
                        lemma_pow32_step((i - 1) as nat);
                        lemma_mul_inequality(acc as int, 8 * pow(32, (i - 1) as nat) - 1, 32);
                        lemma_pow_increases(32, i as nat, 25);
                        assert(acc * 32 + 31 < 8 * pow(32, i as nat));
                        assert(8 * pow(32, i as nat) <= 8 * pow(32, 25nat));
                    }
                    acc = acc * 32 + (d as u128);
                    proof {
                        assert(acc as int == decode_trunc(t, i + 1));
                        assert(acc < 8 * pow(32, i as nat));
                    }
                }
                i = i + 1;
            },
        }
    }
    proof {
        assert(all_digits(t));
        assert(acc as int == decode_trunc(t, 26));
    }
    Ok(Ulid { value: acc })
}

// ----------------------------------------------------------------------------
// Round trip: decoding an encoding gives back the value.
// ----------------------------------------------------------------------------

/// Decoding undoes encoding, digit by digit.
proof fn lemma_digit_round(d: int)
    requires
        0 <= d < 32,
    ensures
        digit_value(encode_digit(d)) == d,
{
}

/// The first `k` decoded digits of `digits_n(v, 26)` are the top of `v`.
proof fn lemma_decode_digits(v: int, k: int)
    requires
        0 <= v < 0x1_0000_0000_0000_0000_0000_0000_0000_0000,
        1 <= k <= 26,
    ensures
        decode_trunc(digits_n(v, 26), k) == v / pow(32, (26 - k) as nat),
    decreases k,
{
    lemma_pow32_values();
    let s = digits_n(v, 26);
    if k == 1 {
        let top = v / pow(32, 25);
        assert(pow(32, 25) * 8 == 0x1_0000_0000_0000_0000_0000_0000_0000_0000)
            by (nonlinear_arith)
            requires
                pow(32, 25) == 0x2000_0000_0000_0000_0000_0000_0000_0000,
        ;
        lemma_multiply_divide_lt(v, pow(32, 25), 8);
        assert(0 <= top) by {
            vstd::arithmetic::div_mod::lemma_div_pos_is_pos(v, pow(32, 25));
        }
        lemma_small_mod(top as nat, 32);
        assert(s[0] == encode_digit(top % 32));
        lemma_digit_round(top);
        lemma_small_mod(top as nat, 8);
        assert(decode_trunc(s, 1) == digit_value(s[0]) % 8);
    } else {
        lemma_decode_digits(v, k - 1);
        let q = v / pow(32, (26 - k) as nat);
        lemma_pow32_step((26 - k) as nat);
        lemma_div_denominator(v, pow(32, (26 - k) as nat), 32);
        assert(pow(32, (26 - k) as nat) * 32 == 32 * pow(32, (26 - k) as nat))
            by (nonlinear_arith);
        assert(q / 32 == v / pow(32, (27 - k) as nat));
        assert(0 <= q) by {
            vstd::arithmetic::div_mod::lemma_div_pos_is_pos(v, pow(32, (26 - k) as nat));
        }
        lemma_mod_division_less_than_divisor(q, 32);
        lemma_fundamental_div_mod(q, 32);
        assert(s[k - 1] == encode_digit(q % 32));
        lemma_digit_round(q % 32);
        assert(decode_trunc(s, k) == decode_trunc(s, k - 1) * 32 + digit_value(s[k - 1]));
        assert(decode_trunc(s, k) == (q / 32) * 32 + q % 32);
        assert(32 * (q / 32) == (q / 32) * 32) by (nonlinear_arith);
    }
}

/// No alphabet character is whitespace.
proof fn lemma_alphabet_not_space(d: int)
    requires
        0 <= d < 32,
    ensures
        !is_space(encode_digit(d)),
{
}

/// Round trip: parsing a formatted identifier gives back the identifier.
/// This is stated over the same functions `format` and `parse` promise:
/// `format(u)` returns `encoding(u.value)` and `parse` returns `spec_parse`.
pub proof fn lemma_round_trip(u: Ulid)
    ensures
        spec_parse(encoding(u.value)) == Ok::<Ulid, ParseError>(u),
{
    let v = u.value as int;
    let s = encoding(u.value);
    lemma_pow32_values();
    assert forall|i: int| 0 <= i < 26 implies digit_value(#[trigger] s[i]) >= 0 && !is_space(
        s[i],
    ) by {
        let dv = (v / pow(32, (25 - i) as nat)) % 32;
        lemma_mod_division_less_than_divisor(v / pow(32, (25 - i) as nat), 32);
        lemma_digit_round(dv);
        lemma_alphabet_not_space(dv);
    }
    assert(ws_prefix_len(s) == 0);
    assert(ws_suffix_len(s) == 0) by {
        assert(!is_space(s.last()));
    }
    assert(trimmed(s) =~= s);
    assert(all_digits(s));
    lemma_decode_digits(v, 26);
    assert(pow(32, 0nat) == 1);
    assert(decode_trunc(s, 26) == v) by {
        vstd::arithmetic::div_mod::lemma_div_basics(v);
    }
}

// ----------------------------------------------------------------------------
// Lexicographic order of encodings follows numeric order.
// ----------------------------------------------------------------------------

/// Lexicographic "strictly less" on character sequences, by code point,
/// with a proper prefix ordered before its extensions. On ASCII text this
/// is exactly how Rust orders its strings.
pub open spec fn lex_lt(a: Seq<char>, b: Seq<char>) -> bool
    decreases a.len(),
{
    if b.len() == 0 {
        false
    } else if a.len() == 0 {
        true
    } else if (a[0] as u32) < (b[0] as u32) {
        true
    } else if a[0] == b[0] {
        lex_lt(a.drop_first(), b.drop_first())
    } else {
        false
    }
}

/// The canonical alphabet is ordered: a larger digit gets a larger character.
proof fn lemma_encode_monotone(d1: int, d2: int)
    requires
        0 <= d1 < d2 < 32,
    ensures
        (encode_digit(d1) as u32) < (encode_digit(d2) as u32),
{
}

/// Dropping the leading digit of `digits_n(v, k)` leaves the digits of
/// `v` modulo one fewer place.
proof fn lemma_digits_drop_first(v: int, k: nat)
    requires
        1 <= k,
        0 <= v < pow(32, k),
    ensures
        digits_n(v, k).drop_first() =~= digits_n(v % pow(32, (k - 1) as nat), (k - 1) as nat),
    decreases k,
{
    let km1 = (k - 1) as nat;
    let p = pow(32, km1);
    lemma_pow32_step(km1);
    let a = v / p;
    let r = v % p;
    lemma_fundamental_div_mod(v, p);
    lemma_mod_division_less_than_divisor(v, p);
    assert forall|i: int| 0 <= i < km1 implies digits_n(v, k).drop_first()[i] == digits_n(
        r,
        km1,
    )[i] by {
        let q = pow(32, (km1 - 1 - i) as nat);
        vstd::arithmetic::power::lemma_pow_positive(32, (km1 - 1 - i) as nat);
        let m = pow(32, (i + 1) as nat);
        vstd::arithmetic::power::lemma_pow_positive(32, (i + 1) as nat);
        lemma_pow_adds(32, (km1 - 1 - i) as nat, (i + 1) as nat);
        assert(p == q * m);
        assert(v == q * (m * a) + r) by (nonlinear_arith)
            requires
                v == p * a + r,
                p == q * m,
        ;
        lemma_hoist_over_denominator(r, m * a, q as nat);
        assert(r + (m * a) * q == v) by (nonlinear_arith)
            requires
                v == q * (m * a) + r,
        ;
        assert(v / q == r / q + m * a);
        lemma_pow32_step(i as nat);
        assert(m * a == 32 * (pow(32, i as nat) * a)) by (nonlinear_arith)
            requires
                m == 32 * pow(32, i as nat),
        ;
        lemma_mod_multiples_vanish(pow(32, i as nat) * a, r / q, 32);
        assert((v / q) % 32 == (r / q) % 32);
        assert(digits_n(v, k)[i + 1] == encode_digit((v / pow(32, (k - 1 - (i + 1)) as nat)) % 32));
        assert((k - 1 - (i + 1)) as nat == (km1 - 1 - i) as nat);
    }
}

/// A numerically smaller value encodes to a lexicographically smaller
/// digit group of the same width.
proof fn lemma_lex_digits(v1: int, v2: int, k: nat)
    requires
        0 <= v1 < v2 < pow(32, k),
    ensures
        lex_lt(digits_n(v1, k), digits_n(v2, k)),
    decreases k,
{
    vstd::arithmetic::power::lemma_pow_positive(32, k);
    if k == 0 {
        assert(pow(32, 0nat) == 1) by {
            vstd::arithmetic::power::lemma_pow0(32);
        }
    } else {
        let km1 = (k - 1) as nat;
        let p = pow(32, km1);
        lemma_pow32_step(km1);
        let d1 = v1 / p;
        let d2 = v2 / p;
        lemma_multiply_divide_lt(v1, p, 32);
        lemma_multiply_divide_lt(v2, p, 32);
        assert(0 <= d1) by {
            vstd::arithmetic::div_mod::lemma_div_pos_is_pos(v1, p);
        }
        assert(0 <= d2) by {
            vstd::arithmetic::div_mod::lemma_div_pos_is_pos(v2, p);
        }
        lemma_div_is_ordered(v1, v2, p);
        lemma_small_mod(d1 as nat, 32);
        lemma_small_mod(d2 as nat, 32);
        let a = digits_n(v1, k);
        let b = digits_n(v2, k);
        assert(a[0] == encode_digit(d1));
        assert(b[0] == encode_digit(d2));
        if d1 < d2 {
            lemma_encode_monotone(d1, d2);
            assert(lex_lt(a, b));
        } else {
            let r1 = v1 % p;
            let r2 = v2 % p;
            lemma_fundamental_div_mod(v1, p);
            lemma_fundamental_div_mod(v2, p);
            lemma_mod_division_less_than_divisor(v1, p);
            lemma_mod_division_less_than_divisor(v2, p);
            assert(r1 < r2);
            lemma_lex_digits(r1, r2, km1);
            lemma_digits_drop_first(v1, k);
            lemma_digits_drop_first(v2, k);
            assert(lex_lt(a.drop_first(), b.drop_first()));
            assert(a[0] == b[0]);
            assert(lex_lt(a, b));
        }
    }
}

/// Monotonic ordering: an identifier with a strictly earlier timestamp
/// formats to lexicographically smaller text, whatever the payloads are.
pub proof fn lemma_format_monotonic(u1: Ulid, u2: Ulid)
    requires
        ts_of(u1.value) < ts_of(u2.value),
    ensures
        lex_lt(encoding(u1.value), encoding(u2.value)),
{
    lemma_pow32_values();
    let v1 = u1.value as int;
    let v2 = u2.value as int;
    let p80 = PAYLOAD_MOD as int;
    lemma_fundamental_div_mod(v1, p80);
    lemma_fundamental_div_mod(v2, p80);
    lemma_mod_division_less_than_divisor(v1, p80);
    lemma_mod_division_less_than_divisor(v2, p80);
    assert(v1 < v2) by (nonlinear_arith)
        requires
            v1 == p80 * (v1 / p80) + v1 % p80,
            v2 == p80 * (v2 / p80) + v2 % p80,
            v1 / p80 < v2 / p80,
            0 <= v1 % p80 < p80,
            0 <= v2 % p80 < p80,
    ;
    assert(pow(32, 26) == pow(32, 25) * 32) by {
        lemma_pow32_step(25nat);
    }
    lemma_lex_digits(v1, v2, 26);
}

/// The first ten characters of an encoding depend on the timestamp alone.
pub proof fn lemma_prefix_from_timestamp(v1: u128, v2: u128)
    requires
        ts_of(v1) == ts_of(v2),
    ensures
        encoding(v1).subrange(0, 10) =~= encoding(v2).subrange(0, 10),
{
    lemma_pow32_values();
    assert forall|i: int| 0 <= i < 10 implies encoding(v1)[i] == encoding(v2)[i] by {
        let e = (25 - i) as nat;
        let q = pow(32, (9 - i) as nat);
        lemma_pow_adds(32, 16, (9 - i) as nat);
        vstd::arithmetic::power::lemma_pow_positive(32, (9 - i) as nat);
        lemma_div_denominator(v1 as int, pow(32, 16), q);
        lemma_div_denominator(v2 as int, pow(32, 16), q);
        assert((v1 as int) / pow(32, e) == ts_of(v1) / q);
        assert((v2 as int) / pow(32, e) == ts_of(v2) / q);
    }
}

// ----------------------------------------------------------------------------
// Case-insensitivity: parsing ignores letter case.
// ----------------------------------------------------------------------------

/// ASCII upper-casing of one character.
pub open spec fn to_upper(c: char) -> char {
    if c == 'a' {
        'A'
    } else if c == 'b' {
        'B'
    } else if c == 'c' {
        'C'
    } else if c == 'd' {
        'D'
    } else if c == 'e' {
        'E'
    } else if c == 'f' {
        'F'
    } else if c == 'g' {
        'G'
    } else if c == 'h' {
        'H'
    } else if c == 'i' {
        'I'
    } else if c == 'j' {
        'J'
    } else if c == 'k' {
        'K'
    } else if c == 'l' {
        'L'
    } else if c == 'm' {
        'M'
    } else if c == 'n' {
        'N'
    } else if c == 'o' {
        'O'
    } else if c == 'p' {
        'P'
    } else if c == 'q' {
        'Q'
    } else if c == 'r' {
        'R'
    } else if c == 's' {
        'S'
    } else if c == 't' {
        'T'
    } else if c == 'u' {
        'U'
    } else if c == 'v' {
        'V'
    } else if c == 'w' {
        'W'
    } else if c == 'x' {
        'X'
    } else if c == 'y' {
        'Y'
    } else if c == 'z' {
        'Z'
    } else {
        c
    }
}

/// ASCII lower-casing of one character.
pub open spec fn to_lower(c: char) -> char {
    if c == 'A' {
        'a'
    } else if c == 'B' {
        'b'
    } else if c == 'C' {
        'c'
    } else if c == 'D' {
        'd'
    } else if c == 'E' {
        'e'
    } else if c == 'F' {
        'f'
    } else if c == 'G' {
        'g'
    } else if c == 'H' {
        'h'
    } else if c == 'I' {
        'i'
    } else if c == 'J' {
        'j'
    } else if c == 'K' {
        'k'
    } else if c == 'L' {
        'l'
    } else if c == 'M' {
        'm'
    } else if c == 'N' {
        'n'
    } else if c == 'O' {
        'o'
    } else if c == 'P' {
        'p'
    } else if c == 'Q' {
        'q'
    } else if c == 'R' {
        'r'
    } else if c == 'S' {
        's'
    } else if c == 'T' {
        't'
    } else if c == 'U' {
        'u'
    } else if c == 'V' {
        'v'
    } else if c == 'W' {
        'w'
    } else if c == 'X' {
        'x'
    } else if c == 'Y' {
        'y'
    } else if c == 'Z' {
        'z'
    } else {
        c
    }
}

/// A sequence upper-cased character by character.
pub open spec fn seq_upper(s: Seq<char>) -> Seq<char> {
    Seq::new(s.len(), |i: int| to_upper(s[i]))
}

/// A sequence lower-cased character by character.
pub open spec fn seq_lower(s: Seq<char>) -> Seq<char> {
    Seq::new(s.len(), |i: int| to_lower(s[i]))
}

/// Changing a character's case changes neither its digit value nor
/// whether it is whitespace.
proof fn lemma_case_preserves_class(c: char)
    ensures
        digit_value(to_upper(c)) == digit_value(c),
        digit_value(to_lower(c)) == digit_value(c),
        is_space(to_upper(c)) == is_space(c),
        is_space(to_lower(c)) == is_space(c),
{
}

/// Two groups with pointwise equal digit values decode alike.
proof fn lemma_decode_pointwise(s1: Seq<char>, s2: Seq<char>, k: int)
    requires
        s1.len() == s2.len(),
        forall|i: int| 0 <= i < s1.len() ==> digit_value(#[trigger] s1[i]) == digit_value(s2[i]),
        0 <= k <= s1.len(),
    ensures
        decode_trunc(s1, k) == decode_trunc(s2, k),
    decreases k,
{
    if k > 0 {
        lemma_decode_pointwise(s1, s2, k - 1);
    }
}

/// Leading whitespace is unchanged by a character map that preserves
/// whitespace.
proof fn lemma_ws_prefix_case(s: Seq<char>, m: Seq<char>)
    requires
        s.len() == m.len(),
        forall|i: int| 0 <= i < s.len() ==> is_space(#[trigger] m[i]) == is_space(s[i]),
    ensures
        ws_prefix_len(m) == ws_prefix_len(s),
    decreases s.len(),
{
    if s.len() > 0 {
        assert(forall|i: int|
            0 <= i < s.drop_first().len() ==> is_space(#[trigger] m.drop_first()[i]) == is_space(
                s.drop_first()[i],
            ));
        lemma_ws_prefix_case(s.drop_first(), m.drop_first());
    }
}

/// Trailing whitespace is unchanged by a character map that preserves
/// whitespace.
proof fn lemma_ws_suffix_case(s: Seq<char>, m: Seq<char>)
    requires
        s.len() == m.len(),
        forall|i: int| 0 <= i < s.len() ==> is_space(#[trigger] m[i]) == is_space(s[i]),
    ensures
        ws_suffix_len(m) == ws_suffix_len(s),
    decreases s.len(),
{
    if s.len() > 0 {
        assert(forall|i: int|
            0 <= i < s.drop_last().len() ==> is_space(#[trigger] m.drop_last()[i]) == is_space(
                s.drop_last()[i],
            ));
        lemma_ws_suffix_case(s.drop_last(), m.drop_last());
    }
}

/// What the whitespace-prefix length says of the characters of `s`.
proof fn lemma_ws_prefix_props(s: Seq<char>)
    ensures
        ws_prefix_len(s) <= s.len(),
        forall|j: int| 0 <= j < ws_prefix_len(s) ==> is_space(#[trigger] s[j]),
        ws_prefix_len(s) < s.len() ==> !is_space(s[ws_prefix_len(s) as int]),
    decreases s.len(),
{
    if s.len() > 0 && is_space(s[0]) {
        lemma_ws_prefix_props(s.drop_first());
        assert forall|j: int| 0 <= j < ws_prefix_len(s) implies is_space(#[trigger] s[j]) by {
            if j > 0 {
                assert(is_space(s.drop_first()[j - 1]));
                assert(s.drop_first()[j - 1] == s[j]);
            }
        }
    }
}

/// What the whitespace-suffix length says of the characters of `s`.
proof fn lemma_ws_suffix_props(s: Seq<char>)
    ensures
        ws_suffix_len(s) <= s.len(),
        forall|k: int| s.len() - ws_suffix_len(s) <= k < s.len() ==> is_space(#[trigger] s[k]),
        ws_suffix_len(s) < s.len() ==> !is_space(s[s.len() - ws_suffix_len(s) - 1]),
    decreases s.len(),
{
    if s.len() > 0 && is_space(s.last()) {
        lemma_ws_suffix_props(s.drop_last());
        assert forall|k: int| s.len() - ws_suffix_len(s) <= k < s.len() implies is_space(
            #[trigger] s[k],
        ) by {
            if k < s.len() - 1 {
                assert(is_space(s.drop_last()[k]));
                assert(s.drop_last()[k] == s[k]);
            }
        }
    }
}

/// Case changes commute with parsing: a map that preserves digit values
/// and whitespace, position by position, leaves the parse result as it was.
proof fn lemma_parse_of_mapped(s: Seq<char>, m: Seq<char>)
    requires
        s.len() == m.len(),
        forall|i: int| 0 <= i < s.len() ==> digit_value(#[trigger] m[i]) == digit_value(s[i]),
        forall|i: int| 0 <= i < s.len() ==> is_space(#[trigger] m[i]) == is_space(s[i]),
    ensures
        spec_parse(m) == spec_parse(s),
{
    lemma_ws_prefix_case(s, m);
    lemma_ws_suffix_case(s, m);
    lemma_ws_prefix_props(s);
    lemma_ws_suffix_props(s);
    let a = ws_prefix_len(s) as int;
    let b = ws_suffix_len(s) as int;
    let ts = trimmed(s);
    let tm = trimmed(m);
    if a == s.len() {
        assert(ts.len() == 0 && tm.len() == 0);
    } else {
        assert(a + b <= s.len()) by {
            if a >= s.len() - b {
                assert(is_space(s[a]));
            }
        }
        assert(ts == s.subrange(a, s.len() - b));
        assert(tm == m.subrange(a, m.len() - b));
        assert(tm.len() == ts.len());
        if ts.len() == 26 {
            assert forall|i: int| 0 <= i < 26 implies digit_value(#[trigger] tm[i])
                == digit_value(ts[i]) by {
                assert(tm[i] == m[a + i]);
                assert(ts[i] == s[a + i]);
            }
            assert(all_digits(tm) == all_digits(ts)) by {
                if all_digits(ts) {
                    assert forall|i: int| 0 <= i < tm.len() implies digit_value(
                        #[trigger] tm[i],
                    ) >= 0 by {
                        assert(digit_value(ts[i]) >= 0);
                    }
                }
                if all_digits(tm) {
                    assert forall|i: int| 0 <= i < ts.len() implies digit_value(
                        #[trigger] ts[i],
                    ) >= 0 by {
                        assert(digit_value(tm[i]) >= 0);
                    }
                }
            }
            if all_digits(ts) {
                lemma_decode_pointwise(ts, tm, 26);
            }
        }
    }
}

/// Case-insensitivity: a string parses the same after upper-casing or
/// lower-casing every character.
pub proof fn lemma_parse_case_insensitive(s: Seq<char>)
    ensures
        spec_parse(seq_upper(s)) == spec_parse(s),
        spec_parse(seq_lower(s)) == spec_parse(s),
{
    assert forall|i: int| 0 <= i < s.len() implies digit_value(#[trigger] seq_upper(s)[i])
        == digit_value(s[i]) && is_space(seq_upper(s)[i]) == is_space(s[i]) && digit_value(
        seq_lower(s)[i],
    ) == digit_value(s[i]) && is_space(seq_lower(s)[i]) == is_space(s[i]) by {
        lemma_case_preserves_class(s[i]);
    }
    lemma_parse_of_mapped(s, seq_upper(s));
    lemma_parse_of_mapped(s, seq_lower(s));
}

} // verus!

use vstd::prelude::*;
use crate::codec::{encoding, spec_parse, parse, ParseError};
use crate::datetime::{datetime_of_millis, is_datetime_of, DateTimeParts};
use crate::decimal::{dec_of, parse_u128, spec_parse_u128, to_decimal, NumericParseError};
use crate::ulid::{payload_of, ts_of, Ulid, PAYLOAD_MOD, TS_MOD};

verus! {

// ----------------------------------------------------------------------------
// The two clock and randomness reads, each behind one trusted item.
// ----------------------------------------------------------------------------

/// Relies on std::time::SystemTime::now, read as whole milliseconds since
/// the Unix epoch; a clock before the epoch reads as zero. Nothing is
/// promised of the value: callers must hold for every outcome.
#[verifier::external_body]
fn now_unix_millis() -> u64 {
    match std::time::SystemTime::now().duration_since(std::time::SystemTime::UNIX_EPOCH) {
        Ok(d) => d.as_millis() as u64,
        Err(_) => 0,
    }
}

/// Relies on ulid::Ulid::new and ulid::Ulid::random: the random section of
/// a freshly drawn identifier. The crate masks it to its low 80 bits;
/// nothing else holds of a random value.
#[verifier::external_body]
fn random_payload() -> (r: u128)
    ensures
        r < PAYLOAD_MOD,
{
    ::ulid::Ulid::new().random()
}

/// The millisecond timestamp to build with: the given one, or the clock's.
pub fn unix_millis(timestamp: Option<u64>) -> (r: u64)
    ensures
        (timestamp matches Some(t) ==> r == t),
{
    match timestamp {
        Some(t) => t,
        None => now_unix_millis(),
    }
}

// ----------------------------------------------------------------------------
// Choosing the payload.
// ----------------------------------------------------------------------------

/// How the payload of a new identifier is filled.
#[derive(Clone, Copy, PartialEq, Eq, Structural, Debug)]
pub enum UlidRandom {
    /// Draw 80 random bits.
    Random,
    /// Use the low 80 bits of this value.
    Fixed(u128),
    /// An all-zero payload.
    Zeros,
    /// An all-one payload.
    Ones,
}

/// An explicit payload, as the host hands it over: decimal text, or an
/// integer whose 64 bits are reinterpreted as an unsigned value.
#[derive(Debug)]
pub enum PayloadValue {
    Text(String),
    Int(i64),
}

/// Why a generation request was refused before any identifier was built.
#[derive(Clone, Copy, PartialEq, Eq, Structural, Debug)]
pub enum GenerateError {
    /// Both padding flags were set at once.
    ConflictingOptions,
    /// The explicit payload text is not an unsigned 128-bit decimal.
    Numeric(NumericParseError),
}

/// The low 128 bits of a signed 64-bit value in two's complement: the
/// value itself when nonnegative, otherwise 2^128 plus the value.
pub open spec fn wrap_i64(v: i64) -> int {
    if v >= 0 {
        v as int
    } else {
        0x1_0000_0000_0000_0000_0000_0000_0000_0000 + v
    }
}

/// What `selected_randomness` decides for each combination of flags and
/// explicit payload.
pub open spec fn spec_selected(zeroed: bool, oned: bool, input: Option<&PayloadValue>) -> Result<
    UlidRandom,
    GenerateError,
> {
    if zeroed && oned {
        Err(GenerateError::ConflictingOptions)
    } else if zeroed {
        Ok(UlidRandom::Zeros)
    } else if oned {
        Ok(UlidRandom::Ones)
    } else {
        match input {
            None => Ok(UlidRandom::Random),
            Some(PayloadValue::Text(s)) => match spec_parse_u128(s@) {
                Ok(v) => Ok(UlidRandom::Fixed(v)),
                Err(e) => Err(GenerateError::Numeric(e)),
            },
            Some(PayloadValue::Int(v)) => Ok(UlidRandom::Fixed(wrap_i64(*v) as u128)),
        }
    }
}

/// The generation command: picks payload modes and builds identifiers.
pub struct RandomUlid;

impl RandomUlid {
    /// Decide the payload mode. Both flags together are refused; one flag
    /// wins; with no flag an explicit payload is read (text as decimal, an
    /// integer bit for bit), and no payload at all means random.
    pub fn selected_randomness(
        &self,
        zeroed: bool,
        oned: bool,
        input: Option<&PayloadValue>,
    ) -> (r: Result<UlidRandom, GenerateError>)
        ensures
            r == spec_selected(zeroed, oned, input),
    {
        if zeroed && oned {
            Err(GenerateError::ConflictingOptions)
        } else if zeroed {
            Ok(UlidRandom::Zeros)
        } else if oned {
            Ok(UlidRandom::Ones)
        } else {
            match input {
                None => Ok(UlidRandom::Random),
                Some(PayloadValue::Text(s)) => match parse_u128(s.as_str()) {
                    Ok(v) => Ok(UlidRandom::Fixed(v)),
                    Err(e) => Err(GenerateError::Numeric(e)),
                },
                Some(PayloadValue::Int(v)) => {
                    let raw: i64 = *v;
                    let bits: u128 = if raw >= 0 {
                        raw as u128
                    } else {
                        u128::MAX - ((-(raw + 1)) as u128)
                    };
                    proof {
                        assert(bits as int == wrap_i64(raw));
                    }
                    Ok(UlidRandom::Fixed(bits))
                },
            }
        }
    }

    /// Build an identifier from a timestamp (the clock's, when none is
    /// given) and a payload mode. The timestamp keeps its low 48 bits; a
    /// supplied payload keeps its low 80 bits.
    pub fn generate(&self, timestamp: Option<u64>, random: UlidRandom) -> (u: Ulid)
        ensures
            (timestamp matches Some(t) ==> ts_of(u.value) == t as int % (TS_MOD as int)),
            (random matches UlidRandom::Fixed(r) ==> payload_of(u.value) == r as int % (
            PAYLOAD_MOD as int)),
            (random is Zeros ==> payload_of(u.value) == 0),
            (random is Ones ==> payload_of(u.value) == PAYLOAD_MOD - 1),
    {
        let ts: u64 = unix_millis(timestamp);
        match random {
            UlidRandom::Random => Ulid::from_parts(ts, random_payload()),
            UlidRandom::Fixed(r) => Ulid::from_parts(ts, r),
            UlidRandom::Zeros => Ulid::from_parts(ts, 0),
            UlidRandom::Ones => Ulid::from_parts(ts, u128::MAX),
        }
    }

    /// The whole generation path: decide the payload mode, build the
    /// identifier, render its canonical text.
    pub fn run(
        &self,
        timestamp: Option<u64>,
        zeroed: bool,
        oned: bool,
        payload: Option<&PayloadValue>,
    ) -> (r: Result<(Ulid, String), GenerateError>)
        ensures
            (match spec_selected(zeroed, oned, payload) {
                Err(e) => r == Err::<(Ulid, String), GenerateError>(e),
                Ok(mode) => r matches Ok(p) && p.1@ == encoding(p.0.value) && (
                timestamp matches Some(t) ==> ts_of(p.0.value) == t as int % (TS_MOD as int)) && (
                mode matches UlidRandom::Fixed(x) ==> payload_of(p.0.value) == x as int % (
                PAYLOAD_MOD as int)) && (mode is Zeros ==> payload_of(p.0.value) == 0) && (
                mode is Ones ==> payload_of(p.0.value) == PAYLOAD_MOD - 1),
            }),
    {
        match self.selected_randomness(zeroed, oned, payload) {
            Err(e) => Err(e),
            Ok(mode) => {
                let u: Ulid = self.generate(timestamp, mode);
                let text: String = crate::codec::format(&u);
                Ok((u, text))
            },
        }
    }
}

// ----------------------------------------------------------------------------
// Splitting an identifier back into its two parts.
// ----------------------------------------------------------------------------

/// Expose an identifier's parts: its timestamp as calendar fields, its
/// payload as exact decimal text.
pub fn split(u: &Ulid) -> (r: (DateTimeParts, String))
    ensures
        is_datetime_of(ts_of(u.value), r.0),
        r.1@ == dec_of(payload_of(u.value)),
{
    let ms: u64 = u.timestamp_ms();
    let d: DateTimeParts = datetime_of_millis(ms);
    let p: String = to_decimal(u.random());
    (d, p)
}

/// The parse command: decode canonical text, then split the identifier.
pub struct ParseUlid;

impl ParseUlid {
    /// The whole parse path: decode the text, refuse what `spec_parse`
    /// refuses, and split a decoded identifier into calendar fields and
    /// decimal payload text.
    pub fn run(&self, input: &str) -> (r: Result<(DateTimeParts, String), ParseError>)
        ensures
            (match spec_parse(input@) {
                Err(e) => r == Err::<(DateTimeParts, String), ParseError>(e),
                Ok(u) => r matches Ok(p) && is_datetime_of(ts_of(u.value), p.0) && p.1@ == dec_of(
                    payload_of(u.value),
                ),
            }),
    {
        match parse(input) {
            Err(e) => Err(e),
            Ok(u) => Ok(split(&u)),
        }
    }
}

} // verus!

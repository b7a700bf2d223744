use vstd::prelude::*;
use vstd::arithmetic::div_mod::{lemma_fundamental_div_mod_converse, lemma_multiply_divide_lt};
use vstd::arithmetic::mul::lemma_mul_inequality;

verus! {

/// Number of distinct 48-bit timestamps: 2^48.
pub const TS_MOD: u64 = 0x1_0000_0000_0000;

/// Number of distinct 80-bit payloads: 2^80.
pub const PAYLOAD_MOD: u128 = 0x1_0000_0000_0000_0000_0000;

/// A ULID: one 128-bit scalar whose high 48 bits are a millisecond timestamp
/// and whose low 80 bits are a random or caller-chosen payload.
#[derive(Clone, Copy, PartialEq, Eq, Structural, Debug)]
pub struct Ulid {
    pub value: u128,
}

/// The timestamp part of a 128-bit identifier value: its high 48 bits.
pub open spec fn ts_of(v: u128) -> int {
    v as int / (PAYLOAD_MOD as int)
}

/// The payload part of a 128-bit identifier value: its low 80 bits.
pub open spec fn payload_of(v: u128) -> int {
    v as int % (PAYLOAD_MOD as int)
}

impl Ulid {
    /// Combine a timestamp and a payload into one identifier, keeping only the
    /// low 48 bits of the timestamp and the low 80 bits of the payload.
    pub fn from_parts(timestamp: u64, random: u128) -> (u: Ulid)
        ensures
            u.value == (timestamp as int % (TS_MOD as int)) * (PAYLOAD_MOD as int) + (
            random as int % (PAYLOAD_MOD as int)),
            ts_of(u.value) == timestamp as int % (TS_MOD as int),
            payload_of(u.value) == random as int % (PAYLOAD_MOD as int),
    {
        let ts: u64 = timestamp % TS_MOD;
        let payload: u128 = random % PAYLOAD_MOD;
        proof {
            lemma_mul_inequality(ts as int, TS_MOD as int - 1, PAYLOAD_MOD as int);
        }
        let value: u128 = (ts as u128) * PAYLOAD_MOD + payload;
        proof {
            lemma_fundamental_div_mod_converse(
                value as int,
                PAYLOAD_MOD as int,
                ts as int,
                payload as int,
            );
        }
        Ulid { value }
    }

    /// The identifier's 48-bit timestamp, in milliseconds since the Unix epoch.
    pub fn timestamp_ms(&self) -> (t: u64)
        ensures
            t as int == ts_of(self.value),
            t < TS_MOD,
    {
        proof {
            lemma_multiply_divide_lt(self.value as int, PAYLOAD_MOD as int, TS_MOD as int);
        }
        (self.value / PAYLOAD_MOD) as u64
    }

    /// The identifier's 80-bit payload.
    pub fn random(&self) -> (p: u128)
        ensures
            p as int == payload_of(self.value),
            p < PAYLOAD_MOD,
    {
        self.value % PAYLOAD_MOD
    }
}

} // verus!

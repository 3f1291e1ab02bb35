//! Seven-bit length prefixes: an unsigned integer written in groups of
//! seven bits, least significant group first, where every byte but the last
//! has its high bit set.

use vstd::prelude::*;

verus! {

/// The longest length prefix that a reader accepts, in bytes.
pub const MAX_PREFIX_BYTES: usize = 10;

/// `128` raised to `k`.
pub open spec fn pow128(k: nat) -> nat
    decreases k,
{
    if k == 0 {
        1
    } else {
        128 * pow128((k - 1) as nat)
    }
}

/// The bytes that encode `n`.
pub open spec fn encode(n: nat) -> Seq<u8>
    decreases n,
{
    if n < 128 {
        seq![n as u8]
    } else {
        seq![(n % 128 + 128) as u8] + encode(n / 128)
    }
}

/// Decodes a prefix that starts at `pos` in `s` and may span at most
/// `budget` bytes: its value and the number of bytes it spans. A prefix
/// whose value exceeds 64 bits is too long.
pub open spec fn decode(s: Seq<u8>, pos: int, budget: nat) -> Result<(nat, nat), DecodeError>
    decreases budget,
{
    if budget == 0 {
        Err(DecodeError::TooLong)
    } else if pos < 0 || pos >= s.len() {
        Err(DecodeError::Truncated)
    } else if s[pos] < 128 {
        Ok((s[pos] as nat, 1))
    } else {
        match decode(s, pos + 1, (budget - 1) as nat) {
            Ok((v, k)) => {
                let w = (s[pos] - 128) + 128 * v;
                if w > u64::MAX {
                    Err(DecodeError::TooLong)
                } else {
                    Ok((w as nat, k + 1))
                }
            },
            Err(e) => Err(e),
        }
    }
}

/// Why a length prefix could not be read.
#[derive(Clone, Copy, Debug, PartialEq, Eq)]
pub enum DecodeError {
    /// The input ends inside the prefix.
    Truncated,
    /// The prefix is longer than the reader accepts, or its value exceeds
    /// 64 bits.
    TooLong,
}

/// A value below `128` to the power `budget` takes at most `budget` bytes.
pub proof fn lemma_encode_len(n: nat, budget: nat)
    requires
        1 <= budget,
        n < pow128(budget),
    ensures
        1 <= encode(n).len() <= budget,
    decreases n,
{
    reveal_with_fuel(pow128, 2);
    lemma_pow128_pos((budget - 1) as nat);
    if n >= 128 {
        assert(pow128(budget) == 128 * pow128((budget - 1) as nat));
        lemma_encode_len(n / 128, (budget - 1) as nat);
    }
}

/// How many bytes encode `n`: one below 2^7, two below 2^14, three below
/// 2^21, four below 2^28 and five below 2^35.
pub proof fn lemma_encode_len_ranges(n: nat)
    ensures
        n < 0x80 ==> encode(n).len() == 1,
        0x80 <= n < 0x4000 ==> encode(n).len() == 2,
        0x4000 <= n < 0x20_0000 ==> encode(n).len() == 3,
        0x20_0000 <= n < 0x1000_0000 ==> encode(n).len() == 4,
        0x1000_0000 <= n < 0x8_0000_0000 ==> encode(n).len() == 5,
    decreases n,
{
    if n >= 0x80 {
        lemma_encode_len_ranges(n / 128);
    }
}

/// An encoding that fits in `budget` bytes decodes to the value encoded,
/// whatever follows it.
pub proof fn lemma_decode_encode(n: nat, rest: Seq<u8>, budget: nat)
    requires
        1 <= budget,
        n < pow128(budget),
        n <= u64::MAX,
    ensures
        decode(encode(n) + rest, 0, budget) == Ok::<(nat, nat), DecodeError>((n, encode(n).len())),
    decreases n,
{
    let s = encode(n) + rest;
    reveal_with_fuel(pow128, 2);
    lemma_pow128_pos((budget - 1) as nat);
    if n < 128 {
        assert(s[0] == n as u8);
    } else {
        assert(pow128(budget) == 128 * pow128((budget - 1) as nat));
        assert(n / 128 < pow128((budget - 1) as nat));
        lemma_decode_encode(n / 128, rest, (budget - 1) as nat);
        let t = encode(n / 128) + rest;
        assert(s == seq![(n % 128 + 128) as u8] + t);
        lemma_decode_shift(seq![(n % 128 + 128) as u8], t, 0, (budget - 1) as nat);
        assert(s[0] == (n % 128 + 128) as u8);
    }
}

/// Decoding is unaffected by bytes placed in front of the position read.
pub proof fn lemma_decode_shift(front: Seq<u8>, s: Seq<u8>, pos: int, budget: nat)
    requires
        0 <= pos,
    ensures
        decode(front + s, pos + front.len(), budget) == decode(s, pos, budget),
    decreases budget,
{
    if budget > 0 && pos < s.len() {
        assert((front + s)[pos + front.len()] == s[pos]);
        lemma_decode_shift(front, s, pos + 1, (budget - 1) as nat);
    }
}

/// Writes the encoding of `n`.
pub fn encode_len(n: usize) -> (out: Vec<u8>)
    ensures
        out@ == encode(n as nat),
{
    let mut out: Vec<u8> = Vec::new();
    let mut m: usize = n;
    while m >= 128
        invariant
            out@ + encode(m as nat) == encode(n as nat),
        decreases m,
    {
        let b: u8 = (m % 128 + 128) as u8;
        let ghost before = out@;
        out.push(b);
        assert(encode(m as nat) == seq![b] + encode((m / 128) as nat));
        assert(out@ + encode((m / 128) as nat) == before + encode(m as nat));
        m = m / 128;
    }
    let last: u8 = m as u8;
    out.push(last);
    assert(encode(m as nat) == seq![last]);
    out
}

/// Reads a prefix that starts at `pos` in `s` and spans at most `budget`
/// bytes.
pub fn decode_at(s: &[u8], pos: usize, budget: usize) -> (r: Result<(u64, usize), DecodeError>)
    requires
        budget <= MAX_PREFIX_BYTES,
    ensures
        match r {
            Ok((v, k)) => decode(s@, pos as int, budget as nat) == Ok::<(nat, nat), DecodeError>((v as nat, k as nat)),
            Err(e) => decode(s@, pos as int, budget as nat) == Err::<(nat, nat), DecodeError>(e),
        },
        r is Ok ==> 1 <= r->Ok_0.1 <= budget && pos + r->Ok_0.1 <= s@.len(),
    decreases budget,
{
    if budget == 0 {
        return Err(DecodeError::TooLong);
    }
    if pos >= s.len() {
        return Err(DecodeError::Truncated);
    }
    let b: u8 = s[pos];
    if b < 128 {
        return Ok((b as u64, 1));
    }
    let inner = decode_at(s, pos + 1, budget - 1);
    match inner {
        Ok((v, k)) => {
            let d: u64 = (b - 128) as u64;
            if v > (u64::MAX - d) / 128 {
                assert(d + 128 * v > u64::MAX) by (nonlinear_arith)
                    requires
                        v > (u64::MAX - d) / 128,
                        d <= 127,
                ;
                return Err(DecodeError::TooLong);
            }
            assert(d + 128 * v <= u64::MAX) by (nonlinear_arith)
                requires
                    v <= (u64::MAX - d) / 128,
                    d <= 127,
            ;
            Ok((d + 128 * v, k + 1))
        },
        Err(e) => Err(e),
    }
}

/// Every power of `128` is positive.
pub proof fn lemma_pow128_pos(k: nat)
    ensures
        pow128(k) >= 1,
    decreases k,
{
    if k > 0 {
        lemma_pow128_pos((k - 1) as nat);
    }
}

/// Every length that [`encode_len`] writes, the reader reads back.
pub proof fn lemma_written_lengths_read_back(n: nat, rest: Seq<u8>)
    requires
        n <= u64::MAX,
    ensures
        decode(encode(n) + rest, 0, MAX_PREFIX_BYTES as nat) == Ok::<(nat, nat), DecodeError>(
            (n, encode(n).len()),
        ),
{
    lemma_pow128_ten();
    lemma_decode_encode(n, rest, MAX_PREFIX_BYTES as nat);
}

/// Ten bytes of prefix hold every 64-bit value.
pub proof fn lemma_pow128_ten()
    ensures
        u64::MAX < pow128(10),
{
    reveal_with_fuel(pow128, 11);
}

} // verus!

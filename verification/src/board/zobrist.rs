//! Engine Zobrist keys: the SplitMix64 stream seeded with "NEBCHESS". Key `n`
//! of the stream is the mix of the generator state after `n + 1` steps, so
//! every key is computed directly from its position in the stream:
//! pieces take positions `0..768` (`64 * piece + square`), the four castling
//! base keys `768..772`, the en-passant files `772..780`, and the
//! black-to-move key position 780. NOT the Polyglot book keys.
use vstd::prelude::*;
use vstd::wrapping::u64_specs::{wrapping_add, wrapping_mul};

verus! {

pub const SEED: u64 = 0x4E45_4243_4845_5353u64;

pub const GOLDEN: u64 = 0x9E37_79B9_7F4A_7C15u64;

pub const MIX1: u64 = 0xBF58_476D_1CE4_E5B9u64;

pub const MIX2: u64 = 0x94D0_49BB_1331_11EBu64;

/// The SplitMix64 output function.
pub open spec fn mix(state: u64) -> u64 {
    let z1 = wrapping_mul(state ^ (state >> 30u64), MIX1);
    let z2 = wrapping_mul(z1 ^ (z1 >> 27u64), MIX2);
    z2 ^ (z2 >> 31u64)
}

/// Generator state after `n + 1` steps.
pub open spec fn stream_state(n: u64) -> u64 {
    wrapping_add(SEED, wrapping_mul(wrapping_add(n, 1), GOLDEN))
}

/// Key number `n` of the stream.
pub open spec fn stream_key(n: u64) -> u64 {
    mix(stream_state(n))
}

pub open spec fn piece_key(p: int, s: int) -> u64 {
    stream_key((p * 64 + s) as u64)
}

pub open spec fn castling_base(i: int) -> u64 {
    stream_key((768 + i) as u64)
}

pub open spec fn ep_key(file: int) -> u64 {
    stream_key((772 + file) as u64)
}

pub open spec fn black_to_move_key() -> u64 {
    stream_key(780)
}

/// XOR of the base keys of the castling rights set in `bits`.
pub open spec fn castling_key(bits: u8) -> u64 {
    (if bits & 1u8 != 0 {
        castling_base(0)
    } else {
        0u64
    }) ^ (if bits & 2u8 != 0 {
        castling_base(1)
    } else {
        0u64
    }) ^ (if bits & 4u8 != 0 {
        castling_base(2)
    } else {
        0u64
    }) ^ (if bits & 8u8 != 0 {
        castling_base(3)
    } else {
        0u64
    })
}

/// Key number `n` of the stream.
pub fn stream_key_at(n: u64) -> (k: u64)
    ensures
        k == stream_key(n),
{
    let state = SEED.wrapping_add(n.wrapping_add(1).wrapping_mul(GOLDEN));
    let z1 = (state ^ (state >> 30u64)).wrapping_mul(MIX1);
    let z2 = (z1 ^ (z1 >> 27u64)).wrapping_mul(MIX2);
    z2 ^ (z2 >> 31u64)
}

/// Key of piece index `p` standing on square `s`.
pub fn piece_square_key(p: usize, s: usize) -> (k: u64)
    requires
        p < 12,
        s < 64,
    ensures
        k == piece_key(p as int, s as int),
{
    stream_key_at((p * 64 + s) as u64)
}

/// Combined key of a castling-rights mask.
pub fn castling_rights_key(bits: u8) -> (k: u64)
    ensures
        k == castling_key(bits),
{
    let k0 = if bits & 1 != 0 {
        stream_key_at(768)
    } else {
        0
    };
    let k1 = if bits & 2 != 0 {
        stream_key_at(769)
    } else {
        0
    };
    let k2 = if bits & 4 != 0 {
        stream_key_at(770)
    } else {
        0
    };
    let k3 = if bits & 8 != 0 {
        stream_key_at(771)
    } else {
        0
    };
    k0 ^ k1 ^ k2 ^ k3
}

/// Key of an en-passant file.
pub fn ep_file_key(file: u8) -> (k: u64)
    requires
        file < 8,
    ensures
        k == ep_key(file as int),
{
    stream_key_at(772 + file as u64)
}

/// The side-to-move key (XORed in when Black is to move).
pub fn black_to_move() -> (k: u64)
    ensures
        k == black_to_move_key(),
{
    stream_key_at(780)
}

/// The full key tables.
pub struct ZobristKeys {
    /// [piece.index()][square.index()]
    pub pieces: Vec<Vec<u64>>,
    /// Indexed by CastlingRights::bits(); precombined XOR of 4 base keys.
    pub castling: Vec<u64>,
    /// Indexed by en-passant file.
    pub ep_file: Vec<u64>,
    pub black_to_move: u64,
}

impl ZobristKeys {
    /// Builds all tables from the stream.
    pub fn build() -> (z: ZobristKeys)
        ensures
            z.pieces.len() == 12,
            forall|p: int| 0 <= p < 12 ==> (#[trigger] z.pieces@[p]).len() == 64,
            forall|p: int, s: int|
                0 <= p < 12 && 0 <= s < 64 ==> #[trigger] z.pieces@[p]@[s] == piece_key(p, s),
            z.castling.len() == 16,
            forall|b: int| 0 <= b < 16 ==> #[trigger] z.castling@[b] == castling_key(b as u8),
            z.ep_file.len() == 8,
            forall|f: int| 0 <= f < 8 ==> #[trigger] z.ep_file@[f] == ep_key(f),
            z.black_to_move == black_to_move_key(),
    {
        let mut pieces: Vec<Vec<u64>> = Vec::new();
        let mut p: usize = 0;
        while p < 12
            invariant
                p <= 12,
                pieces.len() == p,
                forall|q: int| 0 <= q < p ==> (#[trigger] pieces@[q]).len() == 64,
                forall|q: int, s: int|
                    0 <= q < p && 0 <= s < 64 ==> #[trigger] pieces@[q]@[s] == piece_key(q, s),
            decreases 12 - p,
        {
            let mut row: Vec<u64> = Vec::new();
            let mut s: usize = 0;
            while s < 64
                invariant
                    p < 12,
                    s <= 64,
                    row.len() == s,
                    forall|t: int| 0 <= t < s ==> #[trigger] row@[t] == piece_key(p as int, t),
                decreases 64 - s,
            {
                row.push(piece_square_key(p, s));
                s += 1;
            }
            pieces.push(row);
            p += 1;
        }
        let mut castling: Vec<u64> = Vec::new();
        let mut b: u8 = 0;
        while b < 16
            invariant
                b <= 16,
                castling.len() == b,
                forall|c: int| 0 <= c < b ==> #[trigger] castling@[c] == castling_key(c as u8),
            decreases 16 - b,
        {
            castling.push(castling_rights_key(b));
            b += 1;
        }
        let mut ep_file: Vec<u64> = Vec::new();
        let mut f: u8 = 0;
        while f < 8
            invariant
                f <= 8,
                ep_file.len() == f,
                forall|g: int| 0 <= g < f ==> #[trigger] ep_file@[g] == ep_key(g),
            decreases 8 - f,
        {
            ep_file.push(ep_file_key(f));
            f += 1;
        }
        ZobristKeys { pieces, castling, ep_file, black_to_move: black_to_move() }
    }
}

} // verus!

//! The spacetime diagram of a run packed into bytes, and how well a
//! deflate stream at the highest level compresses it.

use vstd::prelude::*;
use std::io::Write;
use flate2::write::DeflateEncoder;
use flate2::Compression;
use crate::automaton::Automaton;
use crate::grid::{evolve, lemma_evolve_len, single_seed};

verus! {

/// Generations 0 to `g` of `rule` from `s`, one row after the other.
pub open spec fn spacetime(rule: u8, s: Seq<bool>, g: nat) -> Seq<bool>
    decreases g,
{
    if g == 0 {
        s
    } else {
        spacetime(rule, s, (g - 1) as nat) + evolve(rule, s, g)
    }
}

/// Bit `p` of a byte, counted from the most significant one (0..8).
pub open spec fn msb_bit(b: u8, p: int) -> bool {
    (b >> ((7 - p) as u8)) & 1u8 == 1u8
}

/// Bit `t` of a byte stream, the most significant bit of each byte first.
pub open spec fn stream_bit(bytes: Seq<u8>, t: int) -> bool {
    msb_bit(bytes[t / 8], t % 8)
}

/// `bytes` holds `bits` eight to a byte, most significant bit first, the
/// last byte padded with zero bits.
pub open spec fn packs(bytes: Seq<u8>, bits: Seq<bool>) -> bool {
    &&& bytes.len() == (bits.len() + 7) / 8
    &&& forall|t: int| 0 <= t < 8 * bytes.len() ==> #[trigger] stream_bit(bytes, t) == (t < bits.len() && bits[t])
}

/// The bytes that pack `bits` (see `packs`; there is exactly one such
/// sequence, by `lemma_packing_unique`).
pub open spec fn packed(bits: Seq<bool>) -> Seq<u8> {
    choose|p: Seq<u8>| packs(p, bits)
}

/// What a deflate stream at the highest compression level is for `data`.
pub uninterp spec fn deflated(data: Seq<u8>) -> Seq<u8>;

/// Relies on flate2's `write::DeflateEncoder` with `Compression::best()`:
/// writing `data` into it and finishing yields the raw deflate stream,
/// which depends on the bytes alone. Written into a `Vec<u8>` with valid
/// parameters the encoder reports no error, so the result is always `Some`.
#[verifier::external_body]
fn deflate(data: &Vec<u8>) -> (r: Option<Vec<u8>>)
    ensures
        r is Some,
        r matches Some(c) ==> c@ == deflated(data@),
{
    let mut encoder = DeflateEncoder::new(Vec::new(), Compression::best());
    match encoder.write_all(data) {
        Ok(()) => encoder.finish().ok(),
        Err(_) => None,
    }
}

proof fn lemma_set_bit(b: u8, j: u8, jj: u8) by (bit_vector)
    requires
        j < 8,
        jj < 8,
    ensures
        ((b | (1u8 << (7 - j) as u8)) >> (7 - jj) as u8) & 1u8 == (if jj == j {
            1u8
        } else {
            (b >> (7 - jj) as u8) & 1u8
        }),
{
}

proof fn lemma_zero_bits(jj: u8) by (bit_vector)
    requires
        jj < 8,
    ensures
        (0u8 >> (7 - jj) as u8) & 1u8 == 0u8,
{
}

proof fn lemma_byte_from_bits(a: u8, b: u8) by (bit_vector)
    requires
        ((a >> 7u8) & 1u8 == 1u8) == ((b >> 7u8) & 1u8 == 1u8),
        ((a >> 6u8) & 1u8 == 1u8) == ((b >> 6u8) & 1u8 == 1u8),
        ((a >> 5u8) & 1u8 == 1u8) == ((b >> 5u8) & 1u8 == 1u8),
        ((a >> 4u8) & 1u8 == 1u8) == ((b >> 4u8) & 1u8 == 1u8),
        ((a >> 3u8) & 1u8 == 1u8) == ((b >> 3u8) & 1u8 == 1u8),
        ((a >> 2u8) & 1u8 == 1u8) == ((b >> 2u8) & 1u8 == 1u8),
        ((a >> 1u8) & 1u8 == 1u8) == ((b >> 1u8) & 1u8 == 1u8),
        ((a >> 0u8) & 1u8 == 1u8) == ((b >> 0u8) & 1u8 == 1u8),
    ensures
        a == b,
{
}

/// Packing is a function of the bits: two byte sequences that both pack
/// `bits` are equal.
pub proof fn lemma_packing_unique(p: Seq<u8>, q: Seq<u8>, bits: Seq<bool>)
    requires
        packs(p, bits),
        packs(q, bits),
    ensures
        p == q,
{
    assert forall|k: int| 0 <= k < p.len() implies p[k] == q[k] by {
        assert forall|j: int| 0 <= j < 8 implies msb_bit(p[k], j) == msb_bit(q[k], j) by {
            let t = 8 * k + j;
            assert(t / 8 == k && t % 8 == j);
            assert(stream_bit(p, t) == stream_bit(q, t));
        }
        assert(msb_bit(p[k], 0) == msb_bit(q[k], 0));
        assert(msb_bit(p[k], 1) == msb_bit(q[k], 1));
        assert(msb_bit(p[k], 2) == msb_bit(q[k], 2));
        assert(msb_bit(p[k], 3) == msb_bit(q[k], 3));
        assert(msb_bit(p[k], 4) == msb_bit(q[k], 4));
        assert(msb_bit(p[k], 5) == msb_bit(q[k], 5));
        assert(msb_bit(p[k], 6) == msb_bit(q[k], 6));
        assert(msb_bit(p[k], 7) == msb_bit(q[k], 7));
        lemma_byte_from_bits(p[k], q[k]);
    }
    assert(p =~= q);
}

/// Packs `bits` eight to a byte, most significant bit first; the last byte
/// is padded with zero bits.
pub fn pack_bits(bits: &Vec<bool>) -> (r: Vec<u8>)
    ensures
        packs(r@, bits@),
        r@ == packed(bits@),
{
    let total = bits.len();
    let nbytes: usize = total / 8 + if total % 8 != 0 { 1 } else { 0 };
    let mut bytes: Vec<u8> = Vec::with_capacity(nbytes);
    for k in 0..nbytes
        invariant
            total == bits.len(),
            nbytes == (total + 7) / 8,
            bytes.len() == k,
            forall|t: int| 0 <= t < 8 * k ==> #[trigger] stream_bit(bytes@, t) == (t < total && bits@[t]),
    {
        let mut byte: u8 = 0;
        proof {
            assert forall|jj: int| 0 <= jj < 8 implies !#[trigger] msb_bit(byte, jj) by {
                lemma_zero_bits(jj as u8);
            }
        }
        for j in 0..8u8
            invariant
                k < nbytes,
                nbytes == (total + 7) / 8,
                total == bits.len(),
                forall|jj: int| 0 <= jj < 8 ==> #[trigger] msb_bit(byte, jj) == (jj < j && 8 * k + jj < total
                    && bits@[8 * k + jj]),
        {
            let ghost before = byte;
            if k * 8 + (j as usize) < total && bits[k * 8 + (j as usize)] {
                byte = byte | (1u8 << (7 - j));
                proof {
                    assert forall|jj: int| 0 <= jj < 8 implies #[trigger] msb_bit(byte, jj) == (jj < j + 1 && 8 * k + jj < total
                        && bits@[8 * k + jj]) by {
                        lemma_set_bit(before, j, jj as u8);
                        assert(msb_bit(before, jj) == (jj < j && 8 * k + jj < total && bits@[8 * k + jj]));
                    }
                }
            }

        }
        let ghost old_bytes = bytes@;
        bytes.push(byte);
        proof {
            assert forall|t: int| 0 <= t < 8 * (k + 1) implies #[trigger] stream_bit(bytes@, t) == (t < total && bits@[t]) by {
                if t < 8 * k {
                    assert(bytes@[t / 8] == old_bytes[t / 8]);
                    assert(stream_bit(bytes@, t) == stream_bit(old_bytes, t));
                } else {
                    assert(t / 8 == k && t % 8 == t - 8 * k);
                    assert(bytes@[k as int] == byte);
                    assert(msb_bit(byte, t - 8 * k) == (t < total && bits@[t]));
                }
            }
        }
    }
    proof {
        assert(packs(bytes@, bits@));
        lemma_packing_unique(bytes@, packed(bits@), bits@);
    }
    bytes
}

/// The length of the spacetime diagram: one row of `s` per generation.
proof fn lemma_spacetime_len(rule: u8, s: Seq<bool>, g: nat)
    ensures
        spacetime(rule, s, g).len() == s.len() * (g + 1),
    decreases g,
{
    let n = s.len();
    if g > 0 {
        lemma_spacetime_len(rule, s, (g - 1) as nat);
        lemma_evolve_len(rule, s, g);
        assert(n * (((g - 1) as nat) + 1) + n == n * (g + 1)) by (nonlinear_arith)
            requires g > 0;
    } else {
        assert(n * (g + 1) == n) by (nonlinear_arith)
            requires g == 0;
    }
}

/// Generations 0 to `generations` of `rule` from a single live cell on a
/// ring of `width`, row after row.
pub fn spacetime_cells(rule: u8, width: usize, generations: usize) -> (r: Vec<bool>)
    requires
        width >= 1,
        width * (generations + 1) <= usize::MAX,
    ensures
        r@ == spacetime(rule, single_seed(width as nat), generations as nat),
        r.len() == width * (generations + 1),
{
    let mut ca = Automaton::new(width, rule);
    let mut bits: Vec<bool> = Vec::new();
    for i in 0..width
        invariant
            ca.cells.len() == width,
            bits@ == ca.cells@.take(i as int),
    {
        bits.push(ca.cells[i]);
        assert(bits@ =~= ca.cells@.take(i + 1));
    }
    assert(bits@ =~= ca.cells@);
    for g in 0..generations
        invariant
            ca.rule == rule,
            ca.cells@ == evolve(rule, single_seed(width as nat), g as nat),
            bits@ == spacetime(rule, single_seed(width as nat), g as nat),
    {
        ca.step();
        let ghost prefix = bits@;
        proof {
            lemma_evolve_len(rule, single_seed(width as nat), (g + 1) as nat);
        }
        for i in 0..ca.cells.len()
            invariant
                bits@ == prefix + ca.cells@.take(i as int),
        {
            bits.push(ca.cells[i]);
            assert(bits@ =~= prefix + ca.cells@.take(i + 1));
        }
        assert(ca.cells@.take(ca.cells.len() as int) =~= ca.cells@);
    }
    proof {
        lemma_spacetime_len(rule, single_seed(width as nat), generations as nat);
    }
    bits
}

/// Raw and compressed sizes in bits, from the raw size and the compressed
/// bytes; `None` where the compressed size in bits does not fit a `usize`.
pub fn compression_counts(raw_bits: usize, compressed: &Vec<u8>) -> (r: Option<(usize, usize)>)
    ensures
        r == (if 8 * compressed.len() <= usize::MAX {
            Some((raw_bits, (8 * compressed.len()) as usize))
        } else {
            None::<(usize, usize)>
        }),
{
    if compressed.len() <= usize::MAX / 8 {
        Some((raw_bits, compressed.len() * 8))
    } else {
        None
    }
}

/// Packs generations 0 to `generations` of `rule` from a single live cell
/// and deflates them at the highest level. Gives the raw size in bits, one
/// per cell, and eight times the compressed length in bytes; `None` exactly
/// where that count does not fit a `usize`.
pub fn compression_ratio(rule: u8, width: usize, generations: usize) -> (r: Option<(usize, usize)>)
    requires
        width >= 1,
        width * (generations + 1) <= usize::MAX,
    ensures
        8 * deflated(packed(spacetime(rule, single_seed(width as nat), generations as nat))).len()
            <= usize::MAX <==> r is Some,
        r matches Some((raw, compressed)) ==> {
            &&& raw == width * (generations + 1)
            &&& compressed == 8 * deflated(
                packed(spacetime(rule, single_seed(width as nat), generations as nat)),
            ).len()
        },
{
    let bits = spacetime_cells(rule, width, generations);
    let bytes = pack_bits(&bits);
    match deflate(&bytes) {
        Some(compressed) => compression_counts(bits.len(), &compressed),
        None => None,
    }
}

} // verus!

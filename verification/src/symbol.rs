//! The CLERS symbol codec: bit-exact prefix codes for the connectivity
//! symbols C, R, L, E, S, M(n) and H(m), in two variants, together with the
//! serialized tag that selects the variant.

use vstd::prelude::*;
use vstd::arithmetic::power2::{pow2, lemma2_to64};
use crate::bits::{bits_value, bits_of, BitReader, BitWriter, pow2_exec};
use crate::bits::{lemma_bits_of_len, lemma_bits_of_index, lemma_bits_of_split, lemma_bits_value_of};

verus! {

/// A connectivity symbol.  `M` carries the number of vertices in a hole,
/// `H` the metadata index of a handle.
#[derive(Clone, Copy, Debug, PartialEq, Eq, Structural)]
pub enum Symbol {
    C,
    R,
    L,
    E,
    S,
    M(usize),
    H(usize),
}

/// The errors the symbol codec reports.
#[derive(Clone, Copy, Debug, PartialEq, Eq, Structural)]
pub enum SymbolError {
    /// The hole vertex count of an `M` symbol exceeds the 20-bit budget.
    HoleSizeTooLarge,
    /// The handle metadata index of an `H` symbol exceeds the 20-bit budget.
    HandleSizeTooLarge,
    /// The serialized variant tag denotes no known variant.
    UnknownSymbolEncoding,
}

/// The bit width of the slot that carries the symbol-encoding variant tag.
pub const SYMBOL_ENCODING_CONFIG_SLOT: usize = 2;

/// The size class of an `M`/`H` payload: the smallest class whose slot can
/// represent it, with thresholds of 8, 12, 16 and 20 bits.
pub open spec fn mh_size(n: int) -> int {
    if n < 0x100 {
        0
    } else if n < 0x1000 {
        1
    } else if n < 0x10000 {
        2
    } else {
        3
    }
}

/// The payload bit width of each size class for the hole vertex count of
/// `M`; a fixed, format-visible table.
pub open spec fn hole_slot(size: int) -> int {
    if size == 0 {
        8
    } else if size == 1 {
        12
    } else if size == 2 {
        16
    } else {
        20
    }
}

/// The payload bit width of each size class for the handle metadata of
/// `H`; a fixed, format-visible table.
pub open spec fn handle_slot(size: int) -> int {
    if size == 0 {
        8
    } else if size == 1 {
        12
    } else if size == 2 {
        16
    } else {
        20
    }
}

/// The hole-slot table as an executable lookup.
pub fn hole_slot_width(size: usize) -> (r: usize)
    requires
        size < 4,
    ensures
        r as int == hole_slot(size as int),
        8 <= r <= 20,
{
    if size == 0 {
        8
    } else if size == 1 {
        12
    } else if size == 2 {
        16
    } else {
        20
    }
}

/// The handle-slot table as an executable lookup.
pub fn handle_slot_width(size: usize) -> (r: usize)
    requires
        size < 4,
    ensures
        r as int == handle_slot(size as int),
        8 <= r <= 20,
{
    if size == 0 {
        8
    } else if size == 1 {
        12
    } else if size == 2 {
        16
    } else {
        20
    }
}

/// The CrLight code table: the bit width and MSB-first pattern of each
/// symbol, or the size-too-large error for an `M`/`H` payload of 20 bits or
/// more.
pub open spec fn crlight_encode_spec(s: Symbol) -> Result<(int, int), SymbolError> {
    match s {
        Symbol::C => Ok((1, 0)),
        Symbol::R => Ok((2, 0b10)),
        Symbol::L => Ok((4, 0b1100)),
        Symbol::E => Ok((4, 0b1101)),
        Symbol::S => Ok((4, 0b1110)),
        Symbol::M(n) => if n >= 0x100000 {
            Err(SymbolError::HoleSizeTooLarge)
        } else {
            let size = mh_size(n as int);
            let slot = hole_slot(size);
            Ok((7 + slot, 0b11110 * pow2((2 + slot) as nat) + size * pow2(slot as nat) + n))
        },
        Symbol::H(m) => if m >= 0x100000 {
            Err(SymbolError::HandleSizeTooLarge)
        } else {
            let size = mh_size(m as int);
            let slot = handle_slot(size);
            Ok((7 + slot, 0b11111 * pow2((2 + slot) as nat) + size * pow2(slot as nat) + m))
        },
    }
}

/// The Balanced code table.
pub open spec fn balanced_encode_spec(s: Symbol) -> Result<(int, int), SymbolError> {
    match s {
        Symbol::C => Ok((1, 0)),
        Symbol::R => Ok((3, 0b100)),
        Symbol::L => Ok((3, 0b110)),
        Symbol::E => Ok((3, 0b101)),
        Symbol::S => Ok((5, 0b11100)),
        Symbol::M(n) => if n >= 0x100000 {
            Err(SymbolError::HoleSizeTooLarge)
        } else {
            let size = mh_size(n as int);
            let slot = hole_slot(size);
            Ok((7 + slot, 0b11101 * pow2((2 + slot) as nat) + size * pow2(slot as nat) + n))
        },
        Symbol::H(m) => if m >= 0x100000 {
            Err(SymbolError::HandleSizeTooLarge)
        } else {
            let size = mh_size(m as int);
            let slot = handle_slot(size);
            Ok((7 + slot, 0b11110 * pow2((2 + slot) as nat) + size * pow2(slot as nat) + m))
        },
    }
}

/// Computes the size class and the `(width, pattern)` pair of an `M`/`H`
/// symbol with 5-bit header `header` and slot table value `slot`.
fn encode_mh(header: usize, n: usize, slot: usize, size: usize) -> (r: (usize, usize))
    requires
        header < 32,
        size < 4,
        8 <= slot <= 20,
        (n as nat) < pow2(slot as nat),
    ensures
        r.0 == 7 + slot,
        r.1 as int == header * pow2((2 + slot) as nat) + size * pow2(slot as nat) + n,
        (r.1 as nat) < pow2((7 + slot) as nat),
{
    let hp = pow2_exec(2 + slot);
    let sp = pow2_exec(slot);
    proof {
        lemma2_to64();
        assert(pow2((2 + slot) as nat) <= pow2(22)) by {
            if 2 + slot < 22 {
                vstd::arithmetic::power2::lemma_pow2_strictly_increases((2 + slot) as nat, 22);
            }
        }
        assert(pow2(slot as nat) <= pow2(20)) by {
            if slot < 20 {
                vstd::arithmetic::power2::lemma_pow2_strictly_increases(slot as nat, 20);
            }
        }
        assert(pow2((7 + slot) as nat) == 32 * pow2((2 + slot) as nat)) by {
            vstd::arithmetic::power2::lemma_pow2_adds(5, (2 + slot) as nat);
        }
        assert(pow2((2 + slot) as nat) == 4 * pow2(slot as nat)) by {
            vstd::arithmetic::power2::lemma_pow2_adds(2, slot as nat);
        }
        vstd::arithmetic::power2::lemma_pow2_pos(slot as nat);
        assert(header * (hp as int) + size * (sp as int) + n < 32 * (hp as int) && header * (
        hp as int) + size * (sp as int) + n < 0x80000000) by (nonlinear_arith)
            requires
                header < 32,
                0 < hp <= 0x400000,
                size < 4,
                sp >= 1,
                (n as int) < sp as int,
                hp == 4 * (sp as int),
        ;
    }
    let pattern = header * hp + size * sp + n;
    (7 + slot, pattern)
}

/// The default CLERS code: C is one bit, R two, L, E and S four, and M and
/// H carry a five-bit header.
pub struct CrLight;

/// The alternative CLERS code with three-bit R, L and E.
pub struct Balanced;

impl CrLight {
    /// Encodes a symbol as `(bit width, MSB-first pattern)` per the CrLight
    /// table; fails for an `M`/`H` payload that needs 20 bits or more.
    pub fn encode_symbol(symbol: Symbol) -> (r: Result<(usize, usize), SymbolError>)
        ensures
            match r {
                Ok((w, p)) => crlight_encode_spec(symbol) == Ok::<(int, int), SymbolError>(
                    (w as int, p as int),
                ) && w <= 27 && (p as nat) < pow2(w as nat),
                Err(e) => crlight_encode_spec(symbol) == Err::<(int, int), SymbolError>(e),
            },
    {
        proof {
            lemma2_to64();
        }
        match symbol {
            Symbol::C => Ok((1, 0)),
            Symbol::R => Ok((2, 0b10)),
            Symbol::L => Ok((4, 0b1100)),
            Symbol::E => Ok((4, 0b1101)),
            Symbol::S => Ok((4, 0b1110)),
            Symbol::M(n) => {
                let size: usize = if n < 0x100 {
                    0
                } else if n < 0x1000 {
                    1
                } else if n < 0x10000 {
                    2
                } else if n < 0x100000 {
                    3
                } else {
                    return Err(SymbolError::HoleSizeTooLarge);
                };
                let slot = hole_slot_width(size);
                proof {
                    lemma2_to64();
                    assert((n as nat) < pow2(slot as nat));
                }
                Ok(encode_mh(0b11110, n, slot, size))
            },
            Symbol::H(m) => {
                let size: usize = if m < 0x100 {
                    0
                } else if m < 0x1000 {
                    1
                } else if m < 0x10000 {
                    2
                } else if m < 0x100000 {
                    3
                } else {
                    return Err(SymbolError::HandleSizeTooLarge);
                };
                let slot = handle_slot_width(size);
                proof {
                    lemma2_to64();
                    assert((m as nat) < pow2(slot as nat));
                }
                Ok(encode_mh(0b11111, m, slot, size))
            },
        }
    }
}

impl Balanced {
    /// Encodes a symbol as `(bit width, MSB-first pattern)` per the
    /// Balanced table; fails for an `M`/`H` payload that needs 20 bits or
    /// more.
    pub fn encode_symbol(symbol: Symbol) -> (r: Result<(usize, usize), SymbolError>)
        ensures
            match r {
                Ok((w, p)) => balanced_encode_spec(symbol) == Ok::<(int, int), SymbolError>(
                    (w as int, p as int),
                ) && w <= 27 && (p as nat) < pow2(w as nat),
                Err(e) => balanced_encode_spec(symbol) == Err::<(int, int), SymbolError>(e),
            },
    {
        proof {
            lemma2_to64();
        }
        match symbol {
            Symbol::C => Ok((1, 0)),
            Symbol::R => Ok((3, 0b100)),
            Symbol::L => Ok((3, 0b110)),
            Symbol::E => Ok((3, 0b101)),
            Symbol::S => Ok((5, 0b11100)),
            Symbol::M(n) => {
                let size: usize = if n < 0x100 {
                    0
                } else if n < 0x1000 {
                    1
                } else if n < 0x10000 {
                    2
                } else if n < 0x100000 {
                    3
                } else {
                    return Err(SymbolError::HoleSizeTooLarge);
                };
                let slot = hole_slot_width(size);
                proof {
                    lemma2_to64();
                    assert((n as nat) < pow2(slot as nat));
                }
                Ok(encode_mh(0b11101, n, slot, size))
            },
            Symbol::H(m) => {
                let size: usize = if m < 0x100 {
                    0
                } else if m < 0x1000 {
                    1
                } else if m < 0x10000 {
                    2
                } else if m < 0x100000 {
                    3
                } else {
                    return Err(SymbolError::HandleSizeTooLarge);
                };
                let slot = handle_slot_width(size);
                proof {
                    lemma2_to64();
                    assert((m as nat) < pow2(slot as nat));
                }
                Ok(encode_mh(0b11110, m, slot, size))
            },
        }
    }
}

/// The numeric value of one bit.
pub open spec fn bv(b: bool) -> int {
    if b {
        1
    } else {
        0
    }
}

/// The CrLight decoder on a bit sequence: the symbol the leading bits
/// spell, with the number of bits it occupies, or nothing if the sequence
/// is too short.  Decoding never backtracks.
pub open spec fn crlight_decode_spec(s: Seq<bool>) -> Option<(Symbol, int)> {
    if s.len() < 1 {
        None
    } else if !s[0] {
        Some((Symbol::C, 1))
    } else if s.len() < 2 {
        None
    } else if !s[1] {
        Some((Symbol::R, 2))
    } else if s.len() < 4 {
        None
    } else if !s[2] && !s[3] {
        Some((Symbol::L, 4))
    } else if !s[2] && s[3] {
        Some((Symbol::E, 4))
    } else if s[2] && !s[3] {
        Some((Symbol::S, 4))
    } else if s.len() < 7 {
        None
    } else {
        let is_handle = s[4];
        let size = 2 * bv(s[5]) + bv(s[6]);
        let slot = if is_handle {
            handle_slot(size)
        } else {
            hole_slot(size)
        };
        if s.len() < 7 + slot {
            None
        } else {
            let n = bits_value(s.subrange(7, 7 + slot)) as usize;
            if is_handle {
                Some((Symbol::H(n), 7 + slot))
            } else {
                Some((Symbol::M(n), 7 + slot))
            }
        }
    }
}

/// The Balanced decoder on a bit sequence; the prefix `11111` spells no
/// symbol.
pub open spec fn balanced_decode_spec(s: Seq<bool>) -> Option<(Symbol, int)> {
    if s.len() < 1 {
        None
    } else if !s[0] {
        Some((Symbol::C, 1))
    } else if s.len() < 3 {
        None
    } else if !s[1] && !s[2] {
        Some((Symbol::R, 3))
    } else if s[1] && !s[2] {
        Some((Symbol::L, 3))
    } else if !s[1] && s[2] {
        Some((Symbol::E, 3))
    } else if s.len() < 5 {
        None
    } else if !s[3] && !s[4] {
        Some((Symbol::S, 5))
    } else if s[3] && s[4] {
        None
    } else if s.len() < 7 {
        None
    } else {
        let is_handle = s[3];
        let size = 2 * bv(s[5]) + bv(s[6]);
        let slot = if is_handle {
            handle_slot(size)
        } else {
            hole_slot(size)
        };
        if s.len() < 7 + slot {
            None
        } else {
            let n = bits_value(s.subrange(7, 7 + slot)) as usize;
            if is_handle {
                Some((Symbol::H(n), 7 + slot))
            } else {
                Some((Symbol::M(n), 7 + slot))
            }
        }
    }
}

proof fn lemma_bv1(t: Seq<bool>)
    requires
        t.len() == 1,
    ensures
        bits_value(t) == bv(t[0]),
{
    assert(t.drop_last() =~= Seq::<bool>::empty());
    assert(bits_value(Seq::<bool>::empty()) == 0);
}

proof fn lemma_bv2(t: Seq<bool>)
    requires
        t.len() == 2,
    ensures
        bits_value(t) == 2 * bv(t[0]) + bv(t[1]),
{
    assert(t.drop_last() =~= t.take(1));
    lemma_bv1(t.take(1));
}

impl CrLight {
    /// Decodes the next symbol from the reader, consuming exactly its bits.
    pub fn decode_symbol(reader: &mut BitReader) -> (r: Symbol)
        requires
            old(reader).wf(),
            crlight_decode_spec(old(reader).remaining()) is Some,
        ensures
            final(reader).wf(),
            r == crlight_decode_spec(old(reader).remaining())->Some_0.0,
            final(reader).remaining() == old(reader).remaining().skip(
                crlight_decode_spec(old(reader).remaining())->Some_0.1,
            ),
    {
        let ghost rem = old(reader).remaining();
        let b0 = reader.next(1);
        proof {
            lemma_bv1(rem.take(1));
            assert(rem.take(1)[0] == rem[0]);
        }
        if b0 == 0 {
            return Symbol::C;
        }
        proof {
            assert(rem.skip(1)[0] == rem[1]);
            lemma_bv1(rem.skip(1).take(1));
            assert(rem.skip(1).take(1)[0] == rem.skip(1)[0]);
        }
        let b1 = reader.next(1);
        proof {
            assert(rem.skip(1).skip(1) =~= rem.skip(2));
        }
        if b1 == 0 {
            return Symbol::R;
        }
        proof {
            lemma_bv2(rem.skip(2).take(2));
            assert(rem.skip(2).take(2)[0] == rem[2]);
            assert(rem.skip(2).take(2)[1] == rem[3]);
        }
        let b23 = reader.next(2);
        proof {
            assert(rem.skip(2).skip(2) =~= rem.skip(4));
        }
        if b23 == 0 {
            return Symbol::L;
        }
        if b23 == 1 {
            return Symbol::E;
        }
        if b23 == 2 {
            return Symbol::S;
        }
        proof {
            assert(rem[2] && rem[3]);
            assert(rem.skip(4)[0] == rem[4]);
            lemma_bv1(rem.skip(4).take(1));
            assert(rem.skip(4).take(1)[0] == rem.skip(4)[0]);
        }
        let b4 = reader.next(1);
        proof {
            assert(rem.skip(4).skip(1) =~= rem.skip(5));
            lemma_bv2(rem.skip(5).take(2));
            assert(rem.skip(5).take(2)[0] == rem[5]);
            assert(rem.skip(5).take(2)[1] == rem[6]);
        }
        let size = reader.next(2);
        proof {
            assert(rem.skip(5).skip(2) =~= rem.skip(7));
            assert(size < 4);
        }
        let slot = if b4 == 1 {
            handle_slot_width(size)
        } else {
            hole_slot_width(size)
        };
        proof {
            assert(rem.skip(7).take(slot as int) =~= rem.subrange(7, 7 + slot));
        }
        let payload = reader.next(slot);
        proof {
            assert(rem.skip(7).skip(slot as int) =~= rem.skip(7 + slot));
        }
        if b4 == 1 {
            Symbol::H(payload)
        } else {
            Symbol::M(payload)
        }
    }
}

impl Balanced {
    /// Decodes the next symbol from the reader, consuming exactly its bits.
    pub fn decode_symbol(reader: &mut BitReader) -> (r: Symbol)
        requires
            old(reader).wf(),
            balanced_decode_spec(old(reader).remaining()) is Some,
        ensures
            final(reader).wf(),
            r == balanced_decode_spec(old(reader).remaining())->Some_0.0,
            final(reader).remaining() == old(reader).remaining().skip(
                balanced_decode_spec(old(reader).remaining())->Some_0.1,
            ),
    {
        let ghost rem = old(reader).remaining();
        let b0 = reader.next(1);
        proof {
            lemma_bv1(rem.take(1));
            assert(rem.take(1)[0] == rem[0]);
        }
        if b0 == 0 {
            return Symbol::C;
        }
        proof {
            lemma_bv2(rem.skip(1).take(2));
            assert(rem.skip(1).take(2)[0] == rem[1]);
            assert(rem.skip(1).take(2)[1] == rem[2]);
        }
        let b12 = reader.next(2);
        proof {
            assert(rem.skip(1).skip(2) =~= rem.skip(3));
        }
        if b12 == 0 {
            return Symbol::R;
        }
        if b12 == 2 {
            return Symbol::L;
        }
        if b12 == 1 {
            return Symbol::E;
        }
        proof {
            assert(rem[1] && rem[2]);
            lemma_bv2(rem.skip(3).take(2));
            assert(rem.skip(3).take(2)[0] == rem[3]);
            assert(rem.skip(3).take(2)[1] == rem[4]);
        }
        let b34 = reader.next(2);
        proof {
            assert(rem.skip(3).skip(2) =~= rem.skip(5));
        }
        if b34 == 0 {
            return Symbol::S;
        }
        if b34 == 3 {
            // The prefix 11111 spells no Balanced symbol; the precondition
            // rules this branch out.
            proof {
                assert(false);
            }
            return Symbol::C;
        }
        proof {
            lemma_bv2(rem.skip(5).take(2));
            assert(rem.skip(5).take(2)[0] == rem[5]);
            assert(rem.skip(5).take(2)[1] == rem[6]);
        }
        let size = reader.next(2);
        proof {
            assert(rem.skip(5).skip(2) =~= rem.skip(7));
            assert(size < 4);
        }
        let slot = if b34 == 2 {
            handle_slot_width(size)
        } else {
            hole_slot_width(size)
        };
        proof {
            assert(rem.skip(7).take(slot as int) =~= rem.subrange(7, 7 + slot));
        }
        let payload = reader.next(slot);
        proof {
            assert(rem.skip(7).skip(slot as int) =~= rem.skip(7 + slot));
        }
        if b34 == 2 {
            Symbol::H(payload)
        } else {
            Symbol::M(payload)
        }
    }
}

/// The bit layout of an `M`/`H` code word: the five header bits followed by
/// the two size bits and the payload.
proof fn lemma_mh_bits(header: nat, size: nat, n: nat, slot: nat)
    requires
        header < 32,
        size < 4,
        n < pow2(slot),
    ensures
        bits_of(header * pow2((2 + slot) as nat) + size * pow2(slot) + n, (7 + slot) as nat)
            == bits_of(header, 5) + bits_of(size, 2) + bits_of(n, slot),
{
    let b = size * pow2(slot) + n;
    assert(pow2((2 + slot) as nat) == 4 * pow2(slot)) by {
        vstd::arithmetic::power2::lemma_pow2_adds(2, slot);
        lemma2_to64();
    }
    assert(b < pow2((2 + slot) as nat)) by (nonlinear_arith)
        requires
            size < 4,
            n < pow2(slot),
            b == size * pow2(slot) + n,
            pow2((2 + slot) as nat) == 4 * pow2(slot),
    ;
    lemma_bits_of_split(header, b, 5, (2 + slot) as nat);
    lemma_bits_of_split(size, n, 2, slot);
    assert(bits_of(header, 5) + (bits_of(size, 2) + bits_of(n, slot)) =~= bits_of(header, 5)
        + bits_of(size, 2) + bits_of(n, slot));
}

/// The decoded fields of an `M`/`H` code word followed by any suffix.
proof fn lemma_mh_decode_fields(enc: Seq<bool>, header: nat, size: nat, n: nat, slot: nat)
    requires
        header < 32,
        size < 4,
        n < pow2(slot),
        enc.len() >= 7 + slot,
        forall|i: int|
            0 <= i < 7 + slot ==> enc[i] == (bits_of(header, 5) + bits_of(size, 2) + bits_of(
                n,
                slot,
            ))[i],
    ensures
        forall|i: int| 0 <= i < 5 ==> enc[i] == bits_of(header, 5)[i],
        2 * bv(enc[5]) + bv(enc[6]) == size,
        bits_value(enc.subrange(7, 7 + slot as int)) == n,
{
    lemma_bits_of_len(header, 5);
    lemma_bits_of_len(size, 2);
    lemma_bits_of_len(n, slot);
    let s2 = bits_of(size, 2);
    assert(enc[5] == s2[0]);
    assert(enc[6] == s2[1]);
    lemma_bv2(s2);
    assert(pow2(2) == 4) by {
        lemma2_to64();
    }
    lemma_bits_value_of(size, 2);
    assert(enc.subrange(7, 7 + slot as int) =~= bits_of(n, slot));
    lemma_bits_value_of(n, slot);
}

/// Each bit of a five-bit header.
proof fn lemma_header5(header: nat)
    requires
        header < 32,
    ensures
        bits_of(header, 5).len() == 5,
        bits_of(header, 5)[0] == (header / 16 % 2 == 1),
        bits_of(header, 5)[1] == (header / 8 % 2 == 1),
        bits_of(header, 5)[2] == (header / 4 % 2 == 1),
        bits_of(header, 5)[3] == (header / 2 % 2 == 1),
        bits_of(header, 5)[4] == (header % 2 == 1),
{
    lemma_bits_of_len(header, 5);
    lemma2_to64();
    lemma_bits_of_index(header, 5, 0);
    lemma_bits_of_index(header, 5, 1);
    lemma_bits_of_index(header, 5, 2);
    lemma_bits_of_index(header, 5, 3);
    lemma_bits_of_index(header, 5, 4);
    assert(header / 1 == header);
}

/// Each bit of a short code word, by index.
proof fn lemma_small_bits(p: nat, w: nat, i: int)
    requires
        0 <= i < w,
        w <= 5,
        p < pow2(w),
    ensures
        bits_of(p, w)[i] == (p / pow2((w - 1 - i) as nat) % 2 == 1),
        bits_of(p, w).len() == w,
{
    lemma_bits_of_len(p, w);
    lemma_bits_of_index(p, w, i);
}

/// CLERS symbols round-trip under CrLight: decoding an encoded symbol,
/// whatever follows it in the stream, yields the symbol back and consumes
/// exactly its bits.
pub proof fn lemma_crlight_round_trip(s: Symbol, rest: Seq<bool>)
    requires
        crlight_encode_spec(s) is Ok,
    ensures
        ({
            let (w, p) = crlight_encode_spec(s)->Ok_0;
            crlight_decode_spec(bits_of(p as nat, w as nat) + rest) == Some((s, w))
        }),
{
    lemma2_to64();
    let (w, p) = crlight_encode_spec(s)->Ok_0;
    let enc = bits_of(p as nat, w as nat) + rest;
    match s {
        Symbol::C => {
            lemma_small_bits(0, 1, 0);
            assert(!enc[0]);
        },
        Symbol::R => {
            lemma_small_bits(2, 2, 0);
            lemma_small_bits(2, 2, 1);
            assert(2nat / pow2(1) % 2 == 1 && 2nat / pow2(0) % 2 == 0);
            assert(bits_of(2, 2)[0] && !bits_of(2, 2)[1]);
            assert(enc[0] && !enc[1]);
        },
        Symbol::L => {
            lemma_small_bits(12, 4, 0);
            lemma_small_bits(12, 4, 1);
            lemma_small_bits(12, 4, 2);
            lemma_small_bits(12, 4, 3);
            assert(12nat / pow2(3) % 2 == 1 && 12nat / pow2(2) % 2 == 1 && 12nat / pow2(1) % 2 == 0 && 12nat / pow2(0) % 2 == 0);
            assert(bits_of(12, 4)[0] && bits_of(12, 4)[1] && !bits_of(12, 4)[2] && !bits_of(
                12,
                4,
            )[3]);
            assert(enc[0] && enc[1] && !enc[2] && !enc[3]);
        },
        Symbol::E => {
            lemma_small_bits(13, 4, 0);
            lemma_small_bits(13, 4, 1);
            lemma_small_bits(13, 4, 2);
            lemma_small_bits(13, 4, 3);
            assert(13nat / pow2(3) % 2 == 1 && 13nat / pow2(2) % 2 == 1 && 13nat / pow2(1) % 2 == 0 && 13nat / pow2(0) % 2 == 1);
            assert(bits_of(13, 4)[0] && bits_of(13, 4)[1] && !bits_of(13, 4)[2] && bits_of(
                13,
                4,
            )[3]);
            assert(enc[0] && enc[1] && !enc[2] && enc[3]);
        },
        Symbol::S => {
            lemma_small_bits(14, 4, 0);
            lemma_small_bits(14, 4, 1);
            lemma_small_bits(14, 4, 2);
            lemma_small_bits(14, 4, 3);
            assert(14nat / pow2(3) % 2 == 1 && 14nat / pow2(2) % 2 == 1 && 14nat / pow2(1) % 2 == 1 && 14nat / pow2(0) % 2 == 0);
            assert(bits_of(14, 4)[0] && bits_of(14, 4)[1] && bits_of(14, 4)[2] && !bits_of(
                14,
                4,
            )[3]);
            assert(enc[0] && enc[1] && enc[2] && !enc[3]);
        },
        Symbol::M(n) => {
            lemma_crlight_mh_round_trip(s, rest);
        },
        Symbol::H(m) => {
            lemma_crlight_mh_round_trip(s, rest);
        },
    }
}

/// The `M`/`H` cases of the CrLight round trip.
proof fn lemma_crlight_mh_round_trip(s: Symbol, rest: Seq<bool>)
    requires
        crlight_encode_spec(s) is Ok,
        s is M || s is H,
    ensures
        ({
            let (w, p) = crlight_encode_spec(s)->Ok_0;
            crlight_decode_spec(bits_of(p as nat, w as nat) + rest) == Some((s, w))
        }),
{
    lemma2_to64();
    let (w, p) = crlight_encode_spec(s)->Ok_0;
    let enc = bits_of(p as nat, w as nat) + rest;
    let n: nat = match s {
        Symbol::M(n) => n as nat,
        Symbol::H(m) => m as nat,
        _ => 0,
    };
    let header: nat = if s is H {
        31
    } else {
        30
    };
    let size = mh_size(n as int) as nat;
    let slot = (if s is H {
        handle_slot(size as int)
    } else {
        hole_slot(size as int)
    }) as nat;
    assert(n < pow2(slot)) by {
        lemma2_to64();
    }
    lemma_mh_bits(header, size, n, slot);
    lemma_bits_of_len(p as nat, w as nat);
    lemma_mh_decode_fields(enc, header, size, n, slot);
    lemma_header5(header);
    assert(enc[0] && enc[1] && enc[2] && enc[3]);
    assert(enc[4] == (s is H));
    assert(2 * bv(enc[5]) + bv(enc[6]) == size);
    assert(bits_value(enc.subrange(7, 7 + slot as int)) == n);
    assert(enc.len() == w + rest.len());
}

/// CLERS symbols round-trip under Balanced.
pub proof fn lemma_balanced_round_trip(s: Symbol, rest: Seq<bool>)
    requires
        balanced_encode_spec(s) is Ok,
    ensures
        ({
            let (w, p) = balanced_encode_spec(s)->Ok_0;
            balanced_decode_spec(bits_of(p as nat, w as nat) + rest) == Some((s, w))
        }),
{
    lemma2_to64();
    let (w, p) = balanced_encode_spec(s)->Ok_0;
    let enc = bits_of(p as nat, w as nat) + rest;
    match s {
        Symbol::C => {
            lemma_small_bits(0, 1, 0);
            assert(!enc[0]);
        },
        Symbol::R => {
            lemma_small_bits(4, 3, 0);
            lemma_small_bits(4, 3, 1);
            lemma_small_bits(4, 3, 2);
            assert(4nat / pow2(2) % 2 == 1 && 4nat / pow2(1) % 2 == 0 && 4nat / pow2(0) % 2 == 0);
            assert(bits_of(4, 3)[0] && !bits_of(4, 3)[1] && !bits_of(4, 3)[2]);
            assert(enc[0] && !enc[1] && !enc[2]);
        },
        Symbol::L => {
            lemma_small_bits(6, 3, 0);
            lemma_small_bits(6, 3, 1);
            lemma_small_bits(6, 3, 2);
            assert(6nat / pow2(2) % 2 == 1 && 6nat / pow2(1) % 2 == 1 && 6nat / pow2(0) % 2 == 0);
            assert(bits_of(6, 3)[0] && bits_of(6, 3)[1] && !bits_of(6, 3)[2]);
            assert(enc[0] && enc[1] && !enc[2]);
        },
        Symbol::E => {
            lemma_small_bits(5, 3, 0);
            lemma_small_bits(5, 3, 1);
            lemma_small_bits(5, 3, 2);
            assert(5nat / pow2(2) % 2 == 1 && 5nat / pow2(1) % 2 == 0 && 5nat / pow2(0) % 2 == 1);
            assert(bits_of(5, 3)[0] && !bits_of(5, 3)[1] && bits_of(5, 3)[2]);
            assert(enc[0] && !enc[1] && enc[2]);
        },
        Symbol::S => {
            lemma_small_bits(28, 5, 0);
            lemma_small_bits(28, 5, 1);
            lemma_small_bits(28, 5, 2);
            lemma_small_bits(28, 5, 3);
            lemma_small_bits(28, 5, 4);
            assert(28nat / pow2(4) % 2 == 1 && 28nat / pow2(3) % 2 == 1 && 28nat / pow2(2) % 2 == 1 && 28nat / pow2(1) % 2 == 0 && 28nat / pow2(0) % 2 == 0);
            assert(bits_of(28, 5)[0] && bits_of(28, 5)[1] && bits_of(28, 5)[2] && !bits_of(
                28,
                5,
            )[3] && !bits_of(28, 5)[4]);
            assert(enc[0] && enc[1] && enc[2] && !enc[3] && !enc[4]);
        },
        Symbol::M(n) => {
            lemma_balanced_mh_round_trip(s, rest);
        },
        Symbol::H(m) => {
            lemma_balanced_mh_round_trip(s, rest);
        },
    }
}

/// The `M`/`H` cases of the Balanced round trip.
proof fn lemma_balanced_mh_round_trip(s: Symbol, rest: Seq<bool>)
    requires
        balanced_encode_spec(s) is Ok,
        s is M || s is H,
    ensures
        ({
            let (w, p) = balanced_encode_spec(s)->Ok_0;
            balanced_decode_spec(bits_of(p as nat, w as nat) + rest) == Some((s, w))
        }),
{
    lemma2_to64();
    let (w, p) = balanced_encode_spec(s)->Ok_0;
    let enc = bits_of(p as nat, w as nat) + rest;
    let n: nat = match s {
        Symbol::M(n) => n as nat,
        Symbol::H(m) => m as nat,
        _ => 0,
    };
    let header: nat = if s is H {
        30
    } else {
        29
    };
    let size = mh_size(n as int) as nat;
    let slot = (if s is H {
        handle_slot(size as int)
    } else {
        hole_slot(size as int)
    }) as nat;
    assert(n < pow2(slot)) by {
        lemma2_to64();
    }
    lemma_mh_bits(header, size, n, slot);
    lemma_bits_of_len(p as nat, w as nat);
    lemma_mh_decode_fields(enc, header, size, n, slot);
    lemma_header5(header);
    assert(enc[0] && enc[1] && enc[2]);
    assert(enc[3] == (s is H));
    assert(enc[4] == (s is M));
    assert(2 * bv(enc[5]) + bv(enc[6]) == size);
    assert(bits_value(enc.subrange(7, 7 + slot as int)) == n);
    assert(enc.len() == w + rest.len());
}

/// The variant tag serialized ahead of the symbol stream.
#[derive(Clone, Copy, Debug, PartialEq, Eq, Structural)]
pub enum SymbolEncodingConfig {
    /// The default prefix-code variant.
    CrLight,
    /// The variant with three-bit R, L and E codes.
    Balanced,
    /// The reserved range-coded variant; its codec is not specified yet.
    Rans,
}

impl Default for SymbolEncodingConfig {
    /// The default variant is CrLight.
    fn default() -> (r: Self)
        ensures
            r == SymbolEncodingConfig::CrLight,
    {
        SymbolEncodingConfig::CrLight
    }
}

impl SymbolEncodingConfig {
    /// The on-wire identifier of the variant.
    pub open spec fn spec_id(self) -> int {
        match self {
            SymbolEncodingConfig::CrLight => 0,
            SymbolEncodingConfig::Balanced => 1,
            SymbolEncodingConfig::Rans => 2,
        }
    }

    /// The variant an on-wire identifier denotes, if any.
    pub open spec fn spec_from_id(id: int) -> Option<SymbolEncodingConfig> {
        if id == 0 {
            Some(SymbolEncodingConfig::CrLight)
        } else if id == 1 {
            Some(SymbolEncodingConfig::Balanced)
        } else if id == 2 {
            Some(SymbolEncodingConfig::Rans)
        } else {
            None
        }
    }

    /// Serializes the variant tag into its fixed-width slot.
    pub fn write_symbol_encoding(self, writer: &mut BitWriter)
        requires
            old(writer).bits().len() + SYMBOL_ENCODING_CONFIG_SLOT <= usize::MAX,
        ensures
            final(writer).bits() == old(writer).bits() + bits_of(self.spec_id() as nat, 2),
    {
        let id: usize = match self {
            SymbolEncodingConfig::CrLight => 0,
            SymbolEncodingConfig::Balanced => 1,
            SymbolEncodingConfig::Rans => 2,
        };
        proof {
            lemma2_to64();
        }
        writer.push_bits(SYMBOL_ENCODING_CONFIG_SLOT, id);
    }

    /// Reads the variant tag back; an unknown identifier is a fatal format
    /// error.
    pub fn get_symbol_encoding(reader: &mut BitReader) -> (r: Result<Self, SymbolError>)
        requires
            old(reader).wf(),
            old(reader).remaining().len() >= 2,
        ensures
            final(reader).wf(),
            final(reader).remaining() == old(reader).remaining().skip(2),
            ({
                let id = bits_value(old(reader).remaining().take(2)) as int;
                match Self::spec_from_id(id) {
                    Some(c) => r == Ok::<Self, SymbolError>(c),
                    None => r == Err::<Self, SymbolError>(SymbolError::UnknownSymbolEncoding),
                }
            }),
    {
        let id = reader.next(2);
        match id {
            0 => Ok(SymbolEncodingConfig::CrLight),
            1 => Ok(SymbolEncodingConfig::Balanced),
            2 => Ok(SymbolEncodingConfig::Rans),
            _ => Err(SymbolError::UnknownSymbolEncoding),
        }
    }
}

} // verus!

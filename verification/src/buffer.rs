//! Type-erased attribute buffers: a contiguous little-endian byte store
//! tagged with a component scalar type and a component count.  A buffer is
//! logically a sequence of values, each value a fixed tuple of scalar
//! component bit patterns.

use vstd::prelude::*;
use vstd::arithmetic::power2::{pow2, lemma_pow2_adds, lemma_pow2_pos, lemma2_to64, lemma2_to64_rest};
use vstd::arithmetic::div_mod::{lemma_div_denominator, lemma_fundamental_div_mod};
use crate::attribute::AttributeError;

verus! {

/// The closed set of primitive scalar component types a buffer can hold.
#[derive(Clone, Copy, Debug, PartialEq, Eq, Structural)]
pub enum ComponentDataType {
    F32,
    F64,
    U8,
    U16,
    U32,
    U64,
}

impl ComponentDataType {
    /// The size of the scalar in bytes.
    pub open spec fn spec_size(self) -> nat {
        match self {
            ComponentDataType::F32 => 4,
            ComponentDataType::F64 => 8,
            ComponentDataType::U8 => 1,
            ComponentDataType::U16 => 2,
            ComponentDataType::U32 => 4,
            ComponentDataType::U64 => 8,
        }
    }

    /// The stable on-wire identifier of the scalar type.
    pub open spec fn spec_id(self) -> int {
        match self {
            ComponentDataType::F32 => 0,
            ComponentDataType::F64 => 1,
            ComponentDataType::U8 => 2,
            ComponentDataType::U16 => 3,
            ComponentDataType::U32 => 4,
            ComponentDataType::U64 => 5,
        }
    }

    /// The scalar type a given on-wire identifier denotes, if any.
    pub open spec fn spec_from_id(id: int) -> Option<ComponentDataType> {
        if id == 0 {
            Some(ComponentDataType::F32)
        } else if id == 1 {
            Some(ComponentDataType::F64)
        } else if id == 2 {
            Some(ComponentDataType::U8)
        } else if id == 3 {
            Some(ComponentDataType::U16)
        } else if id == 4 {
            Some(ComponentDataType::U32)
        } else if id == 5 {
            Some(ComponentDataType::U64)
        } else {
            None
        }
    }

    /// Returns the size of the data type in bytes, e.g. 4 for F32.
    pub fn size(self) -> (r: usize)
        ensures
            r as nat == self.spec_size(),
            1 <= r <= 8,
    {
        match self {
            ComponentDataType::F32 => 4,
            ComponentDataType::F64 => 8,
            ComponentDataType::U8 => 1,
            ComponentDataType::U16 => 2,
            ComponentDataType::U32 => 4,
            ComponentDataType::U64 => 8,
        }
    }

    /// Returns the unique on-wire identifier of the data type.
    pub fn get_id(self) -> (r: usize)
        ensures
            r as int == self.spec_id(),
            r <= 5,
    {
        match self {
            ComponentDataType::F32 => 0,
            ComponentDataType::F64 => 1,
            ComponentDataType::U8 => 2,
            ComponentDataType::U16 => 3,
            ComponentDataType::U32 => 4,
            ComponentDataType::U64 => 5,
        }
    }

    /// Returns the data type denoted by the given on-wire identifier;
    /// unknown identifiers are a format error.
    pub fn from_id(id: usize) -> (r: Result<Self, ()>)
        ensures
            Self::spec_from_id(id as int) matches Some(v) ==> r == Ok::<Self, ()>(v),
            Self::spec_from_id(id as int) is None ==> r == Err::<Self, ()>(()),
    {
        match id {
            0 => Ok(ComponentDataType::F32),
            1 => Ok(ComponentDataType::F64),
            2 => Ok(ComponentDataType::U8),
            3 => Ok(ComponentDataType::U16),
            4 => Ok(ComponentDataType::U32),
            5 => Ok(ComponentDataType::U64),
            _ => Err(()),
        }
    }
}

/// The identifier map of the scalar types is a bijection: decoding the
/// identifier of any type yields that type, and every identifier in
/// `[0, 5]` decodes to a type that carries exactly that identifier.
pub proof fn lemma_component_type_id_bijection()
    ensures
        forall|v: ComponentDataType| ComponentDataType::spec_from_id(v.spec_id()) == Some(v),
        forall|id: int|
            0 <= id <= 5 ==> (#[trigger] ComponentDataType::spec_from_id(id)) is Some
                && ComponentDataType::spec_from_id(id)->Some_0.spec_id() == id,
        forall|id: int|
            !(0 <= id <= 5) ==> (#[trigger] ComponentDataType::spec_from_id(id)) is None,
{
    assert forall|v: ComponentDataType| ComponentDataType::spec_from_id(v.spec_id()) == Some(v) by {
        match v {
            ComponentDataType::F32 => {},
            ComponentDataType::F64 => {},
            ComponentDataType::U8 => {},
            ComponentDataType::U16 => {},
            ComponentDataType::U32 => {},
            ComponentDataType::U64 => {},
        }
    }
}

/// Byte `k` of the little-endian representation of `p`.
pub open spec fn le_byte(p: nat, k: nat) -> u8 {
    ((p / pow2(8 * k)) % 256) as u8
}

/// The `s`-byte little-endian representation of `p`.
pub open spec fn le_bytes(p: nat, s: nat) -> Seq<u8> {
    Seq::new(s, |k: int| le_byte(p, k as nat))
}

/// The value a little-endian byte sequence denotes.
pub open spec fn from_le(b: Seq<u8>) -> nat
    decreases b.len(),
{
    if b.len() == 0 {
        0
    } else {
        b[0] as nat + 256 * from_le(b.drop_first())
    }
}

pub proof fn lemma_from_le_bound(b: Seq<u8>)
    ensures
        from_le(b) < pow2(8 * b.len()),
    decreases b.len(),
{
    if b.len() == 0 {
        lemma2_to64();
    } else {
        lemma_from_le_bound(b.drop_first());
        lemma_pow2_adds(8, 8 * (b.len() - 1) as nat);
        lemma2_to64();
        assert(8 * b.len() == 8 + 8 * (b.len() - 1));
    }
}

/// Reading back the `s`-byte little-endian representation of `p` yields `p`.
pub proof fn lemma_from_le_le_bytes(p: nat, s: nat)
    requires
        p < pow2(8 * s),
    ensures
        from_le(le_bytes(p, s)) == p,
    decreases s,
{
    lemma2_to64();
    if s == 0 {
        assert(le_bytes(p, 0).len() == 0);
    } else {
        let rest = le_bytes(p / 256, (s - 1) as nat);
        assert(le_bytes(p, s).drop_first() =~= rest) by {
            assert forall|k: int| 0 <= k < s - 1 implies le_bytes(p, s).drop_first()[k] == rest[k] by {
                lemma_pow2_pos(8 * k as nat);
                lemma_div_denominator(p as int, 256, pow2(8 * k as nat) as int);
                lemma_pow2_adds(8, 8 * k as nat);
                assert(8 * (k + 1) == 8 + 8 * k);
            }
        }
        assert(p / 256 < pow2(8 * (s - 1) as nat)) by {
            lemma_fundamental_div_mod(p as int, 256);
            lemma_pow2_adds(8, 8 * (s - 1) as nat);
            assert(8 * s == 8 + 8 * (s - 1));
        }
        lemma_from_le_le_bytes(p / 256, (s - 1) as nat);
        assert(le_bytes(p, s)[0] == le_byte(p, 0));
        assert(pow2(0) == 1);
        assert(p / 1 == p);
        assert(le_byte(p, 0) as nat == p % 256);
        lemma_fundamental_div_mod(p as int, 256);
    }
}

/// Appends the `s`-byte little-endian representation of `p`.
fn push_scalar(data: &mut Vec<u8>, p: u64, s: usize)
    requires
        s <= 8,
        (p as nat) < pow2(8 * s as nat),
        old(data)@.len() + s <= usize::MAX,
    ensures
        final(data)@ == old(data)@ + le_bytes(p as nat, s as nat),
{
    let ghost target = le_bytes(p as nat, s as nat);
    let ghost start = old(data)@;
    let mut q: u64 = p;
    let mut k: usize = 0;
    proof {
        lemma2_to64();
        assert((p as nat) / 1 == p as nat);
    }
    while k < s
        invariant
            k <= s <= 8,
            (p as nat) < pow2(8 * s as nat),
            q as nat == (p as nat) / pow2(8 * k as nat),
            data@ == start + target.take(k as int),
            start.len() + s <= usize::MAX,
            target == le_bytes(p as nat, s as nat),
        decreases s - k,
    {
        proof {
            lemma2_to64();
            lemma_pow2_pos(8 * k as nat);
            assert(target[k as int] == le_byte(p as nat, k as nat));
            assert((q % 256) as u8 == le_byte(p as nat, k as nat));
            assert(target.take(k + 1) =~= target.take(k as int).push(target[k as int]));
            lemma_div_denominator(p as int, pow2(8 * k as nat) as int, 256);
            lemma_pow2_adds(8 * k as nat, 8);
            assert(8 * (k + 1) == 8 * k + 8);
            assert((q as nat) / 256 == (p as nat) / pow2(8 * (k + 1) as nat));
        }
        data.push((q % 256) as u8);
        q = q / 256;
        k = k + 1;
    }
    proof {
        assert(target.take(s as int) =~= target);
    }
}

/// Reads the `s`-byte little-endian scalar at byte offset `off`.
fn read_scalar(data: &Vec<u8>, off: usize, s: usize) -> (r: u64)
    requires
        s <= 8,
        off + s <= data@.len(),
    ensures
        r as nat == from_le(data@.subrange(off as int, off + s)),
        (r as nat) < pow2(8 * s as nat),
{
    let mut acc: u64 = 0;
    let mut k: usize = s;
    let dlen = data.len();
    proof {
        lemma2_to64();
        lemma2_to64_rest();
        assert(data@.subrange(off + s, off + s).len() == 0);
    }
    while k > 0
        invariant
            k <= s <= 8,
            off + s <= data@.len(),
            data@.len() == dlen,
            acc as nat == from_le(data@.subrange(off + k, off + s)),
            (acc as nat) < pow2(8 * (s - k) as nat),
        decreases k,
    {
        k = k - 1;
        let byte = data[off + k];
        proof {
            let sub = data@.subrange(off + k, off + s);
            assert(sub[0] == data@[off + k]);
            assert(sub.drop_first() =~= data@.subrange(off + k + 1, off + s));
            lemma2_to64();
            lemma2_to64_rest();
            lemma_pow2_adds(8, 8 * (s - k - 1) as nat);
            assert(8 * (s - k) == 8 + 8 * (s - k - 1));
            assert(pow2(8 * (s - k) as nat) <= pow2(64)) by {
                if 8 * (s - k) < 64 {
                    vstd::arithmetic::power2::lemma_pow2_strictly_increases(
                        (8 * (s - k)) as nat,
                        64,
                    );
                }
            }
        }
        acc = acc * 256 + (byte as u64);
    }
    proof {
        lemma_from_le_bound(data@.subrange(off as int, off + s));
    }
    acc
}

/// Overwrites the `s` bytes at offset `off` with the little-endian
/// representation of `p`; all other bytes keep their values.
fn write_scalar(data: &mut Vec<u8>, off: usize, p: u64, s: usize)
    requires
        s <= 8,
        off + s <= old(data)@.len(),
        (p as nat) < pow2(8 * s as nat),
    ensures
        final(data)@.len() == old(data)@.len(),
        final(data)@.subrange(off as int, off + s) == le_bytes(p as nat, s as nat),
        forall|b: int|
            0 <= b < old(data)@.len() && !(off <= b < off + s) ==> final(data)@[b] == old(
                data,
            )@[b],
{
    let ghost target = le_bytes(p as nat, s as nat);
    let ghost start = old(data)@;
    let dlen = data.len();
    let mut q: u64 = p;
    let mut k: usize = 0;
    proof {
        lemma2_to64();
        assert((p as nat) / 1 == p as nat);
    }
    while k < s
        invariant
            k <= s <= 8,
            off + s <= data@.len(),
            data@.len() == start.len(),
            data@.len() == dlen,
            (p as nat) < pow2(8 * s as nat),
            q as nat == (p as nat) / pow2(8 * k as nat),
            target == le_bytes(p as nat, s as nat),
            forall|k2: int| 0 <= k2 < k ==> data@[off + k2] == target[k2],
            forall|b: int| 0 <= b < start.len() && !(off <= b < off + k) ==> data@[b] == start[b],
        decreases s - k,
    {
        proof {
            lemma2_to64();
            lemma_pow2_pos(8 * k as nat);
            assert((q % 256) as u8 == le_byte(p as nat, k as nat));
            lemma_div_denominator(p as int, pow2(8 * k as nat) as int, 256);
            lemma_pow2_adds(8 * k as nat, 8);
            assert(8 * (k + 1) == 8 * k + 8);
            assert((q as nat) / 256 == (p as nat) / pow2(8 * (k + 1) as nat));
        }
        let byte = (q % 256) as u8;
        data.set(off + k, byte);
        q = q / 256;
        k = k + 1;
    }
    proof {
        assert(final(data)@.subrange(off as int, off + s) =~= target);
    }
}

/// `(i * nc + j) * s + s` stays within a store of `n` values of `nc`
/// components of `s` bytes.
proof fn lemma_cell_offset_bound(i: int, j: int, n: int, nc: int, s: int)
    by (nonlinear_arith)
    requires
        0 <= i < n,
        0 <= j < nc,
        0 < s,
    ensures
        0 <= (i * nc + j) * s,
        (i * nc + j) * s + s <= n * nc * s,
{
}

/// Byte positions of distinct values never overlap.
proof fn lemma_cell_disjoint(i: int, j: int, b: int, idx: int, nc: int, s: int)
    by (nonlinear_arith)
    requires
        0 <= i,
        0 <= j < nc,
        0 <= b < s,
        0 <= idx,
        i != idx,
        0 < s,
    ensures
        (i * nc + j) * s + b < idx * (nc * s) || (i * nc + j) * s + b >= idx * (nc * s) + nc * s,
{
}

/// Offsets used when reading value `idx`: the flat byte offset of its
/// component `j`, and that it stays within the store.
proof fn lemma_get_offsets(idx: int, j: int, n: int, nc: int, s: int)
    by (nonlinear_arith)
    requires
        0 <= idx < n,
        0 <= j < nc,
        0 < s,
    ensures
        0 <= nc * s <= n * nc * s,
        0 <= idx * (nc * s),
        idx * (nc * s) + j * s == (idx * nc + j) * s,
        (idx * nc + j) * s + s <= n * nc * s,
{
}

/// A contiguous, immutable store of `len` values, each a tuple of
/// `num_components` scalars of `component_type`, packed little-endian.
pub struct AttributeBuffer {
    data: Vec<u8>,
    component_type: ComponentDataType,
    num_components: usize,
    num_values: usize,
}

/// The logical content of a byte store: value `i`, component `j` is the
/// little-endian scalar at byte offset `(i * nc + j) * s`.
pub open spec fn stored_values(data: Seq<u8>, nc: nat, s: nat, n: nat) -> Seq<Seq<u64>> {
    Seq::new(
        n,
        |i: int|
            Seq::new(
                nc,
                |j: int| from_le(data.subrange((i * nc + j) * s, (i * nc + j) * s + s)) as u64,
            ),
    )
}

/// The element-wise views of a sequence of vectors.
pub open spec fn views_of(data: Seq<Vec<u64>>) -> Seq<Seq<u64>> {
    Seq::new(data.len(), |i: int| data[i]@)
}

impl AttributeBuffer {
    pub closed spec fn wf(&self) -> bool {
        &&& self.num_components >= 1
        &&& self.data@.len() == self.num_values * self.num_components
            * self.component_type.spec_size()
    }

    pub closed spec fn spec_len(&self) -> nat {
        self.num_values as nat
    }

    pub closed spec fn spec_component_type(&self) -> ComponentDataType {
        self.component_type
    }

    pub closed spec fn spec_num_components(&self) -> nat {
        self.num_components as nat
    }

    /// The logical sequence of values held by the buffer.
    pub closed spec fn values(&self) -> Seq<Seq<u64>> {
        stored_values(
            self.data@,
            self.num_components as nat,
            self.component_type.spec_size(),
            self.num_values as nat,
        )
    }

    /// Every value of a well-formed buffer has exactly `num_components`
    /// components, each representable in the scalar's byte size.
    pub proof fn lemma_values_shape(&self)
        requires
            self.wf(),
        ensures
            self.values().len() == self.spec_len(),
            forall|i: int|
                0 <= i < self.spec_len() ==> (#[trigger] self.values()[i]).len()
                    == self.spec_num_components(),
            forall|i: int, j: int|
                0 <= i < self.spec_len() && 0 <= j < self.spec_num_components() ==> (
                #[trigger] self.values()[i][j] as nat) < pow2(
                    8 * self.spec_component_type().spec_size(),
                ),
    {
        let nc = self.num_components as nat;
        let s = self.component_type.spec_size();
        let n = self.num_values as nat;
        assert forall|i: int, j: int|
            0 <= i < self.spec_len() && 0 <= j < self.spec_num_components() implies (
        #[trigger] self.values()[i][j] as nat) < pow2(8 * s) by {
            lemma_cell_offset_bound(i, j, n as int, nc as int, s as int);
            let sub = self.data@.subrange((i * nc + j) * s, (i * nc + j) * s + s as int);
            lemma_from_le_bound(sub);
            assert(from_le(sub) < pow2(8 * s));
            lemma_pow2_pos(8 * s);
            lemma2_to64();
            lemma2_to64_rest();
            assert(pow2(8 * s) <= pow2(64)) by {
                if 8 * s < 64 {
                    vstd::arithmetic::power2::lemma_pow2_strictly_increases(8 * s, 64);
                }
            }
        }
    }

    /// Builds a buffer from a typed value sequence: `component_type` and
    /// `num_components` are recorded and the values are packed in order.
    pub fn from(data: Vec<Vec<u64>>, component_type: ComponentDataType, num_components: usize) -> (r:
        Self)
        requires
            num_components >= 1,
            forall|i: int| 0 <= i < data@.len() ==> (#[trigger] data@[i])@.len() == num_components,
            forall|i: int, j: int|
                0 <= i < data@.len() && 0 <= j < num_components ==> ((#[trigger] data@[i]@[j]) as nat)
                    < pow2(8 * component_type.spec_size()),
            data@.len() * num_components * component_type.spec_size() <= usize::MAX,
        ensures
            r.wf(),
            r.spec_len() == data@.len(),
            r.spec_component_type() == component_type,
            r.spec_num_components() == num_components,
            r.values() == views_of(data@),
    {
        let s = component_type.size();
        let nc = num_components;
        let n = data.len();
        let mut bytes: Vec<u8> = Vec::new();
        let mut i: usize = 0;
        while i < n
            invariant
                i <= n,
                n == data@.len(),
                nc == num_components,
                nc >= 1,
                s as nat == component_type.spec_size(),
                1 <= s <= 8,
                forall|i2: int| 0 <= i2 < n ==> (#[trigger] data@[i2])@.len() == nc,
                forall|i2: int, j2: int|
                    0 <= i2 < n && 0 <= j2 < nc ==> ((#[trigger] data@[i2]@[j2]) as nat) < pow2(
                        8 * s as nat,
                    ),
                n * nc * s <= usize::MAX,
                bytes@.len() == (i * nc) * s,
                forall|i2: int, j2: int|
                    0 <= i2 < i && 0 <= j2 < nc ==> bytes@.subrange(
                        (i2 * nc + j2) * s,
                        (i2 * nc + j2) * s + s,
                    ) == le_bytes(data@[i2]@[j2] as nat, s as nat),
            decreases n - i,
        {
            let mut j: usize = 0;
            while j < nc
                invariant
                    i < n,
                    j <= nc,
                    n == data@.len(),
                    nc == num_components,
                    nc >= 1,
                    s as nat == component_type.spec_size(),
                    1 <= s <= 8,
                    forall|i2: int| 0 <= i2 < n ==> (#[trigger] data@[i2])@.len() == nc,
                    forall|i2: int, j2: int|
                        0 <= i2 < n && 0 <= j2 < nc ==> ((#[trigger] data@[i2]@[j2]) as nat) < pow2(
                            8 * s as nat,
                        ),
                    n * nc * s <= usize::MAX,
                    bytes@.len() == (i * nc + j) * s,
                    forall|i2: int, j2: int|
                        0 <= i2 && 0 <= j2 < nc && (i2 < i || (i2 == i && j2 < j)) ==> bytes@
                            .subrange(
                            (i2 * nc + j2) * s,
                            (i2 * nc + j2) * s + s,
                        ) == le_bytes(data@[i2]@[j2] as nat, s as nat),
                decreases nc - j,
            {
                proof {
                    lemma_cell_offset_bound(i as int, j as int, n as int, nc as int, s as int);
                }
                let ghost before = bytes@;
                push_scalar(&mut bytes, data[i][j], s);
                proof {
                    let off = (i as int * nc + j) * s;
                    let tail = le_bytes(data@[i as int]@[j as int] as nat, s as nat);
                    assert(tail.len() == s);
                    assert(bytes@.subrange(off, off + s) =~= tail);
                    assert forall|i2: int, j2: int|
                        0 <= i2 && 0 <= j2 < nc && (i2 < i || (i2 == i && j2 < j + 1)) implies bytes@
                        .subrange(
                        (i2 * nc + j2) * s,
                        (i2 * nc + j2) * s + s,
                    ) == le_bytes(data@[i2]@[j2] as nat, s as nat) by {
                        if i2 < i || (i2 == i && j2 < j) {
                            lemma_prefix_cell(i2, j2, i as int, j as int, nc as int, s as int);
                            assert(bytes@.subrange(
                                (i2 * nc + j2) * s,
                                (i2 * nc + j2) * s + s,
                            ) =~= before.subrange(
                                (i2 * nc + j2) * s,
                                (i2 * nc + j2) * s + s,
                            ));
                        }
                    }
                    assert((i as int * nc + j) * s + s == (i as int * nc + (j + 1)) * s)
                        by (nonlinear_arith);
                }
                j = j + 1;
            }
            proof {
                assert((i as int * nc + nc) * s == ((i + 1) * nc) * s) by (nonlinear_arith);
            }
            i = i + 1;
        }
        let r = AttributeBuffer { data: bytes, component_type, num_components, num_values: n };
        proof {
            assert((n as int * nc) * s == n * nc * s) by (nonlinear_arith);
            assert(r.wf());
            assert forall|i2: int| 0 <= i2 < n implies r.values()[i2] =~= views_of(data@)[i2] by {
                assert forall|j2: int| 0 <= j2 < nc implies r.values()[i2][j2] == data@[i2]@[j2] by {
                    let p = data@[i2]@[j2] as nat;
                    lemma_from_le_le_bytes(p, s as nat);
                }
            }
            assert(r.values() =~~= views_of(data@));
        }
        r
    }

    /// The number of values in the buffer.
    pub fn len(&self) -> (r: usize)
        ensures
            r as nat == self.spec_len(),
    {
        self.num_values
    }

    pub fn get_component_type(&self) -> (r: ComponentDataType)
        ensures
            r == self.spec_component_type(),
    {
        self.component_type
    }

    pub fn get_num_components(&self) -> (r: usize)
        ensures
            r as nat == self.spec_num_components(),
    {
        self.num_components
    }

    /// The value at index `idx`.
    pub fn get(&self, idx: usize) -> (r: Vec<u64>)
        requires
            self.wf(),
            idx < self.spec_len(),
        ensures
            r@ == self.values()[idx as int],
    {
        let s = self.component_type.size();
        let nc = self.num_components;
        let dlen = self.data.len();
        let ghost n = self.num_values as int;
        proof {
            assert(dlen as nat == self.data@.len());
            lemma_get_offsets(idx as int, 0, n, nc as int, s as int);
        }
        let vs = nc * s;
        let base = idx * vs;
        let mut r: Vec<u64> = Vec::new();
        let mut j: usize = 0;
        while j < nc
            invariant
                j <= nc,
                self.wf(),
                idx < self.spec_len(),
                n == self.num_values as int,
                nc == self.num_components,
                s as nat == self.component_type.spec_size(),
                self.data@.len() <= usize::MAX,
                vs == nc * s,
                base == idx * vs,
                r@.len() == j,
                forall|j2: int| 0 <= j2 < j ==> r@[j2] == self.values()[idx as int][j2],
            decreases nc - j,
        {
            proof {
                lemma_get_offsets(idx as int, j as int, n, nc as int, s as int);
            }
            let c = read_scalar(&self.data, base + j * s, s);
            r.push(c);
            j = j + 1;
        }
        proof {
            assert(r@ =~= self.values()[idx as int]);
        }
        r
    }

    /// Buffer round trip: a buffer built from a typed value sequence hands
    /// every value back bit-identically through `get`.
    pub proof fn lemma_buffer_round_trip(&self, data: Seq<Vec<u64>>, i: int)
        requires
            self.values() == views_of(data),
            0 <= i < data.len(),
        ensures
            self.values()[i] == data[i]@,
    {
    }

    /// Slice view consistency: element `i` of `as_slice` is the value that
    /// `get(i)` returns.
    pub proof fn lemma_slice_view_consistent(&self, slice: Seq<Vec<u64>>, i: int)
        requires
            views_of(slice) == self.values(),
            0 <= i < slice.len(),
        ensures
            slice[i]@ == self.values()[i],
    {
    }

    /// All values of the buffer, in order: element `i` equals `get(i)`.
    pub fn as_slice(&self) -> (r: Vec<Vec<u64>>)
        requires
            self.wf(),
        ensures
            views_of(r@) == self.values(),
            r@.len() == self.spec_len(),
    {
        let n = self.num_values;
        let mut r: Vec<Vec<u64>> = Vec::new();
        let mut i: usize = 0;
        while i < n
            invariant
                i <= n,
                self.wf(),
                n as nat == self.spec_len(),
                r@.len() == i,
                forall|i2: int| 0 <= i2 < i ==> (#[trigger] r@[i2])@ == self.values()[i2],
            decreases n - i,
        {
            let v = self.get(i);
            r.push(v);
            i = i + 1;
        }
        proof {
            assert(views_of(r@) =~~= self.values());
        }
        r
    }
}

/// `2^k` as an executable 64-bit value.
fn pow2_u64(k: usize) -> (r: u64)
    requires
        k <= 63,
    ensures
        r as nat == pow2(k as nat),
{
    proof {
        lemma2_to64();
    }
    let mut r: u64 = 1;
    let mut i: usize = 0;
    while i < k
        invariant
            i <= k <= 63,
            r as nat == pow2(i as nat),
        decreases k - i,
    {
        proof {
            lemma2_to64();
            lemma2_to64_rest();
            vstd::arithmetic::power2::lemma_pow2_unfold((i + 1) as nat);
            if i + 1 < 63 {
                vstd::arithmetic::power2::lemma_pow2_strictly_increases((i + 1) as nat, 63);
            }
            assert(pow2((i + 1) as nat) <= 0x8000000000000000);
        }
        r = r * 2;
        i = i + 1;
    }
    r
}

/// Whether every component of `value` is representable in an `s`-byte
/// scalar.
fn all_components_fit(value: &Vec<u64>, s: usize) -> (r: bool)
    requires
        1 <= s <= 8,
    ensures
        r <==> (forall|j: int|
            0 <= j < value@.len() ==> ((#[trigger] value@[j]) as nat) < pow2(8 * s as nat)),
{
    if s >= 8 {
        proof {
            lemma2_to64();
            lemma2_to64_rest();
        }
        return true;
    }
    let limit = pow2_u64(8 * s);
    let n = value.len();
    let mut j: usize = 0;
    while j < n
        invariant
            j <= n,
            n == value@.len(),
            s <= 8,
            limit as nat == pow2(8 * s as nat),
            forall|j2: int| 0 <= j2 < j ==> ((#[trigger] value@[j2]) as nat) < pow2(8 * s as nat),
        decreases n - j,
    {
        if value[j] >= limit {
            proof {
                assert(((value@[j as int]) as nat) >= pow2(8 * s as nat));
            }
            return false;
        }
        j = j + 1;
    }
    true
}

/// The outcome of a checked write of `value` at index `idx` into a store of
/// `n` values of `nc` components of `s` bytes: the arity must match, each
/// component must be representable in the scalar size, and the index must be
/// in bounds.
pub open spec fn write_outcome(nc: nat, s: nat, n: nat, idx: int, value: Seq<u64>) -> Result<
    (),
    AttributeError,
> {
    if value.len() != nc {
        Err(AttributeError::WrongArity)
    } else if exists|j: int| 0 <= j < value.len() && (value[j] as nat) >= pow2(8 * s) {
        Err(AttributeError::WrongComponentType)
    } else if idx >= n {
        Err(AttributeError::OutOfBounds)
    } else {
        Ok(())
    }
}

/// A buffer whose capacity and type tags are fixed at construction but whose
/// cells are written one by one by a decoder; which cells have been written
/// is tracked so that promotion can refuse an incomplete fill.
pub struct MaybeInitAttributeBuffer {
    data: Vec<u8>,
    component_type: ComponentDataType,
    num_components: usize,
    num_values: usize,
    written: Vec<bool>,
}

impl MaybeInitAttributeBuffer {
    pub closed spec fn wf(&self) -> bool {
        &&& self.num_components >= 1
        &&& self.data@.len() == self.num_values * self.num_components
            * self.component_type.spec_size()
        &&& self.written@.len() == self.num_values
    }

    pub closed spec fn spec_len(&self) -> nat {
        self.num_values as nat
    }

    pub closed spec fn spec_component_type(&self) -> ComponentDataType {
        self.component_type
    }

    pub closed spec fn spec_num_components(&self) -> nat {
        self.num_components as nat
    }

    /// Which cells have been written so far.
    pub closed spec fn written(&self) -> Seq<bool> {
        self.written@
    }

    /// The logical content of the store; cells that were never written hold
    /// an unspecified value that callers must not rely on.
    pub closed spec fn values(&self) -> Seq<Seq<u64>> {
        stored_values(
            self.data@,
            self.num_components as nat,
            self.component_type.spec_size(),
            self.num_values as nat,
        )
    }

    /// Allocates a store for `len` values with the given tags; no cell is
    /// written yet.
    pub fn new(len: usize, component_type: ComponentDataType, num_components: usize) -> (r: Self)
        requires
            num_components >= 1,
            len * num_components * component_type.spec_size() <= usize::MAX,
        ensures
            r.wf(),
            r.spec_len() == len,
            r.spec_component_type() == component_type,
            r.spec_num_components() == num_components,
            forall|i: int| 0 <= i < len ==> !r.written()[i],
    {
        let s = component_type.size();
        proof {
            assert(len * num_components <= len * num_components * s && len * num_components * s
                == (len * num_components) * s) by (nonlinear_arith)
                requires
                    s >= 1,
                    len >= 0,
                    num_components >= 0,
            ;
        }
        let total = len * num_components * s;
        let mut data: Vec<u8> = Vec::new();
        let mut t: usize = 0;
        while t < total
            invariant
                t <= total,
                data@.len() == t,
            decreases total - t,
        {
            data.push(0);
            t = t + 1;
        }
        let mut written: Vec<bool> = Vec::new();
        let mut w: usize = 0;
        while w < len
            invariant
                w <= len,
                written@.len() == w,
                forall|i: int| 0 <= i < w ==> !written@[i],
            decreases len - w,
        {
            written.push(false);
            w = w + 1;
        }
        MaybeInitAttributeBuffer {
            data,
            component_type,
            num_components,
            num_values: len,
            written,
        }
    }

    pub fn get_component_type(&self) -> (r: ComponentDataType)
        ensures
            r == self.spec_component_type(),
    {
        self.component_type
    }

    pub fn get_num_components(&self) -> (r: usize)
        ensures
            r as nat == self.spec_num_components(),
    {
        self.num_components
    }

    pub fn len(&self) -> (r: usize)
        ensures
            r as nat == self.spec_len(),
    {
        self.num_values
    }

    /// Checked write: cell `idx` takes `value` and is marked written; a
    /// wrong arity, an unrepresentable component or an out-of-range index is
    /// reported and leaves the store unchanged.
    pub fn write(&mut self, idx: usize, value: &Vec<u64>) -> (r: Result<(), AttributeError>)
        requires
            old(self).wf(),
        ensures
            r == write_outcome(
                old(self).spec_num_components(),
                old(self).spec_component_type().spec_size(),
                old(self).spec_len(),
                idx as int,
                value@,
            ),
            r is Err ==> *final(self) == *old(self),
            r is Ok ==> final(self).wf() && final(self).spec_len() == old(self).spec_len()
                && final(self).spec_component_type() == old(self).spec_component_type()
                && final(self).spec_num_components() == old(self).spec_num_components()
                && final(self).values() == old(self).values().update(idx as int, value@)
                && final(self).written() == old(self).written().update(idx as int, true),
    {
        let nc = self.num_components;
        let s = self.component_type.size();
        let ghost ssize = self.component_type.spec_size();
        if value.len() != nc {
            return Err(AttributeError::WrongArity);
        }
        if !all_components_fit(value, s) {
            return Err(AttributeError::WrongComponentType);
        }
        if idx >= self.num_values {
            return Err(AttributeError::OutOfBounds);
        }
        let ghost n = self.num_values as int;
        let ghost old_data = self.data@;
        let dlen = self.data.len();
        proof {
            assert(dlen as nat == self.data@.len());
            lemma_get_offsets(idx as int, 0, n, nc as int, s as int);
        }
        let base = idx * (nc * s);
        let mut j: usize = 0;
        while j < nc
            invariant
                j <= nc,
                idx < n,
                n == self.num_values as int,
                nc == self.num_components,
                s as nat == ssize,
                ssize == self.component_type.spec_size(),
                1 <= s <= 8,
                value@.len() == nc,
                forall|j2: int| 0 <= j2 < nc ==> ((#[trigger] value@[j2]) as nat) < pow2(8 * ssize),
                self.wf(),
                self.num_values == old(self).num_values,
                self.component_type == old(self).component_type,
                self.num_components == old(self).num_components,
                self.written == old(self).written,
                self.data@.len() == old_data.len(),
                old_data == old(self).data@,
                self.data@.len() == dlen <= usize::MAX,
                base == idx * (nc * s),
                forall|j2: int|
                    0 <= j2 < j ==> self.data@.subrange(
                        (idx as int * nc + j2) * s,
                        (idx as int * nc + j2) * s + s,
                    ) == le_bytes(value@[j2] as nat, s as nat),
                forall|b: int|
                    0 <= b < old_data.len() && !(base <= b < base + j * s) ==> self.data@[b]
                        == old_data[b],
            decreases nc - j,
        {
            proof {
                lemma_get_offsets(idx as int, j as int, n, nc as int, s as int);
            }
            let ghost before = self.data@;
            write_scalar(&mut self.data, base + j * s, value[j], s);
            proof {
                assert forall|j2: int|
                    0 <= j2 < j + 1 implies self.data@.subrange(
                    (idx as int * nc + j2) * s,
                    (idx as int * nc + j2) * s + s,
                ) == le_bytes(value@[j2] as nat, s as nat) by {
                    lemma_get_offsets(idx as int, j2, n, nc as int, s as int);
                    if j2 < j {
                        assert((idx as int * nc + j2) * s + s <= base + j * s) by (nonlinear_arith)
                            requires
                                base == idx as int * (nc as int * s as int),
                                (idx as int * (nc as int * s as int)) + j2 * s == (idx as int * nc
                                    + j2) * s,
                                0 <= j2 < j,
                                s >= 1,
                        ;
                        assert(self.data@.subrange(
                            (idx as int * nc + j2) * s,
                            (idx as int * nc + j2) * s + s,
                        ) =~= before.subrange(
                            (idx as int * nc + j2) * s,
                            (idx as int * nc + j2) * s + s,
                        ));
                    } else {
                        assert(self.data@.subrange(
                            (idx as int * nc + j2) * s,
                            (idx as int * nc + j2) * s + s,
                        ) =~= le_bytes(value@[j2] as nat, s as nat));
                    }
                }
                assert((j + 1) * s == j * s + s) by (nonlinear_arith);
                assert forall|b: int|
                    0 <= b < old_data.len() && !(base <= b < base + (j + 1) * s) implies self.data@[b]
                    == old_data[b] by {
                    assert(!(base + j * s <= b < base + j * s + s));
                }
            }
            j = j + 1;
        }
        self.written.set(idx, true);
        proof {
            let sv_new = self.values();
            let sv_old = old(self).values();
            assert forall|i: int| 0 <= i < n && i != idx implies sv_new[i] =~= sv_old[i] by {
                assert forall|j2: int| 0 <= j2 < nc implies sv_new[i][j2] == sv_old[i][j2] by {
                    lemma_get_offsets(i, j2, if i < n { n } else { i + 1 }, nc as int, s as int);
                    assert(self.data@.subrange(
                        (i * nc + j2) * s,
                        (i * nc + j2) * s + s,
                    ) =~= old_data.subrange((i * nc + j2) * s, (i * nc + j2) * s + s)) by {
                        assert forall|b: int|
                            (i * nc + j2) * s <= b < (i * nc + j2) * s + s implies self.data@[b]
                            == old_data[b] by {
                            lemma_cell_disjoint(
                                i,
                                j2,
                                b - (i * nc + j2) * s,
                                idx as int,
                                nc as int,
                                s as int,
                            );
                        }
                    }
                }
            }
            assert forall|j2: int| 0 <= j2 < nc implies sv_new[idx as int][j2] == value@[j2] by {
                lemma_from_le_le_bytes(value@[j2] as nat, s as nat);
            }
            assert(sv_new[idx as int] =~= value@);
            assert(sv_new =~~= sv_old.update(idx as int, value@));
            assert(final(self).written() =~= old(self).written().update(idx as int, true));
        }
        Ok(())
    }

    /// Promotes the store to an immutable buffer; fails if any cell was
    /// never written.
    pub fn into_initialized(self) -> (r: Result<AttributeBuffer, AttributeError>)
        requires
            self.wf(),
        ensures
            (exists|i: int| 0 <= i < self.spec_len() && !self.written()[i]) <==> r is Err,
            r is Err ==> r == Err::<AttributeBuffer, AttributeError>(
                AttributeError::UninitializedCell,
            ),
            r matches Ok(b) ==> b.wf() && b.spec_len() == self.spec_len()
                && b.spec_component_type() == self.spec_component_type()
                && b.spec_num_components() == self.spec_num_components() && b.values()
                == self.values(),
    {
        let mut i: usize = 0;
        let n = self.num_values;
        while i < n
            invariant
                i <= n,
                self.wf(),
                n == self.num_values,
                forall|i2: int| 0 <= i2 < i ==> self.written()[i2],
            decreases n - i,
        {
            if !self.written[i] {
                proof {
                    assert(0 <= i < self.spec_len() && !self.written()[i as int]);
                }
                return Err(AttributeError::UninitializedCell);
            }
            i = i + 1;
        }
        let MaybeInitAttributeBuffer { data, component_type, num_components, num_values, written: _ } =
            self;
        Ok(AttributeBuffer { data, component_type, num_components, num_values })
    }
}

/// A cell strictly before `(i, j)` in row-major order ends no later than
/// the byte offset of `(i, j)`.
proof fn lemma_prefix_cell(i2: int, j2: int, i: int, j: int, nc: int, s: int)
    by (nonlinear_arith)
    requires
        0 <= i2,
        0 <= j2 < nc,
        0 <= j,
        0 < s,
        i2 < i || (i2 == i && j2 < j),
    ensures
        0 <= (i2 * nc + j2) * s,
        (i2 * nc + j2) * s + s <= (i * nc + j) * s,
{
}

} // verus!

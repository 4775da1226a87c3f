//! Coordinates packed into one `i64`: the x coordinate in the high 32 bits,
//! the y coordinate (as its two's-complement bit pattern) in the low 32 bits.
use vstd::prelude::*;

verus! {

/// A coordinate pair.
pub type Pair = (i32, i32);

/// A screen position or size, in pixels.
pub type P16 = (u16, u16);

/// A coordinate pair packed into one integer.
pub type PPair = i64;

/// The packed form of `(a, b)`.
pub open spec fn pack_spec(a: i32, b: i32) -> i64 {
    ((a as i64) << 32u64) | ((b as u32) as i64)
}

/// The x coordinate held in a packed pair.
pub open spec fn hi_spec(p: i64) -> i32 {
    (p >> 32u64) as i32
}

/// The y coordinate held in a packed pair.
pub open spec fn lo_spec(p: i64) -> i32 {
    ((p & 0xffff_ffffi64) as u32) as i32
}

/// The pair held in a packed pair.
pub open spec fn unpack_spec(p: i64) -> Pair {
    (hi_spec(p), lo_spec(p))
}

/// Unpacking a packed pair gives back its two coordinates.
pub proof fn lemma_unpack_pack(a: i32, b: i32)
    ensures
        unpack_spec(pack_spec(a, b)) == (a, b),
{
    assert(((((a as i64) << 32u64) | ((b as u32) as i64)) >> 32u64) as i32 == a) by (bit_vector);
    assert(((((((a as i64) << 32u64) | ((b as u32) as i64)) & 0xffff_ffffi64) as u32) as i32) == b)
        by (bit_vector);
}

/// Packing the coordinates of a packed pair gives back the same integer.
pub proof fn lemma_pack_unpack(p: i64)
    ensures
        pack_spec(hi_spec(p), lo_spec(p)) == p,
{
    assert(((((p >> 32u64) as i32) as i64) << 32u64) | ((((p & 0xffff_ffffi64) as u32) as i32) as u32) as i64
        == p) by (bit_vector);
}

/// Packs two coordinates into one integer.
pub fn pack(a: i32, b: i32) -> (r: PPair)
    ensures
        r == pack_spec(a, b),
        unpack_spec(r) == (a, b),
{
    proof {
        lemma_unpack_pack(a, b);
    }
    ((a as i64) << 32u64) | ((b as u32) as i64)
}

/// Splits a packed pair into its two coordinates.
pub fn unpack(p: PPair) -> (r: Pair)
    ensures
        r == unpack_spec(p),
        pack_spec(r.0, r.1) == p,
{
    proof {
        lemma_pack_unpack(p);
    }
    ((p >> 32u64) as i32, ((p & 0xffff_ffffi64) as u32) as i32)
}


/// Adds two coordinates with 32-bit wrap-around.
pub open spec fn wrap_add(a: i32, b: i32) -> i32 {
    vstd::wrapping::i32_specs::wrapping_add(a, b)
}

/// The packed pair whose coordinates are those of `p` and `q` added, each with
/// 32-bit wrap-around.
pub open spec fn add_spec(p: i64, q: i64) -> i64 {
    pack_spec(wrap_add(hi_spec(p), hi_spec(q)), wrap_add(lo_spec(p), lo_spec(q)))
}

proof fn lemma_low_word_add(p: i64, q: i64)
    ensures
        (vstd::wrapping::u32_specs::wrapping_add(p as u32, q as u32)) as i32
            == wrap_add(lo_spec(p), lo_spec(q)),
{
    assert((vstd::wrapping::u32_specs::wrapping_add(p as u32, q as u32)) as i32
        == vstd::wrapping::i32_specs::wrapping_add(((p & 0xffff_ffffi64) as u32) as i32, ((q & 0xffff_ffffi64) as u32) as i32))
        by (bit_vector);
}

/// Adds two packed pairs coordinate by coordinate, each with 32-bit wrap-around.
pub fn add(p: PPair, other: PPair) -> (r: PPair)
    ensures
        r == add_spec(p, other),
        unpack_spec(r) == (wrap_add(hi_spec(p), hi_spec(other)), wrap_add(lo_spec(p), lo_spec(other))),
{
    let hi = ((p >> 32u64) as i32).wrapping_add((other >> 32u64) as i32);
    let lo = ((p as u32).wrapping_add(other as u32)) as i32;
    proof {
        lemma_low_word_add(p, other);
    }
    pack(hi, lo)
}


/// Adding packed pairs is commutative and associative, and the packed origin
/// adds nothing.
pub proof fn lemma_add_laws(p: i64, q: i64, r: i64)
    ensures
        add_spec(p, q) == add_spec(q, p),
        add_spec(add_spec(p, q), r) == add_spec(p, add_spec(q, r)),
        add_spec(p, pack_spec(0, 0)) == p,
{
    let pq = add_spec(p, q);
    let qr = add_spec(q, r);
    lemma_unpack_pack(wrap_add(hi_spec(p), hi_spec(q)), wrap_add(lo_spec(p), lo_spec(q)));
    lemma_unpack_pack(wrap_add(hi_spec(q), hi_spec(r)), wrap_add(lo_spec(q), lo_spec(r)));
    lemma_unpack_pack(0, 0);
    lemma_pack_unpack(p);
    assert(hi_spec(pq) == wrap_add(hi_spec(p), hi_spec(q)));
    assert(hi_spec(qr) == wrap_add(hi_spec(q), hi_spec(r)));
    lemma_wrap_add_assoc(hi_spec(p), hi_spec(q), hi_spec(r));
    lemma_wrap_add_assoc(lo_spec(p), lo_spec(q), lo_spec(r));
}

proof fn lemma_wrap_add_assoc(a: i32, b: i32, c: i32)
    ensures
        wrap_add(wrap_add(a, b), c) == wrap_add(a, wrap_add(b, c)),
        wrap_add(a, b) == wrap_add(b, a),
        wrap_add(a, 0) == a,
{
}

/// Adds `other` to the pair in place, each coordinate with 32-bit wrap-around.
pub fn addself(p: &mut PPair, other: &PPair)
    ensures
        *final(p) == add_spec(*old(p), *other),
{
    *p = self::add(*p, *other);
}

/// Packs a coordinate pair.
pub fn topack(p: &Pair) -> (r: PPair)
    ensures
        r == pack_spec(p.0, p.1),
        unpack_spec(r) == *p,
{
    pack(p.0, p.1)
}

/// x step of the `k`-th of the eight surrounding cells.
pub open spec fn around_dx(k: int) -> i32 {
    if k == 0 || k == 3 || k == 5 {
        -1i32
    } else if k == 1 || k == 6 {
        0i32
    } else {
        1i32
    }
}

/// y step of the `k`-th of the eight surrounding cells.
pub open spec fn around_dy(k: int) -> i32 {
    if k <= 2 {
        -1i32
    } else if k <= 4 {
        0i32
    } else {
        1i32
    }
}

/// The `k`-th (`0 <= k < 8`) of the eight cells that surround `c`.
pub open spec fn neighbor(c: i64, k: int) -> i64 {
    add_spec(c, pack_spec(around_dx(k), around_dy(k)))
}

/// The `j`-th (`0 <= j < 9`) cell of the 3x3 block centred on `c`, row by row;
/// the centre is `j == 4`.
pub open spec fn block_cell(c: i64, j: int) -> i64 {
    if j < 4 {
        neighbor(c, j)
    } else if j == 4 {
        add_spec(c, 0)
    } else {
        neighbor(c, j - 1)
    }
}

/// The packed steps to the eight surrounding cells, row by row.
pub const NEIGHBOR_OFFSETS_AROUND: [PPair; 8] = [
    -1i64, 4294967295i64, 8589934591i64,
    -4294967296i64, 4294967296i64,
    -4294967295i64, 1i64, 4294967297i64,
];

/// The packed steps to the nine cells of a 3x3 block, row by row.
pub const NEIGHBOR_OFFSETS_ALL: [PPair; 9] = [
    -1i64, 4294967295i64, 8589934591i64,
    -4294967296i64, 0i64, 4294967296i64,
    -4294967295i64, 1i64, 4294967297i64,
];

proof fn lemma_offset_values()
    ensures
        pack_spec(-1i32, -1i32) == -1i64,
        pack_spec(0i32, -1i32) == 4294967295i64,
        pack_spec(1i32, -1i32) == 8589934591i64,
        pack_spec(-1i32, 0i32) == -4294967296i64,
        pack_spec(0, 0) == 0i64,
        pack_spec(1, 0) == 4294967296i64,
        pack_spec(-1i32, 1i32) == -4294967295i64,
        pack_spec(0, 1) == 1i64,
        pack_spec(1, 1) == 4294967297i64,
{
    assert(((-1i32 as i64) << 32u64) | (((-1i32) as u32) as i64) == -1i64) by (bit_vector);
    assert(((0i32 as i64) << 32u64) | (((-1i32) as u32) as i64) == 4294967295i64) by (bit_vector);
    assert(((1i32 as i64) << 32u64) | (((-1i32) as u32) as i64) == 8589934591i64) by (bit_vector);
    assert(((-1i32 as i64) << 32u64) | (((0i32) as u32) as i64) == -4294967296i64) by (bit_vector);
    assert(((0i32 as i64) << 32u64) | (((0i32) as u32) as i64) == 0i64) by (bit_vector);
    assert(((1i32 as i64) << 32u64) | (((0i32) as u32) as i64) == 4294967296i64) by (bit_vector);
    assert(((-1i32 as i64) << 32u64) | (((1i32) as u32) as i64) == -4294967295i64) by (bit_vector);
    assert(((0i32 as i64) << 32u64) | (((1i32) as u32) as i64) == 1i64) by (bit_vector);
    assert(((1i32 as i64) << 32u64) | (((1i32) as u32) as i64) == 4294967297i64) by (bit_vector);
}

/// The eight cells that surround `p`, in the order of `NEIGHBOR_OFFSETS_AROUND`.
pub fn around(p: PPair) -> (r: [PPair; 8])
    ensures
        forall|k: int| 0 <= k < 8 ==> #[trigger] r@[k] == neighbor(p, k),
{
    proof {
        lemma_offset_values();
    }
    let mut r: [PPair; 8] = [0i64; 8];
    let mut k: usize = 0;
    while k < 8
        invariant
            k <= 8,
            forall|j: int| 0 <= j < k ==> #[trigger] r@[j] == neighbor(p, j),
            pack_spec(-1i32, -1i32) == -1i64,
            pack_spec(0i32, -1i32) == 4294967295i64,
            pack_spec(1i32, -1i32) == 8589934591i64,
            pack_spec(-1i32, 0i32) == -4294967296i64,
            pack_spec(1, 0) == 4294967296i64,
            pack_spec(-1i32, 1i32) == -4294967295i64,
            pack_spec(0, 1) == 1i64,
            pack_spec(1, 1) == 4294967297i64,
        decreases 8 - k,
    {
        r[k] = self::add(p, NEIGHBOR_OFFSETS_AROUND[k]);
        k = k + 1;
    }
    r
}

/// The nine cells of the 3x3 block centred on `p`, in the order of
/// `NEIGHBOR_OFFSETS_ALL`.
pub fn allaround(p: PPair) -> (r: [PPair; 9])
    ensures
        forall|j: int| 0 <= j < 9 ==> #[trigger] r@[j] == block_cell(p, j),
{
    proof {
        lemma_offset_values();
    }
    let mut r: [PPair; 9] = [0i64; 9];
    let mut k: usize = 0;
    while k < 9
        invariant
            k <= 9,
            forall|j: int| 0 <= j < k ==> #[trigger] r@[j] == block_cell(p, j),
            pack_spec(-1i32, -1i32) == -1i64,
            pack_spec(0i32, -1i32) == 4294967295i64,
            pack_spec(1i32, -1i32) == 8589934591i64,
            pack_spec(-1i32, 0i32) == -4294967296i64,
            pack_spec(0, 0) == 0i64,
            pack_spec(1, 0) == 4294967296i64,
            pack_spec(-1i32, 1i32) == -4294967295i64,
            pack_spec(0, 1) == 1i64,
            pack_spec(1, 1) == 4294967297i64,
        decreases 9 - k,
    {
        r[k] = self::add(p, NEIGHBOR_OFFSETS_ALL[k]);
        k = k + 1;
    }
    r
}

} // verus!

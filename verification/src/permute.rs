//! The seed-parameterized index permutation: specification, executable
//! contract vocabulary, and the proofs that it is a bijection on
//! `[0, length)`.
//!
//! The mixing function is a bijection of the masked domain `[0, w]`
//! (`w` all ones): every step either xors in a constant, multiplies by
//! an odd constant (invertible modulo a power of two), or xors a value
//! with a right shift of its own masked bits. The cycle walk therefore
//! revisits its starting point, which makes the rejection loop
//! terminate, keeps distinct starting indices on distinct hits, and
//! makes the whole permutation bijective.

use vstd::prelude::*;
use vstd::wrapping::u32_specs;
use vstd::set_lib::lemma_len_subset;
use vstd::set_lib::lemma_int_range;
use vstd::set_lib::set_int_range;
use vstd::arithmetic::div_mod::lemma_mod_equivalence;
use vstd::arithmetic::div_mod::lemma_small_mod;

verus! {

/// The one error of the permutation: a zero length admits no index and
/// the final reduction would divide by zero.
#[derive(Clone, Copy, Debug, PartialEq, Eq, Structural)]
pub enum ShuffleError {
    InvalidLength,
}

/// The all-ones mask `w`: one less than the smallest power of two that
/// is at least `length`, computed by saturating every bit below the
/// highest set bit of `length - 1`.
pub open spec fn mask_w(length: u32) -> u32
    recommends
        length >= 1,
{
    let w0 = (length - 1) as u32;
    let w1 = w0 | (w0 >> 1);
    let w2 = w1 | (w1 >> 2);
    let w3 = w2 | (w2 >> 4);
    let w4 = w3 | (w3 >> 8);
    w4 | (w4 >> 16)
}

/// The first sixteen mixing steps: seed xors, wrapping multiplications
/// by odd constants, and masked xor-shifts, on the full 32-bit value.
pub open spec fn mix_pre(x: u32, w: u32, seed: u32) -> u32 {
    let i1 = x ^ seed;
    let i2 = u32_specs::wrapping_mul(i1, 0xe170893d);
    let i3 = i2 ^ (seed >> 16);
    let i4 = i3 ^ ((i3 & w) >> 4);
    let i5 = i4 ^ (seed >> 8);
    let i6 = u32_specs::wrapping_mul(i5, 0x0929eb3f);
    let i7 = i6 ^ (seed >> 23);
    let i8 = i7 ^ ((i7 & w) >> 1);
    let i9 = u32_specs::wrapping_mul(i8, 1 | (seed >> 27));
    let i10 = u32_specs::wrapping_mul(i9, 0x6935fa69);
    let i11 = i10 ^ ((i10 & w) >> 11);
    let i12 = u32_specs::wrapping_mul(i11, 0x74dcb303);
    let i13 = i12 ^ ((i12 & w) >> 2);
    let i14 = u32_specs::wrapping_mul(i13, 0x9e501cc3);
    let i15 = i14 ^ ((i14 & w) >> 2);
    u32_specs::wrapping_mul(i15, 0xc860a3df)
}

/// One full pass of the mixing function: the sixteen steps above, a
/// reduction into `[0, w]`, and a final xor-shift that stays there.
pub open spec fn mix_round(x: u32, w: u32, seed: u32) -> u32 {
    let t = mix_pre(x, w, seed) & w;
    t ^ (t >> 5)
}

/// The value reached after `n` passes of the mixing function, starting
/// from `i`.
pub open spec fn walk(i: u32, w: u32, seed: u32, n: nat) -> u32
    decreases n,
{
    if n == 0 {
        i
    } else {
        mix_round(walk(i, w, seed, (n - 1) as nat), w, seed)
    }
}

/// The mask is at least `length - 1`, so every index below `length`
/// lies inside the masked domain.
proof fn lemma_mask_low(length: u32)
    by (bit_vector)
    requires
        length >= 1,
    ensures
        mask_w(length) + 1 >= length,
{
}

/// A value bounded by the all-ones mask is unchanged by it.
proof fn lemma_in_mask(x: u32, length: u32)
    by (bit_vector)
    requires
        length >= 1,
        x <= mask_w(length),
    ensures
        x & mask_w(length) == x,
{
}

/// Xoring a common value preserves distinctness of the masked bits.
proof fn lemma_step_xor(x: u32, y: u32, c: u32, w: u32)
    by (bit_vector)
    requires
        x & w != y & w,
    ensures
        (x ^ c) & w != (y ^ c) & w,
{
}

/// A 32-bit wrapping multiplication is the truncating product.
proof fn lemma_wrapping_mul_is_mul(x: u32, y: u32)
    by (bit_vector)
    ensures
        u32_specs::wrapping_mul(x, y) == vstd::prelude::mul(x, y),
{
}

/// Multiplication distributes over the difference, under truncation.
#[verifier::spinoff_prover]
proof fn lemma_mul_sub(x: u32, y: u32, c: u32)
    by (bit_vector)
    ensures
        vstd::prelude::sub(vstd::prelude::mul(x, c), vstd::prelude::mul(y, c))
            == vstd::prelude::mul(vstd::prelude::sub(x, y), c),
{
}

/// Two values agree on the masked bits exactly when their difference
/// is zero there, for an all-ones mask.
#[verifier::spinoff_prover]
proof fn lemma_masked_eq_is_sub(a: u32, b: u32, w: u32, length: u32)
    by (bit_vector)
    requires
        length >= 1,
        w == mask_w(length),
    ensures
        (a & w == b & w) <==> (vstd::prelude::sub(a, b) & w == 0),
{
}

/// An odd factor keeps the lowest set bit of a product in place, so a
/// product that vanishes under the mask came from a value that did.
#[verifier::rlimit(100)]
#[verifier::spinoff_prover]
proof fn lemma_odd_mul_keeps_low_bits(d: u32, c: u32, w: u32, length: u32)
    by (bit_vector)
    requires
        length >= 1,
        w == mask_w(length),
        c & 1 == 1,
        vstd::prelude::mul(d, c) & w == 0,
    ensures
        d & w == 0,
{
}

/// A wrapping multiplication by an odd constant is invertible modulo
/// any power of two, so it preserves distinctness of the masked bits.
proof fn lemma_step_mul(x: u32, y: u32, c: u32, w: u32, length: u32)
    requires
        length >= 1,
        w == mask_w(length),
        c & 1 == 1,
        x & w != y & w,
    ensures
        vstd::prelude::mul(x, c) & w != vstd::prelude::mul(y, c) & w,
{
    lemma_masked_eq_is_sub(x, y, w, length);
    lemma_mul_sub(x, y, c);
    lemma_masked_eq_is_sub(
        vstd::prelude::mul(x, c),
        vstd::prelude::mul(y, c),
        w,
        length,
    );
    if vstd::prelude::mul(x, c) & w == vstd::prelude::mul(y, c) & w {
        lemma_odd_mul_keeps_low_bits(vstd::prelude::sub(x, y), c, w, length);
        assert(false);
    }
}

/// Xoring a right shift of the value's own masked bits is invertible,
/// so it preserves distinctness of the masked bits.
proof fn lemma_step_shift(x: u32, y: u32, s: u32, w: u32, length: u32)
    by (bit_vector)
    requires
        length >= 1,
        w == mask_w(length),
        1 <= s < 32,
        x & w != y & w,
    ensures
        (x ^ ((x & w) >> s)) & w != (y ^ ((y & w) >> s)) & w,
{
}

/// `n` is the first pass (at least one is always taken) whose result
/// lands inside `[0, length)`.
pub open spec fn first_hit(i: u32, length: u32, seed: u32, n: nat) -> bool {
    &&& 1 <= n
    &&& walk(i, mask_w(length), seed, n) < length
    &&& forall|m: nat| 1 <= m < n ==> #[trigger] walk(i, mask_w(length), seed, m) >= length
}

/// The cycle walk from `i` reaches `[0, length)` after finitely many
/// passes.
pub open spec fn permute_terminates(i: u32, length: u32, seed: u32) -> bool {
    exists|n: nat| first_hit(i, length, seed, n)
}

/// The number of passes the cycle walk takes from `i`.
pub open spec fn hit_round(i: u32, length: u32, seed: u32) -> nat {
    choose|n: nat| first_hit(i, length, seed, n)
}

/// The permuted index: the first walk value inside `[0, length)`,
/// rotated by the seed modulo the length (the sum wraps at 32 bits
/// before the reduction).
pub open spec fn permute_spec(i: u32, length: u32, seed: u32) -> u32
    recommends
        length >= 1,
{
    (u32_specs::wrapping_add(walk(i, mask_w(length), seed, hit_round(i, length, seed)), seed)
        % length) as u32
}

/// The closing xor-shift of a pass is injective on the masked domain
/// and stays inside it.
proof fn lemma_step_final(x: u32, y: u32, w: u32, length: u32)
    by (bit_vector)
    requires
        length >= 1,
        w == mask_w(length),
        x & w != y & w,
    ensures
        ((x & w) ^ ((x & w) >> 5)) != ((y & w) ^ ((y & w) >> 5)),
        ((x & w) ^ ((x & w) >> 5)) <= w,
{
}

/// A masked value xored with its own right shift stays under the mask.
proof fn lemma_masked_xorshift_le(t: u32, w: u32, length: u32)
    by (bit_vector)
    requires
        length >= 1,
        w == mask_w(length),
    ensures
        ((t & w) ^ ((t & w) >> 5)) <= w,
{
}

/// The sixteen open mixing steps preserve distinctness of the masked
/// bits.
proof fn lemma_mix_pre_inj(x: u32, y: u32, length: u32, seed: u32)
    requires
        length >= 1,
        x & mask_w(length) != y & mask_w(length),
    ensures
        mix_pre(x, mask_w(length), seed) & mask_w(length)
            != mix_pre(y, mask_w(length), seed) & mask_w(length),
{
    let w = mask_w(length);
    assert(0xe170893du32 & 1 == 1 && 0x0929eb3fu32 & 1 == 1 && 0x6935fa69u32 & 1 == 1
        && 0x74dcb303u32 & 1 == 1 && 0x9e501cc3u32 & 1 == 1 && 0xc860a3dfu32 & 1 == 1
        && (1u32 | (seed >> 27)) & 1 == 1) by (bit_vector);
    let x1 = x ^ seed;
    let y1 = y ^ seed;
    lemma_step_xor(x, y, seed, w);
    let x2 = u32_specs::wrapping_mul(x1, 0xe170893d);
    let y2 = u32_specs::wrapping_mul(y1, 0xe170893d);
    lemma_wrapping_mul_is_mul(x1, 0xe170893d);
    lemma_wrapping_mul_is_mul(y1, 0xe170893d);
    lemma_step_mul(x1, y1, 0xe170893d, w, length);
    let x3 = x2 ^ (seed >> 16);
    let y3 = y2 ^ (seed >> 16);
    lemma_step_xor(x2, y2, seed >> 16, w);
    let x4 = x3 ^ ((x3 & w) >> 4);
    let y4 = y3 ^ ((y3 & w) >> 4);
    lemma_step_shift(x3, y3, 4, w, length);
    let x5 = x4 ^ (seed >> 8);
    let y5 = y4 ^ (seed >> 8);
    lemma_step_xor(x4, y4, seed >> 8, w);
    let x6 = u32_specs::wrapping_mul(x5, 0x0929eb3f);
    let y6 = u32_specs::wrapping_mul(y5, 0x0929eb3f);
    lemma_wrapping_mul_is_mul(x5, 0x0929eb3f);
    lemma_wrapping_mul_is_mul(y5, 0x0929eb3f);
    lemma_step_mul(x5, y5, 0x0929eb3f, w, length);
    let x7 = x6 ^ (seed >> 23);
    let y7 = y6 ^ (seed >> 23);
    lemma_step_xor(x6, y6, seed >> 23, w);
    let x8 = x7 ^ ((x7 & w) >> 1);
    let y8 = y7 ^ ((y7 & w) >> 1);
    lemma_step_shift(x7, y7, 1, w, length);
    let c9 = 1 | (seed >> 27);
    let x9 = u32_specs::wrapping_mul(x8, c9);
    let y9 = u32_specs::wrapping_mul(y8, c9);
    lemma_wrapping_mul_is_mul(x8, c9);
    lemma_wrapping_mul_is_mul(y8, c9);
    lemma_step_mul(x8, y8, c9, w, length);
    let x10 = u32_specs::wrapping_mul(x9, 0x6935fa69);
    let y10 = u32_specs::wrapping_mul(y9, 0x6935fa69);
    lemma_wrapping_mul_is_mul(x9, 0x6935fa69);
    lemma_wrapping_mul_is_mul(y9, 0x6935fa69);
    lemma_step_mul(x9, y9, 0x6935fa69, w, length);
    let x11 = x10 ^ ((x10 & w) >> 11);
    let y11 = y10 ^ ((y10 & w) >> 11);
    lemma_step_shift(x10, y10, 11, w, length);
    let x12 = u32_specs::wrapping_mul(x11, 0x74dcb303);
    let y12 = u32_specs::wrapping_mul(y11, 0x74dcb303);
    lemma_wrapping_mul_is_mul(x11, 0x74dcb303);
    lemma_wrapping_mul_is_mul(y11, 0x74dcb303);
    lemma_step_mul(x11, y11, 0x74dcb303, w, length);
    let x13 = x12 ^ ((x12 & w) >> 2);
    let y13 = y12 ^ ((y12 & w) >> 2);
    lemma_step_shift(x12, y12, 2, w, length);
    let x14 = u32_specs::wrapping_mul(x13, 0x9e501cc3);
    let y14 = u32_specs::wrapping_mul(y13, 0x9e501cc3);
    lemma_wrapping_mul_is_mul(x13, 0x9e501cc3);
    lemma_wrapping_mul_is_mul(y13, 0x9e501cc3);
    lemma_step_mul(x13, y13, 0x9e501cc3, w, length);
    let x15 = x14 ^ ((x14 & w) >> 2);
    let y15 = y14 ^ ((y14 & w) >> 2);
    lemma_step_shift(x14, y14, 2, w, length);
    let x16 = u32_specs::wrapping_mul(x15, 0xc860a3df);
    let y16 = u32_specs::wrapping_mul(y15, 0xc860a3df);
    lemma_wrapping_mul_is_mul(x15, 0xc860a3df);
    lemma_wrapping_mul_is_mul(y15, 0xc860a3df);
    lemma_step_mul(x15, y15, 0xc860a3df, w, length);
    assert(x16 == mix_pre(x, w, seed));
    assert(y16 == mix_pre(y, w, seed));
}

/// One full pass is injective on the masked domain `[0, w]`.
proof fn lemma_round_inj(x: u32, y: u32, length: u32, seed: u32)
    requires
        length >= 1,
        x <= mask_w(length),
        y <= mask_w(length),
        x != y,
    ensures
        mix_round(x, mask_w(length), seed) != mix_round(y, mask_w(length), seed),
{
    let w = mask_w(length);
    lemma_in_mask(x, length);
    lemma_in_mask(y, length);
    lemma_mix_pre_inj(x, y, length, seed);
    lemma_step_final(mix_pre(x, w, seed), mix_pre(y, w, seed), w, length);
}

/// One full pass lands inside the masked domain `[0, w]`.
proof fn lemma_round_le(x: u32, length: u32, seed: u32)
    requires
        length >= 1,
    ensures
        mix_round(x, mask_w(length), seed) <= mask_w(length),
{
    let w = mask_w(length);
    lemma_masked_xorshift_le(mix_pre(x, w, seed), w, length);
}

/// Every walk value stays inside the masked domain.
proof fn lemma_walk_le(i: u32, length: u32, seed: u32, n: nat)
    requires
        length >= 1,
        i <= mask_w(length),
    ensures
        walk(i, mask_w(length), seed, n) <= mask_w(length),
    decreases n,
{
    if n > 0 {
        lemma_walk_le(i, length, seed, (n - 1) as nat);
        lemma_round_le(walk(i, mask_w(length), seed, (n - 1) as nat), length, seed);
    }
}

/// Walking `m + n` passes is walking `n`, then `m` more.
proof fn lemma_walk_add(i: u32, w: u32, seed: u32, m: nat, n: nat)
    ensures
        walk(i, w, seed, m + n) == walk(walk(i, w, seed, n), w, seed, m),
    decreases m,
{
    if m > 0 {
        lemma_walk_add(i, w, seed, (m - 1) as nat, n);
    }
}

/// Equal values after `k` common passes came from equal values.
proof fn lemma_walk_cancel(x: u32, y: u32, length: u32, seed: u32, k: nat)
    requires
        length >= 1,
        x <= mask_w(length),
        y <= mask_w(length),
        walk(x, mask_w(length), seed, k) == walk(y, mask_w(length), seed, k),
    ensures
        x == y,
    decreases k,
{
    if k > 0 {
        let w = mask_w(length);
        lemma_walk_le(x, length, seed, (k - 1) as nat);
        lemma_walk_le(y, length, seed, (k - 1) as nat);
        if walk(x, w, seed, (k - 1) as nat) != walk(y, w, seed, (k - 1) as nat) {
            lemma_round_inj(
                walk(x, w, seed, (k - 1) as nat),
                walk(y, w, seed, (k - 1) as nat),
                length,
                seed,
            );
            assert(false);
        }
        lemma_walk_cancel(x, y, length, seed, (k - 1) as nat);
    }
}

/// The set of walk values reached in the first `m + 1` passes.
spec fn walk_seen(i: u32, w: u32, seed: u32, m: nat) -> Set<int>
    decreases m,
{
    if m == 0 {
        Set::empty().insert(walk(i, w, seed, 0) as int)
    } else {
        walk_seen(i, w, seed, (m - 1) as nat).insert(walk(i, w, seed, m) as int)
    }
}

/// Membership in `walk_seen` is exactly being one of the walk values.
proof fn lemma_walk_seen_mem(i: u32, w: u32, seed: u32, m: nat, v: int)
    ensures
        walk_seen(i, w, seed, m).contains(v) <==> exists|n: nat|
            n <= m && (#[trigger] walk(i, w, seed, n)) as int == v,
    decreases m,
{
    if m == 0 {
        if walk(i, w, seed, 0) as int == v {
            assert(walk_seen(i, w, seed, 0).contains(v));
        }
    } else {
        lemma_walk_seen_mem(i, w, seed, (m - 1) as nat, v);
        if walk(i, w, seed, m) as int == v {
            assert(walk_seen(i, w, seed, m).contains(v));
        }
    }
}

/// With no repeats among the first `m + 1` walk values, the set of
/// them has exactly `m + 1` elements.
proof fn lemma_walk_seen_card(i: u32, w: u32, seed: u32, m: nat)
    requires
        forall|a: nat, b: nat|
            a < b <= m ==> #[trigger] walk(i, w, seed, a) != #[trigger] walk(i, w, seed, b),
    ensures
        walk_seen(i, w, seed, m).finite(),
        walk_seen(i, w, seed, m).len() == m + 1,
    decreases m,
{
    if m > 0 {
        lemma_walk_seen_card(i, w, seed, (m - 1) as nat);
        lemma_walk_seen_mem(i, w, seed, (m - 1) as nat, walk(i, w, seed, m) as int);
        assert(!walk_seen(i, w, seed, (m - 1) as nat).contains(walk(i, w, seed, m) as int));
    }
}

/// The walk from a masked starting value returns to it: the mixing
/// function is a bijection of a finite domain, so the orbit of `i` is
/// a cycle through `i` itself.
#[verifier::rlimit(100)]
proof fn lemma_walk_repeat(i: u32, length: u32, seed: u32)
    requires
        length >= 1,
        i <= mask_w(length),
    ensures
        exists|d: nat| 1 <= d && #[trigger] walk(i, mask_w(length), seed, d) == i,
{
    let w = mask_w(length);
    let bound = w as nat + 1;
    if exists|a: nat, b: nat|
        a < b <= bound && #[trigger] walk(i, w, seed, a) == #[trigger] walk(i, w, seed, b) {
        let (a, b) = choose|a: nat, b: nat|
            a < b <= bound && #[trigger] walk(i, w, seed, a) == #[trigger] walk(i, w, seed, b);
        let d = (b - a) as nat;
        lemma_walk_add(i, w, seed, a, d);
        if d >= 1 {
            lemma_walk_le(i, length, seed, d);
        }
        lemma_walk_cancel(walk(i, w, seed, d), i, length, seed, a);
        assert(walk(i, w, seed, d) == i);
    } else {
        assert(forall|a: nat, b: nat|
            a < b <= bound ==> #[trigger] walk(i, w, seed, a) != #[trigger] walk(
                i,
                w,
                seed,
                b,
            ));
        lemma_walk_seen_card(i, w, seed, bound);
        let range = set_int_range(0, w as int + 1);
        assert forall|v: int| walk_seen(i, w, seed, bound).contains(v) implies range.contains(
            v,
        ) by {
            lemma_walk_seen_mem(i, w, seed, bound, v);
            let n = choose|n: nat| n <= bound && (#[trigger] walk(i, w, seed, n)) as int == v;
            lemma_walk_le(i, length, seed, n);
        }
        lemma_int_range(0, w as int + 1);
        lemma_len_subset(walk_seen(i, w, seed, bound), range);
        assert(false);
    }
}

/// Any hit of `[0, length)` on the walk gives a first hit.
proof fn lemma_hit_to_first(i: u32, length: u32, seed: u32, d: nat)
    requires
        length >= 1,
        1 <= d,
        walk(i, mask_w(length), seed, d) < length,
    ensures
        permute_terminates(i, length, seed),
    decreases d,
{
    if forall|m: nat| 1 <= m < d ==> #[trigger] walk(i, mask_w(length), seed, m) >= length {
        assert(first_hit(i, length, seed, d));
    } else {
        let m = choose|m: nat|
            1 <= m < d && #[trigger] walk(i, mask_w(length), seed, m) < length;
        lemma_hit_to_first(i, length, seed, m);
    }
}

/// At most one pass count is the first to land inside `[0, length)`.
proof fn lemma_first_hit_unique(i: u32, length: u32, seed: u32, n1: nat, n2: nat)
    requires
        first_hit(i, length, seed, n1),
        first_hit(i, length, seed, n2),
    ensures
        n1 == n2,
{
    if n1 < n2 {
        assert(walk(i, mask_w(length), seed, n1) >= length);
        assert(false);
    }
    if n2 < n1 {
        assert(walk(i, mask_w(length), seed, n2) >= length);
        assert(false);
    }
}

/// The rejection loop of `permute` terminates for every index below
/// the length, and the pass count it stops at is `hit_round`.
pub proof fn lemma_permute_terminates(i: u32, length: u32, seed: u32)
    requires
        length >= 1,
        i < length,
    ensures
        permute_terminates(i, length, seed),
        first_hit(i, length, seed, hit_round(i, length, seed)),
{
    lemma_mask_low(length);
    lemma_walk_repeat(i, length, seed);
    let d = choose|d: nat| 1 <= d && #[trigger] walk(i, mask_w(length), seed, d) == i;
    lemma_hit_to_first(i, length, seed, d);
    assert(first_hit(i, length, seed, hit_round(i, length, seed)));
}

/// The permuted index lies inside `[0, length)`.
pub proof fn lemma_permute_in_range(i: u32, length: u32, seed: u32)
    requires
        length >= 1,
        i < length,
    ensures
        permute_spec(i, length, seed) < length,
{
    lemma_permute_terminates(i, length, seed);
}

/// The closing seed rotation is injective on `[0, length)` as long as
/// the 32-bit sum `value + seed` cannot wrap.
proof fn lemma_rotate_inj(v1: u32, v2: u32, length: u32, seed: u32)
    requires
        length >= 1,
        v1 < length,
        v2 < length,
        v1 != v2,
        seed + length <= 0x1_0000_0000,
    ensures
        u32_specs::wrapping_add(v1, seed) % length != u32_specs::wrapping_add(v2, seed)
            % length,
{
    let el = length as int;
    assert(u32_specs::wrapping_add(v1, seed) == v1 + seed);
    assert(u32_specs::wrapping_add(v2, seed) == v2 + seed);
    if u32_specs::wrapping_add(v1, seed) % length == u32_specs::wrapping_add(v2, seed)
        % length {
        lemma_mod_equivalence(v1 + seed, v2 + seed, el);
        if v1 > v2 {
            lemma_small_mod((v1 - v2) as nat, el as nat);
        } else {
            lemma_small_mod((v2 - v1) as nat, el as nat);
            lemma_mod_equivalence(v2 + seed, v1 + seed, el);
        }
        assert(false);
    }
}

/// First hits of distinct starting indices are distinct values: were
/// they equal, cancelling the common passes would put the earlier
/// starting index on the later walk before its first hit.
proof fn lemma_hits_distinct(
    i1: u32,
    i2: u32,
    length: u32,
    seed: u32,
    h1: nat,
    h2: nat,
)
    requires
        length >= 1,
        i1 < length,
        i2 < length,
        i1 != i2,
        first_hit(i1, length, seed, h1),
        first_hit(i2, length, seed, h2),
        h1 <= h2,
    ensures
        walk(i1, mask_w(length), seed, h1) != walk(i2, mask_w(length), seed, h2),
{
    let w = mask_w(length);
    lemma_mask_low(length);
    if walk(i1, w, seed, h1) == walk(i2, w, seed, h2) {
        let d = (h2 - h1) as nat;
        lemma_walk_add(i2, w, seed, h1, d);
        if d >= 1 {
            lemma_walk_le(i2, length, seed, d);
        }
        lemma_walk_cancel(i1, walk(i2, w, seed, d), length, seed, h1);
        if d == 0 {
            assert(i1 == i2);
        } else {
            assert(d < h2);
            assert(walk(i2, w, seed, d) >= length);
        }
        assert(false);
    }
}

/// Distinct indices below the length are permuted to distinct
/// indices, as long as the 32-bit sum of a hit value and the seed
/// cannot wrap.
pub proof fn lemma_permute_injective(i1: u32, i2: u32, length: u32, seed: u32)
    requires
        length >= 1,
        i1 < length,
        i2 < length,
        i1 != i2,
        seed + length <= 0x1_0000_0000,
    ensures
        permute_spec(i1, length, seed) != permute_spec(i2, length, seed),
{
    let w = mask_w(length);
    lemma_permute_terminates(i1, length, seed);
    lemma_permute_terminates(i2, length, seed);
    let h1 = hit_round(i1, length, seed);
    let h2 = hit_round(i2, length, seed);
    if h1 <= h2 {
        lemma_hits_distinct(i1, i2, length, seed, h1, h2);
    } else {
        lemma_hits_distinct(i2, i1, length, seed, h2, h1);
    }
    lemma_rotate_inj(walk(i1, w, seed, h1), walk(i2, w, seed, h2), length, seed);
}

/// The set of permuted indices for starting indices below `k`.
spec fn permuted_below(length: u32, seed: u32, k: nat) -> Set<int>
    decreases k,
{
    if k == 0 {
        Set::empty()
    } else {
        permuted_below(length, seed, (k - 1) as nat).insert(
            permute_spec((k - 1) as u32, length, seed) as int,
        )
    }
}

/// Membership in `permuted_below` is exactly being the image of some
/// smaller index.
proof fn lemma_permuted_below_mem(length: u32, seed: u32, k: nat, v: int)
    requires
        k <= length,
    ensures
        permuted_below(length, seed, k).contains(v) <==> exists|i: nat|
            i < k && (#[trigger] permute_spec(i as u32, length, seed)) as int == v,
    decreases k,
{
    if k > 0 {
        lemma_permuted_below_mem(length, seed, (k - 1) as nat, v);
        if permute_spec((k - 1) as u32, length, seed) as int == v {
            assert(permuted_below(length, seed, k).contains(v));
        }
    }
}

/// Injectivity makes the image of `[0, k)` have exactly `k` elements.
proof fn lemma_permuted_below_card(length: u32, seed: u32, k: nat)
    requires
        length >= 1,
        k <= length,
        seed + length <= 0x1_0000_0000,
    ensures
        permuted_below(length, seed, k).finite(),
        permuted_below(length, seed, k).len() == k,
    decreases k,
{
    if k > 0 {
        lemma_permuted_below_card(length, seed, (k - 1) as nat);
        let v = permute_spec((k - 1) as u32, length, seed) as int;
        lemma_permuted_below_mem(length, seed, (k - 1) as nat, v);
        if permuted_below(length, seed, (k - 1) as nat).contains(v) {
            let i = choose|i: nat|
                i < k - 1 && (#[trigger] permute_spec(i as u32, length, seed)) as int == v;
            lemma_permute_injective(i as u32, (k - 1) as u32, length, seed);
            assert(false);
        }
    }
}

/// A subset with the full cardinality is the whole finite set.
proof fn lemma_subset_full(a: Set<int>, b: Set<int>)
    requires
        a.subset_of(b),
        b.finite(),
        a.finite(),
        a.len() == b.len(),
    ensures
        a =~= b,
{
    if exists|x: int| b.contains(x) && !a.contains(x) {
        let x = choose|x: int| b.contains(x) && !a.contains(x);
        assert(a.subset_of(b.remove(x)));
        lemma_len_subset(a, b.remove(x));
        assert(false);
    }
}

/// Some starting index below the length is permuted to `j`.
pub open spec fn permute_covers(length: u32, seed: u32, j: u32) -> bool {
    exists|i: u32| i < length && #[trigger] permute_spec(i, length, seed) == j
}

/// For every fixed length and seed whose 32-bit rotation cannot wrap,
/// the permutation is a bijection of `[0, length)`: distinct indices
/// map to distinct results, and every index below the length is hit.
pub proof fn lemma_permute_bijective(length: u32, seed: u32)
    requires
        length >= 1,
        seed + length <= 0x1_0000_0000,
    ensures
        forall|i1: u32, i2: u32|
            i1 < length && i2 < length && i1 != i2 ==> #[trigger] permute_spec(
                i1,
                length,
                seed,
            ) != #[trigger] permute_spec(i2, length, seed),
        forall|j: u32| j < length ==> #[trigger] permute_covers(length, seed, j),
{
    assert forall|i1: u32, i2: u32| i1 < length && i2 < length && i1 != i2 implies #[trigger]
    permute_spec(i1, length, seed) != #[trigger] permute_spec(i2, length, seed) by {
        lemma_permute_injective(i1, i2, length, seed);
    }
    let img = permuted_below(length, seed, length as nat);
    let range = set_int_range(0, length as int);
    lemma_permuted_below_card(length, seed, length as nat);
    lemma_int_range(0, length as int);
    assert forall|v: int| img.contains(v) implies range.contains(v) by {
        lemma_permuted_below_mem(length, seed, length as nat, v);
        let i = choose|i: nat|
            i < length && (#[trigger] permute_spec(i as u32, length, seed)) as int == v;
        lemma_permute_in_range(i as u32, length, seed);
    }
    lemma_subset_full(img, range);
    assert forall|j: u32| j < length implies #[trigger] permute_covers(length, seed, j) by {
        assert(range.contains(j as int));
        assert(img.contains(j as int));
        lemma_permuted_below_mem(length, seed, length as nat, j as int);
        let i = choose|i: nat|
            i < length && (#[trigger] permute_spec(i as u32, length, seed)) as int == j as int;
        assert(i < length && permute_spec(i as u32, length, seed) == j);
    }
}

/// With a single element there is nothing to shuffle: the mask is
/// zero, the first pass already lands on zero, and the rotation modulo
/// one returns zero, whatever the seed.
pub proof fn lemma_singleton_stability(i: u32, seed: u32)
    ensures
        permute_terminates(i, 1, seed),
        permute_spec(i, 1, seed) == 0,
{
    assert(mask_w(1) == 0) by (bit_vector);
    let t = mix_pre(i, 0, seed);
    assert((t & 0) ^ ((t & 0) >> 5) == 0) by (bit_vector);
    assert(walk(i, mask_w(1), seed, 0) == i);
    assert(walk(i, mask_w(1), seed, 1) == mix_round(i, mask_w(1), seed));
    assert(walk(i, mask_w(1), seed, 1) == 0);
    assert(first_hit(i, 1, seed, 1));
    let h = hit_round(i, 1, seed);
    assert(first_hit(i, 1, seed, h));
    lemma_first_hit_unique(i, 1, seed, 1, h);
    assert(u32_specs::wrapping_add(0, seed) == seed);
}

} // verus!

use vstd::prelude::*;

verus! {

/// The golden-ratio constant that seeds the first two accumulators.
pub const GOLDEN_RATIO: u32 = 0x9e3779b9;

/// The mixing step on three 32-bit accumulators, all arithmetic wrapping.
pub open spec fn mix_spec(a: u32, b: u32, c: u32) -> (u32, u32, u32) {
    let a = a.wrapping_sub(b).wrapping_sub(c) ^ (c >> 13u32);
    let b = b.wrapping_sub(c).wrapping_sub(a) ^ (a << 8u32);
    let c = c.wrapping_sub(a).wrapping_sub(b) ^ (b >> 13u32);
    let a = a.wrapping_sub(b).wrapping_sub(c) ^ (c >> 12u32);
    let b = b.wrapping_sub(c).wrapping_sub(a) ^ (a << 16u32);
    let c = c.wrapping_sub(a).wrapping_sub(b) ^ (b >> 5u32);
    let a = a.wrapping_sub(b).wrapping_sub(c) ^ (c >> 3u32);
    let b = b.wrapping_sub(c).wrapping_sub(a) ^ (a << 10u32);
    let c = c.wrapping_sub(a).wrapping_sub(b) ^ (b >> 15u32);
    (a, b, c)
}

/// The little-endian 32-bit word made of `key[i..i + 4]`.
pub open spec fn le_word(key: Seq<u8>, i: int) -> u32 {
    (key[i] as u32) | ((key[i + 1] as u32) << 8u32) | ((key[i + 2] as u32) << 16u32) | ((
    key[i + 3] as u32) << 24u32)
}

/// Byte `key[i]` moved `shift` bits up.
pub open spec fn shifted(key: Seq<u8>, i: int, shift: u32) -> u32 {
    (key[i] as u32) << shift
}

/// Adds `v` to `x` (wrapping) when `cond` holds.
pub open spec fn add_if(x: u32, cond: bool, v: u32) -> u32 {
    if cond {
        x.wrapping_add(v)
    } else {
        x
    }
}

/// The accumulators after absorbing every full 12-byte block of `key` from
/// offset `k` on, starting from `(a, b, c)`.
pub open spec fn absorb(key: Seq<u8>, k: int, a: u32, b: u32, c: u32) -> (u32, u32, u32)
    decreases key.len() - k,
{
    if k < 0 || key.len() - k < 12 {
        (a, b, c)
    } else {
        let m = mix_spec(
            a.wrapping_add(le_word(key, k)),
            b.wrapping_add(le_word(key, k + 4)),
            c.wrapping_add(le_word(key, k + 8)),
        );
        absorb(key, k + 12, m.0, m.1, m.2)
    }
}

/// The digest, given the accumulators `(a, b, c)` after the full blocks, which
/// end at offset `k`: the key length and the tail bytes are added, and the
/// accumulators mixed once more.
pub open spec fn finish(key: Seq<u8>, k: int, a: u32, b: u32, c: u32) -> u32 {
    let rem = key.len() - k;
    let c = c.wrapping_add(key.len() as u32);
    let c = add_if(c, rem >= 11, shifted(key, k + 10, 24));
    let c = add_if(c, rem >= 10, shifted(key, k + 9, 16));
    let c = add_if(c, rem >= 9, shifted(key, k + 8, 8));
    let b = add_if(b, rem >= 8, shifted(key, k + 7, 24));
    let b = add_if(b, rem >= 7, shifted(key, k + 6, 16));
    let b = add_if(b, rem >= 6, shifted(key, k + 5, 8));
    let b = add_if(b, rem >= 5, shifted(key, k + 4, 0));
    let a = add_if(a, rem >= 4, shifted(key, k + 3, 24));
    let a = add_if(a, rem >= 3, shifted(key, k + 2, 16));
    let a = add_if(a, rem >= 2, shifted(key, k + 1, 8));
    let a = add_if(a, rem >= 1, shifted(key, k, 0));
    mix_spec(a, b, c).2
}

/// The offset at which the full 12-byte blocks of a key of length `len` end.
pub open spec fn blocks_end(len: int) -> int {
    len - len % 12
}

/// Bob Jenkins' lookup2 digest of `key` with seed `initval`.
pub open spec fn lookup2_spec(key: Seq<u8>, initval: u32) -> u32 {
    let s = absorb(key, 0, GOLDEN_RATIO, GOLDEN_RATIO, initval);
    finish(key, blocks_end(key.len() as int), s.0, s.1, s.2)
}

/// One mixing step, in place.
fn mix(a: &mut u32, b: &mut u32, c: &mut u32)
    ensures
        (*final(a), *final(b), *final(c)) == mix_spec(*old(a), *old(b), *old(c)),
{
    *a = a.wrapping_sub(*b);
    *a = a.wrapping_sub(*c);
    *a = *a ^ (*c >> 13u32);
    *b = b.wrapping_sub(*c);
    *b = b.wrapping_sub(*a);
    *b = *b ^ (*a << 8u32);
    *c = c.wrapping_sub(*a);
    *c = c.wrapping_sub(*b);
    *c = *c ^ (*b >> 13u32);

    *a = a.wrapping_sub(*b);
    *a = a.wrapping_sub(*c);
    *a = *a ^ (*c >> 12u32);
    *b = b.wrapping_sub(*c);
    *b = b.wrapping_sub(*a);
    *b = *b ^ (*a << 16u32);
    *c = c.wrapping_sub(*a);
    *c = c.wrapping_sub(*b);
    *c = *c ^ (*b >> 5u32);

    *a = a.wrapping_sub(*b);
    *a = a.wrapping_sub(*c);
    *a = *a ^ (*c >> 3u32);
    *b = b.wrapping_sub(*c);
    *b = b.wrapping_sub(*a);
    *b = *b ^ (*a << 10u32);
    *c = c.wrapping_sub(*a);
    *c = c.wrapping_sub(*b);
    *c = *c ^ (*b >> 15u32);
}

/// Reads the little-endian word at `key[i..i + 4]`.
fn read_le_word(key: &[u8], i: usize) -> (r: u32)
    requires
        i + 4 <= key@.len(),
    ensures
        r == le_word(key@, i as int),
{
    (key[i] as u32) | ((key[i + 1] as u32) << 8u32) | ((key[i + 2] as u32) << 16u32) | ((key[i
        + 3] as u32) << 24u32)
}

/// Byte `key[i]` moved `shift` bits up, or 0 where `i` lies past the key.
fn tail_byte(key: &[u8], i: usize, shift: u32) -> (r: u32)
    requires
        shift < 32,
    ensures
        i < key@.len() ==> r == shifted(key@, i as int, shift),
{
    if i < key.len() {
        (key[i] as u32) << shift
    } else {
        0
    }
}

/// Bob Jenkins' lookup2 hash of `key`, seeded with `initval`.
pub fn lookup2(key: &[u8], initval: u32) -> (r: u32)
    ensures
        r == lookup2_spec(key@, initval),
{
    let mut a: u32 = GOLDEN_RATIO;
    let mut b: u32 = GOLDEN_RATIO;
    let mut c: u32 = initval;
    let mut k: usize = 0;

    while key.len() - k >= 12
        invariant
            k <= key@.len(),
            k as int % 12 == 0,
            absorb(key@, k as int, a, b, c) == absorb(key@, 0, GOLDEN_RATIO, GOLDEN_RATIO, initval),
        decreases key@.len() - k,
    {
        a = a.wrapping_add(read_le_word(key, k));
        b = b.wrapping_add(read_le_word(key, k + 4));
        c = c.wrapping_add(read_le_word(key, k + 8));
        mix(&mut a, &mut b, &mut c);
        k = k + 12;
    }
    assert(k as int == blocks_end(key@.len() as int));

    let rem: usize = key.len() - k;
    c = c.wrapping_add(key.len() as u32);
    if rem >= 11 {
        c = c.wrapping_add(tail_byte(key, k + 10, 24));
    }
    if rem >= 10 {
        c = c.wrapping_add(tail_byte(key, k + 9, 16));
    }
    if rem >= 9 {
        c = c.wrapping_add(tail_byte(key, k + 8, 8));
    }
    if rem >= 8 {
        b = b.wrapping_add(tail_byte(key, k + 7, 24));
    }
    if rem >= 7 {
        b = b.wrapping_add(tail_byte(key, k + 6, 16));
    }
    if rem >= 6 {
        b = b.wrapping_add(tail_byte(key, k + 5, 8));
    }
    if rem >= 5 {
        b = b.wrapping_add(tail_byte(key, k + 4, 0));
    }
    if rem >= 4 {
        a = a.wrapping_add(tail_byte(key, k + 3, 24));
    }
    if rem >= 3 {
        a = a.wrapping_add(tail_byte(key, k + 2, 16));
    }
    if rem >= 2 {
        a = a.wrapping_add(tail_byte(key, k + 1, 8));
    }
    if rem >= 1 {
        a = a.wrapping_add(tail_byte(key, k, 0));
    }
    mix(&mut a, &mut b, &mut c);
    c
}

} // verus!

use vstd::prelude::*;
use vstd::arithmetic::div_mod::{
    lemma_div_denominator,
    lemma_mod_multiples_vanish,
    lemma_fundamental_div_mod,
    lemma_div_basics,
    lemma_mod_breakdown,
    lemma_mod_twice,
    lemma_add_mod_noop,
    lemma_small_mod,
    lemma_div_multiples_vanish_fancy,
};

verus! {

/// `256` to the power `k`.
pub open spec fn pow256(k: nat) -> nat
    decreases k,
{
    if k == 0 {
        1
    } else {
        256 * pow256((k - 1) as nat)
    }
}

/// The byte at `i`, or `0` where `i` lies outside `s`.
pub open spec fn byte_or_zero(s: Seq<u8>, i: int) -> nat {
    if 0 <= i < s.len() {
        s[i] as nat
    } else {
        0
    }
}

/// The number that the `w` bytes at `idx` spell in little-endian order; a byte past
/// the end of `s` counts as `0`.
pub open spec fn load_le(s: Seq<u8>, idx: int, w: nat) -> nat
    decreases w,
{
    if w == 0 {
        0
    } else {
        byte_or_zero(s, idx) + 256 * load_le(s, idx + 1, (w - 1) as nat)
    }
}

/// The number that the `w` bytes at `idx` spell in big-endian order; a byte past
/// the end of `s` counts as `0`.
pub open spec fn load_be(s: Seq<u8>, idx: int, w: nat) -> nat
    decreases w,
{
    if w == 0 {
        0
    } else {
        byte_or_zero(s, idx + w - 1) + 256 * load_be(s, idx, (w - 1) as nat)
    }
}

/// Byte `k` of `x`, counted from the least significant one.
pub open spec fn digit(x: nat, k: nat) -> u8 {
    ((x / pow256(k)) % 256) as u8
}

/// `s` with the low `w` bytes of `x` written at `idx` in little-endian order; bytes
/// that would fall past the end of `s` are dropped.
pub open spec fn store_le(s: Seq<u8>, idx: int, w: nat, x: nat) -> Seq<u8> {
    Seq::new(
        s.len(),
        |i: int|
            if idx <= i < idx + w {
                digit(x, (i - idx) as nat)
            } else {
                s[i]
            },
    )
}

/// `s` with the low `w` bytes of `x` written at `idx` in big-endian order; bytes
/// that would fall past the end of `s` are dropped.
pub open spec fn store_be(s: Seq<u8>, idx: int, w: nat, x: nat) -> Seq<u8> {
    Seq::new(
        s.len(),
        |i: int|
            if idx <= i < idx + w {
                digit(x, (idx + w - 1 - i) as nat)
            } else {
                s[i]
            },
    )
}

/// The `w`-byte number at `idx`, in the given byte order.
pub open spec fn load(s: Seq<u8>, idx: int, w: nat, big_endian: bool) -> nat {
    if big_endian {
        load_be(s, idx, w)
    } else {
        load_le(s, idx, w)
    }
}

/// `s` with `x` written as a `w`-byte number at `idx`, in the given byte order.
pub open spec fn store(s: Seq<u8>, idx: int, w: nat, x: nat, big_endian: bool) -> Seq<u8> {
    if big_endian {
        store_be(s, idx, w, x)
    } else {
        store_le(s, idx, w, x)
    }
}

/// `x` reduced to a `w`-byte unsigned number (wrapping arithmetic).
pub open spec fn wrap(x: int, w: nat) -> nat {
    (x % (pow256(w) as int)) as nat
}

/// `s` after `num` (which may be negative) was added, with `w`-byte wrapping
/// arithmetic, to the `w`-byte number at `idx` in the given byte order.
pub open spec fn spec_word_arith(s: Seq<u8>, idx: int, w: nat, num: int, big_endian: bool) -> Seq<u8> {
    store(s, idx, w, wrap(load(s, idx, w, big_endian) + num, w), big_endian)
}

/// `pow256` grows with its exponent and is positive.
pub proof fn lemma_pow256_mono(a: nat, b: nat)
    requires
        a <= b,
    ensures
        0 < pow256(a) <= pow256(b),
    decreases b,
{
    if a < b {
        lemma_pow256_mono(a, (b - 1) as nat);
    } else {
        lemma_pow256_pos(a);
    }
}

/// `pow256` is positive.
pub proof fn lemma_pow256_pos(a: nat)
    ensures
        0 < pow256(a),
    decreases a,
{
    if a > 0 {
        lemma_pow256_pos((a - 1) as nat);
    }
}

/// `2^64` is `pow256(8)`.
pub proof fn lemma_pow256_8()
    ensures
        pow256(8) == 0x1_0000_0000_0000_0000,
{
    reveal_with_fuel(pow256, 9);
}

/// A little-endian number of `w` bytes is below `pow256(w)`.
pub proof fn lemma_load_le_bound(s: Seq<u8>, idx: int, w: nat)
    ensures
        load_le(s, idx, w) < pow256(w),
    decreases w,
{
    if w > 0 {
        lemma_load_le_bound(s, idx + 1, (w - 1) as nat);
    }
}

/// A big-endian number of `w` bytes is below `pow256(w)`.
pub proof fn lemma_load_be_bound(s: Seq<u8>, idx: int, w: nat)
    ensures
        load_be(s, idx, w) < pow256(w),
    decreases w,
{
    if w > 0 {
        lemma_load_be_bound(s, idx, (w - 1) as nat);
    }
}

/// Dividing by `pow256(k)` and then by `256` divides by `pow256(k + 1)`.
pub proof fn lemma_div_step(x: nat, k: nat)
    ensures
        (x / pow256(k)) / 256 == x / pow256(k + 1),
{
    lemma_pow256_pos(k);
    lemma_div_denominator(x as int, pow256(k) as int, 256);
    assert(pow256(k + 1) == pow256(k) * 256);
}

/// Dividing by `pow256(0)` leaves a number unchanged.
pub proof fn lemma_div_pow256_zero(x: nat)
    ensures
        x / pow256(0) == x,
{
    assert(pow256(0) == 1);
    lemma_div_basics(x as int);
}

/// `256` to the power `w`, as a machine number.
fn pow256_exec(w: usize) -> (m: u128)
    requires
        w <= 8,
    ensures
        m == pow256(w as nat),
{
    let mut m: u128 = 1;
    let mut k: usize = 0;
    while k < w
        invariant
            k <= w <= 8,
            m == pow256(k as nat),
        decreases w - k,
    {
        proof {
            lemma_pow256_mono((k + 1) as nat, 8);
            lemma_pow256_8();
        }
        m = m * 256;
        k = k + 1;
    }
    m
}

/// The byte at `idx + k`, or `0` past the end.
fn byte_at_or_zero(bytes: &Vec<u8>, idx: usize, k: usize) -> (b: u8)
    requires
        idx <= bytes.len(),
    ensures
        b as nat == byte_or_zero(bytes@, idx + k),
{
    if k < bytes.len() - idx {
        bytes[idx + k]
    } else {
        0
    }
}

/// Reads the `width`-byte number at `idx` in the given byte order; bytes past the
/// end count as `0`.
pub fn load_word(bytes: &Vec<u8>, idx: usize, width: usize, big_endian: bool) -> (v: u64)
    requires
        width <= 8,
        idx <= bytes.len(),
    ensures
        v == load(bytes@, idx as int, width as nat, big_endian),
{
    let mut v: u64 = 0;
    if big_endian {
        let mut k: usize = 0;
        while k < width
            invariant
                k <= width <= 8,
                idx <= bytes.len(),
                v == load_be(bytes@, idx as int, k as nat),
            decreases width - k,
        {
            proof {
                lemma_load_be_bound(bytes@, idx as int, k as nat);
                lemma_pow256_mono((k + 1) as nat, 8);
                lemma_pow256_8();
                assert(pow256((k + 1) as nat) == 256 * pow256(k as nat));
            }
            let b = byte_at_or_zero(bytes, idx, k);
            v = v * 256 + b as u64;
            k = k + 1;
        }
    } else {
        let mut k: usize = width;
        while k > 0
            invariant
                k <= width <= 8,
                idx <= bytes.len(),
                v == load_le(bytes@, idx + k, (width - k) as nat),
            decreases k,
        {
            k = k - 1;
            proof {
                lemma_load_le_bound(bytes@, idx + k + 1, (width - k - 1) as nat);
                lemma_pow256_mono((width - k) as nat, 8);
                lemma_pow256_8();
                assert(pow256((width - k) as nat) == 256 * pow256((width - k - 1) as nat));
            }
            let b = byte_at_or_zero(bytes, idx, k);
            v = v * 256 + b as u64;
        }
    }
    v
}

/// Writes the low `width` bytes of `x` at `idx` in the given byte order; bytes that
/// would fall past the end are dropped.
pub fn store_word(bytes: &mut Vec<u8>, idx: usize, width: usize, x: u64, big_endian: bool)
    requires
        width <= 8,
        idx <= old(bytes).len(),
    ensures
        final(bytes)@ == store(old(bytes)@, idx as int, width as nat, x as nat, big_endian),
{
    let ghost orig = bytes@;
    let mut y: u64 = x;
    let mut k: usize = 0;
    assert(x as nat / pow256(0) == x as nat) by {
        assert(pow256(0) == 1);
        lemma_div_basics(x as int);
    }
    if big_endian {
        while k < width
            invariant
                k <= width <= 8,
                idx <= bytes.len(),
                bytes@.len() == orig.len(),
                y == x as nat / pow256(k as nat),
                forall|j: int|
                    #![trigger bytes@[j]]
                    0 <= j < orig.len() ==> bytes@[j] == (if idx + width - k <= j < idx + width {
                        digit(x as nat, (idx + width - 1 - j) as nat)
                    } else {
                        orig[j]
                    }),
            decreases width - k,
        {
            proof {
                lemma_div_step(x as nat, k as nat);
            }
            let b = (y % 256) as u8;
            if width - 1 - k < bytes.len() - idx {
                bytes.set(idx + (width - 1 - k), b);
            }
            y = y / 256;
            k = k + 1;
        }
        assert(bytes@ =~= store_be(orig, idx as int, width as nat, x as nat));
    } else {
        while k < width
            invariant
                k <= width <= 8,
                idx <= bytes.len(),
                bytes@.len() == orig.len(),
                y == x as nat / pow256(k as nat),
                forall|j: int|
                    #![trigger bytes@[j]]
                    0 <= j < orig.len() ==> bytes@[j] == (if idx <= j < idx + k {
                        digit(x as nat, (j - idx) as nat)
                    } else {
                        orig[j]
                    }),
            decreases width - k,
        {
            proof {
                lemma_div_step(x as nat, k as nat);
            }
            let b = (y % 256) as u8;
            if k < bytes.len() - idx {
                bytes.set(idx + k, b);
            }
            y = y / 256;
            k = k + 1;
        }
        assert(bytes@ =~= store_le(orig, idx as int, width as nat, x as nat));
    }
}

/// Adds `num`, or subtracts it where `subtract` holds, to the `width`-byte number
/// at `idx` in the given byte order, wrapping at `width` bytes. Bytes past the end
/// read as `0` and are not written.
pub fn word_arith_at(
    bytes: &mut Vec<u8>,
    idx: usize,
    width: usize,
    num: u64,
    subtract: bool,
    big_endian: bool,
)
    requires
        1 <= width <= 8,
        idx <= old(bytes).len(),
    ensures
        final(bytes)@ == spec_word_arith(
            old(bytes)@,
            idx as int,
            width as nat,
            if subtract { -(num as int) } else { num as int },
            big_endian,
        ),
{
    let v = load_word(bytes, idx, width, big_endian);
    let m = pow256_exec(width);
    proof {
        lemma_pow256_mono(width as nat, 8);
        lemma_pow256_8();
    }
    let x: u128 = if subtract {
        let r = (num as u128) % m;
        let t = (v as u128 + m - r) % m;
        proof {
            let mi = m as int;
            let q = num as int / mi;
            lemma_fundamental_div_mod(num as int, mi);
            assert(mi * (-(q + 1)) + (v + mi - r) == v - num) by (nonlinear_arith)
                requires
                    num as int == mi * q + r,
            ;
            lemma_mod_multiples_vanish(-(q + 1), v + mi - r, mi);
        }
        t
    } else {
        (v as u128 + num as u128) % m
    };
    store_word(bytes, idx, width, x as u64, big_endian);
}

/// Writes `val` as a `width`-byte number at `idx` in the given byte order; bytes that
/// would fall past the end are dropped.
pub fn word_store_at(bytes: &mut Vec<u8>, idx: usize, width: usize, val: u64, big_endian: bool)
    requires
        width <= 8,
        idx <= old(bytes).len(),
    ensures
        final(bytes)@ == store(old(bytes)@, idx as int, width as nat, val as nat, big_endian),
{
    store_word(bytes, idx, width, val, big_endian);
}


/// Byte `k + 1` of `x` is byte `k` of `x / 256`.
proof fn lemma_digit_shift(x: nat, k: nat)
    ensures
        digit(x, k + 1) == digit(x / 256, k),
{
    lemma_pow256_pos(k);
    lemma_div_denominator(x as int, 256, pow256(k) as int);
    assert(pow256(k + 1) == 256 * pow256(k));
}

/// Byte `0` of `x` is `x % 256`.
proof fn lemma_digit_zero(x: nat)
    ensures
        digit(x, 0) == x % 256,
{
    lemma_div_pow256_zero(x);
}

/// A little-endian number reads only its own `w` bytes.
proof fn lemma_load_le_window(s1: Seq<u8>, s2: Seq<u8>, idx: int, w: nat)
    requires
        0 <= idx,
        idx + w <= s1.len(),
        idx + w <= s2.len(),
        forall|j: int| idx <= j < idx + w ==> s1[j] == s2[j],
    ensures
        load_le(s1, idx, w) == load_le(s2, idx, w),
    decreases w,
{
    if w > 0 {
        lemma_load_le_window(s1, s2, idx + 1, (w - 1) as nat);
    }
}

/// A big-endian number reads only its own `w` bytes.
proof fn lemma_load_be_window(s1: Seq<u8>, s2: Seq<u8>, idx: int, w: nat)
    requires
        0 <= idx,
        idx + w <= s1.len(),
        idx + w <= s2.len(),
        forall|j: int| idx <= j < idx + w ==> s1[j] == s2[j],
    ensures
        load_be(s1, idx, w) == load_be(s2, idx, w),
    decreases w,
{
    if w > 0 {
        lemma_load_be_window(s1, s2, idx, (w - 1) as nat);
    }
}

/// Splits `x % pow256(w + 1)` into its low byte and the rest.
proof fn lemma_mod_pow256_split(x: nat, w: nat)
    ensures
        x % pow256(w + 1) == x % 256 + 256 * ((x / 256) % pow256(w)),
{
    lemma_pow256_pos(w);
    lemma_mod_breakdown(x as int, 256, pow256(w) as int);
    assert(pow256(w + 1) == 256 * pow256(w));
}

/// Reading back a little-endian write gives the value written, reduced to `w` bytes.
proof fn lemma_load_store_le(s: Seq<u8>, idx: int, w: nat, x: nat)
    requires
        0 <= idx,
        idx + w <= s.len(),
    ensures
        load_le(store_le(s, idx, w, x), idx, w) == x % pow256(w),
    decreases w,
{
    if w == 0 {
        assert(pow256(0) == 1);
    } else {
        let s1 = store_le(s, idx, w, x);
        let s2 = store_le(s, idx + 1, (w - 1) as nat, x / 256);
        assert forall|j: int| idx + 1 <= j < idx + w implies s1[j] == s2[j] by {
            lemma_digit_shift(x, (j - idx - 1) as nat);
        }
        lemma_load_le_window(s1, s2, idx + 1, (w - 1) as nat);
        lemma_load_store_le(s, idx + 1, (w - 1) as nat, x / 256);
        lemma_digit_zero(x);
        lemma_mod_pow256_split(x, (w - 1) as nat);
    }
}

/// Reading back a big-endian write gives the value written, reduced to `w` bytes.
proof fn lemma_load_store_be(s: Seq<u8>, idx: int, w: nat, x: nat)
    requires
        0 <= idx,
        idx + w <= s.len(),
    ensures
        load_be(store_be(s, idx, w, x), idx, w) == x % pow256(w),
    decreases w,
{
    if w == 0 {
        assert(pow256(0) == 1);
    } else {
        let s1 = store_be(s, idx, w, x);
        let s2 = store_be(s, idx, (w - 1) as nat, x / 256);
        assert forall|j: int| idx <= j < idx + w - 1 implies s1[j] == s2[j] by {
            lemma_digit_shift(x, (idx + w - 2 - j) as nat);
        }
        lemma_load_be_window(s1, s2, idx, (w - 1) as nat);
        lemma_load_store_be(s, idx, (w - 1) as nat, x / 256);
        lemma_digit_zero(x);
        lemma_mod_pow256_split(x, (w - 1) as nat);
    }
}

/// The bytes of a little-endian number are the bytes it was read from.
proof fn lemma_digits_of_load_le(s: Seq<u8>, idx: int, w: nat, k: nat)
    requires
        0 <= idx,
        idx + w <= s.len(),
        k < w,
    ensures
        digit(load_le(s, idx, w), k) == s[idx + k],
    decreases w,
{
    let b = s[idx] as int;
    let rest = load_le(s, idx + 1, (w - 1) as nat) as int;
    lemma_mod_multiples_vanish(rest, b, 256);
    lemma_div_multiples_vanish_fancy(rest, b, 256);
    lemma_small_mod(b as nat, 256);
    if k == 0 {
        lemma_digit_zero(load_le(s, idx, w));
    } else {
        lemma_digit_shift(load_le(s, idx, w), (k - 1) as nat);
        lemma_digits_of_load_le(s, idx + 1, (w - 1) as nat, (k - 1) as nat);
    }
}

/// The bytes of a big-endian number are the bytes it was read from.
proof fn lemma_digits_of_load_be(s: Seq<u8>, idx: int, w: nat, k: nat)
    requires
        0 <= idx,
        idx + w <= s.len(),
        k < w,
    ensures
        digit(load_be(s, idx, w), k) == s[idx + w - 1 - k],
    decreases w,
{
    let b = s[idx + w - 1] as int;
    let rest = load_be(s, idx, (w - 1) as nat) as int;
    lemma_mod_multiples_vanish(rest, b, 256);
    lemma_div_multiples_vanish_fancy(rest, b, 256);
    lemma_small_mod(b as nat, 256);
    if k == 0 {
        lemma_digit_zero(load_be(s, idx, w));
    } else {
        lemma_digit_shift(load_be(s, idx, w), (k - 1) as nat);
        lemma_digits_of_load_be(s, idx, (w - 1) as nat, (k - 1) as nat);
    }
}

/// Writing back the number that was read changes nothing.
proof fn lemma_store_load(s: Seq<u8>, idx: int, w: nat, big_endian: bool)
    requires
        0 <= idx,
        idx + w <= s.len(),
    ensures
        store(s, idx, w, load(s, idx, w, big_endian), big_endian) == s,
{
    if big_endian {
        assert forall|j: int| idx <= j < idx + w implies #[trigger] digit(
            load_be(s, idx, w),
            (idx + w - 1 - j) as nat,
        ) == s[j] by {
            lemma_digits_of_load_be(s, idx, w, (idx + w - 1 - j) as nat);
        }
        assert(store_be(s, idx, w, load_be(s, idx, w)) =~= s);
    } else {
        assert forall|j: int| idx <= j < idx + w implies #[trigger] digit(
            load_le(s, idx, w),
            (j - idx) as nat,
        ) == s[j] by {
            lemma_digits_of_load_le(s, idx, w, (j - idx) as nat);
        }
        assert(store_le(s, idx, w, load_le(s, idx, w)) =~= s);
    }
}

/// Law: reading a `w`-byte number back after writing `x` there, in the same byte order
/// and within bounds, gives `x` reduced to `w` bytes.
pub proof fn lemma_load_store(s: Seq<u8>, idx: int, w: nat, x: nat, big_endian: bool)
    requires
        0 <= idx,
        idx + w <= s.len(),
    ensures
        load(store(s, idx, w, x, big_endian), idx, w, big_endian) == x % pow256(w),
{
    if big_endian {
        lemma_load_store_be(s, idx, w, x);
    } else {
        lemma_load_store_le(s, idx, w, x);
    }
}

/// Law: writing a number of `w` bytes leaves the length and every byte outside the
/// `w` bytes at `idx` unchanged.
pub proof fn lemma_store_frame(s: Seq<u8>, idx: int, w: nat, x: nat, big_endian: bool, j: int)
    requires
        0 <= j < s.len(),
        !(idx <= j < idx + w),
    ensures
        store(s, idx, w, x, big_endian).len() == s.len(),
        store(s, idx, w, x, big_endian)[j] == s[j],
{
}

/// Law: within bounds, subtracting `num` undoes adding it (and adding undoes
/// subtracting), in either byte order and for any width.
pub proof fn lemma_word_arith_inverse(s: Seq<u8>, idx: int, w: nat, num: int, big_endian: bool)
    requires
        0 <= idx,
        idx + w <= s.len(),
    ensures
        spec_word_arith(spec_word_arith(s, idx, w, num, big_endian), idx, w, -num, big_endian)
            == s,
{
    let p = pow256(w) as int;
    lemma_pow256_pos(w);
    let v = load(s, idx, w, big_endian);
    if big_endian {
        lemma_load_be_bound(s, idx, w);
    } else {
        lemma_load_le_bound(s, idx, w);
    }
    let x = wrap(v + num, w);
    let s1 = store(s, idx, w, x, big_endian);
    lemma_load_store(s, idx, w, x, big_endian);
    lemma_mod_twice(v + num, p);
    assert(load(s1, idx, w, big_endian) == x);
    lemma_add_mod_noop(v + num, -num, p);
    lemma_add_mod_noop(x as int, -num, p);
    lemma_mod_twice(v + num, p);
    lemma_small_mod(v, p as nat);
    assert(wrap(x - num, w) == v);
    assert(store(s1, idx, w, v, big_endian) =~= store(s, idx, w, v, big_endian));
    lemma_store_load(s, idx, w, big_endian);
}
} // verus!

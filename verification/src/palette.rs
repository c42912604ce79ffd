//! Palette synthesis and nearest-level lookup.

use vstd::prelude::*;

verus! {

/// Absolute difference of two integers.
pub open spec fn abs_diff(a: int, b: int) -> int {
    if a >= b {
        a - b
    } else {
        b - a
    }
}

/// The palette entry among the first `i` entries of `p` that minimizes the
/// absolute difference to `v`; on a tie the earlier entry wins.
pub open spec fn closest_upto(p: Seq<u8>, v: u8, i: int) -> u8
    recommends
        p.len() > 0,
        1 <= i <= p.len(),
    decreases i,
{
    if i <= 1 {
        p[0]
    } else {
        let prev = closest_upto(p, v, i - 1);
        if abs_diff(v as int, p[i - 1] as int) < abs_diff(v as int, prev as int) {
            p[i - 1]
        } else {
            prev
        }
    }
}

/// The palette entry of `p` nearest to `v`, earlier entry winning ties;
/// 0 for an empty palette.
pub open spec fn closest_spec(p: Seq<u8>, v: u8) -> u8 {
    if p.len() == 0 {
        0
    } else {
        closest_upto(p, v, p.len() as int)
    }
}

pub proof fn lemma_closest_upto_member(p: Seq<u8>, v: u8, i: int)
    requires
        p.len() > 0,
        1 <= i <= p.len(),
    ensures
        exists|j: int| 0 <= j < i && p[j] == closest_upto(p, v, i),
    decreases i,
{
    if i <= 1 {
        assert(p[0] == closest_upto(p, v, i));
    } else {
        lemma_closest_upto_member(p, v, i - 1);
    }
}

pub proof fn lemma_closest_upto_minimal(p: Seq<u8>, v: u8, i: int)
    requires
        p.len() > 0,
        1 <= i <= p.len(),
    ensures
        forall|j: int|
            0 <= j < i ==> abs_diff(v as int, closest_upto(p, v, i) as int) <= abs_diff(
                v as int,
                (#[trigger] p[j]) as int,
            ),
    decreases i,
{
    if i > 1 {
        lemma_closest_upto_minimal(p, v, i - 1);
    }
}

/// A value that already is a palette entry is its own nearest level.
pub proof fn lemma_closest_fixed(p: Seq<u8>, v: u8)
    requires
        p.len() > 0,
        exists|j: int| 0 <= j < p.len() && p[j] == v,
    ensures
        closest_spec(p, v) == v,
{
    let j = choose|j: int| 0 <= j < p.len() && p[j] == v;
    lemma_closest_upto_minimal(p, v, p.len() as int);
    assert(abs_diff(v as int, closest_spec(p, v) as int) <= abs_diff(v as int, p[j] as int));
}

/// Returns the palette entry nearest to `value` in absolute difference,
/// the earlier entry winning ties, or 0 for an empty palette.
pub fn find_closest_color(palette: &Vec<u8>, value: u8) -> (r: u8)
    ensures
        r == closest_spec(palette@, value),
{
    if palette.len() == 0 {
        return 0;
    }
    let mut closest: u8 = palette[0];
    let mut smallest_diff: i16 = if value >= closest {
        (value - closest) as i16
    } else {
        (closest - value) as i16
    };
    let mut i: usize = 0;
    while i < palette.len()
        invariant
            palette@.len() > 0,
            i <= palette@.len(),
            closest == closest_upto(palette@, value, if i == 0 { 1int } else { i as int }),
            smallest_diff as int == abs_diff(value as int, closest as int),
        decreases palette@.len() - i,
    {
        let color = palette[i];
        let diff: i16 = if value >= color {
            (value - color) as i16
        } else {
            (color - value) as i16
        };
        if diff < smallest_diff {
            smallest_diff = diff;
            closest = color;
        }
        i = i + 1;
    }
    closest
}

/// The `i`-th level of a palette of `k >= 2` evenly spaced levels.
pub open spec fn palette_level(i: int, k: int) -> int
    recommends
        k >= 2,
{
    (i * 255) / (k - 1)
}

/// Generates an ordered palette of evenly spaced 8-bit levels.  A requested
/// size of 0 or 1 is normalized to the two endpoints `[0, 255]`.
pub fn gen_palette(size: usize) -> (p: Vec<u8>)
    ensures
        size <= 1 ==> p@ =~= seq![0u8, 255u8],
        size >= 2 ==> p@.len() == size,
        size >= 2 ==> forall|i: int|
            0 <= i < size ==> (#[trigger] p@[i]) as int == palette_level(i, size as int),
        size >= 2 ==> p@[0] == 0 && p@[p@.len() - 1] == 255,
        2 <= size <= 256 ==> forall|i: int, j: int| 0 <= i < j < size ==> p@[i] < p@[j],
        p@.len() >= 2,
{
    if size <= 1 {
        let mut p: Vec<u8> = Vec::new();
        p.push(0);
        p.push(255);
        return p;
    }
    let mut p: Vec<u8> = Vec::new();
    let mut i: usize = 0;
    while i < size
        invariant
            2 <= size,
            i <= size,
            p@.len() == i,
            forall|j: int| 0 <= j < i ==> (#[trigger] p@[j]) as int == palette_level(j, size as int),
        decreases size - i,
    {
        let value = ((i as u128 * 255) / (size as u128 - 1)) as u8;
        proof {
            assert(i * 255 <= (size - 1) * 255) by (nonlinear_arith)
                requires
                    i <= size - 1,
                    i >= 0,
            ;
            assert((i as int * 255) / (size as int - 1) <= ((size as int - 1) * 255) / (size as int
                - 1)) by {
                vstd::arithmetic::div_mod::lemma_div_is_ordered(
                    i as int * 255,
                    (size as int - 1) * 255,
                    size as int - 1,
                );
            }
            assert(((size as int - 1) * 255) / (size as int - 1) == 255) by (nonlinear_arith)
                requires
                    size >= 2,
            ;
        }
        p.push(value);
        i = i + 1;
    }
    proof {
        vstd::arithmetic::div_mod::lemma_div_of0(size as int - 1);
        assert(palette_level(0, size as int) == 0);
        assert(((size as int - 1) * 255) / (size as int - 1) == 255) by (nonlinear_arith)
            requires
                size >= 2,
        ;
        assert(palette_level(size as int - 1, size as int) == 255);
        if size <= 256 {
            lemma_palette_shape(size as int);
        }
    }
    p
}

/// The levels of a generated palette of size `2 <= k <= 256` are strictly
/// increasing, starting at 0 and ending at 255.
pub proof fn lemma_palette_shape(k: int)
    requires
        2 <= k <= 256,
    ensures
        palette_level(0, k) == 0,
        palette_level(k - 1, k) == 255,
        forall|i: int, j: int|
            0 <= i < j < k ==> #[trigger] palette_level(i, k) < #[trigger] palette_level(j, k),
{
    assert(palette_level(0, k) == 0);
    assert(((k - 1) * 255) / (k - 1) == 255) by (nonlinear_arith)
        requires
            k >= 2,
    ;
    assert forall|i: int, j: int| 0 <= i < j < k implies #[trigger] palette_level(i, k)
        < #[trigger] palette_level(j, k) by {
        lemma_palette_level_increases(i, j, k);
    }
}

proof fn lemma_palette_level_increases(i: int, j: int, k: int)
    requires
        2 <= k <= 256,
        0 <= i < j < k,
    ensures
        palette_level(i, k) < palette_level(j, k),
{
    // j * 255 >= i * 255 + 255 > i * 255 + (k - 1 - 1), and dividing by k - 1
    // advances the quotient whenever the dividend grows by at least k - 1.
    assert(j * 255 >= i * 255 + 255) by (nonlinear_arith)
        requires
            j >= i + 1,
    ;
    let d = k - 1;
    let q = (i * 255) / d;
    let r = (i * 255) % d;
    vstd::arithmetic::div_mod::lemma_fundamental_div_mod(i * 255, d);
    assert(i * 255 == d * q + r);
    assert(0 <= r < d);
    // j * 255 >= d * q + r + 255 >= d * (q + 1), so its quotient exceeds q.
    assert(j * 255 >= d * (q + 1)) by (nonlinear_arith)
        requires
            j * 255 >= d * q + r + 255,
            r >= 0,
            d <= 255,
    ;
    assert((j * 255) / d >= q + 1) by {
        vstd::arithmetic::div_mod::lemma_div_is_ordered(d * (q + 1), j * 255, d);
        assert((d * (q + 1)) / d == q + 1) by (nonlinear_arith)
            requires
                d >= 1,
        ;
    }
}

} // verus!

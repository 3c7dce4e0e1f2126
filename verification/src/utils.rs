use vstd::prelude::*;

verus! {

/// The value contributed by the lowest set bit of `x`: `0` for `x == 0`,
/// otherwise the largest power of two dividing `x`. Defined by recursion on
/// the binary representation: an odd number ends in a set bit worth `1`, and
/// halving an even number halves its lowest set bit.
pub open spec fn lowbit_spec(x: nat) -> nat
    decreases x,
{
    if x == 0 {
        0
    } else if x % 2 == 1 {
        1
    } else {
        2 * lowbit_spec(x / 2)
    }
}

/// `n` is a power of two (`1`, `2`, `4`, ...).
pub open spec fn is_pow2(n: nat) -> bool
    decreases n,
{
    if n == 0 {
        false
    } else if n == 1 {
        true
    } else {
        n % 2 == 0 && is_pow2(n / 2)
    }
}

/// A positive number's lowest set bit is at least one and at most the number
/// itself.
pub proof fn lemma_lowbit_bounds(x: nat)
    requires
        x >= 1,
    ensures
        1 <= lowbit_spec(x) <= x,
    decreases x,
{
    if x % 2 != 1 {
        vstd::arithmetic::div_mod::lemma_fundamental_div_mod(x as int, 2);
        lemma_lowbit_bounds(x / 2);
    }
}

/// The lowest set bit of a positive `x` is a power of two, and `x` reduced
/// modulo the next power of two leaves exactly that bit: the bits of `x`
/// below `lowbit_spec(x)` are clear and the bit at `lowbit_spec(x)` is set.
pub proof fn lemma_lowbit_is_lowest_set_bit(x: nat)
    requires
        x >= 1,
    ensures
        is_pow2(lowbit_spec(x)),
        x % (2 * lowbit_spec(x)) == lowbit_spec(x),
    decreases x,
{
    vstd::arithmetic::div_mod::lemma_fundamental_div_mod(x as int, 2);
    if x % 2 == 1 {
        assert(x % 2 == lowbit_spec(x));
    } else {
        let y = x / 2;
        lemma_lowbit_is_lowest_set_bit(y);
        let l = lowbit_spec(y);
        lemma_lowbit_bounds(y);
        let q = y as int / (2 * l) as int;
        vstd::arithmetic::div_mod::lemma_fundamental_div_mod(y as int, (2 * l) as int);
        assert(y == q * (2 * l) + l);
        assert(x == 2 * y == q * (4 * l) + 2 * l) by (nonlinear_arith)
            requires
                x == 2 * y,
                y == q * (2 * l) + l,
        ;
        vstd::arithmetic::div_mod::lemma_fundamental_div_mod_converse(
            x as int,
            (4 * l) as int,
            q,
            (2 * l) as int,
        );
        assert(lowbit_spec(x) == 2 * l);
        assert(is_pow2(2 * l));
    }
}

/// Adding a number whose lowest set bit is strictly higher does not disturb
/// the lowest set bit: the sum keeps the smaller one.
pub proof fn lemma_lowbit_add_smaller(x: nat, y: nat)
    requires
        x >= 1,
        y >= 1,
        lowbit_spec(x) < lowbit_spec(y),
    ensures
        lowbit_spec(x + y) == lowbit_spec(x),
    decreases x,
{
    vstd::arithmetic::div_mod::lemma_fundamental_div_mod(x as int, 2);
    vstd::arithmetic::div_mod::lemma_fundamental_div_mod(y as int, 2);
    if y % 2 == 1 {
        // `y` odd would put its lowest set bit at the very bottom, below
        // nothing: `lowbit_spec(x) < 1` is impossible.
        assert(lowbit_spec(y) == 1);
        lemma_lowbit_bounds(x);
        assert(false);
    }
    if x % 2 == 1 {
        // `y` is even, so `x + y` is odd.
        vstd::arithmetic::div_mod::lemma_fundamental_div_mod_converse(
            (x + y) as int,
            2,
            (x / 2 + y / 2) as int,
            1,
        );
    } else {
        // Both are even: halve and recurse.
        lemma_lowbit_add_smaller(x / 2, y / 2);
        vstd::arithmetic::div_mod::lemma_fundamental_div_mod_converse(
            (x + y) as int,
            2,
            (x / 2 + y / 2) as int,
            0,
        );
    }
}

/// Adding a positive number's lowest set bit to it produces a carry: the
/// lowest set bit of the sum is at least twice as high.
pub proof fn lemma_lowbit_add_equal(x: nat)
    requires
        x >= 1,
    ensures
        lowbit_spec(x + lowbit_spec(x)) >= 2 * lowbit_spec(x),
    decreases x,
{
    vstd::arithmetic::div_mod::lemma_fundamental_div_mod(x as int, 2);
    if x % 2 == 1 {
        // `x + 1` is even, so its lowest set bit is at least two.
        vstd::arithmetic::div_mod::lemma_fundamental_div_mod_converse(
            (x + 1) as int,
            2,
            (x / 2 + 1) as int,
            0,
        );
        lemma_lowbit_bounds(x / 2 + 1);
    } else {
        let y = x / 2;
        lemma_lowbit_add_equal(y);
        lemma_lowbit_bounds(y);
        vstd::arithmetic::div_mod::lemma_fundamental_div_mod_converse(
            (x + lowbit_spec(x)) as int,
            2,
            (y + lowbit_spec(y)) as int,
            0,
        );
    }
}

/// The two's-complement trick `x & (!x + 1)` isolates the lowest set bit.
proof fn lemma_lowbit_exec_form(x: usize)
    requires
        x > 0,
    ensures
        x & ((!x + 1) as usize) == lowbit_spec(x as nat),
    decreases x,
{
    if x % 2 == 1 {
        assert(x & ((!x + 1) as usize) == 1) by (bit_vector)
            requires
                x % 2 == 1,
        ;
    } else {
        let y = x / 2;
        lemma_lowbit_exec_form(y);
        assert(x & ((!x + 1) as usize) == 2 * (y & ((!y + 1) as usize))) by (bit_vector)
            requires
                x % 2 == 0 && x > 0 && y == x / 2,
        ;
    }
}

/// Value of the lowest set bit of `x`, and `0` for `x == 0`. The zero case is
/// explicit: relying on wraparound there would return a nonsense stride to the
/// tree traversals built on this function.
pub fn lowbit(x: usize) -> (r: usize)
    ensures
        r == lowbit_spec(x as nat),
{
    if x == 0 {
        0
    } else {
        proof {
            // For nonzero `x` the complement is below the all-ones word, so
            // adding one cannot overflow.
            assert(!x < !0usize) by (bit_vector)
                requires
                    x != 0,
            ;
            lemma_lowbit_exec_form(x);
        }
        x & (!x + 1)
    }
}

} // verus!

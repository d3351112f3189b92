use vstd::prelude::*;
use vstd::arithmetic::div_mod::{
    lemma_add_mod_noop, lemma_div_denominator, lemma_div_pos_is_pos, lemma_mod_add_multiples_vanish,
    lemma_mod_breakdown, lemma_mod_pos_bound, lemma_multiply_divide_lt, lemma_small_mod,
};

use crate::grid::{lemma_next_row, lemma_split_row_major};

verus! {

/// Coordinate `c` of an `n`-wide axis, moved along by half the axis and wrapped.
pub open spec fn half_turn(c: int, n: int) -> int {
    (c + n / 2) % n
}

/// Where the sample at flat position `t` of a shifted `n`-by-`n` array comes from: the
/// quadrants swapped, so the zero frequency sits at the centre.
pub open spec fn shifted_from(n: int, t: int) -> int {
    half_turn(t / n, n) * n + half_turn(t % n, n)
}

/// An `n`-by-`n` row-major array with its quadrants swapped.
pub open spec fn shifted<T>(data: Seq<T>, n: int) -> Seq<T> {
    Seq::new((n * n) as nat, |t: int| data[shifted_from(n, t)])
}

/// Moving half an even axis along twice is going all the way round.
pub proof fn lemma_half_turn_twice(c: int, n: int)
    requires
        n > 0,
        n % 2 == 0,
        0 <= c < n,
    ensures
        half_turn(half_turn(c, n), n) == c,
        0 <= half_turn(c, n) < n,
{
    let h = n / 2;
    lemma_mod_pos_bound(c + h, n);
    lemma_add_mod_noop(c + h, h, n);
    lemma_small_mod(h as nat, n as nat);
    assert(c + h + h == n + c);
    lemma_mod_add_multiples_vanish(c, n);
    lemma_small_mod(c as nat, n as nat);
}

/// A shifted sample of an `n`-by-`n` array comes from inside it.
pub proof fn lemma_shifted_from_in_range(n: int, t: int)
    requires
        n > 0,
        0 <= t < n * n,
    ensures
        0 <= shifted_from(n, t) < n * n,
        0 <= t / n < n,
        0 <= t % n < n,
{
    lemma_mod_pos_bound(t, n);
    lemma_div_pos_is_pos(t, n);
    lemma_multiply_divide_lt(t, n, n);
    let (y, x) = (half_turn(t / n, n), half_turn(t % n, n));
    lemma_mod_pos_bound(t / n + n / 2, n);
    lemma_mod_pos_bound(t % n + n / 2, n);
    assert(0 <= y * n + x < n * n) by (nonlinear_arith)
        requires
            0 <= y < n,
            0 <= x < n,
    ;
}

/// Shifting an even-sized array twice returns it: the shift is its own inverse, which is
/// what lets one call both centre a spectrum and un-centre it.
pub proof fn lemma_shift_twice_is_identity<T>(data: Seq<T>, n: int)
    requires
        n > 0,
        n % 2 == 0,
        n * n <= data.len(),
    ensures
        shifted(shifted(data, n), n) =~= data.take(n * n),
{
    assert forall|t: int| 0 <= t < n * n implies #[trigger] shifted(shifted(data, n), n)[t] == data[t] by {
        lemma_shifted_from_in_range(n, t);
        let (y, x) = (t / n, t % n);
        let s = shifted_from(n, t);
        lemma_half_turn_twice(y, n);
        lemma_half_turn_twice(x, n);
        lemma_split_row_major(s, n, half_turn(x, n), half_turn(y, n));
        assert(shifted_from(n, s) == y * n + x);
        vstd::arithmetic::div_mod::lemma_fundamental_div_mod(t, n);
        assert(y * n + x == t) by (nonlinear_arith)
            requires
                t == n * (t / n) + t % n,
                y == t / n,
                x == t % n,
        ;
    }
}

/// `2^k`.
pub open spec fn two_to(k: nat) -> nat
    decreases k,
{
    if k == 0 {
        1
    } else {
        2 * two_to((k - 1) as nat)
    }
}

/// Whether `n` is a power of two, one included.
pub open spec fn power_of_two(n: nat) -> bool
    decreases n,
{
    if n == 1 {
        true
    } else if n < 2 {
        false
    } else {
        n % 2 == 0 && power_of_two(n / 2)
    }
}

/// How many times `n` halves before it reaches one: `log2 n` for a power of two.
pub open spec fn halvings(n: nat) -> nat
    decreases n,
{
    if n <= 1 {
        0
    } else {
        1 + halvings(n / 2)
    }
}

/// The low `k` bits of `i`, in reverse order: the lowest bit of `i` becomes the highest.
pub open spec fn reversed(i: int, k: nat) -> int
    decreases k,
{
    if k == 0 {
        0
    } else {
        reversed(i / 2, (k - 1) as nat) + (i % 2) * two_to((k - 1) as nat)
    }
}

/// The order a radix-two transform wants its input in: sample `p` taken from position
/// `reversed(p, log2 n)`.
pub open spec fn bit_reversed<T>(data: Seq<T>) -> Seq<T> {
    Seq::new(data.len(), |p: int| data[reversed(p, halvings(data.len()))])
}

/// A number halves no more times than it is large.
pub proof fn lemma_halvings_small(n: nat)
    ensures
        halvings(n) <= n,
    decreases n,
{
    if n > 1 {
        lemma_halvings_small(n / 2);
    }
}

/// A power of two is two to the number of times it halves.
pub proof fn lemma_power_of_two_is_two_to_its_halvings(n: nat)
    requires
        power_of_two(n),
    ensures
        two_to(halvings(n)) == n,
    decreases n,
{
    if n > 1 {
        lemma_power_of_two_is_two_to_its_halvings(n / 2);
    }
}

/// A reversed index stays inside the range it was reversed over.
pub proof fn lemma_reversed_in_range(i: int, k: nat)
    requires
        0 <= i,
    ensures
        0 <= reversed(i, k) < two_to(k),
    decreases k,
{
    if k > 0 {
        lemma_div_pos_is_pos(i, 2);
        lemma_mod_pos_bound(i, 2);
        lemma_reversed_in_range(i / 2, (k - 1) as nat);
        let m = two_to((k - 1) as nat) as int;
        if i % 2 == 0 {
            assert((i % 2) * m == 0);
        } else {
            let b = i % 2;
            assert(b == 1);
            assert(b * m == m) by (nonlinear_arith)
                requires
                    b == 1,
            ;
        }
    }
}

/// Reversing `k + 1` bits peels the highest bit off as well as the lowest: the top bit of `i`
/// becomes the bottom bit of the result.
pub proof fn lemma_reversed_from_the_top(i: int, k: nat)
    requires
        0 <= i < two_to(k + 1),
    ensures
        reversed(i, k + 1) == 2 * reversed(i % (two_to(k) as int), k) + i / (two_to(k) as int),
    decreases k,
{
    if k == 0 {
        assert(two_to(1) == 2) by {
            reveal_with_fuel(two_to, 2);
        }
        assert(two_to(0) == 1);
        lemma_small_mod(i as nat, 2);
        assert(reversed(i, 1) == reversed(i / 2, 0) + (i % 2) * 1);
        assert(i / 1 == i && i % 1 == 0);
    } else {
        let m = two_to((k - 1) as nat) as int;
        assert(two_to(k) == 2 * m);
        assert(m > 0) by {
            lemma_two_to_positive((k - 1) as nat);
        }
        lemma_div_pos_is_pos(i, 2);
        assert(i / 2 < two_to(k)) by {
            lemma_multiply_divide_lt(i, 2, two_to(k) as int);
        }
        lemma_reversed_from_the_top(i / 2, (k - 1) as nat);
        lemma_mod_breakdown(i, 2, m);
        lemma_mod_pos_bound(i, 2);
        lemma_mod_pos_bound(i / 2, m);
        lemma_mod_pos_bound(i, 2 * m);
        let low = i % 2;
        let mid = (i / 2) % m;
        assert(i % (2 * m) == mid * 2 + low);
        lemma_split_row_major(i % (2 * m), 2, low, mid);
        lemma_div_denominator(i, 2, m);
        assert(i % (2 * m) / 2 == mid && (i % (2 * m)) % 2 == low);
        assert(reversed(i % (2 * m), k) == reversed(mid, (k - 1) as nat) + low * m);
        assert(low * (2 * m) == 2 * (low * m)) by (nonlinear_arith);
        assert(reversed(i, k + 1) == reversed(i / 2, k) + low * (2 * m));
        assert(reversed(i / 2, k) == 2 * reversed(mid, (k - 1) as nat) + (i / 2) / m);
    }
}

/// Every power of two is positive.
pub proof fn lemma_two_to_positive(k: nat)
    ensures
        two_to(k) >= 1,
    decreases k,
{
    if k > 0 {
        lemma_two_to_positive((k - 1) as nat);
    }
}

/// Reversing twice is the identity: bit reversal pairs indices up, which is why one pass of
/// swaps puts every sample where it belongs.
pub proof fn lemma_reversed_twice(i: int, k: nat)
    requires
        0 <= i < two_to(k),
    ensures
        reversed(reversed(i, k), k) == i,
    decreases k,
{
    if k > 0 {
        let k1 = (k - 1) as nat;
        let m = two_to(k1) as int;
        lemma_two_to_positive(k1);
        lemma_div_pos_is_pos(i, 2);
        lemma_mod_pos_bound(i, 2);
        assert(i / 2 < m) by {
            lemma_multiply_divide_lt(i, 2, m);
        }
        let inner = reversed(i / 2, k1);
        lemma_reversed_in_range(i / 2, k1);
        let r = reversed(i, k);
        assert(r == inner + (i % 2) * m);
        lemma_reversed_in_range(i, k);
        lemma_reversed_from_the_top(r, k1);
        lemma_split_row_major(r, m, inner, i % 2);
        lemma_reversed_twice(i / 2, k1);
        vstd::arithmetic::div_mod::lemma_fundamental_div_mod(i, 2);
    }
}

/// Powers of two grow with their exponent.
pub proof fn lemma_two_to_monotone(a: nat, b: nat)
    requires
        a <= b,
    ensures
        two_to(a) <= two_to(b),
    decreases b,
{
    if a < b {
        lemma_two_to_monotone(a, (b - 1) as nat);
    }
}

/// The low `bits` bits of `i`, reversed.
fn reverse_bits(i: usize, bits: usize) -> (r: usize)
    requires
        two_to(bits as nat) <= usize::MAX,
    ensures
        r == reversed(i as int, bits as nat),
{
    let mut j: usize = 0;
    let mut x: usize = i;
    for t in 0..bits
        invariant
            two_to(bits as nat) <= usize::MAX,
            reversed(i as int, bits as nat) == j * two_to((bits - t) as nat) + reversed(
                x as int,
                (bits - t) as nat,
            ),
            j < two_to(t as nat),
    {
        let ghost rest = (bits - t - 1) as nat;
        proof {
            lemma_two_to_monotone((t + 1) as nat, bits as nat);
            assert(two_to((bits - t) as nat) == 2 * two_to(rest));
            assert(two_to((t + 1) as nat) == 2 * two_to(t as nat));
            assert(reversed(x as int, (bits - t) as nat) == reversed(x as int / 2, rest) + (x as int % 2) * two_to(rest));
            let m = two_to(rest) as int;
            let jj = j as int;
            let b = (x % 2) as int;
            assert(jj * (2 * m) + b * m == (2 * jj + b) * m) by (nonlinear_arith);
        }
        j = 2 * j + x % 2;
        x = x / 2;
    }
    proof {
        assert(two_to(0) == 1);
        assert(reversed(x as int, 0) == 0);
        assert(j * two_to(0) == j);
    }
    j
}

/// Put a power-of-two-long array in bit-reversed order, the order a radix-two transform
/// wants its input in: one pass of swaps, each index with its reverse when that is larger.
pub fn bit_reverse_order<T: Copy>(data: &mut Vec<T>)
    requires
        power_of_two(old(data)@.len()),
    ensures
        final(data)@ == bit_reversed(old(data)@),
{
    let n = data.len();
    let ghost start = data@;
    let mut bits: usize = 0;
    let mut m: usize = n;
    proof {
        lemma_halvings_small(n as nat);
    }
    while m > 1
        invariant
            halvings(n as nat) == bits + halvings(m as nat),
            power_of_two(m as nat),
            halvings(n as nat) <= n,
            m >= 1,
        decreases m,
    {
        m = m / 2;
        bits = bits + 1;
    }
    proof {
        lemma_power_of_two_is_two_to_its_halvings(n as nat);
    }
    let ghost k = bits as nat;
    assert forall|p: int| 0 <= p < n implies #[trigger] data@[p] == start[if p < 0 || reversed(p, k) < 0 {
        reversed(p, k)
    } else {
        p
    }] by {
        lemma_reversed_in_range(p, k);
    }
    for i in 0..n
        invariant
            n == start.len(),
            k == halvings(n as nat),
            bits == k,
            two_to(k) == n,
            data@.len() == n,
            forall|p: int|
                0 <= p < n ==> #[trigger] data@[p] == start[if p < i || reversed(p, k) < i {
                    reversed(p, k)
                } else {
                    p
                }],
    {
        let j = reverse_bits(i, bits);
        proof {
            lemma_reversed_in_range(i as int, k);
            lemma_reversed_twice(i as int, k);
        }
        if i < j {
            let a = data[i];
            let b = data[j];
            data.set(i, b);
            data.set(j, a);
        }
        assert forall|p: int|
            0 <= p < n implies #[trigger] data@[p] == start[if p < i + 1 || reversed(p, k) < i + 1 {
                reversed(p, k)
            } else {
                p
            }] by {
            lemma_reversed_in_range(p, k);
            lemma_reversed_twice(p, k);
        }
    }
    assert(data@ =~= bit_reversed(start));
}

/// Putting an array in bit-reversed order twice leaves it as it was: the reordering is its
/// own inverse, as the pairing of each index with its reverse says.
pub proof fn lemma_bit_reversal_undoes_itself<T>(data: Seq<T>)
    requires
        power_of_two(data.len()),
    ensures
        bit_reversed(bit_reversed(data)) =~= data,
{
    let k = halvings(data.len());
    lemma_power_of_two_is_two_to_its_halvings(data.len());
    assert forall|p: int| 0 <= p < data.len() implies #[trigger] bit_reversed(bit_reversed(data))[p] == data[p] by {
        lemma_reversed_in_range(p, k);
        lemma_reversed_twice(p, k);
    }
}

/// Swap quadrants so the zero frequency sits at the centre of an `n`-by-`n` row-major array.
///
/// Its own inverse for an even `n` (see [`lemma_shift_twice_is_identity`]).
pub fn fftshift<T: Copy>(data: &[T], n: usize) -> (out: Vec<T>)
    requires
        n * n <= data@.len(),
    ensures
        out@ == shifted(data@, n as int),
{
    let half = n / 2;
    let _len = data.len();
    let mut out: Vec<T> = Vec::new();
    if n == 0 {
        assert(out@ =~= shifted(data@, 0));
        return out;
    }
    assert(out@.len() == 0 * n);
    for y in 0..n
        invariant
            n > 0,
            half == n / 2,
            n * n <= data@.len(),
            data@.len() <= usize::MAX,
            out@.len() == y * n,
            forall|t: int| 0 <= t < out@.len() ==> #[trigger] out@[t] == data@[shifted_from(n as int, t)],
    {
        for x in 0..n
            invariant
                n > 0,
                half == n / 2,
                y < n,
                n * n <= data@.len(),
                data@.len() <= usize::MAX,
                out@.len() == y * n + x,
                forall|t: int| 0 <= t < out@.len() ==> #[trigger] out@[t] == data@[shifted_from(n as int, t)],
        {
            assert(x + half < 2 * n && y + half < 2 * n && 2 * n <= n * n + 1) by (nonlinear_arith)
                requires
                    x < n,
                    y < n,
                    half == n / 2,
                    n > 0,
            ;
            let sx = (x + half) % n;
            let sy = (y + half) % n;
            proof {
                lemma_split_row_major(y * n + x, n as int, x as int, y as int);
                assert(0 <= sy * n + sx < n * n) by (nonlinear_arith)
                    requires
                        0 <= sy < n,
                        0 <= sx < n,
                ;
            }
            out.push(data[sy * n + sx]);
        }
        proof {
            lemma_next_row(y as int, n as int);
        }
    }
    assert(out@ =~= shifted(data@, n as int));
    out
}

} // verus!

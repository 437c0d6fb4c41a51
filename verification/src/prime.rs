//! The Goldilocks modulus is prime, so the field has no zero divisors.

use vstd::arithmetic::div_mod::*;
use vstd::arithmetic::power::*;
use vstd::prelude::*;
use vstd::relations::injective_on;
use vstd::set_lib::*;

use crate::field::{is_zero, p};

verus! {

/// An element of multiplicative order `2^32`.
spec fn root() -> int {
    1753635133440165772
}

/// The order of [`root`], `2^32`.
spec fn order() -> nat {
    4294967296
}

/// The square of a power, reduced.
proof fn lemma_square_step(g: int, e: nat, x: int, y: int)
    requires
        pow(g, e) % p() == x,
        (x * x) % p() == y,
    ensures
        pow(g, 2 * e) % p() == y,
{
    lemma_pow_adds(g, e, e);
    lemma_mul_mod_noop_general(pow(g, e), pow(g, e), p());
}

/// `root^(2^31) == -1`, by a chain of squarings.
#[verifier::rlimit(50)]
proof fn lemma_root_half()
    ensures
        pow(root(), 2147483648) % p() == p() - 1,
{
    lemma_pow1(root());
    lemma_square_step(1753635133440165772, 1, 1753635133440165772, 4614640910117430873);
    lemma_square_step(1753635133440165772, 2, 4614640910117430873, 9123114210336311365);
    lemma_square_step(1753635133440165772, 4, 9123114210336311365, 16116352524544190054);
    lemma_square_step(1753635133440165772, 8, 16116352524544190054, 6414415596519834757);
    lemma_square_step(1753635133440165772, 16, 6414415596519834757, 1213594585890690845);
    lemma_square_step(1753635133440165772, 32, 1213594585890690845, 17096174751763063430);
    lemma_square_step(1753635133440165772, 64, 17096174751763063430, 5456943929260765144);
    lemma_square_step(1753635133440165772, 128, 5456943929260765144, 9713644485405565297);
    lemma_square_step(1753635133440165772, 256, 9713644485405565297, 16905767614792059275);
    lemma_square_step(1753635133440165772, 512, 16905767614792059275, 5416168637041100469);
    lemma_square_step(1753635133440165772, 1024, 5416168637041100469, 17654865857378133588);
    lemma_square_step(1753635133440165772, 2048, 17654865857378133588, 3511170319078647661);
    lemma_square_step(1753635133440165772, 4096, 3511170319078647661, 18146160046829613826);
    lemma_square_step(1753635133440165772, 8192, 18146160046829613826, 9306717745644682924);
    lemma_square_step(1753635133440165772, 16384, 9306717745644682924, 12380578893860276750);
    lemma_square_step(1753635133440165772, 32768, 12380578893860276750, 6115771955107415310);
    lemma_square_step(1753635133440165772, 65536, 6115771955107415310, 17776499369601055404);
    lemma_square_step(1753635133440165772, 131072, 17776499369601055404, 16207902636198568418);
    lemma_square_step(1753635133440165772, 262144, 16207902636198568418, 1532612707718625687);
    lemma_square_step(1753635133440165772, 524288, 1532612707718625687, 17492915097719143606);
    lemma_square_step(1753635133440165772, 1048576, 17492915097719143606, 455906449640507599);
    lemma_square_step(1753635133440165772, 2097152, 455906449640507599, 11353340290879379826);
    lemma_square_step(1753635133440165772, 4194304, 11353340290879379826, 1803076106186727246);
    lemma_square_step(1753635133440165772, 8388608, 1803076106186727246, 13797081185216407910);
    lemma_square_step(1753635133440165772, 16777216, 13797081185216407910, 17870292113338400769);
    lemma_square_step(1753635133440165772, 33554432, 17870292113338400769, 549755813888);
    lemma_square_step(1753635133440165772, 67108864, 549755813888, 70368744161280);
    lemma_square_step(1753635133440165772, 134217728, 70368744161280, 17293822564807737345);
    lemma_square_step(1753635133440165772, 268435456, 17293822564807737345, 18446744069397807105);
    lemma_square_step(1753635133440165772, 536870912, 18446744069397807105, 281474976710656);
    lemma_square_step(1753635133440165772, 1073741824, 281474976710656, 18446744069414584320);
}

/// Modulo a divisor of the prime, `root^(2^31)` is `-1` and `root^(2^32)` is `1`.
proof fn lemma_root_mod_divisor(q: int)
    requires
        1 < q,
        p() % q == 0,
    ensures
        (pow(root(), 2147483648) + 1) % q == 0,
        pow(root(), order()) % q == 1,
{
    lemma_root_half();
    let h = pow(root(), 2147483648);
    lemma_fundamental_div_mod(h, p());
    lemma_fundamental_div_mod(p(), q);
    let k = h / p();
    let m = p() / q;
    assert(h + 1 == p() * (k + 1)) by (nonlinear_arith)
        requires
            h == p() * k + (p() - 1),
    ;
    assert(h + 1 == (m * (k + 1)) * q) by (nonlinear_arith)
        requires
            h + 1 == p() * (k + 1),
            p() == q * m,
    ;
    lemma_mod_multiples_basic(m * (k + 1), q);
    lemma_pow_adds(root(), 2147483648, 2147483648);
    assert(pow(root(), order()) == h * h);
    let t = m * (k + 1);
    assert(h * h == q * (t * (h - 1)) + 1) by (nonlinear_arith)
        requires
            h + 1 == t * q,
    ;
    lemma_fundamental_div_mod_converse(h * h, q, t * (h - 1), 1);
}

/// Powers at multiples of the order are `1`.
proof fn lemma_full_cycles(q: int, t: nat)
    requires
        1 < q,
        p() % q == 0,
    ensures
        pow(root(), order() * t) % q == 1,
{
    lemma_root_mod_divisor(q);
    lemma_pow_multiplies(root(), order(), t);
    lemma_pow_mod_noop(pow(root(), order()), t, q);
    lemma1_pow(t);
    lemma_small_mod(1, q as nat);
}

/// No exponent that is not a multiple of the order gives `1`.
proof fn lemma_no_short_cycle(q: int, e: nat, n: nat)
    requires
        2 < q,
        p() % q == 0,
        e % order() != 0,
        n <= 32,
        (e * pow(2, n)) % (order() as int) == 0,
    ensures
        pow(root(), e) % q != 1,
    decreases n,
{
    if pow(root(), e) % q == 1 {
        if n == 0 {
            lemma_pow0(2);
            assert(e * pow(2, n) == e);
            assert(false);
        }
        lemma_pow_adds(root(), e, e);
        lemma_mul_mod_noop_general(pow(root(), e), pow(root(), e), q);
        lemma_small_mod(1, q as nat);
        assert(pow(root(), e + e) % q == 1);
        if (e + e) % order() == 0 {
            // `e` is an odd multiple of half the order, where the power is `-1`.
            let t = e / order();
            lemma_fundamental_div_mod(e as int, order() as int);
            assert(e == order() * t + 2147483648);
            lemma_pow_adds(root(), order() * t, 2147483648);
            lemma_full_cycles(q, t);
            let a = pow(root(), order() * t);
            let h = pow(root(), 2147483648);
            lemma_mul_mod_noop_left(a, h, q);
            assert(pow(root(), e) == a * h);
            assert((a * h) % q == ((a % q) * h) % q);
            assert((a % q) * h == h) by (nonlinear_arith)
                requires
                    a % q == 1,
            ;
            assert(h % q == 1);
            lemma_root_mod_divisor(q);
            lemma_add_mod_noop(h, 1, q);
            assert((h + 1) % q == 2int % q);
            lemma_small_mod(2, q as nat);
        } else {
            lemma_pow_adds(2, 1, (n - 1) as nat);
            lemma_pow1(2);
            let w = pow(2, (n - 1) as nat);
            assert((e + e) * w == e * (2 * w)) by (nonlinear_arith);
            lemma_no_short_cycle(q, e + e, (n - 1) as nat);
        }
    }
}

/// Distinct exponents below the order give distinct powers modulo a divisor.
proof fn lemma_powers_distinct(q: int, i: nat, j: nat)
    requires
        2 < q,
        p() % q == 0,
        i < j < order(),
    ensures
        pow(root(), i) % q != pow(root(), j) % q,
{
    if pow(root(), i) % q == pow(root(), j) % q {
        let e = (j - i) as nat;
        let c = (order() - i) as nat;
        lemma_pow_adds(root(), c, i);
        lemma_pow_adds(root(), c, j);
        lemma_mul_mod_noop_right(pow(root(), c), pow(root(), i), q);
        lemma_mul_mod_noop_right(pow(root(), c), pow(root(), j), q);
        assert(c + i == order());
        assert(c + j == order() + e);
        lemma_root_mod_divisor(q);
        assert(pow(root(), order() + e) % q == 1);
        lemma_pow_adds(root(), order(), e);
        lemma_mul_mod_noop_left(pow(root(), order()), pow(root(), e), q);
        assert((1 * pow(root(), e)) % q == 1);
        lemma_small_mod(e, order());
        assert(pow(2, 32) == order()) by {
            reveal(pow);
            vstd::arithmetic::power2::lemma2_to64();
            vstd::arithmetic::power2::lemma_pow2(32);
        }
        lemma_mod_multiples_basic(e as int, order() as int);
        lemma_no_short_cycle(q, e, 32);
    }
}

/// Every divisor of the modulus other than `1` is at least `2^32`.
proof fn lemma_divisor_large(q: int)
    requires
        1 < q,
        p() % q == 0,
    ensures
        q >= order(),
{
    assert(p() % 2 == 1);
    let f = |i: int| pow(root(), i as nat) % q;
    let x = set_int_range(0, order() as int);
    let y = x.map(f);
    lemma_int_range(0, order() as int);
    assert(injective_on(f, x)) by {
        assert forall|i: int, j: int|
            x.contains(i) && x.contains(j) && #[trigger] f(i) == #[trigger] f(j) implies i == j by {
            if i < j {
                lemma_powers_distinct(q, i as nat, j as nat);
            } else if j < i {
                lemma_powers_distinct(q, j as nat, i as nat);
            }
        }
    }
    lemma_map_size(x, y, f);
    lemma_int_range(0, q);
    assert forall|v: int| y.contains(v) implies set_int_range(0, q).contains(v) by {
        let i = choose|i: int| x.contains(i) && f(i) == v;
        lemma_mod_bound(pow(root(), i as nat), q);
    }
    lemma_len_subset(y, set_int_range(0, q));
}

/// The Goldilocks modulus is prime: nothing strictly between `1` and it
/// divides it.
pub proof fn goldilocks_is_prime(q: int)
    requires
        1 < q < p(),
    ensures
        p() % q != 0,
{
    if p() % q == 0 {
        lemma_divisor_large(q);
        let m = p() / q;
        lemma_fundamental_div_mod(p(), q);
        assert(p() == q * m);
        assert(m > 1) by (nonlinear_arith)
            requires
                p() == q * m,
                1 < q < p(),
        ;
        lemma_mod_multiples_basic(q, m);
        assert(p() % m == 0);
        lemma_divisor_large(m);
        assert(q * m >= order() * order()) by (nonlinear_arith)
            requires
                q >= order(),
                m >= order(),
        ;
    }
}

/// Reduces one factor of a vanishing product until it is `1`.
proof fn lemma_euclid(a: int, b: int)
    requires
        0 < a < p(),
        is_zero(a * b),
    ensures
        is_zero(b),
    decreases a,
{
    if a == 1 {
        assert(a * b == b) by (nonlinear_arith)
            requires
                a == 1,
        ;
    } else {
        goldilocks_is_prime(a);
        let r = p() % a;
        let k = p() / a;
        lemma_fundamental_div_mod(p(), a);
        lemma_mod_bound(p(), a);
        assert(r * b == b * p() - k * (a * b)) by (nonlinear_arith)
            requires
                p() == a * k + r,
        ;
        lemma_mod_multiples_basic(b, p());
        lemma_mul_mod_noop_right(k, a * b, p());
        assert(k * 0 == 0);
        lemma_sub_mod_noop(b * p(), k * (a * b), p());
        lemma_euclid(r, b);
    }
}

/// The field has no zero divisors: a product vanishes only where a factor
/// does.
pub proof fn no_zero_divisors(a: int, b: int)
    requires
        is_zero(a * b),
    ensures
        is_zero(a) || is_zero(b),
{
    if !is_zero(a) {
        lemma_mod_bound(a, p());
        lemma_mul_mod_noop_left(a, b, p());
        lemma_euclid(a % p(), b);
    }
}

/// A cell that passes the boolean check `b * (b - 1) == 0` is `0` or `1`.
pub proof fn bool_check_is_boolean(b: int)
    requires
        0 <= b < p(),
        is_zero(b * (b - 1)),
    ensures
        b == 0 || b == 1,
{
    no_zero_divisors(b, b - 1);
    if is_zero(b) {
        lemma_small_mod(b as nat, p() as nat);
    } else if b > 0 {
        lemma_small_mod((b - 1) as nat, p() as nat);
    }
}

/// A cell that passes the cubic check `q * (q - 1) * (q - 2) == 0` is `0`, `1`
/// or `2`.
pub proof fn cubic_check_is_ternary(q: int)
    requires
        0 <= q < p(),
        is_zero(q * (q - 1) * (q - 2)),
    ensures
        q == 0 || q == 1 || q == 2,
{
    no_zero_divisors(q * (q - 1), q - 2);
    if is_zero(q * (q - 1)) {
        bool_check_is_boolean(q);
    } else if q >= 2 {
        lemma_small_mod((q - 2) as nat, p() as nat);
    }
}

} // verus!

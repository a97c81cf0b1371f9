//! The primality oracle: a sieve for the small primes, the probabilistic
//! Rabin-Miller test for large candidates, and the random prime search.

use rand::Rng;
use vstd::prelude::*;

verus! {

use vstd::arithmetic::power::pow;
use vstd::arithmetic::power2::pow2;
use vstd::arithmetic::div_mod::{lemma_fundamental_div_mod, lemma_mod_multiples_basic};
use crate::arith::expmod;

/// `n` has no divisor strictly between 1 and itself.
pub open spec fn is_prime(n: nat) -> bool {
    n >= 2 && forall|d: nat| 2 <= d < n ==> #[trigger] (n % d) != 0
}

/// `k` has a divisor `d` with `2 <= d < i` whose square does not exceed `k`.
pub open spec fn has_divisor_below(k: int, i: int) -> bool {
    exists|d: int| 2 <= d < i && #[trigger] (k % d) == 0 && d * d <= k
}

/// A composite number has a divisor no larger than its square root.
proof fn lemma_composite_has_small_divisor(n: int)
    requires
        n >= 2,
        !is_prime(n as nat),
    ensures
        has_divisor_below(n, n),
{
    let dn = choose|d: nat| 2 <= d < n && #[trigger] ((n as nat) % d) == 0;
    let d = dn as int;
    assert(n % d == 0);
    if d * d <= n {
        assert(2 <= d < n && n % d == 0 && d * d <= n);
    } else {
        let e = n / d;
        lemma_fundamental_div_mod(n, d);
        assert(n == d * e);
        assert(e >= 2 && e < d) by (nonlinear_arith)
            requires
                n == d * e,
                d * d > n,
                2 <= d < n,
                e >= 0,
        {}
        lemma_mod_multiples_basic(d, e);
        assert(d * e == n);
        assert(n % e == 0);
        assert(e * e <= n) by (nonlinear_arith)
            requires
                n == d * e,
                e < d,
                e >= 2,
        {}
        assert(2 <= e < n && n % e == 0 && e * e <= n);
    }
}

/// Divisibility is transitive.
proof fn lemma_divides_transitive(d: int, i: int, k: int)
    requires
        1 <= d,
        1 <= i,
        0 <= k,
        i % d == 0,
        k % i == 0,
    ensures
        k % d == 0,
{
    lemma_fundamental_div_mod(i, d);
    lemma_fundamental_div_mod(k, i);
    let e = i / d;
    let m = k / i;
    assert(k == (e * m) * d) by (nonlinear_arith)
        requires
            i == d * e,
            k == i * m,
    {}
    lemma_mod_multiples_basic(e * m, d);
}

/// Two distinct multiples of `i` differ by at least `i`.
proof fn lemma_multiples_gap(a: int, b: int, i: int)
    requires
        1 <= i,
        0 <= a,
        a % i == 0,
        b % i == 0,
        a < b,
    ensures
        a + i <= b,
{
    lemma_fundamental_div_mod(a, i);
    lemma_fundamental_div_mod(b, i);
    assert(a + i <= b) by (nonlinear_arith)
        requires
            a == i * (a / i),
            b == i * (b / i),
            a < b,
            i >= 1,
    {}
}

/// The sieve of Eratosthenes: the primes below `num`, in increasing order.
pub fn generate_first_primes(num: usize) -> (primes: Vec<u128>)
    requires
        num <= 65536,
    ensures
        forall|j: int| 0 <= j < primes.len() ==> is_prime(#[trigger] primes[j] as nat),
        forall|j: int| 0 <= j < primes.len() ==> #[trigger] primes[j] < num,
        forall|p: int| 2 <= p < num && #[trigger] is_prime(p as nat) ==> primes@.contains(p as u128),
        forall|j1: int, j2: int| 0 <= j1 < j2 < primes.len() ==> primes[j1] < primes[j2],
{
    let mut primes: Vec<u128> = Vec::with_capacity(num);
    let mut candidates: Vec<usize> = Vec::with_capacity(num);
    let mut i: usize = 0;
    while i < num
        invariant
            candidates.len() == i <= num,
            forall|k: int| 0 <= k < i ==> candidates[k] == k,
        decreases num - i,
    {
        candidates.push(i);
        i += 1;
    }

    let mut i: usize = 2;
    while i < num
        invariant
            2 <= i,
            num <= 65536,
            i <= num || num <= 2,
            candidates.len() == num,
            forall|k: int| 2 <= k < num ==> (((#[trigger] candidates[k]) == 0)
                <==> has_divisor_below(k, i as int)),
            forall|k: int| 0 <= k < num ==> candidates[k] == 0 || candidates[k] == k,
            forall|j: int| 0 <= j < primes.len() ==> is_prime(#[trigger] primes[j] as nat),
            forall|j: int| 0 <= j < primes.len() ==> 2 <= #[trigger] primes[j] < i,
            num <= 2 ==> primes.len() == 0,
            forall|p: int| 2 <= p < i && #[trigger] is_prime(p as nat) ==> primes@.contains(p as u128),
            forall|j1: int, j2: int| 0 <= j1 < j2 < primes.len() ==> primes[j1] < primes[j2],
        decreases num - i,
    {
        if candidates[i] != 0 {
            proof {
                if !is_prime(i as nat) {
                    lemma_composite_has_small_divisor(i as int);
                }
            }
            let ghost old_primes = primes@;
            primes.push(i as u128);
            proof {
                assert(forall|j: int| 0 <= j < old_primes.len() ==> primes@[j] == old_primes[j]);
                assert(primes@[primes@.len() - 1] == i as u128);
                assert forall|p: int| 2 <= p < i + 1 && #[trigger] is_prime(p as nat) implies primes@.contains(
                    p as u128,
                ) by {
                    if p < i {
                        let j = choose|j: int|
                            0 <= j < old_primes.len() && old_primes[j] == p as u128;
                        assert(primes@[j] == p as u128);
                    } else {
                        assert(primes@[primes@.len() - 1] == p as u128);
                    }
                }
            }
            proof {
                assert(i * i <= 65535 * 65535) by (nonlinear_arith)
                    requires
                        i <= 65535,
                {}
                lemma_mod_multiples_basic(i as int, i as int);
            }
            let mut k: usize = i * i;
            while k < num
                invariant
                    2 <= i < num <= 65536,
                    candidates.len() == num,
                    i * i <= k,
                    (k as int) % (i as int) == 0,
                    forall|k2: int| 2 <= k2 < num ==> (((#[trigger] candidates[k2]) == 0) <==> (
                    has_divisor_below(k2, i as int) || (k2 % (i as int) == 0 && i * i <= k2
                        < k))),
                    forall|k2: int| 0 <= k2 < num ==> candidates[k2] == 0 || candidates[k2] == k2,
                decreases num + i - k,
            {
                let ghost prev = candidates@;
                let ghost kk = k as int;
                candidates[k] = 0;
                k += i;
                proof {
                    lemma_fundamental_div_mod(kk, i as int);
                    assert(k as int == (kk / (i as int) + 1) * (i as int)) by (nonlinear_arith)
                        requires
                            kk == (i as int) * (kk / (i as int)),
                            k as int == kk + i,
                    {}
                    lemma_mod_multiples_basic(kk / (i as int) + 1, i as int);
                    assert forall|k2: int| 2 <= k2 < num implies ((candidates[k2] == 0) <==> (
                    has_divisor_below(k2, i as int) || (k2 % (i as int) == 0 && i * i <= k2
                        < k))) by {
                        if k2 == kk {
                            assert(candidates[k2] == 0);
                        } else {
                            assert(candidates[k2] == prev[k2]);
                            if candidates[k2] != 0 && !has_divisor_below(k2, i as int) && k2 % (
                            i as int) == 0 && i * i <= k2 < k {
                                if k2 < kk {
                                    assert(prev[k2] == 0);
                                } else {
                                    lemma_multiples_gap(kk, k2, i as int);
                                }
                                assert(false);
                            }
                        }
                    }
                }
            }
            proof {
                assert forall|k2: int| 2 <= k2 < num implies ((candidates[k2] == 0)
                    <==> has_divisor_below(k2, i + 1)) by {
                    if candidates[k2] == 0 {
                        if has_divisor_below(k2, i as int) {
                            let d = choose|d: int|
                                2 <= d < i && #[trigger] (k2 % d) == 0 && d * d <= k2;
                            assert(2 <= d < i + 1 && k2 % d == 0 && d * d <= k2);
                        } else {
                            assert(k2 % (i as int) == 0 && i * i <= k2);
                            assert(2 <= i < i + 1 && k2 % (i as int) == 0 && (i as int) * (
                            i as int) <= k2);
                        }
                    } else {
                        if has_divisor_below(k2, i + 1) {
                            let d = choose|d: int|
                                2 <= d < i + 1 && #[trigger] (k2 % d) == 0 && d * d <= k2;
                            if d < i {
                                assert(2 <= d < i && k2 % d == 0 && d * d <= k2);
                                assert(has_divisor_below(k2, i as int));
                                assert(candidates[k2] == 0);
                            } else {
                                assert(d == i);
                                assert(k2 % (i as int) == 0);
                                assert((i as int) * (i as int) <= k2);
                                assert(k2 < k);
                                assert(candidates[k2] == 0);
                            }
                            assert(false);
                        }
                    }
                }
            }
        } else {
            proof {
                let ii = i as int;
                assert(has_divisor_below(ii, ii));
                let d0 = choose|d: int| 2 <= d < ii && #[trigger] (ii % d) == 0 && d * d <= ii;
                assert((i as nat) % (d0 as nat) == 0);
                assert(!is_prime(i as nat));
                assert forall|k2: int| 2 <= k2 < num implies ((candidates[k2] == 0)
                    <==> has_divisor_below(k2, i + 1)) by {
                    if candidates[k2] == 0 {
                        assert(has_divisor_below(k2, ii));
                        let d = choose|d: int| 2 <= d < ii && #[trigger] (k2 % d) == 0 && d * d <= k2;
                        assert(2 <= d < i + 1 && k2 % d == 0 && d * d <= k2);
                    } else {
                        if has_divisor_below(k2, i + 1) {
                            let d = choose|d: int|
                                2 <= d < i + 1 && #[trigger] (k2 % d) == 0 && d * d <= k2;
                            if d < i {
                                assert(has_divisor_below(k2, ii));
                            } else {
                                assert(d == ii);
                                lemma_divides_transitive(d0, ii, k2);
                                assert(ii <= ii * ii) by (nonlinear_arith)
                                    requires
                                        ii >= 2,
                                {}
                                assert(d0 * d0 <= ii <= k2);
                                assert(2 <= d0 < ii && k2 % d0 == 0 && d0 * d0 <= k2);
                                assert(has_divisor_below(k2, ii));
                            }
                            assert(false);
                        }
                    }
                }
            }
        }
        i += 1;
    }
    primes
}

/// Relies on rand: `thread_rng` yields the thread-local generator and
/// `Rng::gen_range` on an inclusive range samples within its bounds; an
/// empty range would panic, so the bounds must be ordered.
#[verifier::external_body]
pub(crate) fn random_in_range(lower: u128, upper: u128) -> (r: u128)
    requires
        lower <= upper,
    ensures
        lower <= r <= upper,
{
    rand::thread_rng().gen_range(lower..=upper)
}

/// One Rabin-Miller round: reports whether `random` witnesses that
/// `prime_candidate` is composite, for `prime_candidate - 1` factored as
/// `even_component * 2^max_divisions_by_two`.
pub fn trial(
    random: u128,
    even_component: u128,
    prime_candidate: u128,
    max_divisions_by_two: usize,
) -> (witness: bool)
    requires
        prime_candidate >= 2,
        even_component >= 1,
        even_component * pow2(max_divisions_by_two as nat) <= u128::MAX,
    ensures
        witness == !(pow(random as int, even_component as nat) % (prime_candidate as int) == 1
            || exists|r: int|
            0 <= r < max_divisions_by_two && pow(
                random as int,
                (even_component * #[trigger] pow2(r as nat)) as nat,
            ) % (prime_candidate as int) == prime_candidate - 1),
{
    if expmod(random, even_component, prime_candidate) == 1 {
        return false;
    }

    let mut cur: u128 = even_component;
    let mut idx: usize = 0;
    proof {
        vstd::arithmetic::power2::lemma2_to64();
    }
    while idx < max_divisions_by_two
        invariant
            prime_candidate >= 2,
            even_component >= 1,
            0 <= idx <= max_divisions_by_two,
            even_component * pow2(max_divisions_by_two as nat) <= u128::MAX,
            cur == even_component * pow2(idx as nat),
            forall|r: int|
                0 <= r < idx ==> pow(
                    random as int,
                    (even_component * #[trigger] pow2(r as nat)) as nat,
                ) % (prime_candidate as int) != prime_candidate - 1,
        decreases max_divisions_by_two - idx,
    {
        proof {
            vstd::arithmetic::power2::lemma_pow2_pos(idx as nat);
            vstd::arithmetic::power2::lemma_pow2_adds(idx as nat, 1);
            vstd::arithmetic::power2::lemma2_to64();
            vstd::arithmetic::power2::lemma_pow2_pos((max_divisions_by_two - idx - 1) as nat);
            vstd::arithmetic::power2::lemma_pow2_adds(
                (idx + 1) as nat,
                (max_divisions_by_two - idx - 1) as nat,
            );
            assert(even_component * (pow2((idx + 1) as nat) * pow2(
                (max_divisions_by_two - idx - 1) as nat,
            )) >= even_component * pow2((idx + 1) as nat)) by (nonlinear_arith)
                requires
                    even_component >= 1,
                    pow2((idx + 1) as nat) >= 1,
                    pow2((max_divisions_by_two - idx - 1) as nat) >= 1,
            {}
            assert(cur * 2 == even_component * pow2((idx + 1) as nat)) by (nonlinear_arith)
                requires
                    cur == even_component * pow2(idx as nat),
                    pow2((idx + 1) as nat) == pow2(idx as nat) * 2,
            {}
        }
        if expmod(random, cur, prime_candidate) == prime_candidate - 1 {
            proof {
                let r = idx as int;
                assert(0 <= r < max_divisions_by_two && pow(
                    random as int,
                    (even_component * pow2(r as nat)) as nat,
                ) % (prime_candidate as int) == prime_candidate - 1);
            }
            return false;
        }
        cur = cur * 2;
        idx += 1;
    }

    true
}

/// The number of independent Rabin-Miller rounds run per candidate.
pub const RABIN_MILLER_ROUNDS: usize = 20;

/// The condition on which a Rabin-Miller round rejects `candidate` as
/// composite: for the factorization `candidate - 1 == d * 2^s` with `d`
/// odd, the drawn base `a` satisfies `a^d != 1` and
/// `a^(d * 2^r) != candidate - 1` for every `r` below `s`, all modulo
/// `candidate`.
pub open spec fn rabin_miller_witness(a: nat, d: nat, s: nat, candidate: nat) -> bool {
    &&& d * pow2(s) == candidate - 1
    &&& d % 2 == 1
    &&& 2 <= a <= candidate
    &&& pow(a as int, d) % (candidate as int) != 1
    &&& forall|r: int|
        0 <= r < s ==> pow(a as int, (d * #[trigger] pow2(r as nat)) as nat) % (candidate as int)
            != candidate - 1
}

/// The Rabin-Miller probabilistic primality test: factors
/// `prime_candidate - 1` into an odd part and a power of two, then runs
/// independently drawn witness rounds. A `false` answer means some round
/// found a witness of compositeness: a base on which the round condition
/// held, which the postcondition exhibits. A `true` answer means none of
/// the random rounds did, so the candidate is probably prime; the bases
/// are drawn freshly at random, so no stronger promise is made of it.
pub fn rabin_miller_test(prime_candidate: u128) -> (probably_prime: bool)
    requires
        prime_candidate >= 2,
    ensures
        !probably_prime ==> (exists|a: nat, d: nat, s: nat|
            #[trigger] rabin_miller_witness(a, d, s, prime_candidate as nat)),
{
    let mut max_divisions_by_two: usize = 0;
    let mut even_component: u128 = prime_candidate - 1;
    proof {
        vstd::arithmetic::power2::lemma2_to64();
    }
    while even_component % 2 == 0
        invariant
            prime_candidate >= 2,
            1 <= even_component || max_divisions_by_two == 0,
            even_component * pow2(max_divisions_by_two as nat) == prime_candidate - 1,
            max_divisions_by_two <= 128,
        decreases even_component,
    {
        proof {
            if even_component == 0 {
                assert(even_component * pow2(max_divisions_by_two as nat) == 0) by (nonlinear_arith)
                    requires
                        even_component == 0,
                {}
                assert(prime_candidate - 1 >= 1);
                assert(false);
            }
            lemma_fundamental_div_mod(even_component as int, 2);
            vstd::arithmetic::power2::lemma_pow2_adds(1, max_divisions_by_two as nat);
            vstd::arithmetic::power2::lemma2_to64();
            assert((even_component / 2) * pow2((max_divisions_by_two + 1) as nat) == even_component
                * pow2(max_divisions_by_two as nat)) by (nonlinear_arith)
                requires
                    even_component == 2 * (even_component / 2),
                    pow2((max_divisions_by_two + 1) as nat) == 2 * pow2(
                        max_divisions_by_two as nat,
                    ),
            {}
            if max_divisions_by_two >= 128 {
                vstd::arithmetic::power2::lemma2_to64();
                vstd::arithmetic::power2::lemma_pow2_adds(64, 64);
                assert(pow2(128) > u128::MAX);
                assert(even_component * pow2(max_divisions_by_two as nat) >= pow2(128))
                    by (nonlinear_arith)
                    requires
                        even_component >= 1,
                        pow2(max_divisions_by_two as nat) >= pow2(128),
                {}
                assert(false);
            }
            if max_divisions_by_two < 128 {
                vstd::arithmetic::power2::lemma_pow2_pos(max_divisions_by_two as nat);
            }
        }
        even_component = even_component / 2;
        max_divisions_by_two += 1;
    }

    let mut round: usize = 0;
    while round < RABIN_MILLER_ROUNDS
        invariant
            prime_candidate >= 2,
            even_component >= 1,
            even_component % 2 == 1,
            even_component * pow2(max_divisions_by_two as nat) == prime_candidate - 1,
        decreases RABIN_MILLER_ROUNDS - round,
    {
        let random: u128 = random_in_range(2, prime_candidate);
        if trial(random, even_component, prime_candidate, max_divisions_by_two) {
            proof {
                let a = random as nat;
                let d = even_component as nat;
                let s = max_divisions_by_two as nat;
                assert(pow(a as int, d) % (prime_candidate as int) != 1);
                assert forall|r: int|
                    0 <= r < s implies pow(a as int, (d * #[trigger] pow2(r as nat)) as nat) % (
                prime_candidate as int) != prime_candidate - 1 by {
                    assert(pow(
                        random as int,
                        (even_component * pow2(r as nat)) as nat,
                    ) % (prime_candidate as int) != prime_candidate - 1);
                }
                assert(rabin_miller_witness(a, d, s, prime_candidate as nat));
            }
            return false;
        }
        round += 1;
    }

    true
}

/// The number of random draws the prime search makes before giving up.
pub const PRIME_SEARCH_CAP: usize = 100000;

/// Searches for a probable prime in `[lower_bound, upper_bound]`: draws a
/// uniform candidate, rejects it on divisibility by one of the supplied
/// small primes, and otherwise submits it to the Rabin-Miller test. The
/// draws are random, so success is probabilistic; after `PRIME_SEARCH_CAP`
/// fruitless draws the search reports failure rather than looping forever.
pub fn generate_prime(lower_bound: u128, upper_bound: u128, first_primes: &Vec<u128>) -> (r: Option<
    u128,
>)
    requires
        2 <= lower_bound <= upper_bound,
        forall|j: int| 0 <= j < first_primes.len() ==> #[trigger] first_primes[j] >= 1,
    ensures
        match r {
            Some(p) => lower_bound <= p <= upper_bound && forall|j: int|
                0 <= j < first_primes.len() ==> p % #[trigger] first_primes[j] != 0,
            None => true,
        },
{
    let mut attempts: usize = 0;
    while attempts < PRIME_SEARCH_CAP
        invariant
            2 <= lower_bound <= upper_bound,
            forall|j: int| 0 <= j < first_primes.len() ==> #[trigger] first_primes[j] >= 1,
        decreases PRIME_SEARCH_CAP - attempts,
    {
        let prime_candidate: u128 = random_in_range(lower_bound, upper_bound);

        let mut is_divided = false;
        let mut j: usize = 0;
        while j < first_primes.len() && !is_divided
            invariant
                0 <= j <= first_primes.len(),
                forall|j2: int| 0 <= j2 < first_primes.len() ==> #[trigger] first_primes[j2] >= 1,
                !is_divided ==> forall|j2: int|
                    0 <= j2 < j ==> prime_candidate % #[trigger] first_primes[j2] != 0,
                is_divided ==> exists|j2: int|
                    0 <= j2 < first_primes.len() && prime_candidate % #[trigger] first_primes[j2]
                        == 0,
            decreases first_primes.len() - j,
        {
            if prime_candidate % first_primes[j] == 0 {
                is_divided = true;
            }
            j += 1;
        }

        if !is_divided {
            let is_prime_candidate = rabin_miller_test(prime_candidate);
            if is_prime_candidate {
                return Some(prime_candidate);
            }
        }

        attempts += 1;
    }

    None
}

} // verus!

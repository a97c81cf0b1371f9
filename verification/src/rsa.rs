//! The reference cipher: RSA over 128-bit moduli. A plaintext chunk is
//! packed into an unsigned integer little-endian, one byte per character,
//! raised to the public exponent modulo the key's modulus, and carried as
//! a decimal numeral; decryption reverses each step with the private
//! exponent. Key generation certifies two random probable primes and
//! inverts the public exponent modulo Euler's totient of their product.

use vstd::prelude::*;

verus! {

use vstd::arithmetic::power::{pow, lemma_pow0, lemma_pow1, lemma_pow_adds};
use vstd::arithmetic::div_mod::{
    lemma_fundamental_div_mod_converse,
    lemma_mod_bound,
    lemma_mod_add_multiples_vanish,
    lemma_mod_multiples_vanish,
    lemma_mul_mod_noop_right,
    lemma_small_mod,
};
use crate::arith::{spec_gcd, gcd, expmod, calculate_inverse};
use crate::decimal::{
    all_digits,
    dec_value,
    dec_string_of,
    lemma_dec_string_of,
    u128_to_string,
    u128_from_str,
};
use crate::encryption_protocol::EncryptionProtocol;
use crate::primes::{generate_first_primes, generate_prime};
use vstd::string::{StrSliceExecFns, StringExecFns};
use crate::text::{
    first_space_idx,
    has_no_space,
    lemma_first_space_idx_concat,
    one_byte_chars,
    push_char,
    find_space,
};

/// Struct for public key in RSA.
///
/// RSA public key consists of a modulus `n = p * q` (`p`, `q` primes) and
/// a public exponent `e` with `gcd(e, phi(n)) == 1`, where `phi` is
/// Euler's totient.
#[derive(Clone, Copy)]
pub struct PublicKey {
    pub n: u128,
    pub public_exp: u128,
}

/// Struct for private key in RSA.
///
/// RSA private key consists of the same modulus `n` and the private
/// exponent `d` with `e * d % phi(n) == 1`.
pub struct PrivateKey {
    pub n: u128,
    pub private_exp: u128,
}

/// Implementation of the trait `EncryptionProtocol`.
pub struct RSA {}

/// The integer a chunk packs to: one byte per character, little-endian.
pub open spec fn pack_chunk(s: Seq<char>) -> nat
    decreases s.len(),
{
    if s.len() == 0 {
        0
    } else {
        ((s[0] as u32) as nat) + 256 * pack_chunk(s.skip(1))
    }
}

/// The chunk an integer unpacks to: low byte first, until zero remains.
pub open spec fn unpack_chunk(v: nat) -> Seq<char>
    decreases v,
{
    if v == 0 {
        Seq::empty()
    } else {
        seq![(((v % 256) as u8) as char)] + unpack_chunk(v / 256)
    }
}

/// The powers of 256 a fifteen-byte chunk can reach, as literals.
proof fn lemma_pow256_consts()
    ensures
        pow(256, 8) == 0x10000000000000000,
        pow(256, 14) == 0x10000000000000000000000000000,
        pow(256, 15) == 0x1000000000000000000000000000000,
{
    lemma_pow1(256);
    lemma_pow_adds(256, 1, 1);
    assert(pow(256, 2) == 0x10000) by (nonlinear_arith)
        requires
            pow(256, 2) == pow(256, 1) * pow(256, 1),
            pow(256, 1) == 256,
    {}
    lemma_pow_adds(256, 2, 2);
    assert(pow(256, 4) == 0x100000000) by (nonlinear_arith)
        requires
            pow(256, 4) == pow(256, 2) * pow(256, 2),
            pow(256, 2) == 0x10000,
    {}
    lemma_pow_adds(256, 4, 4);
    assert(pow(256, 8) == 0x10000000000000000) by (nonlinear_arith)
        requires
            pow(256, 8) == pow(256, 4) * pow(256, 4),
            pow(256, 4) == 0x100000000,
    {}
    lemma_pow_adds(256, 8, 4);
    assert(pow(256, 12) == 0x1000000000000000000000000) by (nonlinear_arith)
        requires
            pow(256, 12) == pow(256, 8) * pow(256, 4),
            pow(256, 8) == 0x10000000000000000,
            pow(256, 4) == 0x100000000,
    {}
    lemma_pow_adds(256, 12, 2);
    assert(pow(256, 14) == 0x10000000000000000000000000000) by (nonlinear_arith)
        requires
            pow(256, 14) == pow(256, 12) * pow(256, 2),
            pow(256, 12) == 0x1000000000000000000000000,
            pow(256, 2) == 0x10000,
    {}
    lemma_pow_adds(256, 14, 1);
    assert(pow(256, 15) == 0x1000000000000000000000000000000) by (nonlinear_arith)
        requires
            pow(256, 15) == pow(256, 14) * pow(256, 1),
            pow(256, 14) == 0x10000000000000000000000000000,
            pow(256, 1) == 256,
    {}
}

/// A packed chunk stays below `256^len`.
proof fn lemma_pack_bound(s: Seq<char>)
    requires
        one_byte_chars(s),
    ensures
        pack_chunk(s) < pow(256, s.len() as nat),
    decreases s.len(),
{
    if s.len() == 0 {
        lemma_pow0(256);
    } else {
        assert(one_byte_chars(s.skip(1))) by {
            assert(forall|i: int|
                0 <= i < s.skip(1).len() ==> #[trigger] s.skip(1)[i] == s[i + 1]);
        }
        lemma_pack_bound(s.skip(1));
        lemma_pow1(256);
        lemma_pow_adds(256, 1, (s.len() - 1) as nat);
        assert(((s[0] as u32) as nat) + 256 * pack_chunk(s.skip(1)) < 256 * pow(
            256,
            (s.len() - 1) as nat,
        )) by (nonlinear_arith)
            requires
                ((s[0] as u32) as nat) < 256,
                pack_chunk(s.skip(1)) < pow(256, (s.len() - 1) as nat),
        {}
    }
}

/// A chunk that does not end in a NUL character packs to a positive value.
proof fn lemma_pack_pos(s: Seq<char>)
    requires
        s.len() >= 1,
        (s.last() as u32) != 0,
    ensures
        pack_chunk(s) >= 1,
    decreases s.len(),
{
    if s.len() == 1 {
        assert(s[0] == s.last());
        assert(s.skip(1).len() == 0);
        assert(pack_chunk(s.skip(1)) == 0);
        assert(pack_chunk(s) == ((s[0] as u32) as nat) + 256 * pack_chunk(s.skip(1)));
        assert(((s[0] as u32) as nat) != 0);
    } else {
        assert(s.skip(1).last() == s.last());
        lemma_pack_pos(s.skip(1));
        assert((s[0] as nat) + 256 * pack_chunk(s.skip(1)) >= 256) by (nonlinear_arith)
            requires
                pack_chunk(s.skip(1)) >= 1,
        {}
    }
}

/// Unpacking undoes packing for one-byte chunks that do not end in NUL.
proof fn lemma_unpack_pack(s: Seq<char>)
    requires
        one_byte_chars(s),
        s.len() == 0 || (s.last() as u32) != 0,
    ensures
        unpack_chunk(pack_chunk(s)) == s,
    decreases s.len(),
{
    if s.len() == 0 {
        assert(unpack_chunk(0) =~= s);
    } else {
        let tail = s.skip(1);
        assert(one_byte_chars(tail)) by {
            assert(forall|i: int| 0 <= i < tail.len() ==> #[trigger] tail[i] == s[i + 1]);
        }
        if s.len() > 1 {
            assert(tail.last() == s.last());
            lemma_pack_pos(tail);
        }
        lemma_unpack_pack(tail);
        let p = pack_chunk(tail);
        let v = pack_chunk(s);
        let b = ((s[0] as u32) as int);
        assert(pack_chunk(s) == ((s[0] as u32) as nat) + 256 * pack_chunk(s.skip(1)));
        assert(v == b + 256 * p);
        if s.len() == 1 {
            assert(s[0] == s.last());
            assert(p == 0);
        }
        assert(v >= 1);
        lemma_fundamental_div_mod_converse(v as int, 256, p as int, b);
        assert(v as nat % 256 == b);
        assert(v as nat / 256 == p);
        vstd::utf8::char_u32_cast(s[0], s[0] as u32);
        assert((((v as nat % 256) as u8) as char) == s[0]);
        assert(unpack_chunk(v) == seq![s[0]] + unpack_chunk(p));
        assert(seq![s[0]] + tail =~= s);
    }
}

/// Packs a chunk of one-byte characters into an unsigned integer.
fn pack_str(s: &str) -> (r: u128)
    requires
        one_byte_chars(s@),
        s@.len() <= 15,
    ensures
        r as nat == pack_chunk(s@),
    decreases s@.len(),
{
    let n = s.unicode_len();
    if n == 0 {
        return 0;
    }
    let c = s.get_char(0);
    let tail = s.substring_char(1, n);
    proof {
        assert(tail@ =~= s@.skip(1));
        assert(one_byte_chars(tail@)) by {
            assert(forall|i: int| 0 <= i < tail@.len() ==> #[trigger] tail@[i] == s@[i + 1]);
        }
        lemma_pack_bound(tail@);
        lemma_pow256_consts();
        vstd::arithmetic::power::lemma_pow_increases(256, tail@.len() as nat, 14);
        assert((c as u32) < 256);
    }
    let rest = pack_str(tail);
    (c as u32) as u128 + 256 * rest
}

/// Unpacks an unsigned integer back into its chunk of characters.
fn unpack_num(v: u128) -> (r: String)
    ensures
        r@ == unpack_chunk(v as nat),
    decreases v,
{
    if v == 0 {
        let s = String::new();
        proof {
            assert(s@ =~= unpack_chunk(0));
        }
        s
    } else {
        let b: u8 = (v % 256) as u8;
        let c: char = b as char;
        let mut head = String::new();
        push_char(&mut head, c);
        let rest = unpack_num(v / 256);
        let out = head.concat(rest.as_str());
        proof {
            assert(head@ =~= seq![(((v as nat % 256) as u8) as char)]);
            assert(out@ =~= unpack_chunk(v as nat));
        }
        out
    }
}

/// How many times the public-exponent search redraws before giving up.
pub const PUBLIC_EXP_SEARCH_CAP: usize = 100000;

/// The conventional first choice for the public exponent.
pub const PUBLIC_EXP_START: u128 = 65537;

impl RSA {
    /// Chooses a public exponent coprime to the totient: the conventional
    /// value first, then uniform redraws from the exponent's range. When
    /// the conventional value is already coprime no draw happens and the
    /// search always succeeds; otherwise the draws are random, so after
    /// `PUBLIC_EXP_SEARCH_CAP` fruitless ones the search reports failure
    /// rather than looping forever.
    fn generate_public_key(modulo: u128) -> (r: Option<u128>)
        requires
            modulo > 65537,
        ensures
            match r {
                Some(key) => spec_gcd(modulo as nat, key as nat) == 1 && 65537 <= key < modulo,
                None => spec_gcd(modulo as nat, 65537) != 1,
            },
    {
        let mut key: u128 = PUBLIC_EXP_START;
        let mut attempts: usize = 0;
        while attempts < PUBLIC_EXP_SEARCH_CAP
            invariant
                modulo > 65537,
                65537 <= key < modulo || key == 65537,
                attempts == 0 ==> key == 65537,
                attempts >= 1 ==> spec_gcd(modulo as nat, 65537) != 1,
            decreases PUBLIC_EXP_SEARCH_CAP - attempts,
        {
            if gcd(modulo, key) == 1 {
                return Some(key);
            }
            key = crate::primes::random_in_range(65537, modulo - 1);
            attempts += 1;
        }
        None
    }
}

/// Witnesses that the two halves of a key pair arose from one generation
/// call: two factors in the prime band whose product is the modulus, with
/// the exponents inverse to each other modulo the totient of the product.
pub open spec fn rsa_pair_with(p: int, q: int, pub_key: &PublicKey, priv_key: &PrivateKey) -> bool {
    &&& 0x4000000000000000 < p < 0x8000000000000000
    &&& 0x4000000000000000 < q < 0x8000000000000000
    &&& pub_key.n == p * q
    &&& 65537 <= pub_key.public_exp
    &&& (pub_key.public_exp as int) < (p - 1) * (q - 1)
    &&& (priv_key.private_exp as int) < (p - 1) * (q - 1)
    &&& ((pub_key.public_exp as int) * (priv_key.private_exp as int)) % ((p - 1) * (q - 1)) == 1
}

/// The private key undoes the public key on every residue.
pub open spec fn rsa_undoes(m: nat, pub_key: &PublicKey, priv_key: &PrivateKey) -> bool {
    pow(
        pow(m as int, pub_key.public_exp as nat) % (pub_key.n as int),
        priv_key.private_exp as nat,
    ) % (pub_key.n as int) == m
}

impl EncryptionProtocol for RSA {
    /// Implementation of `PublicKey` for RSA is used.
    type PublicKey = PublicKey;

    /// Implementation of `PrivateKey` for RSA is used.
    type PrivateKey = PrivateKey;

    open spec fn can_encrypt(message: Seq<char>, pub_key: &PublicKey) -> bool {
        &&& one_byte_chars(message)
        &&& message.len() <= 15
        &&& Self::key_usable(pub_key)
    }

    open spec fn spec_encrypt(message: Seq<char>, pub_key: &PublicKey) -> Seq<char> {
        dec_string_of(
            (pow(pack_chunk(message) as int, pub_key.public_exp as nat) % (pub_key.n as int)) as nat,
        )
    }

    open spec fn can_decrypt(message: Seq<char>, priv_key: &PrivateKey) -> bool {
        &&& message.len() >= 1
        &&& all_digits(message)
        &&& dec_value(message) <= u128::MAX
        &&& priv_key.n >= 2
        &&& priv_key.private_exp >= 1
    }

    open spec fn spec_decrypt(message: Seq<char>, priv_key: &PrivateKey) -> Seq<char> {
        unpack_chunk(
            (pow(dec_value(message) as int, priv_key.private_exp as nat) % (priv_key.n as int)) as nat,
        )
    }

    open spec fn key_usable(pub_key: &PublicKey) -> bool {
        pub_key.n >= 2 && pub_key.public_exp >= 1
    }

    open spec fn key_strong(pub_key: &PublicKey) -> bool {
        pub_key.n > 0x10000000000000000 && pub_key.public_exp >= 1
    }

    open spec fn key_pair_valid(pub_key: &PublicKey, priv_key: &PrivateKey) -> bool {
        &&& pub_key.n == priv_key.n
        &&& pub_key.n >= 2
        &&& exists|p: int, q: int| #[trigger] rsa_pair_with(p, q, pub_key, priv_key)
    }

    open spec fn inverts(pub_key: &PublicKey, priv_key: &PrivateKey) -> bool {
        &&& pub_key.n == priv_key.n
        &&& pub_key.n >= 2
        &&& pub_key.public_exp >= 1
        &&& priv_key.private_exp >= 1
        &&& forall|m: nat| m < pub_key.n ==> #[trigger] rsa_undoes(m, pub_key, priv_key)
    }

    open spec fn recoverable(message: Seq<char>, pub_key: &PublicKey) -> bool {
        &&& message.len() <= 8
        &&& one_byte_chars(message)
        &&& message.len() == 0 || (message.last() as u32) != 0
        &&& Self::key_strong(pub_key)
    }

    open spec fn spec_serialize(pub_key: &PublicKey) -> Seq<char> {
        dec_string_of(pub_key.n as nat) + seq![' '] + dec_string_of(pub_key.public_exp as nat)
    }

    open spec fn can_parse_key(message: Seq<char>) -> bool {
        let i = first_space_idx(message);
        &&& 1 <= i < message.len()
        &&& all_digits(message.take(i))
        &&& dec_value(message.take(i)) <= u128::MAX
        &&& message.skip(i + 1).len() >= 1
        &&& all_digits(message.skip(i + 1))
        &&& dec_value(message.skip(i + 1)) <= u128::MAX
    }

    open spec fn spec_parse_key(message: Seq<char>) -> PublicKey {
        let i = first_space_idx(message);
        PublicKey {
            n: dec_value(message.take(i)) as u128,
            public_exp: dec_value(message.skip(i + 1)) as u128,
        }
    }

    /// The message is encrypted using RSA protocol: `m -> m^e % n`
    /// (`m` - message, `e` - public exponent).
    fn encrypt(message: &str, pub_key: &PublicKey) -> (r: String) {
        let res: u128 = pack_str(message);
        let encrypted_res = expmod(res, pub_key.public_exp, pub_key.n);
        u128_to_string(encrypted_res)
    }

    /// The message is decrypted using RSA protocol: `m -> m^d % n`
    /// (`m` - message, `d` - private exponent).
    fn decrypt(message: &str, priv_key: &PrivateKey) -> (r: String) {
        let message_num: u128 = u128_from_str(message);
        let decrypted_num = expmod(message_num, priv_key.private_exp, priv_key.n);
        unpack_num(decrypted_num)
    }

    /// The method generates 128-bit keys for RSA.
    ///
    /// The method generates two probable primes `p` and `q`, calculates
    /// `n = p * q`, chooses a public exponent `e` coprime to the totient
    /// `(p - 1) * (q - 1)`, and calculates the private exponent `d` with
    /// `e * d % totient == 1` by the extended Euclidean algorithm.
    fn create_keys() -> (r: Option<(PublicKey, PrivateKey)>) {
        let lower_bound: u128 = 0x4000000000000001;
        let upper_bound: u128 = 0x7fffffffffffffff;

        let first_primes: Vec<u128> = generate_first_primes(100);
        proof {
            assert(forall|j: int|
                0 <= j < first_primes.len() ==> #[trigger] first_primes[j] >= 1);
        }
        let p = match generate_prime(lower_bound, upper_bound, &first_primes) {
            Some(p) => p,
            None => {
                return None;
            },
        };
        let q = match generate_prime(lower_bound, upper_bound, &first_primes) {
            Some(q) => q,
            None => {
                return None;
            },
        };

        proof {
            assert((p as int) * (q as int) < 0x40000000000000000000000000000000
                && (p as int) * (q as int) > 0x10000000000000000000000000000000
                && ((p - 1) as int) * ((q - 1) as int) > 0x10000000000000000
                && ((p - 1) as int) * ((q - 1) as int) <= (p as int) * (q as int))
                by (nonlinear_arith)
                requires
                    0x4000000000000000 < p < 0x8000000000000000,
                    0x4000000000000000 < q < 0x8000000000000000,
            {}
        }
        let n = p * q;
        let eulers_func: u128 = (p - 1) * (q - 1);
        let public_exp = match RSA::generate_public_key(eulers_func) {
            Some(e) => e,
            None => {
                return None;
            },
        };

        let mut x: i128 = 0;
        let mut y: i128 = 0;
        let g = calculate_inverse(public_exp, eulers_func, &mut x, &mut y);
        let private_exp: u128 = if x >= 0 {
            (x as u128) % eulers_func
        } else {
            ((x + (eulers_func as i128)) as u128) % eulers_func
        };

        proof {
            let e = public_exp as int;
            let phi = eulers_func as int;
            let xi = x as int;
            let d = private_exp as int;
            if xi >= 0 {
                assert(d == xi % phi);
            } else {
                lemma_small_mod((xi + phi) as nat, phi as nat);
                lemma_mod_add_multiples_vanish(xi, phi);
                assert(d == xi % phi);
            }
            lemma_mul_mod_noop_right(e, xi, phi);
            assert(e * xi == 1 - (y as int) * phi) by (nonlinear_arith)
                requires
                    xi * e + (y as int) * phi == 1,
            {}
            lemma_mod_multiples_vanish(-(y as int), 1, phi);
            assert(phi * (-(y as int)) + 1 == 1 - (y as int) * phi) by (nonlinear_arith) {}
            lemma_small_mod(1nat, phi as nat);
            assert((e * d) % phi == 1) by {
                assert(e * d == e * (xi % phi));
                assert((e * (xi % phi)) % phi == (e * xi) % phi);
                assert((e * xi) % phi == (1 - (y as int) * phi) % phi);
            }
            lemma_mod_bound(xi, phi);
        }

        let public_key = PublicKey { n, public_exp };
        let private_key = PrivateKey { n, private_exp };
        proof {
            assert(rsa_pair_with(p as int, q as int, &public_key, &private_key));
        }

        Some((public_key, private_key))
    }

    /// Parses a string `"a b"` to public key (`n = a, e = b`).
    fn to_public_key(message: &str) -> (r: PublicKey) {
        proof {
            crate::text::lemma_first_space_idx_bounds(message@);
        }
        let n_len = match find_space(message) {
            Some(i) => i,
            // The precondition places the first space inside the string.
            None => vstd::pervasive::unreached(),
        };
        let len = message.unicode_len();
        let num = message.substring_char(0, n_len);
        let exp = message.substring_char(n_len + 1, len);
        proof {
            assert(num@ =~= message@.take(n_len as int));
            assert(exp@ =~= message@.skip(n_len + 1));
        }
        let n: u128 = u128_from_str(num);
        let public_exp: u128 = u128_from_str(exp);

        PublicKey { n, public_exp }
    }

    /// Creates a string from public key: `n, e -> "n e"`.
    fn to_string(pub_key: &PublicKey) -> (r: String) {
        let mut s = u128_to_string(pub_key.n);
        let exp_str = u128_to_string(pub_key.public_exp);
        s.append(" ");
        s.append(exp_str.as_str());
        proof {
            reveal_strlit(" ");
            assert(" "@ =~= seq![' ']);
            assert(s@ =~= Self::spec_serialize(pub_key));
        }
        s
    }

    proof fn lemma_chunk_encryptable(message: Seq<char>, pub_key: &PublicKey) {
    }

    proof fn lemma_ciphertext_token(message: Seq<char>, pub_key: &PublicKey) {
        let c = (pow(pack_chunk(message) as int, pub_key.public_exp as nat) % (
        pub_key.n as int)) as nat;
        lemma_dec_string_of(c);
        let s = dec_string_of(c);
        assert forall|i: int| 0 <= i < s.len() implies s[i] != ' ' by {
            assert(crate::decimal::is_digit(s[i]));
        }
    }

    proof fn lemma_round_trip(message: Seq<char>, pub_key: &PublicKey, priv_key: &PrivateKey) {
        let v = pack_chunk(message);
        lemma_pack_bound(message);
        lemma_pow256_consts();
        vstd::arithmetic::power::lemma_pow_increases(256, message.len() as nat, 8);
        assert(v < pub_key.n);

        let e = pub_key.public_exp as nat;
        let d = priv_key.private_exp as nat;
        let n = pub_key.n as int;
        let c = pow(v as int, e) % n;
        lemma_mod_bound(pow(v as int, e), n);
        let ctext = dec_string_of(c as nat);
        lemma_dec_string_of(c as nat);
        lemma_mod_bound(pow(v as int, e), n);
        assert(dec_value(ctext) == c);
        assert(rsa_undoes(v, pub_key, priv_key));
        assert(pow(c, d) % n == v);
        lemma_unpack_pack(message);
    }

    proof fn lemma_serialize_parse(pub_key: &PublicKey) {
        let sn = dec_string_of(pub_key.n as nat);
        let se = dec_string_of(pub_key.public_exp as nat);
        lemma_dec_string_of(pub_key.n as nat);
        lemma_dec_string_of(pub_key.public_exp as nat);
        let s = sn + seq![' '] + se;
        assert(has_no_space(sn)) by {
            assert(forall|i: int|
                0 <= i < sn.len() ==> crate::decimal::is_digit(#[trigger] sn[i]));
        }
        lemma_first_space_idx_concat(sn, se);
        let i = first_space_idx(s);
        assert(i == sn.len());
        assert(s.take(i) =~= sn);
        assert(s.skip(i + 1) =~= se);
        assert(Self::spec_parse_key(s).n == pub_key.n);
        assert(Self::spec_parse_key(s).public_exp == pub_key.public_exp);
    }
}

} // verus!

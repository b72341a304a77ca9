//! Textbook RSA on single bytes: key set-up from two primes and a private
//! exponent, and the arithmetic it rests on.
use crate::number_theory;
use crate::number_theory::{
    divides, ext_gcd, lemma_ext_gcd, lemma_mod_inverse_value, mod_inverse_value,
};
use crate::text::{decimal, push_decimal, push_str};
use vstd::arithmetic::div_mod::*;
use vstd::arithmetic::mul::*;
use vstd::arithmetic::power::*;
use vstd::prelude::*;

verus! {

pub const ERR_P_NOT_PRIME: &'static str = "p должно быть простым числом (> 1).";

pub const ERR_Q_NOT_PRIME: &'static str = "q должно быть простым числом (> 1).";

pub const ERR_SAME_PRIMES: &'static str = "p и q не должны совпадать.";

pub const ERR_R_OVERFLOW: &'static str = "Переполнение при вычислении r = p*q.";

pub const ERR_R_TOO_SMALL: &'static str =
    "r = p*q должно быть больше 255 (чтобы шифровать любой байт 0..255).";

pub const ERR_R_TOO_LARGE: &'static str = "r = p*q должно помещаться в 2 байта (<= 65535).";

pub const ERR_PHI_OVERFLOW: &'static str = "Переполнение при вычислении функции Эйлера.";

pub const ERR_D_RANGE: &'static str = "Закрытый ключ d должен быть: 1 < d < phi(r).";

pub const ERR_D_NOT_COPRIME: &'static str = "d и phi(r) должны быть взаимно простыми (НОД = 1).";

pub const ERR_NO_INVERSE: &'static str =
    "Не удалось найти открытый ключ e как обратный к d по mod phi(r).";

/// An RSA key set: the primes `p` and `q`, the modulus `r = p * q`, Euler's
/// function `phi = (p - 1)(q - 1)`, the private exponent `d` and the public
/// exponent `e`.
#[derive(Debug)]
pub struct RsaParams {
    pub p: u64,
    pub q: u64,
    pub r: u64,
    pub phi: u64,
    pub d: u64,
    pub e: u64,
}

impl Clone for RsaParams {
    /// The same key set.
    fn clone(&self) -> (k: RsaParams)
        ensures
            k == *self,
    {
        RsaParams { p: self.p, q: self.q, r: self.r, phi: self.phi, d: self.d, e: self.e }
    }
}

/// What `build_rsa_params` gives for `p`, `q` and `d`: the first check that
/// fails, or the key set.
pub open spec fn rsa_params_spec(p: u64, q: u64, d: u64) -> Result<RsaParams, Seq<char>> {
    let r = p * q;
    let phi = (p - 1) * (q - 1);
    if p < 2 || !number_theory::is_prime(p as int) {
        Err(ERR_P_NOT_PRIME@)
    } else if q < 2 || !number_theory::is_prime(q as int) {
        Err(ERR_Q_NOT_PRIME@)
    } else if p == q {
        Err(ERR_SAME_PRIMES@)
    } else if r > u64::MAX {
        Err(ERR_R_OVERFLOW@)
    } else if r <= 255 {
        Err(ERR_R_TOO_SMALL@)
    } else if r > 65535 {
        Err(ERR_R_TOO_LARGE@)
    } else if phi > u64::MAX {
        Err(ERR_PHI_OVERFLOW@)
    } else if d <= 1 || d >= phi {
        Err(ERR_D_RANGE@)
    } else if number_theory::gcd(d as nat, phi as nat) != 1 {
        Err(ERR_D_NOT_COPRIME@)
    } else {
        Ok(
            RsaParams {
                p,
                q,
                r: r as u64,
                phi: phi as u64,
                d,
                e: mod_inverse_value(d as int, phi) as u64,
            },
        )
    }
}

/// A key set on which byte-wise RSA works: distinct primes, the modulus and
/// Euler's function computed from them, the modulus between 256 and 65535,
/// and `e * d ≡ 1 (mod phi)`.
pub open spec fn valid_rsa_params(k: RsaParams) -> bool {
    &&& number_theory::is_prime(k.p as int)
    &&& number_theory::is_prime(k.q as int)
    &&& k.p != k.q
    &&& k.r == k.p * k.q
    &&& 255 < k.r <= 65535
    &&& k.phi == (k.p - 1) * (k.q - 1)
    &&& 1 < k.d < k.phi
    &&& k.e < k.phi
    &&& (k.e * k.d) % (k.phi as int) == 1
}

/// Builds an RSA key set from two primes and the private exponent `d`,
/// checking, in this order: that `p` and `q` are primes, that they differ,
/// that `r = p * q` lies in `256..=65535`, that `1 < d < phi` and that `d` is
/// coprime to `phi`. The public exponent `e` is the inverse of `d` modulo `phi`.
pub fn build_rsa_params(p: u64, q: u64, d: u64) -> (res: Result<RsaParams, String>)
    ensures
        match (res, rsa_params_spec(p, q, d)) {
            (Ok(v), Ok(w)) => v == w,
            (Err(e), Err(msg)) => e@ == msg,
            _ => false,
        },
        res matches Ok(v) ==> valid_rsa_params(v),
{
    if p < 2 || !is_prime(p) {
        return Err(String::from_str(ERR_P_NOT_PRIME));
    }
    if q < 2 || !is_prime(q) {
        return Err(String::from_str(ERR_Q_NOT_PRIME));
    }
    if p == q {
        return Err(String::from_str(ERR_SAME_PRIMES));
    }
    let r = match p.checked_mul(q) {
        Some(r) => r,
        None => {
            return Err(String::from_str(ERR_R_OVERFLOW));
        },
    };
    if r <= 255 {
        return Err(String::from_str(ERR_R_TOO_SMALL));
    }
    if r > 65535 {
        return Err(String::from_str(ERR_R_TOO_LARGE));
    }
    let phi = match (p - 1).checked_mul(q - 1) {
        Some(phi) => phi,
        None => {
            return Err(String::from_str(ERR_PHI_OVERFLOW));
        },
    };
    if d <= 1 || d >= phi {
        return Err(String::from_str(ERR_D_RANGE));
    }
    if gcd(d, phi) != 1 {
        return Err(String::from_str(ERR_D_NOT_COPRIME));
    }
    let e = match mod_inverse(d, phi) {
        Some(e) => e,
        None => {
            return Err(String::from_str(ERR_NO_INVERSE));
        },
    };
    proof {
        lemma_accepted_params_valid(p, q, d);
    }
    Ok(RsaParams { p, q, r, phi, d, e })
}

/// Every key set that the checks accept is valid: `e` is the inverse of `d`
/// modulo `phi`.
pub proof fn lemma_accepted_params_valid(p: u64, q: u64, d: u64)
    requires
        rsa_params_spec(p, q, d) is Ok,
    ensures
        valid_rsa_params(rsa_params_spec(p, q, d)->Ok_0),
{
    let k = rsa_params_spec(p, q, d)->Ok_0;
    lemma_mod_inverse_value(d as int, k.phi as int);
    lemma_small_mod(1, k.phi as nat);
    lemma_mul_is_commutative(d as int, k.e as int);
}

/// `u64::saturating_mul`: the product, or `u64::MAX` where the product does not fit.
pub assume_specification[<u64>::saturating_mul](x: u64, y: u64) -> (r: u64)
    ensures
        r == if x * y > u64::MAX { u64::MAX as int } else { x * y },
;

/// Whether `n` is prime, by trial division with odd numbers up to `sqrt(n)`.
pub fn is_prime(n: u64) -> (res: bool)
    ensures
        res == number_theory::is_prime(n as int),
{
    if n < 2 {
        return false;
    }
    if n % 2 == 0 {
        if n != 2 {
            assert(2 <= 2 < n && divides(2, n as int));
        }
        return n == 2;
    }
    let mut i = 3u64;
    proof {
        assert forall|d: int| 2 <= d < 3 implies !#[trigger] divides(d, n as int) by {
            assert(d == 2);
        }
    }
    while i.saturating_mul(i) <= n
        invariant
            3 <= i <= n,
            i % 2 == 1,
            n % 2 == 1,
            (i - 2) * (i - 2) <= n,
            forall|d: int| 2 <= d < i ==> !#[trigger] divides(d, n as int),
        decreases n - i,
    {
        proof {
            if i * i > u64::MAX {
                assert(n == u64::MAX);
                assert(divides(3, u64::MAX as int));
                assert(i > 3) by (nonlinear_arith)
                    requires
                        i * i > u64::MAX,
                ;
                assert(!divides(3, n as int));
            }
            assert(i * i <= n);
            assert(i + 2 <= i * i) by (nonlinear_arith)
                requires
                    i >= 3,
            ;
        }
        if n % i == 0 {
            assert(2 <= i < n && divides(i as int, n as int));
            return false;
        }
        proof {
            lemma_even_not_divisor(n as int, i + 1);
            assert forall|d: int| 2 <= d < i + 2 implies !#[trigger] divides(d, n as int) by {
                if d == i {
                } else if d == i + 1 {
                }
            }
            assert((i + 2 - 2) * (i + 2 - 2) <= n);
        }
        i = i + 2;
    }
    proof {
        assert forall|d: int| 2 <= d < n implies !#[trigger] divides(d, n as int) by {
            if divides(d, n as int) && d >= i {
                lemma_small_cofactor(n as int, d, i as int);
            }
        }
    }
    true
}

/// An even number does not divide an odd one.
proof fn lemma_even_not_divisor(n: int, d: int)
    requires
        n % 2 == 1,
        d > 0,
        d % 2 == 0,
    ensures
        !divides(d, n),
{
    if divides(d, n) {
        lemma_fundamental_div_mod(n, d);
        lemma_fundamental_div_mod(d, 2);
        let k = n / d;
        let h = d / 2;
        assert(n == 2 * (h * k)) by (nonlinear_arith)
            requires
                n == d * k,
                d == 2 * h,
        ;
        lemma_mod_multiples_basic(h * k, 2);
        lemma_mul_is_commutative(h * k, 2);
    }
}

/// A divisor `d >= i` of `n < i * i` has a cofactor in `2..i`.
proof fn lemma_small_cofactor(n: int, d: int, i: int)
    requires
        2 <= d < n,
        divides(d, n),
        d >= i,
        i >= 2,
        i * i > n,
    ensures
        exists|c: int| 2 <= c < i && #[trigger] divides(c, n),
{
    lemma_fundamental_div_mod(n, d);
    let c = n / d;
    assert(n == d * c);
    assert(c >= 2) by (nonlinear_arith)
        requires
            n == d * c,
            2 <= d < n,
    ;
    assert(c < i) by (nonlinear_arith)
        requires
            n == d * c,
            d >= i,
            i * i > n,
            c >= 2,
            i >= 2,
    ;
    lemma_fundamental_div_mod(n, c);
    lemma_mul_is_commutative(d, c);
    lemma_mod_multiples_basic(d, c);
    assert(divides(c, n));
}

/// Greatest common divisor by Euclid's algorithm.
pub fn gcd(a: u64, b: u64) -> (res: u64)
    ensures
        res == number_theory::gcd(a as nat, b as nat),
{
    let ghost a0 = a;
    let ghost b0 = b;
    let mut a = a;
    let mut b = b;
    while b != 0
        invariant
            number_theory::gcd(a as nat, b as nat) == number_theory::gcd(a0 as nat, b0 as nat),
        decreases b,
    {
        let t = a % b;
        a = b;
        b = t;
    }
    a
}


/// The extended Euclidean algorithm runs in `i128` without overflow: no step
/// divides `i128::MIN` by `-1`, and every coefficient it forms fits.
pub open spec fn ext_gcd_fits(a: int, b: int) -> bool
    decreases number_theory::abs(b),
{
    if b == 0 {
        true
    } else {
        proof {
            number_theory::lemma_trunc_rem(a, b);
        }
        let r = number_theory::trunc_rem(a, b);
        let q = number_theory::trunc_div(a, b);
        let x1 = ext_gcd(b, r).1;
        let y1 = ext_gcd(b, r).2;
        &&& !(a == i128::MIN && b == -1)
        &&& i128::MIN <= q * y1 <= i128::MAX
        &&& i128::MIN <= x1 - q * y1 <= i128::MAX
        &&& ext_gcd_fits(b, r)
    }
}

/// Away from `i128::MIN` the algorithm never overflows.
pub proof fn lemma_ext_gcd_fits(a: int, b: int)
    requires
        i128::MIN < a <= i128::MAX,
        i128::MIN < b <= i128::MAX,
    ensures
        ext_gcd_fits(a, b),
    decreases number_theory::abs(b),
{
    if b != 0 {
        number_theory::lemma_trunc_rem(a, b);
        number_theory::lemma_ext_gcd_bounds(a, b);
        lemma_ext_gcd_fits(b, number_theory::trunc_rem(a, b));
    }
}

/// The extended Euclidean algorithm on signed integers, with Rust's quotient
/// and remainder: `(g, x, y)` with `g = a * x + b * y` and `|g|` the greatest
/// common divisor of `|a|` and `|b|`.
pub fn extended_gcd(a: i128, b: i128) -> (res: (i128, i128, i128))
    requires
        ext_gcd_fits(a as int, b as int),
    ensures
        res.0 == ext_gcd(a as int, b as int).0,
        res.1 == ext_gcd(a as int, b as int).1,
        res.2 == ext_gcd(a as int, b as int).2,
        a * res.1 + b * res.2 == res.0,
        number_theory::abs(res.0 as int) == number_theory::gcd(
            number_theory::abs(a as int) as nat,
            number_theory::abs(b as int) as nat,
        ),
    decreases number_theory::abs(b as int),
{
    if b == 0 {
        proof {
            number_theory::lemma_ext_gcd_signed(a as int, b as int);
        }
        return (a, 1, 0);
    }
    proof {
        number_theory::lemma_trunc_rem(a as int, b as int);
        number_theory::lemma_trunc_div(a as int, b as int);
        number_theory::lemma_ext_gcd_signed(a as int, b as int);
    }
    let r = a % b;
    assert(r == number_theory::trunc_rem(a as int, b as int));
    let (g, x1, y1) = extended_gcd(b, r);
    // the quotient rounded toward zero; by a negative divisor it is the
    // negated quotient by its absolute value, and by `i128::MIN` it is 1 for
    // `i128::MIN` itself and 0 otherwise
    assert(!(a == i128::MIN && b == -1));
    let q = if b > 0 {
        a / b
    } else if b > i128::MIN {
        let nb = -b;
        let t = a / nb;
        proof {
            number_theory::lemma_trunc_div(a as int, nb as int);
            let ta = number_theory::trunc_div(a as int, nb as int);
            assert(t == ta);
            if nb >= 2 {
                assert(number_theory::abs(ta) <= 0x4000_0000_0000_0000_0000_0000_0000_0000)
                    by (nonlinear_arith)
                    requires
                        number_theory::abs(a as int) >= number_theory::abs(ta) * nb,
                        number_theory::abs(a as int) <= 0x8000_0000_0000_0000_0000_0000_0000_0000,
                        nb >= 2,
                        number_theory::abs(ta) >= 0,
                ;
            }
        }
        -t
    } else if a == i128::MIN {
        1
    } else {
        0
    };
    proof {
        let t = number_theory::trunc_div(a as int, b as int);
        if b == i128::MIN {
            if a == i128::MIN {
                assert(r == 0);
                assert(t == 1) by (nonlinear_arith)
                    requires
                        a == b * t,
                        a == b,
                        b != 0,
                ;
            } else {
                assert(r == a);
                assert(t == 0) by (nonlinear_arith)
                    requires
                        b * t == 0,
                        b != 0,
                ;
            }
        }
    }
    assert(q == number_theory::trunc_div(a as int, b as int));
    (g, y1, x1 - q * y1)
}

/// The inverse of `a` modulo `modulus`, when `a` and `modulus` are coprime.
pub fn mod_inverse(a: u64, modulus: u64) -> (res: Option<u64>)
    requires
        modulus > 0 || a != 1,
    ensures
        res == if number_theory::gcd(a as nat, modulus as nat) == 1 {
            Some(mod_inverse_value(a as int, modulus as int) as u64)
        } else {
            None::<u64>
        },
        res matches Some(v) ==> v < modulus && (a * v) % (modulus as int) == 1int % (modulus as int),
{
    proof {
        lemma_ext_gcd(a as int, modulus as int);
        lemma_ext_gcd_fits(a as int, modulus as int);
    }
    let (g, x, _) = extended_gcd(a as i128, modulus as i128);
    if g != 1 {
        return None;
    }
    let m = modulus as i128;
    proof {
        lemma_mod_inverse_value(a as int, modulus as int);
        if modulus == 0 {
            assert(number_theory::gcd(a as nat, 0) == a);
        }
        assert(-m <= x <= m);
    }
    let v = ((x % m) + m) % m;
    proof {
        // truncated and Euclidean remainders agree on the final value
        lemma_mod_bound(x as int, m as int);
        if x < 0 {
            lemma_mod_bound(-x as int, m as int);
            lemma_trunc_mod_normalize(x as int, m as int);
        } else {
            lemma_mod_bound(x % m + m, m as int);
        }
    }
    Some(v as u64)
}

/// For negative `x`, normalising its truncated remainder gives the Euclidean one.
proof fn lemma_trunc_mod_normalize(x: int, m: int)
    requires
        x < 0,
        m > 0,
    ensures
        (-((-x) % m) + m) % m == ((x % m) + m) % m,
        0 <= (-((-x) % m) + m) % m < m,
{
    lemma_mod_bound(-x, m);
    lemma_mod_bound(x, m);
    lemma_add_mod_noop(x % m, m, m);
    lemma_mod_self_0(m);
    lemma_mod_twice(x, m);
    lemma_add_mod_noop(-((-x) % m), m, m);
    // -((-x) % m) ≡ x (mod m)
    lemma_fundamental_div_mod(-x, m);
    let k = (-x) / m;
    assert(-((-x) % m) == x + m * k);
    lemma_mod_multiples_vanish(k, x, m);
    lemma_mod_bound(-((-x) % m), m);
    lemma_mod_twice(-((-x) % m), m);
}

/// `base^exp mod modulus`, by square-and-multiply.
pub fn mod_pow(base: u64, exp: u64, modulus: u64) -> (res: u64)
    requires
        modulus > 0,
    ensures
        res == pow(base as int, exp as nat) % (modulus as int),
{
    if modulus == 1 {
        return 0;
    }
    let mut result: u128 = 1;
    let mut base_acc: u128 = (base % modulus) as u128;
    let mut power = exp;
    let m = modulus as u128;
    proof {
        lemma_pow_mod_noop(base as int, exp as nat, modulus as int);
    }
    while power > 0
        invariant
            m == modulus,
            modulus > 1,
            result < m,
            base_acc < m,
            (result * pow(base_acc as int, power as nat)) % (m as int) == pow(base as int, exp as nat)
                % (m as int),
        decreases power,
    {
        proof {
            lemma_mod_pow_step(result as int, base_acc as int, power as nat, m as int);
            assert(result * base_acc < 0x1_0000_0000_0000_0000_0000_0000_0000_0000) by (nonlinear_arith)
                requires
                    result < m,
                    base_acc < m,
                    m <= u64::MAX,
            ;
            assert(base_acc * base_acc < 0x1_0000_0000_0000_0000_0000_0000_0000_0000) by (nonlinear_arith)
                requires
                    base_acc < m,
                    m <= u64::MAX,
            ;
            assert(power & 1 == power % 2) by (bit_vector);
            assert(power >> 1 == power / 2) by (bit_vector);
        }
        if power & 1 == 1 {
            result = (result * base_acc) % m;
        }
        base_acc = (base_acc * base_acc) % m;
        power = power >> 1;
    }
    proof {
        reveal(pow);
        lemma_small_mod(result as nat, m as nat);
    }
    result as u64
}

/// One step of square-and-multiply keeps `result * base^power` modulo `m`.
proof fn lemma_mod_pow_step(result: int, b: int, power: nat, m: int)
    requires
        m > 0,
        power > 0,
    ensures
        ((if power % 2 == 1 { (result * b) % m } else { result }) * pow((b * b) % m, power / 2)) % m
            == (result * pow(b, power)) % m,
{
    let k = power / 2;
    let r2 = if power % 2 == 1 { (result * b) % m } else { result };
    lemma_pow_multiplies(b, 2, k);
    lemma_square_is_pow2(b);
    lemma_pow_mod_noop(b * b, k, m);
    let t = pow(b * b, k);
    let tm = pow((b * b) % m, k);
    assert(tm % m == t % m);
    lemma_mul_mod_noop_right(r2, tm, m);
    lemma_mul_mod_noop_right(r2, t, m);
    if power % 2 == 1 {
        lemma_pow_adds(b, 1, 2 * k);
        lemma_pow1(b);
        assert(power == 1 + 2 * k);
        assert(pow(b, power) == b * t);
        lemma_mul_mod_noop_left(result * b, t, m);
        lemma_mul_is_associative(result, b, t);
    } else {
        assert(power == 2 * k);
    }
}


pub const ERR_BYTE_NOT_BELOW_MODULUS: &'static str = "Шифруемый байт должен быть меньше модуля r.";

pub const ERR_BLOCK_TOO_WIDE: &'static str = "Зашифрованный блок не поместился в 16 бит.";

pub const ERR_ODD_CIPHER_LENGTH: &'static str =
    "Размер зашифрованного файла должен быть кратен 2 байтам.";

pub const ERR_NOT_A_BYTE: &'static str =
    "После дешифрования получено значение вне диапазона байта 0..255.";

pub const ERR_ODD_BLOCK_DATA: &'static str =
    "Файл шифротекста имеет нечётную длину и не может состоять из 16-битных блоков.";

/// Why a byte sequence could not be encrypted, decrypted or split into blocks.
#[derive(Clone, Copy, Debug, PartialEq, Eq)]
pub enum RsaDataError {
    /// A plaintext byte is not below the modulus.
    ByteNotBelowModulus,
    /// An encrypted block does not fit in 16 bits.
    BlockTooWide,
    /// The ciphertext does not consist of whole 2-byte blocks.
    OddCipherLength,
    /// A ciphertext block is not below the modulus.
    BlockNotBelowModulus { block: u64, modulus: u64 },
    /// A decrypted block is not a byte.
    NotAByte,
    /// Data read as 16-bit blocks has an odd length.
    OddBlockData,
}

/// The message text of an error.
pub open spec fn rsa_data_error_message(e: RsaDataError) -> Seq<char> {
    match e {
        RsaDataError::ByteNotBelowModulus => ERR_BYTE_NOT_BELOW_MODULUS@,
        RsaDataError::BlockTooWide => ERR_BLOCK_TOO_WIDE@,
        RsaDataError::OddCipherLength => ERR_ODD_CIPHER_LENGTH@,
        RsaDataError::BlockNotBelowModulus { block, modulus } => "Зашифрованный блок "@
            + decimal(block as nat) + " должен быть меньше r = "@ + decimal(modulus as nat)
            + "."@,
        RsaDataError::NotAByte => ERR_NOT_A_BYTE@,
        RsaDataError::OddBlockData => ERR_ODD_BLOCK_DATA@,
    }
}

impl RsaDataError {
    /// The message text of this error.
    pub fn message(&self) -> (s: String)
        ensures
            s@ == rsa_data_error_message(*self),
    {
        match self {
            RsaDataError::ByteNotBelowModulus => String::from_str(ERR_BYTE_NOT_BELOW_MODULUS),
            RsaDataError::BlockTooWide => String::from_str(ERR_BLOCK_TOO_WIDE),
            RsaDataError::OddCipherLength => String::from_str(ERR_ODD_CIPHER_LENGTH),
            RsaDataError::BlockNotBelowModulus { block, modulus } => {
                let mut s = String::new();
                push_str(&mut s, "Зашифрованный блок ");
                push_decimal(&mut s, *block);
                push_str(&mut s, " должен быть меньше r = ");
                push_decimal(&mut s, *modulus);
                push_str(&mut s, ".");
                s
            },
            RsaDataError::NotAByte => String::from_str(ERR_NOT_A_BYTE),
            RsaDataError::OddBlockData => String::from_str(ERR_ODD_BLOCK_DATA),
        }
    }

    /// Whether the error is about the caller's input (rather than about the data read).
    pub fn is_invalid_input(&self) -> (b: bool)
        ensures
            b == (*self is ByteNotBelowModulus),
    {
        match self {
            RsaDataError::ByteNotBelowModulus => true,
            _ => false,
        }
    }
}

/// The view of a result that carries bytes.
pub open spec fn bytes_result(r: Result<Vec<u8>, RsaDataError>) -> Result<Seq<u8>, RsaDataError> {
    match r {
        Ok(v) => Ok(v@),
        Err(e) => Err(e),
    }
}

/// Encrypting one byte: `m^e mod r`, which must fit in 16 bits.
pub open spec fn encrypt_block_spec(m: int, k: RsaParams) -> Result<int, RsaDataError> {
    if m >= k.r {
        Err(RsaDataError::ByteNotBelowModulus)
    } else {
        let c = pow(m, k.e as nat) % (k.r as int);
        if c > 65535 {
            Err(RsaDataError::BlockTooWide)
        } else {
            Ok(c)
        }
    }
}

/// Encrypting bytes: each byte becomes a big-endian 16-bit block; the first
/// byte that cannot be encrypted decides the error.
pub open spec fn encrypt_spec(data: Seq<u8>, k: RsaParams) -> Result<Seq<u8>, RsaDataError>
    decreases data.len(),
{
    if data.len() == 0 {
        Ok(Seq::empty())
    } else {
        match encrypt_spec(data.drop_last(), k) {
            Err(e) => Err(e),
            Ok(out) => match encrypt_block_spec(data.last() as int, k) {
                Err(e) => Err(e),
                Ok(c) => Ok(out + seq![(c / 256) as u8, (c % 256) as u8]),
            },
        }
    }
}

/// The big-endian 16-bit block at position `i`.
pub open spec fn block_at(data: Seq<u8>, i: int) -> int {
    data[2 * i] * 256 + data[2 * i + 1]
}

/// Decrypting one block: `c^d mod r`, for `c` below `r`, which must be a byte.
pub open spec fn decrypt_block_spec(c: int, k: RsaParams) -> Result<int, RsaDataError> {
    if c >= k.r {
        Err(RsaDataError::BlockNotBelowModulus { block: c as u64, modulus: k.r })
    } else {
        let m = pow(c, k.d as nat) % (k.r as int);
        if m > 255 {
            Err(RsaDataError::NotAByte)
        } else {
            Ok(m)
        }
    }
}

/// Decrypting the first `n` blocks; the first block that cannot be decrypted
/// decides the error.
pub open spec fn decrypt_blocks_spec(data: Seq<u8>, n: nat, k: RsaParams) -> Result<
    Seq<u8>,
    RsaDataError,
>
    decreases n,
{
    if n == 0 {
        Ok(Seq::empty())
    } else {
        match decrypt_blocks_spec(data, (n - 1) as nat, k) {
            Err(e) => Err(e),
            Ok(out) => match decrypt_block_spec(block_at(data, n - 1), k) {
                Err(e) => Err(e),
                Ok(m) => Ok(out.push(m as u8)),
            },
        }
    }
}

/// Decrypting bytes made of big-endian 16-bit blocks.
pub open spec fn decrypt_spec(data: Seq<u8>, k: RsaParams) -> Result<Seq<u8>, RsaDataError> {
    if data.len() % 2 != 0 {
        Err(RsaDataError::OddCipherLength)
    } else {
        decrypt_blocks_spec(data, data.len() / 2, k)
    }
}

/// The 16-bit blocks of big-endian data.
pub open spec fn blocks_spec(data: Seq<u8>) -> Result<Seq<u16>, RsaDataError> {
    if data.len() % 2 != 0 {
        Err(RsaDataError::OddBlockData)
    } else {
        Ok(Seq::new(data.len() / 2, |i: int| block_at(data, i) as u16))
    }
}

/// Once a prefix fails to encrypt, every longer prefix fails the same way.
proof fn lemma_encrypt_error_persists(data: Seq<u8>, i: int, j: int, k: RsaParams)
    requires
        0 <= i <= j <= data.len(),
        encrypt_spec(data.take(i), k) is Err,
    ensures
        encrypt_spec(data.take(j), k) == encrypt_spec(data.take(i), k),
    decreases j - i,
{
    if i < j {
        lemma_encrypt_error_persists(data, i, j - 1, k);
        assert(data.take(j).drop_last() =~= data.take(j - 1));
    }
}

/// Once a prefix of blocks fails to decrypt, every longer prefix fails the same way.
proof fn lemma_decrypt_error_persists(data: Seq<u8>, i: nat, j: nat, k: RsaParams)
    requires
        i <= j,
        decrypt_blocks_spec(data, i, k) is Err,
    ensures
        decrypt_blocks_spec(data, j, k) == decrypt_blocks_spec(data, i, k),
    decreases j - i,
{
    if i < j {
        lemma_decrypt_error_persists(data, i, (j - 1) as nat, k);
    }
}

/// Encrypts bytes with the public key `(e, r)` until a byte cannot be
/// encrypted: the blocks made so far (two big-endian bytes each) and the
/// error that stopped it, if any.
pub fn encrypt_bytes_until_error(data: &[u8], params: &RsaParams) -> (res: (
    Vec<u8>,
    Option<RsaDataError>,
))
    ensures
        res.1 is None ==> encrypt_spec(data@, *params) == Ok::<Seq<u8>, RsaDataError>(res.0@),
        res.1 matches Some(e) ==> {
            &&& encrypt_spec(data@, *params) == Err::<Seq<u8>, RsaDataError>(e)
            &&& res.0@.len() % 2 == 0
            &&& res.0@.len() / 2 < data@.len()
            &&& encrypt_spec(data@.take((res.0@.len() / 2) as int), *params) == Ok::<Seq<u8>, RsaDataError>(
                res.0@,
            )
            &&& encrypt_block_spec(data@[(res.0@.len() / 2) as int] as int, *params) == Err::<
                int,
                RsaDataError,
            >(e)
        },
{
    let mut out: Vec<u8> = Vec::new();
    proof {
        assert(data@.take(0) =~= Seq::<u8>::empty());
    }
    for i in 0..data.len()
        invariant
            encrypt_spec(data@.take(i as int), *params) == Ok::<Seq<u8>, RsaDataError>(out@),
            out@.len() == 2 * i,
    {
        let m = data[i] as u64;
        proof {
            assert(data@.take(i + 1).drop_last() =~= data@.take(i as int));
            assert(data@.take(i + 1).last() == data@[i as int]);
        }
        let mut err: Option<RsaDataError> = None;
        let mut c: u64 = 0;
        if m >= params.r {
            err = Some(RsaDataError::ByteNotBelowModulus);
        } else {
            c = mod_pow(m, params.e, params.r);
            if c > 65535 {
                err = Some(RsaDataError::BlockTooWide);
            }
        }
        if let Some(e) = err {
            proof {
                lemma_encrypt_error_persists(data@, i + 1, data@.len() as int, *params);
                assert(data@.take(data@.len() as int) =~= data@);
            }
            return (out, Some(e));
        }
        let ghost before = out@;
        out.push((c / 256) as u8);
        out.push((c % 256) as u8);
        proof {
            assert(out@ =~= before + seq![(c / 256) as u8, (c % 256) as u8]);
        }
    }
    proof {
        assert(data@.take(data@.len() as int) =~= data@);
    }
    (out, None)
}

/// Encrypts bytes with the public key `(e, r)`: each byte `m` becomes the
/// block `m^e mod r`, written as two big-endian bytes.
pub fn encrypt_bytes(data: &[u8], params: &RsaParams) -> (res: Result<Vec<u8>, RsaDataError>)
    ensures
        bytes_result(res) == encrypt_spec(data@, *params),
{
    match encrypt_bytes_until_error(data, params) {
        (out, None) => Ok(out),
        (_, Some(e)) => Err(e),
    }
}

/// Decrypts big-endian 16-bit blocks with the private key `(d, r)` until a
/// block cannot be decrypted: the bytes made so far and the error that
/// stopped it, if any (nothing is decrypted from data of odd length).
pub fn decrypt_bytes_until_error(data: &[u8], params: &RsaParams) -> (res: (
    Vec<u8>,
    Option<RsaDataError>,
))
    ensures
        res.1 is None ==> decrypt_spec(data@, *params) == Ok::<Seq<u8>, RsaDataError>(res.0@),
        res.1 matches Some(e) ==> {
            &&& decrypt_spec(data@, *params) == Err::<Seq<u8>, RsaDataError>(e)
            &&& data@.len() % 2 != 0 ==> res.0@.len() == 0
            &&& data@.len() % 2 == 0 ==> {
                &&& res.0@.len() < data@.len() / 2
                &&& decrypt_blocks_spec(data@, res.0@.len(), *params) == Ok::<
                    Seq<u8>,
                    RsaDataError,
                >(res.0@)
                &&& decrypt_block_spec(block_at(data@, res.0@.len() as int), *params) == Err::<
                    int,
                    RsaDataError,
                >(e)
            }
        },
{
    let mut out: Vec<u8> = Vec::new();
    if data.len() % 2 != 0 {
        return (out, Some(RsaDataError::OddCipherLength));
    }
    let n = data.len() / 2;
    for i in 0..n
        invariant
            n == data@.len() / 2,
            data@.len() % 2 == 0,
            out@.len() == i,
            decrypt_blocks_spec(data@, i as nat, *params) == Ok::<Seq<u8>, RsaDataError>(out@),
    {
        assert(2 * i + 1 < data.len());
        let c = (data[2 * i] as u64) * 256 + data[2 * i + 1] as u64;
        assert(c == block_at(data@, i as int));
        let mut err: Option<RsaDataError> = None;
        let mut m: u64 = 0;
        if c >= params.r {
            err = Some(RsaDataError::BlockNotBelowModulus { block: c, modulus: params.r });
        } else {
            m = mod_pow(c, params.d, params.r);
            if m > 255 {
                err = Some(RsaDataError::NotAByte);
            }
        }
        if let Some(e) = err {
            proof {
                lemma_decrypt_error_persists(data@, (i + 1) as nat, n as nat, *params);
            }
            return (out, Some(e));
        }
        out.push(m as u8);
    }
    (out, None)
}

/// Decrypts big-endian 16-bit blocks with the private key `(d, r)`: each
/// block `c` becomes the byte `c^d mod r`.
pub fn decrypt_bytes(data: &[u8], params: &RsaParams) -> (res: Result<Vec<u8>, RsaDataError>)
    ensures
        bytes_result(res) == decrypt_spec(data@, *params),
{
    match decrypt_bytes_until_error(data, params) {
        (out, None) => Ok(out),
        (_, Some(e)) => Err(e),
    }
}

/// Splits data into big-endian 16-bit blocks.
pub fn parse_cipher_blocks(data: &[u8]) -> (res: Result<Vec<u16>, RsaDataError>)
    ensures
        match (res, blocks_spec(data@)) {
            (Ok(v), Ok(w)) => v@ == w,
            (Err(e), Err(f)) => e == f,
            _ => false,
        },
        res is Err <==> data@.len() % 2 == 1,
        res matches Ok(v) ==> v@.len() * 2 == data@.len() && forall|i: int|
            0 <= i < v@.len() ==> #[trigger] v@[i] as int == data@[2 * i] as int * 256 + data@[2
                * i + 1] as int,
{
    if data.len() % 2 != 0 {
        return Err(RsaDataError::OddBlockData);
    }
    let n = data.len() / 2;
    let mut blocks: Vec<u16> = Vec::new();
    for i in 0..n
        invariant
            n == data@.len() / 2,
            blocks@.len() == i,
            forall|j: int| 0 <= j < i ==> blocks@[j] == block_at(data@, j) as u16,
    {
        assert(2 * i + 1 < data.len());
        let b = (data[2 * i] as u16) * 256 + data[2 * i + 1] as u16;
        blocks.push(b);
    }
    proof {
        assert(blocks@ =~= Seq::new(n as nat, |i: int| block_at(data@, i) as u16));
    }
    Ok(blocks)
}


/// Under a valid key set every byte sequence encrypts, to one block per byte.
proof fn lemma_encrypt_shape(data: Seq<u8>, k: RsaParams)
    requires
        valid_rsa_params(k),
    ensures
        encrypt_spec(data, k) is Ok,
        encrypt_spec(data, k)->Ok_0.len() == 2 * data.len(),
        forall|i: int|
            0 <= i < data.len() ==> #[trigger] block_at(encrypt_spec(data, k)->Ok_0, i) == pow(
                data[i] as int,
                k.e as nat,
            ) % (k.r as int),
    decreases data.len(),
{
    if data.len() > 0 {
        let init = data.drop_last();
        lemma_encrypt_shape(init, k);
        let out0 = encrypt_spec(init, k)->Ok_0;
        let m = data.last() as int;
        let c = pow(m, k.e as nat) % (k.r as int);
        lemma_mod_bound(pow(m, k.e as nat), k.r as int);
        let out = out0 + seq![(c / 256) as u8, (c % 256) as u8];
        assert(encrypt_spec(data, k) == Ok::<Seq<u8>, RsaDataError>(out));
        assert forall|i: int| 0 <= i < data.len() implies #[trigger] block_at(out, i) == pow(
            data[i] as int,
            k.e as nat,
        ) % (k.r as int) by {
            if i < data.len() - 1 {
                assert(block_at(out0, i) == block_at(out, i));
                assert(init[i] == data[i]);
            } else {
                assert(out[2 * i] == (c / 256) as u8);
                assert(out[2 * i + 1] == (c % 256) as u8);
            }
        }
    }
}

/// Decrypting the first `n` blocks of an encryption gives the first `n` bytes back.
proof fn lemma_decrypt_prefix(c: Seq<u8>, data: Seq<u8>, n: nat, k: RsaParams)
    requires
        valid_rsa_params(k),
        n <= data.len(),
        c.len() == 2 * data.len(),
        forall|i: int|
            0 <= i < data.len() ==> #[trigger] block_at(c, i) == pow(data[i] as int, k.e as nat) % (
            k.r as int),
    ensures
        decrypt_blocks_spec(c, n, k) == Ok::<Seq<u8>, RsaDataError>(data.take(n as int)),
    decreases n,
{
    if n > 0 {
        let j = n - 1;
        lemma_decrypt_prefix(c, data, j as nat, k);
        let m = data[j] as int;
        crate::number_theory::lemma_rsa_round_trip(
            k.p as int,
            k.q as int,
            k.e as nat,
            k.d as nat,
            m,
        );
        lemma_mod_bound(pow(m, k.e as nat), k.r as int);
        assert(block_at(c, j) == pow(m, k.e as nat) % (k.r as int));
        let b = block_at(c, j);
        assert(pow(b, k.d as nat) % (k.r as int) == m);
        assert(decrypt_block_spec(b, k) == Ok::<int, RsaDataError>(m));
        assert(data.take(n as int) =~= data.take(j).push(data[j]));
    } else {
        assert(data.take(0) =~= Seq::<u8>::empty());
    }
}

/// RSA round trip on bytes: under a key set that `build_rsa_params` accepts,
/// every byte sequence encrypts, its ciphertext holds one 16-bit block per
/// byte, and decrypting the ciphertext gives the bytes back.
pub proof fn lemma_bytes_round_trip(data: Seq<u8>, k: RsaParams)
    requires
        valid_rsa_params(k),
    ensures
        encrypt_spec(data, k) is Ok,
        decrypt_spec(encrypt_spec(data, k)->Ok_0, k) == Ok::<Seq<u8>, RsaDataError>(data),
        blocks_spec(encrypt_spec(data, k)->Ok_0) matches Ok(blocks) && blocks.len() == data.len(),
{
    lemma_encrypt_shape(data, k);
    let c = encrypt_spec(data, k)->Ok_0;
    lemma_decrypt_prefix(c, data, data.len(), k);
    assert(data.take(data.len() as int) =~= data);
}

/// RSA round trip from the key fields: for primes `p`, `q` and an exponent
/// `d` that `build_rsa_params` accepts, every byte sequence encrypts and
/// decrypts back to itself under the key set it builds.
pub proof fn lemma_build_then_round_trip(p: u64, q: u64, d: u64, data: Seq<u8>)
    requires
        rsa_params_spec(p, q, d) is Ok,
    ensures
        encrypt_spec(data, rsa_params_spec(p, q, d)->Ok_0) matches Ok(c) && decrypt_spec(
            c,
            rsa_params_spec(p, q, d)->Ok_0,
        ) == Ok::<Seq<u8>, RsaDataError>(data),
{
    lemma_accepted_params_valid(p, q, d);
    lemma_bytes_round_trip(data, rsa_params_spec(p, q, d)->Ok_0);
}

/// Encryption byte by byte in big-endian blocks: under a valid key set the
/// ciphertext has two bytes per data byte, and bytes `2i` and `2i + 1`,
/// read high byte first, are `m^e mod r` for the data byte `m` at `i`.
pub proof fn lemma_encrypt_blocks(data: Seq<u8>, k: RsaParams)
    requires
        valid_rsa_params(k),
    ensures
        encrypt_spec(data, k) matches Ok(out) && out.len() == 2 * data.len() && forall|i: int|
            0 <= i < data.len() ==> #[trigger] out[2 * i] as int * 256 + out[2 * i + 1] as int
                == pow(data[i] as int, k.e as nat) % (k.r as int),
{
    lemma_encrypt_shape(data, k);
    let out = encrypt_spec(data, k)->Ok_0;
    assert forall|i: int| 0 <= i < data.len() implies #[trigger] out[2 * i] as int * 256 + out[2
        * i + 1] as int == pow(data[i] as int, k.e as nat) % (k.r as int) by {
        assert(block_at(out, i) == pow(data[i] as int, k.e as nat) % (k.r as int));
    }
}

/// Decrypting the first `n` blocks, when it succeeds, gives one byte per
/// block: `c^d mod r` for the block `c` read high byte first.
proof fn lemma_decrypt_blocks_values(data: Seq<u8>, n: nat, k: RsaParams)
    requires
        2 * n <= data.len(),
        decrypt_blocks_spec(data, n, k) is Ok,
    ensures
        decrypt_blocks_spec(data, n, k)->Ok_0.len() == n,
        forall|i: int|
            0 <= i < n ==> #[trigger] decrypt_blocks_spec(data, n, k)->Ok_0[i] as int == pow(
                data[2 * i] as int * 256 + data[2 * i + 1] as int,
                k.d as nat,
            ) % (k.r as int),
    decreases n,
{
    if n > 0 {
        let m = (n - 1) as nat;
        lemma_decrypt_blocks_values(data, m, k);
        let out = decrypt_blocks_spec(data, n, k)->Ok_0;
        let prev = decrypt_blocks_spec(data, m, k)->Ok_0;
        assert forall|i: int| 0 <= i < n implies #[trigger] out[i] as int == pow(
            data[2 * i] as int * 256 + data[2 * i + 1] as int,
            k.d as nat,
        ) % (k.r as int) by {
            if i < m {
                assert(out[i] == prev[i]);
            }
        }
    }
}

/// Decryption block by block: when it succeeds, the data had an even length
/// and the result has one byte per two data bytes, byte `i` being `c^d mod r`
/// for the block `c` of bytes `2i` and `2i + 1`, high byte first.
pub proof fn lemma_decrypt_blocks(data: Seq<u8>, k: RsaParams)
    requires
        decrypt_spec(data, k) is Ok,
    ensures
        data.len() % 2 == 0,
        decrypt_spec(data, k)->Ok_0.len() * 2 == data.len(),
        forall|i: int|
            0 <= i < data.len() / 2 ==> #[trigger] decrypt_spec(data, k)->Ok_0[i] as int == pow(
                data[2 * i] as int * 256 + data[2 * i + 1] as int,
                k.d as nat,
            ) % (k.r as int),
{
    lemma_decrypt_blocks_values(data, data.len() / 2, k);
}

} // verus!

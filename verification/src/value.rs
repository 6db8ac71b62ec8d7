use vstd::prelude::*;
use vstd::arithmetic::power2::{
    pow2, lemma_pow2_adds, lemma_pow2_pos, lemma_pow2_strictly_increases, lemma_pow2_unfold,
    lemma2_to64, lemma2_to64_rest,
};

verus! {

/// A scalar flowing through the engine: the closed tagged union stored in
/// registers, rows and B-tree entries.
///
/// `Float` carries the raw IEEE 754 bit pattern of a 64-bit value; the
/// verified core never performs floating-point arithmetic itself, but it
/// compares such patterns exactly by their mathematical value.
/// `Text` carries UTF-8 bytes; `Blob` carries raw bytes.
#[derive(PartialEq, Eq, Debug)]
pub enum Value {
    Null,
    Integer(i64),
    Float(u64),
    Text(Vec<u8>),
    Blob(Vec<u8>),
}

/// The mathematical image of a `Value`, used by every contract.
pub enum ValueS {
    Null,
    Integer(int),
    Float(u64),
    Text(Seq<u8>),
    Blob(Seq<u8>),
}

impl View for Value {
    type V = ValueS;

    open spec fn view(&self) -> ValueS {
        match self {
            Value::Null => ValueS::Null,
            Value::Integer(i) => ValueS::Integer(*i as int),
            Value::Float(b) => ValueS::Float(*b),
            Value::Text(t) => ValueS::Text(t@),
            Value::Blob(b) => ValueS::Blob(b@),
        }
    }
}

impl Clone for Value {
    fn clone(&self) -> (r: Self)
        ensures
            r@ == self@,
    {
        match self {
            Value::Null => Value::Null,
            Value::Integer(i) => Value::Integer(*i),
            Value::Float(b) => Value::Float(*b),
            Value::Text(t) => Value::Text(t.clone()),
            Value::Blob(b) => Value::Blob(b.clone()),
        }
    }
}

/// The outcome of a comparison.
#[derive(Clone, Copy, PartialEq, Eq, Structural, Debug)]
pub enum Cmp {
    Less,
    Equal,
    Greater,
}

pub open spec fn flip(c: Cmp) -> Cmp {
    match c {
        Cmp::Less => Cmp::Greater,
        Cmp::Equal => Cmp::Equal,
        Cmp::Greater => Cmp::Less,
    }
}

pub open spec fn cmp_int(a: int, b: int) -> Cmp {
    if a < b {
        Cmp::Less
    } else if a == b {
        Cmp::Equal
    } else {
        Cmp::Greater
    }
}

/// Biased exponent field of an IEEE 754 binary64 pattern.
pub open spec fn f64_exp(b: u64) -> u64 {
    (b >> 52) & 0x7ff
}

/// Fraction field of an IEEE 754 binary64 pattern.
pub open spec fn f64_frac(b: u64) -> u64 {
    b & 0xf_ffff_ffff_ffff
}

/// Magnitude bits: everything but the sign.
pub open spec fn f64_mag(b: u64) -> u64 {
    b & 0x7fff_ffff_ffff_ffff
}

/// Sign bit, as 0 or 1.
pub open spec fn f64_sign(b: u64) -> u64 {
    b >> 63
}

pub open spec fn f64_is_nan(b: u64) -> bool {
    f64_exp(b) == 0x7ff && f64_frac(b) != 0
}

pub open spec fn f64_is_inf(b: u64) -> bool {
    f64_exp(b) == 0x7ff && f64_frac(b) == 0
}

pub open spec fn f64_is_zero(b: u64) -> bool {
    f64_exp(b) == 0 && f64_frac(b) == 0
}

/// Integral significand of a finite nonzero pattern: the fraction with the
/// hidden bit restored for normal numbers.
pub open spec fn f64_mant(b: u64) -> nat {
    if f64_exp(b) == 0 {
        f64_frac(b) as nat
    } else {
        (f64_frac(b) + 0x10_0000_0000_0000) as nat
    }
}

/// Power-of-two scale of the integral significand: a finite nonzero pattern
/// denotes `(-1)^sign * f64_mant(b) * 2^f64_scale(b)`.
pub open spec fn f64_scale(b: u64) -> int {
    if f64_exp(b) == 0 {
        -1074
    } else {
        f64_exp(b) - 1075
    }
}

/// A key that orders all non-NaN patterns exactly as the values they denote
/// (the two zeroes share the key 0; the infinities sit at the extremes).
pub open spec fn f64_key(b: u64) -> int {
    if f64_sign(b) == 0 {
        f64_mag(b) as int
    } else {
        -(f64_mag(b) as int)
    }
}

/// Order of two float patterns by value. NaN patterns sort below every
/// other pattern and equal to one another, giving a total order.
pub open spec fn cmp_float_bits(a: u64, b: u64) -> Cmp {
    if f64_is_nan(a) && f64_is_nan(b) {
        Cmp::Equal
    } else if f64_is_nan(a) {
        Cmp::Less
    } else if f64_is_nan(b) {
        Cmp::Greater
    } else {
        cmp_int(f64_key(a), f64_key(b))
    }
}

/// Exact order of a positive integer magnitude `a` against the magnitude of
/// the finite nonzero pattern `b`: both sides are scaled to integers by a
/// power of two, so no rounding is involved.
pub open spec fn cmp_mag_float(a: nat, b: u64) -> Cmp {
    let m = f64_mant(b);
    let s = f64_scale(b);
    if s >= 0 {
        cmp_int(a as int, (m * pow2(s as nat)) as int)
    } else {
        cmp_int((a * pow2((-s) as nat)) as int, m as int)
    }
}

/// Exact order of the integer `i` against the value denoted by the float
/// pattern `b` ("numeric cross-comparison by value"). A NaN pattern sorts
/// below every integer.
pub open spec fn cmp_int_float(i: int, b: u64) -> Cmp {
    if f64_is_nan(b) {
        Cmp::Greater
    } else if f64_is_inf(b) {
        if f64_sign(b) == 0 {
            Cmp::Less
        } else {
            Cmp::Greater
        }
    } else if f64_is_zero(b) {
        cmp_int(i, 0)
    } else if f64_sign(b) == 0 {
        if i <= 0 {
            Cmp::Less
        } else {
            cmp_mag_float(i as nat, b)
        }
    } else {
        if i >= 0 {
            Cmp::Greater
        } else {
            flip(cmp_mag_float((-i) as nat, b))
        }
    }
}

/// Lexicographic order on byte sequences, used for `Text` and `Blob`.
pub open spec fn cmp_bytes(a: Seq<u8>, b: Seq<u8>) -> Cmp
    decreases a.len(),
{
    if a.len() == 0 && b.len() == 0 {
        Cmp::Equal
    } else if a.len() == 0 {
        Cmp::Less
    } else if b.len() == 0 {
        Cmp::Greater
    } else if a[0] < b[0] {
        Cmp::Less
    } else if a[0] > b[0] {
        Cmp::Greater
    } else {
        cmp_bytes(a.drop_first(), b.drop_first())
    }
}

/// Storage-class rank: `Null` sorts first, numeric values next, then
/// `Text`, then `Blob`.
pub open spec fn rank(v: ValueS) -> int {
    match v {
        ValueS::Null => 0,
        ValueS::Integer(_) => 1,
        ValueS::Float(_) => 1,
        ValueS::Text(_) => 2,
        ValueS::Blob(_) => 3,
    }
}

/// The engine's total order on values: rank first, then within a rank the
/// exact value order (numeric cross-comparison by value, bytes
/// lexicographically).
pub open spec fn cmp_value(a: ValueS, b: ValueS) -> Cmp {
    if rank(a) != rank(b) {
        cmp_int(rank(a), rank(b))
    } else {
        match (a, b) {
            (ValueS::Integer(x), ValueS::Integer(y)) => cmp_int(x, y),
            (ValueS::Integer(x), ValueS::Float(y)) => cmp_int_float(x, y),
            (ValueS::Float(x), ValueS::Integer(y)) => flip(cmp_int_float(y, x)),
            (ValueS::Float(x), ValueS::Float(y)) => cmp_float_bits(x, y),
            (ValueS::Text(x), ValueS::Text(y)) => cmp_bytes(x, y),
            (ValueS::Blob(x), ValueS::Blob(y)) => cmp_bytes(x, y),
            _ => Cmp::Equal,
        }
    }
}

fn cmp_u64(a: u64, b: u64) -> (c: Cmp)
    ensures
        c == cmp_int(a as int, b as int),
{
    if a < b {
        Cmp::Less
    } else if a == b {
        Cmp::Equal
    } else {
        Cmp::Greater
    }
}

fn cmp_i64(a: i64, b: i64) -> (c: Cmp)
    ensures
        c == cmp_int(a as int, b as int),
{
    if a < b {
        Cmp::Less
    } else if a == b {
        Cmp::Equal
    } else {
        Cmp::Greater
    }
}

fn pow2_u64(k: u64) -> (p: u64)
    requires
        k <= 63,
    ensures
        p as nat == pow2(k as nat),
{
    let mut p: u64 = 1;
    let mut i: u64 = 0;
    proof {
        lemma2_to64();
    }
    while i < k
        invariant
            i <= k,
            k <= 63,
            p as nat == pow2(i as nat),
        decreases k - i,
    {
        proof {
            lemma_pow2_unfold((i + 1) as nat);
            if ((i + 1) as nat) < 63 {
                lemma_pow2_strictly_increases((i + 1) as nat, 63);
            }
            lemma2_to64_rest();
        }
        p = p * 2;
        i = i + 1;
    }
    p
}

fn pow2_u128(k: u64) -> (p: u128)
    requires
        k <= 127,
    ensures
        p as nat == pow2(k as nat),
{
    let mut p: u128 = 1;
    let mut i: u64 = 0;
    proof {
        lemma2_to64();
    }
    while i < k
        invariant
            i <= k,
            k <= 127,
            p as nat == pow2(i as nat),
        decreases k - i,
    {
        proof {
            lemma_pow2_unfold((i + 1) as nat);
            if ((i + 1) as nat) < 127 {
                lemma_pow2_strictly_increases((i + 1) as nat, 127);
            }
            lemma_pow2_adds(63, 64);
            lemma2_to64();
            lemma2_to64_rest();
        }
        p = p * 2;
        i = i + 1;
    }
    p
}

/// Magnitude of an `i64`, exact also at the minimum value.
fn i64_magnitude(i: i64) -> (m: u64)
    ensures
        i >= 0 ==> m as int == i as int,
        i < 0 ==> m as int == -(i as int),
{
    if i >= 0 {
        i as u64
    } else if i == i64::MIN {
        0x8000_0000_0000_0000u64
    } else {
        (-i) as u64
    }
}

/// Compares the positive magnitude `a` with the magnitude of the finite
/// nonzero float pattern `b`, exactly.
fn cmp_mag_float_exec(a: u64, b: u64) -> (c: Cmp)
    requires
        a >= 1,
        !f64_is_nan(b),
        !f64_is_inf(b),
        !f64_is_zero(b),
    ensures
        c == cmp_mag_float(a as nat, b),
{
    let exp: u64 = (b >> 52) & 0x7ff;
    let frac: u64 = b & 0xf_ffff_ffff_ffff;
    proof {
        assert((b >> 52) & 0x7ff < 0x800) by (bit_vector);
        assert(b & 0xf_ffff_ffff_ffff < 0x10_0000_0000_0000) by (bit_vector);
    }
    let mant: u64 = if exp == 0 {
        frac
    } else {
        frac + 0x10_0000_0000_0000
    };
    proof {
        lemma2_to64();
        lemma2_to64_rest();
    }
    if exp >= 1087 {
        // scale >= 12 and the number is normal, so its magnitude is at least
        // 2^52 * 2^12 = 2^64, above any i64 magnitude.
        proof {
            let s = (f64_scale(b)) as nat;
            if s > 12 {
                lemma_pow2_strictly_increases(12, s);
            }
            assert(pow2(12) == 0x1000);
            assert(f64_mant(b) * pow2(s) >= 0x10_0000_0000_0000 * 0x1000) by (nonlinear_arith)
                requires
                    f64_mant(b) >= 0x10_0000_0000_0000,
                    pow2(s) >= 0x1000,
            ;
        }
        Cmp::Less
    } else if exp >= 1075 {
        // scale in 0..=11: the magnitude is mant * 2^scale, which fits in u64.
        let s: u64 = exp - 1075;
        let p: u64 = pow2_u64(s);
        proof {
            assert(pow2(11) == 0x800);
            if s < 11 {
                lemma_pow2_strictly_increases(s as nat, 11);
            }
            assert(mant * p <= 0x1f_ffff_ffff_ffff * 0x800) by (nonlinear_arith)
                requires
                    mant <= 0x1f_ffff_ffff_ffff,
                    p <= 0x800,
            ;
        }
        let scaled: u64 = mant * p;
        cmp_u64(a, scaled)
    } else {
        // scale < 0: compare a * 2^k with mant, where k = -scale.
        let k: u64 = if exp == 0 {
            1074
        } else {
            1075 - exp
        };
        if k >= 53 {
            // a * 2^k >= 2^53 > mant.
            proof {
                assert(pow2(53) == 0x20_0000_0000_0000);
                if (k as nat) > 53 {
                    lemma_pow2_strictly_increases(53, k as nat);
                }
                assert(a * pow2(k as nat) >= pow2(k as nat)) by (nonlinear_arith)
                    requires
                        a >= 1,
                        pow2(k as nat) > 0,
                ;
            }
            Cmp::Greater
        } else if a >= 0x20_0000_0000_0000 {
            // a >= 2^53 and k >= 1, so a * 2^k > 2^53 > mant.
            proof {
                lemma_pow2_pos(k as nat);
                assert(a * pow2(k as nat) >= a) by (nonlinear_arith)
                    requires
                        pow2(k as nat) >= 1,
                        a >= 0,
                ;
            }
            Cmp::Greater
        } else {
            let p: u128 = pow2_u128(k);
            proof {
                lemma_pow2_strictly_increases(k as nat, 53);
                assert((a as u128) * p < 0x20_0000_0000_0000u128 * 0x20_0000_0000_0000u128)
                    by (nonlinear_arith)
                    requires
                        (a as u128) < 0x20_0000_0000_0000u128,
                        p <= 0x20_0000_0000_0000u128,
                        p > 0,
                ;
            }
            let scaled: u128 = (a as u128) * p;
            if scaled < mant as u128 {
                Cmp::Less
            } else if scaled == mant as u128 {
                Cmp::Equal
            } else {
                Cmp::Greater
            }
        }
    }
}

/// Compares the integer `i` with the value denoted by the float pattern
/// `b`, exactly.
fn cmp_int_float_exec(i: i64, b: u64) -> (c: Cmp)
    ensures
        c == cmp_int_float(i as int, b),
{
    let exp: u64 = (b >> 52) & 0x7ff;
    let frac: u64 = b & 0xf_ffff_ffff_ffff;
    let sign: u64 = b >> 63;
    proof {
        assert(b >> 63 == 0 || b >> 63 == 1) by (bit_vector);
    }
    if exp == 0x7ff && frac != 0 {
        Cmp::Greater
    } else if exp == 0x7ff {
        if sign == 0 {
            Cmp::Less
        } else {
            Cmp::Greater
        }
    } else if exp == 0 && frac == 0 {
        cmp_i64(i, 0)
    } else if sign == 0 {
        if i <= 0 {
            Cmp::Less
        } else {
            cmp_mag_float_exec(i64_magnitude(i), b)
        }
    } else {
        if i >= 0 {
            Cmp::Greater
        } else {
            let c = cmp_mag_float_exec(i64_magnitude(i), b);
            match c {
                Cmp::Less => Cmp::Greater,
                Cmp::Equal => Cmp::Equal,
                Cmp::Greater => Cmp::Less,
            }
        }
    }
}

/// Compares two float patterns by value, NaN sorting lowest.
fn cmp_float_bits_exec(a: u64, b: u64) -> (c: Cmp)
    ensures
        c == cmp_float_bits(a, b),
{
    let a_nan: bool = (a >> 52) & 0x7ff == 0x7ff && a & 0xf_ffff_ffff_ffff != 0;
    let b_nan: bool = (b >> 52) & 0x7ff == 0x7ff && b & 0xf_ffff_ffff_ffff != 0;
    if a_nan && b_nan {
        Cmp::Equal
    } else if a_nan {
        Cmp::Less
    } else if b_nan {
        Cmp::Greater
    } else {
        let sa: u64 = a >> 63;
        let sb: u64 = b >> 63;
        let ma: u64 = a & 0x7fff_ffff_ffff_ffff;
        let mb: u64 = b & 0x7fff_ffff_ffff_ffff;
        proof {
            assert(a >> 63 == 0 || a >> 63 == 1) by (bit_vector);
            assert(b >> 63 == 0 || b >> 63 == 1) by (bit_vector);
        }
        if sa == 0 && sb == 0 {
            cmp_u64(ma, mb)
        } else if sa == 1 && sb == 1 {
            cmp_u64(mb, ma)
        } else if sa == 1 {
            if ma == 0 && mb == 0 {
                Cmp::Equal
            } else {
                Cmp::Less
            }
        } else {
            if ma == 0 && mb == 0 {
                Cmp::Equal
            } else {
                Cmp::Greater
            }
        }
    }
}

/// Compares two byte vectors lexicographically.
fn cmp_bytes_exec(a: &Vec<u8>, b: &Vec<u8>) -> (c: Cmp)
    ensures
        c == cmp_bytes(a@, b@),
{
    let mut i: usize = 0;
    proof {
        assert(a@.skip(0) =~= a@);
        assert(b@.skip(0) =~= b@);
    }
    loop
        invariant
            i <= a.len(),
            i <= b.len(),
            a@.subrange(0, i as int) == b@.subrange(0, i as int),
            cmp_bytes(a@, b@) == cmp_bytes(a@.skip(i as int), b@.skip(i as int)),
        decreases a.len() - i,
    {
        if i == a.len() && i == b.len() {
            return Cmp::Equal;
        } else if i == a.len() {
            proof {
                assert(a@.skip(i as int).len() == 0);
                assert(b@.skip(i as int).len() > 0);
            }
            return Cmp::Less;
        } else if i == b.len() {
            return Cmp::Greater;
        } else {
            let x = a[i];
            let y = b[i];
            proof {
                assert(a@.skip(i as int)[0] == a@[i as int]);
                assert(b@.skip(i as int)[0] == b@[i as int]);
            }
            if x < y {
                return Cmp::Less;
            } else if x > y {
                return Cmp::Greater;
            }
            proof {
                assert(a@.skip(i as int).drop_first() =~= a@.skip(i + 1));
                assert(b@.skip(i as int).drop_first() =~= b@.skip(i + 1));
                assert(a@.subrange(0, i + 1) =~= a@.subrange(0, i as int).push(a@[i as int]));
                assert(b@.subrange(0, i + 1) =~= b@.subrange(0, i as int).push(b@[i as int]));
            }
            i = i + 1;
        }
    }
}

/// Compares two values under the engine's total order: `Null` first,
/// numeric values next (cross-compared by exact value), then `Text`, then
/// `Blob`, bytes lexicographically.
pub fn value_cmp(a: &Value, b: &Value) -> (c: Cmp)
    ensures
        c == cmp_value(a@, b@),
{
    match (a, b) {
        (Value::Null, Value::Null) => Cmp::Equal,
        (Value::Integer(x), Value::Integer(y)) => cmp_i64(*x, *y),
        (Value::Integer(x), Value::Float(y)) => cmp_int_float_exec(*x, *y),
        (Value::Float(x), Value::Integer(y)) => {
            let c = cmp_int_float_exec(*y, *x);
            match c {
                Cmp::Less => Cmp::Greater,
                Cmp::Equal => Cmp::Equal,
                Cmp::Greater => Cmp::Less,
            }
        },
        (Value::Float(x), Value::Float(y)) => cmp_float_bits_exec(*x, *y),
        (Value::Text(x), Value::Text(y)) => cmp_bytes_exec(x, y),
        (Value::Blob(x), Value::Blob(y)) => cmp_bytes_exec(x, y),
        _ => {
            let ra = value_rank(a);
            let rb = value_rank(b);
            if ra < rb {
                Cmp::Less
            } else {
                Cmp::Greater
            }
        },
    }
}

/// Decimal digits of `n`, most significant first, without leading zeroes
/// (a single `0` for zero).
pub open spec fn dec_digits(n: nat) -> Seq<u8>
    decreases n,
{
    if n < 10 {
        seq![(48 + n) as u8]
    } else {
        dec_digits(n / 10).push((48 + n % 10) as u8)
    }
}

/// The text a value renders to: nothing for `Null`, signed decimal for an
/// integer, the bytes themselves for `Text` and `Blob`. Float patterns have
/// no rendering here (none is claimed of them).
pub open spec fn rendered(v: ValueS) -> Seq<u8> {
    match v {
        ValueS::Null => Seq::empty(),
        ValueS::Integer(i) => if i >= 0 {
            dec_digits(i as nat)
        } else {
            seq![45u8] + dec_digits((-i) as nat)
        },
        ValueS::Text(t) => t,
        ValueS::Blob(b) => b,
        ValueS::Float(_) => Seq::empty(),
    }
}

fn dec_u64(n0: u64) -> (s: Vec<u8>)
    ensures
        s@ == dec_digits(n0 as nat),
{
    let mut rev: Vec<u8> = Vec::new();
    let mut n = n0;
    loop
        invariant_except_break
            dec_digits(n0 as nat) == dec_digits(n as nat) + rev@.reverse(),
        ensures
            dec_digits(n0 as nat) == rev@.reverse(),
        decreases n,
    {
        let d = (n % 10) as u8 + 48;
        let ghost rev_old = rev@;
        rev.push(d);
        proof {
            assert(rev@.reverse() =~= seq![d] + rev_old.reverse());
        }
        if n < 10 {
            proof {
                assert(dec_digits(n as nat) == seq![d]);
                assert(dec_digits(n as nat) + rev_old.reverse() =~= seq![d] + rev_old.reverse());
            }
            break ;
        }
        let ghost n_old = n as nat;
        n = n / 10;
        proof {
            assert(dec_digits(n_old) == dec_digits(n as nat).push(d));
            assert(dec_digits(n as nat).push(d) =~= dec_digits(n as nat) + seq![d]);
            assert((dec_digits(n as nat) + seq![d]) + rev_old.reverse() =~= dec_digits(n as nat)
                + (seq![d] + rev_old.reverse()));
        }
    }
    let mut out: Vec<u8> = Vec::new();
    let mut i: usize = rev.len();
    while i > 0
        invariant
            i <= rev@.len(),
            out@ == rev@.reverse().subrange(0, rev@.len() - i),
        decreases i,
    {
        i = i - 1;
        out.push(rev[i]);
        proof {
            assert(out@ =~= rev@.reverse().subrange(0, rev@.len() - i));
        }
    }
    proof {
        assert(rev@.reverse().subrange(0, rev@.len() as int) =~= rev@.reverse());
    }
    out
}

/// Renders a value to text: empty for `Null`, signed decimal for an
/// integer, the bytes themselves for `Text` and `Blob`. A float pattern is
/// refused — how a float reads is up to the caller.
pub fn render_value(v: &Value) -> (r: Option<Vec<u8>>)
    ensures
        match r {
            Some(s) => !(v@ is Float) && s@ == rendered(v@),
            None => v@ is Float,
        },
{
    match v {
        Value::Null => Some(Vec::new()),
        Value::Integer(i) => {
            let m = i64_magnitude(*i);
            let mut digits = dec_u64(m);
            if *i < 0 {
                let mut out: Vec<u8> = Vec::new();
                out.push(45u8);
                out.append(&mut digits);
                proof {
                    assert(out@ =~= seq![45u8] + dec_digits((-(*i as int)) as nat));
                }
                Some(out)
            } else {
                Some(digits)
            }
        },
        Value::Float(_) => None,
        Value::Text(t) => Some(t.clone()),
        Value::Blob(b) => Some(b.clone()),
    }
}

fn value_rank(v: &Value) -> (r: u64)
    ensures
        r as int == rank(v@),
{
    match v {
        Value::Null => 0,
        Value::Integer(_) => 1,
        Value::Float(_) => 1,
        Value::Text(_) => 2,
        Value::Blob(_) => 3,
    }
}

} // verus!

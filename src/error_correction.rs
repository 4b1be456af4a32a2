use crate::metadata::{blocks_table, blocks_table_get, lemma_entry_bounds};
use vstd::prelude::*;

verus! {

/// Error-correction level, in order of increasing redundancy.
#[derive(PartialEq, Eq, Copy, Clone, Debug, Structural)]
pub enum ECLevel {
    L,
    M,
    Q,
    H,
}

/// `w AND 29` for `w` below 256, written with arithmetic.
pub open spec fn and29(w: nat) -> nat {
    w % 2 + 4 * ((w / 4) % 2) + 8 * ((w / 8) % 2) + 16 * ((w / 16) % 2)
}

/// Multiplication by the generator 2 in GF(256) under the reducing polynomial
/// `x^8 + x^4 + x^3 + x^2 + 1` (285): a doubling, XOR-reduced when it leaves 8 bits.
#[verifier::opaque]
pub open spec fn gf_double(v: nat) -> nat {
    if v < 128 {
        2 * v
    } else {
        (2 * v - 256 + 29 - 2 * and29((2 * v - 256) as nat)) as nat
    }
}

/// `2^k` in GF(256).
pub open spec fn gf_pow(k: nat) -> nat
    decreases k,
{
    if k == 0 {
        1
    } else {
        gf_double(gf_pow((k - 1) as nat))
    }
}

/// The antilog table: entry `i` holds `2^i` for `1 <= i < 255`, entry 0 holds
/// `2^255`, and entry 255 is unused (0).
pub open spec fn exp_table() -> Seq<u8> {
    Seq::new(
        256,
        |i: int|
            if i == 0 {
                gf_pow(255) as u8
            } else if i < 255 {
                gf_pow(i as nat) as u8
            } else {
                0u8
            },
    )
}

/// The log table after recording `2^1 .. 2^e`: entry `2^j` holds `j mod 255`, later
/// entries overwriting earlier ones; entries never written hold 0.
pub open spec fn log_table_after(e: nat) -> Seq<u8>
    decreases e,
{
    if e == 0 {
        Seq::new(256, |i: int| 0u8)
    } else {
        log_table_after((e - 1) as nat).update(gf_pow(e) as int, (e % 255) as u8)
    }
}

pub open spec fn log_table() -> Seq<u8> {
    log_table_after(255)
}

pub open spec fn gf_log(x: nat) -> nat {
    log_table()[x as int] as nat
}

pub open spec fn gf_exp(i: nat) -> nat {
    exp_table()[i as int] as nat
}

/// Product in GF(256): the antilog of the sum of the logs, 0 when a factor is 0.
pub open spec fn gf_mul(a: nat, b: nat) -> nat {
    if a == 0 || b == 0 {
        0
    } else {
        gf_exp((gf_log(a) + gf_log(b)) % 255)
    }
}

/// Quotient in GF(256): the antilog of the difference of the logs.
pub open spec fn gf_div(a: nat, b: nat) -> nat {
    gf_exp((gf_log(a) + gf_log(b) * 254) % 255)
}

proof fn lemma_double_exec(v: u32)
    requires
        0 < v < 256,
    ensures
        gf_double(v as nat) == if v * 2 > 255 {
            ((v * 2) as u32 ^ 285u32) as nat
        } else {
            (v * 2) as nat
        },
{
    reveal(gf_double);
    if v * 2 > 255 {
        let d: u32 = (v * 2) as u32;
        assert((d ^ 285) == (d - 256) + 29 - 2 * ((d % 2) + 4 * ((d / 4) % 2) + 8 * ((d / 8) % 2)
            + 16 * ((d / 16) % 2))) by (bit_vector)
            requires
                256 <= d < 512,
                d % 2 == 0,
        ;
    }
}

proof fn lemma_reduce(d: u64)
    requires
        256 <= d < 512,
        d % 2 == 0,
    ensures
        (d ^ 285) == (d - 256) + 29 - 2 * ((d % 2) + 4 * ((d / 4) % 2) + 8 * ((d / 8) % 2) + 16 * ((
        d / 16) % 2)),
        0 < (d ^ 285) < 256,
{
    assert((d ^ 285) == (d - 256) + 29 - 2 * ((d % 2) + 4 * ((d / 4) % 2) + 8 * ((d / 8) % 2) + 16
        * ((d / 16) % 2)) && 0 < (d ^ 285) < 256) by (bit_vector)
        requires
            256 <= d < 512,
            d % 2 == 0,
    ;
}

proof fn lemma_double_range(v: nat)
    requires
        0 < v < 256,
    ensures
        0 < gf_double(v) < 256,
{
    reveal(gf_double);
    if v >= 128 {
        lemma_reduce((2 * v) as u64);
    }
}

proof fn lemma_pow_range(k: nat)
    ensures
        0 < gf_pow(k) < 256,
    decreases k,
{
    if k > 0 {
        lemma_pow_range((k - 1) as nat);
        lemma_double_range(gf_pow((k - 1) as nat));
    }
}

/// The antilog table after recording `2^1 .. 2^e` at index `j mod 255`.
pub open spec fn exp_table_after(e: nat) -> Seq<u8> {
    Seq::new(
        256,
        |i: int|
            if 1 <= i <= e && i < 255 {
                gf_pow(i as nat) as u8
            } else if i == 0 && e >= 255 {
                gf_pow(255) as u8
            } else {
                0u8
            },
    )
}

proof fn lemma_log_table_len(e: nat)
    ensures
        log_table_after(e).len() == 256,
    decreases e,
{
    if e > 0 {
        lemma_log_table_len((e - 1) as nat);
        lemma_pow_range(e);
    }
}

proof fn lemma_table_step(e: nat)
    requires
        1 <= e <= 255,
    ensures
        exp_table_after(e) == exp_table_after((e - 1) as nat).update((e % 255) as int, gf_pow(e) as u8),
        log_table_after(e) == log_table_after((e - 1) as nat).update(gf_pow(e) as int, (e % 255) as u8),
        0 < gf_pow(e) < 256,
{
    lemma_pow_range(e);
    assert(exp_table_after(e) =~= exp_table_after((e - 1) as nat).update((e % 255) as int, gf_pow(e) as u8));
}

/// Builds the log and antilog tables of GF(256) by repeated doubling.
pub fn generate_log() -> (r: (Vec<u8>, Vec<u8>))
    ensures
        r.0@ == log_table(),
        r.1@ == exp_table(),
{
    let mut exp: usize = 1;
    let mut value: u32 = 1;
    let mut log_out: Vec<u8> = vec![0u8; 256];
    let mut exp_out: Vec<u8> = vec![0u8; 256];
    assert(log_out@ =~= log_table_after(0));
    assert(exp_out@ =~= exp_table_after(0));
    while exp < 256
        invariant
            1 <= exp <= 256,
            value == gf_pow((exp - 1) as nat),
            log_out@ == log_table_after((exp - 1) as nat),
            log_out@.len() == 256,
            exp_out@ == exp_table_after((exp - 1) as nat),
        decreases 256 - exp,
    {
        proof {
            lemma_pow_range((exp - 1) as nat);
        }
        proof {
            lemma_double_exec(value);
        }
        value = value * 2;
        if value > 255 {
            value = value ^ 285;
        }
        proof {
            lemma_table_step(exp as nat);
        }
        log_out.set(value as usize, (exp % 255) as u8);
        exp_out.set(exp % 255, value as u8);
        exp = exp + 1;
    }
    assert(exp_out@ =~= exp_table());
    (log_out, exp_out)
}

/// The log and antilog tables of GF(256), built once and shared by the arithmetic
/// below.
pub struct GaloisField {
    pub log: Vec<u8>,
    pub exp: Vec<u8>,
}

impl GaloisField {
    pub open spec fn wf(&self) -> bool {
        self.log@ == log_table() && self.exp@ == exp_table()
    }

    pub fn new() -> (r: GaloisField)
        ensures
            r.wf(),
    {
        let (log, exp) = generate_log();
        GaloisField { log, exp }
    }
}

/// Multiplication on GF(256).
pub fn mul(gf: &GaloisField, a: usize, b: usize) -> (r: usize)
    requires
        gf.wf(),
        a < 256,
        b < 256,
    ensures
        r == gf_mul(a as nat, b as nat),
        r < 256,
{
    proof {
        lemma_log_table_len(255);
    }
    if a == 0 || b == 0 {
        0
    } else {
        gf.exp[(gf.log[a] as usize + gf.log[b] as usize) % 255] as usize
    }
}

/// Division on GF(256).
pub fn div(gf: &GaloisField, a: usize, b: usize) -> (r: usize)
    requires
        gf.wf(),
        a < 256,
        b < 256,
    ensures
        r == gf_div(a as nat, b as nat),
        r < 256,
{
    proof {
        lemma_log_table_len(255);
    }
    gf.exp[(gf.log[a] as usize + gf.log[b] as usize * 254) % 255] as usize
}

/// Contribution of `a[i]` to coefficient `k` of the product of `a` and `b`.
pub open spec fn mul_term(a: Seq<u8>, b: Seq<u8>, i: int, k: int) -> u8 {
    if 0 <= k - i < b.len() {
        gf_mul(a[i] as nat, b[k - i] as nat) as u8
    } else {
        0u8
    }
}

/// Coefficient `k` of the product of the first `n` coefficients of `a` with `b`.
pub open spec fn poly_mul_coef(a: Seq<u8>, b: Seq<u8>, n: nat, k: int) -> u8
    decreases n,
{
    if n == 0 {
        0u8
    } else {
        poly_mul_coef(a, b, (n - 1) as nat, k) ^ mul_term(a, b, n - 1, k)
    }
}

/// Product of two polynomials over GF(256), coefficients highest degree first.
pub open spec fn poly_product(a: Seq<u8>, b: Seq<u8>) -> Seq<u8> {
    Seq::new((a.len() + b.len() - 1) as nat, |k: int| poly_mul_coef(a, b, a.len(), k))
}

proof fn lemma_xor_zero(x: u8)
    ensures
        x ^ 0u8 == x,
{
    assert(x ^ 0u8 == x) by (bit_vector);
}

/// Polynomial multiplication on GF(256).
pub fn poly_mul(gf: &GaloisField, a: &Vec<u8>, b: &Vec<u8>) -> (r: Vec<u8>)
    requires
        gf.wf(),
        a@.len() >= 1,
        b@.len() >= 1,
        a@.len() + b@.len() <= usize::MAX,
    ensures
        r@ == poly_product(a@, b@),
{
    let n = a.len() + b.len() - 1;
    let mut out: Vec<u8> = vec![0u8; n];
    let mut i: usize = 0;
    while i < a.len()
        invariant
            gf.wf(),
            i <= a@.len(),
            n == a@.len() + b@.len() - 1,
            out@.len() == n,
            forall|k: int| 0 <= k < n ==> #[trigger] out@[k] == poly_mul_coef(a@, b@, i as nat, k),
        decreases a@.len() - i,
    {
        let mut j: usize = 0;
        while j < b.len()
            invariant
                gf.wf(),
                i < a@.len(),
                j <= b@.len(),
                n == a@.len() + b@.len() - 1,
                out@.len() == n,
                forall|k: int|
                    0 <= k < n ==> #[trigger] out@[k] == if i <= k < i + j {
                        poly_mul_coef(a@, b@, i as nat, k) ^ mul_term(a@, b@, i as int, k)
                    } else {
                        poly_mul_coef(a@, b@, i as nat, k)
                    },
            decreases b@.len() - j,
        {
            let m = crate::error_correction::mul(gf, a[i] as usize, b[j] as usize) as u8;
            let cur = out[i + j];
            out.set(i + j, cur ^ m);
            j = j + 1;
        }
        assert forall|k: int| 0 <= k < n implies #[trigger] out@[k] == poly_mul_coef(
            a@,
            b@,
            (i + 1) as nat,
            k,
        ) by {
            if !(i <= k < i + b@.len()) {
                lemma_xor_zero(poly_mul_coef(a@, b@, i as nat, k));
            }
        }
        i = i + 1;
    }
    assert(out@ =~= poly_product(a@, b@));
    out
}

/// One elimination step of the division: when coefficient `x` of `r` is nonzero,
/// subtract (XOR) `b` scaled to cancel it, aligned at `x`.
pub open spec fn rem_step(r: Seq<u8>, b: Seq<u8>, x: int) -> Seq<u8> {
    if r[x] == 0 {
        r
    } else {
        let f = gf_div(r[x] as nat, b[0] as nat);
        Seq::new(
            r.len(),
            |k: int|
                if x <= k < x + b.len() {
                    r[k] ^ (gf_mul(b[k - x] as nat, f) as u8)
                } else {
                    r[k]
                },
        )
    }
}

/// The running remainder after eliminating the first `n` coefficients of `a`.
pub open spec fn rem_after(a: Seq<u8>, b: Seq<u8>, n: nat) -> Seq<u8>
    decreases n,
{
    if n == 0 {
        a
    } else {
        rem_step(rem_after(a, b, (n - 1) as nat), b, n - 1)
    }
}

/// Remainder of `a` divided by `b` over GF(256): the last `b.len() - 1` coefficients
/// left once every leading coefficient has been eliminated.
pub open spec fn poly_remainder(a: Seq<u8>, b: Seq<u8>) -> Seq<u8> {
    let q = a.len() - b.len() + 1;
    rem_after(a, b, q as nat).subrange(q, a.len() as int)
}

proof fn lemma_rem_after_len(a: Seq<u8>, b: Seq<u8>, n: nat)
    ensures
        rem_after(a, b, n).len() == a.len(),
    decreases n,
{
    if n > 0 {
        lemma_rem_after_len(a, b, (n - 1) as nat);
    }
}

/// Polynomial remainder on GF(256).
pub fn poly_rest(gf: &GaloisField, a: &Vec<u8>, b: &Vec<u8>) -> (r: Vec<u8>)
    requires
        gf.wf(),
        b@.len() >= 1,
        a@.len() + 1 >= b@.len(),
    ensures
        r@ == poly_remainder(a@, b@),
        r@.len() == b@.len() - 1,
{
    let mut rest: Vec<u8> = a.clone();
    assert(rest@ =~= a@);
    let quotient_len = a.len() - (b.len() - 1);
    let mut x: usize = 0;
    while x < quotient_len
        invariant
            gf.wf(),
            x <= quotient_len == a@.len() + 1 - b@.len(),
            a@.len() <= usize::MAX,
            b@.len() >= 1,
            rest@ == rem_after(a@, b@, x as nat),
            rest@.len() == a@.len(),
        decreases quotient_len - x,
    {
        let ghost before = rest@;
        if rest[x] != 0 {
            let factor = div(gf, rest[x] as usize, b[0] as usize);
            let mut i: usize = 0;
            while i < b.len()
                invariant
                    gf.wf(),
                    i <= b@.len(),
                    x + b@.len() <= a@.len(),
                    a@.len() <= usize::MAX,
                    before.len() == a@.len(),
                    before[x as int] != 0,
                    factor == gf_div(before[x as int] as nat, b@[0] as nat),
                    rest@.len() == a@.len(),
                    forall|k: int|
                        0 <= k < rest@.len() ==> #[trigger] rest@[k] == if x <= k < x + i {
                            before[k] ^ (gf_mul(b@[k - x] as nat, factor as nat) as u8)
                        } else {
                            before[k]
                        },
                decreases b@.len() - i,
            {
                let m = crate::error_correction::mul(gf, b[i] as usize, factor) as u8;
                let cur = rest[x + i];
                rest.set(x + i, cur ^ m);
                i = i + 1;
            }
        }
        assert(rest@ =~= rem_step(before, b@, x as int));
        x = x + 1;
    }
    let mut out: Vec<u8> = Vec::new();
    let mut k: usize = quotient_len;
    while k < rest.len()
        invariant
            quotient_len <= k <= rest@.len(),
            out@ == rest@.subrange(quotient_len as int, k as int),
        decreases rest@.len() - k,
    {
        out.push(rest[k]);
        k = k + 1;
        assert(out@ =~= rest@.subrange(quotient_len as int, k as int));
    }
    out
}

/// Generator polynomial with `k` error-correction codewords: the product of
/// `(x - 2^i)` for `i` in `0..k`.
pub open spec fn generator(k: nat) -> Seq<u8>
    decreases k,
{
    if k == 0 {
        seq![1u8]
    } else {
        poly_product(generator((k - 1) as nat), seq![1u8, exp_table()[k - 1]])
    }
}

proof fn lemma_generator_len(k: nat)
    ensures
        generator(k).len() == k + 1,
    decreases k,
{
    if k > 0 {
        lemma_generator_len((k - 1) as nat);
    }
}

/// The generator polynomials for 0 to 30 error-correction codewords, by index.
pub fn generator_polys(gf: &GaloisField) -> (r: Vec<Vec<u8>>)
    requires
        gf.wf(),
    ensures
        r@.len() == 31,
        forall|k: int| 0 <= k < 31 ==> (#[trigger] r@[k])@ == generator(k as nat),
{
    let mut out: Vec<Vec<u8>> = Vec::new();
    let mut cur: Vec<u8> = vec![1u8];
    out.push(vec![1u8]);
    assert(out@[0]@ =~= generator(0));
    let mut x: usize = 0;
    while x < 30
        invariant
            gf.wf(),
            x <= 30,
            out@.len() == x + 1,
            cur@ == generator(x as nat),
            forall|k: int| 0 <= k <= x ==> (#[trigger] out@[k])@ == generator(k as nat),
        decreases 30 - x,
    {
        proof {
            lemma_generator_len(x as nat);
        }
        let factor: Vec<u8> = vec![1u8, gf.exp[x]];
        assert(factor@ =~= seq![1u8, exp_table()[x as int]]);
        cur = poly_mul(gf, &cur, &factor);
        let copy = cur.clone();
        assert(copy@ =~= cur@);
        out.push(copy);
        x = x + 1;
    }
    out
}

/// The generator polynomial for `k` error-correction codewords.
pub fn generator_poly(gf: &GaloisField, k: usize) -> (r: Vec<u8>)
    requires
        gf.wf(),
        k <= 30,
    ensures
        r@ == generator(k as nat),
{
    let mut cur: Vec<u8> = vec![1u8];
    assert(cur@ =~= generator(0));
    let mut x: usize = 0;
    while x < k
        invariant
            gf.wf(),
            x <= k <= 30,
            cur@ == generator(x as nat),
        decreases k - x,
    {
        proof {
            lemma_generator_len(x as nat);
        }
        let factor: Vec<u8> = vec![1u8, gf.exp[x]];
        assert(factor@ =~= seq![1u8, exp_table()[x as int]]);
        cur = poly_mul(gf, &cur, &factor);
        x = x + 1;
    }
    cur
}

/// Error-correction codewords of a block: the remainder of the block, followed by
/// `e` zeros, divided by the generator polynomial of degree `e`.
pub open spec fn ec_codewords(m: Seq<u8>, e: nat) -> Seq<u8> {
    poly_remainder(m + Seq::new(e, |i: int| 0u8), generator(e))
}

fn ec_block(gf: &GaloisField, generator_poly: &Vec<u8>, message: &[u8], ec_count: usize) -> (r: Vec<u8>)
    requires
        gf.wf(),
        ec_count <= 30,
        generator_poly@ == generator(ec_count as nat),
        message@.len() + ec_count <= usize::MAX,
    ensures
        r@ == ec_codewords(message@, ec_count as nat),
        r@.len() == ec_count,
{
    let mut padded: Vec<u8> = Vec::new();
    let mut i: usize = 0;
    while i < message.len()
        invariant
            i <= message@.len(),
            padded@ == message@.subrange(0, i as int),
        decreases message@.len() - i,
    {
        padded.push(message[i]);
        i = i + 1;
        assert(padded@ =~= message@.subrange(0, i as int));
    }
    let mut z: usize = 0;
    while z < ec_count
        invariant
            z <= ec_count <= 30,
            message@.len() + ec_count <= usize::MAX,
            padded@ == message@ + Seq::new(z as nat, |j: int| 0u8),
        decreases ec_count - z,
    {
        padded.push(0);
        z = z + 1;
        assert(padded@ =~= message@ + Seq::new(z as nat, |j: int| 0u8));
    }
    assert(message@.subrange(0, message@.len() as int) =~= message@);
    proof {
        lemma_generator_len(ec_count as nat);
    }
    poly_rest(gf, &padded, generator_poly)
}

/// Error-correction codewords of one block.
pub fn ec_group(message: &[u8], ec_count: usize) -> (r: Vec<u8>)
    requires
        ec_count <= 30,
        message@.len() + ec_count <= usize::MAX,
    ensures
        r@ == ec_codewords(message@, ec_count as nat),
{
    let gf = GaloisField::new();
    let generator_poly = generator_poly(&gf, ec_count);
    ec_block(&gf, &generator_poly, message, ec_count)
}

/// Start of block `i` when `n` data codewords are split into `nb` blocks: the first
/// `nb - n % nb` blocks hold `n / nb` codewords, the others one more.
pub open spec fn block_start(n: nat, nb: nat, i: nat) -> nat {
    let g1 = (nb - n % nb) as nat;
    i * (n / nb) + if i > g1 {
        (i - g1) as nat
    } else {
        0
    }
}

/// Data codewords of block `i`.
pub open spec fn block_of(m: Seq<u8>, n: nat, nb: nat, i: nat) -> Seq<u8> {
    m.subrange(block_start(n, nb, i) as int, block_start(n, nb, i + 1) as int)
}

/// The final codeword stream: data codewords column by column across the blocks
/// (the longer blocks' last column after the others), then the error-correction
/// codewords column by column.
#[verifier::opaque]
pub open spec fn interleaved(m: Seq<u8>, n: nat, e: nat, nb: nat) -> Seq<u8> {
    let bs = n / nb;
    let g1 = (nb - n % nb) as nat;
    Seq::new(
        n + e * nb,
        |t: int|
            if t < bs * nb {
                m[block_start(n, nb, (t % nb as int) as nat) + t / nb as int]
            } else if t < n {
                m[(block_start(n, nb, (g1 + (t - bs * nb)) as nat) + bs) as int]
            } else {
                ec_codewords(block_of(m, n, nb, ((t - n) % nb as int) as nat), e)[(t - n)
                    / nb as int]
            },
    )
}

/// The data codewords of a version and level with their error correction, interleaved.
pub open spec fn ec_encoded(m: Seq<u8>, version: u8, level: ECLevel) -> Seq<u8> {
    let (n, e, nb) = blocks_table(version, level);
    interleaved(m, n as nat, e as nat, nb as nat)
}

proof fn lemma_interleaved_len(m: Seq<u8>, n: nat, e: nat, nb: nat)
    ensures
        interleaved(m, n, e, nb).len() == n + e * nb,
{
    reveal(interleaved);
}

proof fn lemma_interleaved_data(m: Seq<u8>, n: nat, e: nat, nb: nat, i: nat, j: nat)
    requires
        1 <= nb,
        i < n / nb,
        j < nb,
    ensures
        i * nb + j < (n / nb) * nb,
        interleaved(m, n, e, nb)[(i * nb + j) as int] == m[(block_start(n, nb, j) + i) as int],
{
    reveal(interleaved);
    let t = i * nb + j;
    lemma_div_mod_of(t as int, nb as int, i as int, j as int);
    assert(t < (n / nb) * nb) by (nonlinear_arith)
        requires
            t == i * nb + j,
            j < nb,
            i < n / nb,
    ;
    assert((n / nb) * nb <= n) by {
        vstd::arithmetic::div_mod::lemma_fundamental_div_mod(n as int, nb as int);
        vstd::arithmetic::div_mod::lemma_mod_pos_bound(n as int, nb as int);
        assert((n / nb) * nb == nb * (n / nb)) by (nonlinear_arith);
    }
}

proof fn lemma_interleaved_extra(m: Seq<u8>, n: nat, e: nat, nb: nat, k: nat)
    requires
        1 <= nb <= n,
        nb - n % nb <= k < nb,
    ensures
        interleaved(m, n, e, nb)[((n / nb) * nb + (k - (nb - n % nb))) as int] == m[(block_start(
            n,
            nb,
            k,
        ) + n / nb) as int],
{
    reveal(interleaved);
    vstd::arithmetic::div_mod::lemma_fundamental_div_mod(n as int, nb as int);
    vstd::arithmetic::div_mod::lemma_mod_pos_bound(n as int, nb as int);
    assert((n / nb) * nb == nb * (n / nb)) by (nonlinear_arith);
}

proof fn lemma_interleaved_ec(m: Seq<u8>, n: nat, e: nat, nb: nat, j: nat, i: nat)
    requires
        1 <= nb <= n,
        j < e,
        i < nb,
    ensures
        j * nb + i < e * nb,
        interleaved(m, n, e, nb)[(n + j * nb + i) as int] == ec_codewords(
            block_of(m, n, nb, i),
            e,
        )[j as int],
{
    reveal(interleaved);
    let t = j * nb + i;
    lemma_div_mod_of(t as int, nb as int, j as int, i as int);
    vstd::arithmetic::div_mod::lemma_fundamental_div_mod(n as int, nb as int);
    vstd::arithmetic::div_mod::lemma_mod_pos_bound(n as int, nb as int);
    assert((n / nb) * nb == nb * (n / nb)) by (nonlinear_arith);
    assert(t < e * nb) by (nonlinear_arith)
        requires
            t == j * nb + i,
            i < nb,
            j < e,
    ;
}

proof fn lemma_block_geometry(n: nat, nb: nat)
    requires
        1 <= nb <= n,
    ensures
        n / nb >= 1,
        (n / nb) * nb + n % nb == n,
        (n / nb) * nb <= n,
        nb - n % nb >= 1,
        block_start(n, nb, 0) == 0,
        block_start(n, nb, nb) == n,
        forall|i: nat|
            #![trigger block_start(n, nb, i + 1)]
            block_start(n, nb, i + 1) == block_start(n, nb, i) + n / nb + if i >= (nb - n % nb) {
                1nat
            } else {
                0nat
            },
        forall|i: nat, j: nat|
            #![trigger block_start(n, nb, i), block_start(n, nb, j)]
            i <= j ==> block_start(n, nb, i) <= block_start(n, nb, j),
{
    let bs = n / nb;
    vstd::arithmetic::div_mod::lemma_fundamental_div_mod(n as int, nb as int);
    vstd::arithmetic::div_mod::lemma_mod_pos_bound(n as int, nb as int);
    assert(bs >= 1) by {
        vstd::arithmetic::div_mod::lemma_div_non_zero(n as int, nb as int);
    }
    assert(bs * nb == nb * bs) by (nonlinear_arith);
    assert forall|i: nat|
        #![trigger block_start(n, nb, i + 1)]
        block_start(n, nb, i + 1) == block_start(n, nb, i) + n / nb + if i >= (nb - n % nb) {
            1nat
        } else {
            0nat
        } by {
        assert((i + 1) * bs == i * bs + bs) by (nonlinear_arith);
    }
    assert forall|i: nat, j: nat|
        #![trigger block_start(n, nb, i), block_start(n, nb, j)]
        i <= j implies block_start(n, nb, i) <= block_start(n, nb, j) by {
        assert(i * bs <= j * bs) by (nonlinear_arith)
            requires
                i <= j,
        ;
    }
}

fn block_start_of(n: usize, nb: usize, i: usize) -> (r: usize)
    requires
        1 <= nb <= 81,
        nb <= n <= 2956,
        i <= nb,
    ensures
        r == block_start(n as nat, nb as nat, i as nat),
{
    let block_size = n / nb;
    let group1 = nb - n % nb;
    assert(i * block_size <= 81 * 2956) by (nonlinear_arith)
        requires
            i <= 81,
            block_size <= 2956,
    ;
    i * block_size + if i > group1 {
        i - group1
    } else {
        0
    }
}

proof fn lemma_div_mod_of(t: int, nb: int, q: int, r: int)
    requires
        nb > 0,
        0 <= r < nb,
        t == q * nb + r,
    ensures
        t / nb == q,
        t % nb == r,
{
    vstd::arithmetic::div_mod::lemma_fundamental_div_mod_converse(t, nb, q, r);
}

fn interleave_data(message: &Vec<u8>, n: usize, e: usize, nb: usize) -> (out: Vec<u8>)
    requires
        1 <= nb <= 81,
        nb <= n <= 2956,
        e <= 30,
        message@.len() == n,
    ensures
        out@.len() == n,
        forall|t: int| 0 <= t < n ==> #[trigger] out@[t] == interleaved(message@, n as nat, e as nat, nb as nat)[t],
{
    proof {
        lemma_block_geometry(n as nat, nb as nat);
    }
    let ghost full = interleaved(message@, n as nat, e as nat, nb as nat);
    let block_size = n / nb;
    let group1 = nb - n % nb;
    let mut out: Vec<u8> = Vec::new();
    let mut i: usize = 0;
    while i < block_size
        invariant
            1 <= nb <= 81,
            nb <= n <= 2956,
            message@.len() == n,
            block_size == n / nb,
            full == interleaved(message@, n as nat, e as nat, nb as nat),
            block_size * nb <= n,
            block_start(n as nat, nb as nat, nb as nat) == n,
            forall|k: nat| #![trigger block_start(n as nat, nb as nat, k + 1)]
                block_start(n as nat, nb as nat, k + 1) == block_start(n as nat, nb as nat, k) + n / nb + if k >= (nb - n % nb) { 1nat } else { 0nat },
            forall|a: nat, b: nat| #![trigger block_start(n as nat, nb as nat, a), block_start(n as nat, nb as nat, b)]
                a <= b ==> block_start(n as nat, nb as nat, a) <= block_start(n as nat, nb as nat, b),
            i <= block_size,
            out@.len() == i * nb,
            forall|t: int| 0 <= t < out@.len() ==> #[trigger] out@[t] == full[t],
        decreases block_size - i,
    {
        let mut j: usize = 0;
        while j < nb
            invariant
                1 <= nb <= 81,
                nb <= n <= 2956,
                message@.len() == n,
                block_size == n / nb,
                full == interleaved(message@, n as nat, e as nat, nb as nat),
                block_size * nb <= n,
                block_start(n as nat, nb as nat, nb as nat) == n,
                forall|k: nat| #![trigger block_start(n as nat, nb as nat, k + 1)]
                    block_start(n as nat, nb as nat, k + 1) == block_start(n as nat, nb as nat, k) + n / nb + if k >= (nb - n % nb) { 1nat } else { 0nat },
                forall|a: nat, b: nat| #![trigger block_start(n as nat, nb as nat, a), block_start(n as nat, nb as nat, b)]
                    a <= b ==> block_start(n as nat, nb as nat, a) <= block_start(n as nat, nb as nat, b),
                i < block_size,
                j <= nb,
                out@.len() == i * nb + j,
                forall|t: int| 0 <= t < out@.len() ==> #[trigger] out@[t] == full[t],
            decreases nb - j,
        {
            let start = block_start_of(n, nb, j);
            proof {
                assert(block_start(n as nat, nb as nat, j as nat + 1) <= block_start(n as nat, nb as nat, nb as nat));
                lemma_interleaved_data(message@, n as nat, e as nat, nb as nat, i as nat, j as nat);
            }
            out.push(message[start + i]);
            j = j + 1;
        }
        assert((i + 1) * nb == i * nb + nb) by (nonlinear_arith);
        i = i + 1;
    }
    let mut i: usize = group1;
    while i < nb
        invariant
            1 <= nb <= 81,
            nb <= n <= 2956,
            message@.len() == n,
            block_size == n / nb,
            group1 == nb - n % nb,
            full == interleaved(message@, n as nat, e as nat, nb as nat),
            block_size * nb + n % nb == n,
            block_start(n as nat, nb as nat, nb as nat) == n,
            forall|k: nat| #![trigger block_start(n as nat, nb as nat, k + 1)]
                block_start(n as nat, nb as nat, k + 1) == block_start(n as nat, nb as nat, k) + n / nb + if k >= (nb - n % nb) { 1nat } else { 0nat },
            forall|a: nat, b: nat| #![trigger block_start(n as nat, nb as nat, a), block_start(n as nat, nb as nat, b)]
                a <= b ==> block_start(n as nat, nb as nat, a) <= block_start(n as nat, nb as nat, b),
            group1 <= i <= nb,
            out@.len() == block_size * nb + (i - group1),
            forall|t: int| 0 <= t < out@.len() ==> #[trigger] out@[t] == full[t],
        decreases nb - i,
    {
        let start = block_start_of(n, nb, i);
        proof {
            assert(block_start(n as nat, nb as nat, i as nat + 1) <= block_start(n as nat, nb as nat, nb as nat));
            lemma_interleaved_extra(message@, n as nat, e as nat, nb as nat, i as nat);
        }
        out.push(message[start + block_size]);
        i = i + 1;
    }
    out
}

fn interleave_ec(gf: &GaloisField, generator_poly: &Vec<u8>, message: &Vec<u8>, n: usize, e: usize, nb: usize) -> (out: Vec<u8>)
    requires
        gf.wf(),
        generator_poly@ == generator(e as nat),
        1 <= nb <= 81,
        nb <= n <= 2956,
        e <= 30,
        message@.len() == n,
    ensures
        out@.len() == e * nb,
        forall|u: int| 0 <= u < e * nb ==> #[trigger] out@[u] == interleaved(message@, n as nat, e as nat, nb as nat)[n + u],
{
    proof {
        lemma_block_geometry(n as nat, nb as nat);
    }
    let ghost full = interleaved(message@, n as nat, e as nat, nb as nat);
    let mut ec_data: Vec<Vec<u8>> = Vec::new();
    let mut i: usize = 0;
    while i < nb
        invariant
            gf.wf(),
            generator_poly@ == generator(e as nat),
            1 <= nb <= 81,
            nb <= n <= 2956,
            e <= 30,
            message@.len() == n,
            block_start(n as nat, nb as nat, nb as nat) == n,
            forall|a: nat, b: nat| #![trigger block_start(n as nat, nb as nat, a), block_start(n as nat, nb as nat, b)]
                a <= b ==> block_start(n as nat, nb as nat, a) <= block_start(n as nat, nb as nat, b),
            i <= nb,
            ec_data@.len() == i,
            forall|k: int| 0 <= k < i ==> (#[trigger] ec_data@[k])@ == ec_codewords(block_of(message@, n as nat, nb as nat, k as nat), e as nat),
            forall|k: int| 0 <= k < i ==> (#[trigger] ec_data@[k])@.len() == e,
        decreases nb - i,
    {
        let start = block_start_of(n, nb, i);
        let end = block_start_of(n, nb, i + 1);
        proof {
            assert(block_start(n as nat, nb as nat, i as nat) <= block_start(n as nat, nb as nat, i as nat + 1));
            assert(block_start(n as nat, nb as nat, i as nat + 1) <= block_start(n as nat, nb as nat, nb as nat));
        }
        let block = &message.as_slice()[start..end];
        let ec = ec_block(gf, generator_poly, block, e);
        ec_data.push(ec);
        i = i + 1;
    }
    let mut out: Vec<u8> = Vec::new();
    let mut j: usize = 0;
    while j < e
        invariant
            1 <= nb <= 81,
            nb <= n <= 2956,
            e <= 30,
            full == interleaved(message@, n as nat, e as nat, nb as nat),
            ec_data@.len() == nb,
            forall|k: int| 0 <= k < nb ==> (#[trigger] ec_data@[k])@ == ec_codewords(block_of(message@, n as nat, nb as nat, k as nat), e as nat),
            forall|k: int| 0 <= k < nb ==> (#[trigger] ec_data@[k])@.len() == e,
            j <= e,
            out@.len() == j * nb,
            forall|u: int| 0 <= u < out@.len() ==> #[trigger] out@[u] == full[n + u],
        decreases e - j,
    {
        let mut i: usize = 0;
        while i < nb
            invariant
                1 <= nb <= 81,
                nb <= n <= 2956,
                e <= 30,
                full == interleaved(message@, n as nat, e as nat, nb as nat),
                ec_data@.len() == nb,
                forall|k: int| 0 <= k < nb ==> (#[trigger] ec_data@[k])@ == ec_codewords(block_of(message@, n as nat, nb as nat, k as nat), e as nat),
                forall|k: int| 0 <= k < nb ==> (#[trigger] ec_data@[k])@.len() == e,
                j < e,
                i <= nb,
                out@.len() == j * nb + i,
                forall|u: int| 0 <= u < out@.len() ==> #[trigger] out@[u] == full[n + u],
            decreases nb - i,
        {
            proof {
                lemma_interleaved_ec(message@, n as nat, e as nat, nb as nat, j as nat, i as nat);
            }
            out.push(ec_data[i][j]);
            i = i + 1;
        }
        assert((j + 1) * nb == j * nb + nb) by (nonlinear_arith);
        j = j + 1;
    }
    out
}

/// Splits the data codewords into blocks, adds error correction to each, and
/// interleaves the result.
pub fn ec_encode(message: Vec<u8>, version: u8, ec_level: ECLevel) -> (r: Vec<u8>)
    requires
        1 <= version <= 40,
        message@.len() == blocks_table(version, ec_level).0,
    ensures
        r@ == ec_encoded(message@, version, ec_level),
        r@.len() == blocks_table(version, ec_level).0 + blocks_table(version, ec_level).1 * blocks_table(version, ec_level).2,
{
    let gf = GaloisField::new();
    ec_encode_with(&gf, message, version, ec_level)
}

/// Error-correction encoding with the given field tables.
pub fn ec_encode_with(gf: &GaloisField, message: Vec<u8>, version: u8, ec_level: ECLevel) -> (r: Vec<u8>)
    requires
        gf.wf(),
        1 <= version <= 40,
        message@.len() == blocks_table(version, ec_level).0,
    ensures
        r@ == ec_encoded(message@, version, ec_level),
        r@.len() == blocks_table(version, ec_level).0 + blocks_table(version, ec_level).1 * blocks_table(version, ec_level).2,
{
    let (num_data_codewords, ec_per_block, num_blocks) = blocks_table_get(version, ec_level);
    proof {
        lemma_entry_bounds(version, ec_level);
        lemma_interleaved_len(message@, num_data_codewords as nat, ec_per_block as nat, num_blocks as nat);
    }
    let mut out = interleave_data(&message, num_data_codewords, ec_per_block, num_blocks);
    let generator_poly = generator_poly(gf, ec_per_block);
    let mut ec = interleave_ec(gf, &generator_poly, &message, num_data_codewords, ec_per_block, num_blocks);
    let ghost data = out@;
    out.append(&mut ec);
    assert(out@ =~= interleaved(message@, num_data_codewords as nat, ec_per_block as nat, num_blocks as nat));
    out
}

/// The orbit of `v` under doubling, from step `k` on, avoids 1 until step 255 and
/// meets 1 there.
pub open spec fn orbit_ok(k: nat, v: nat) -> bool
    decreases 255 - k,
{
    if k >= 255 {
        v == 1
    } else {
        v != 1 && orbit_ok(k + 1, gf_double(v))
    }
}

// The orbit of 1 is evaluated backwards from step 255 in stretches of five
// doublings; each lemma below extends the previous one down to a lower step.
#[verifier::rlimit(100)]
proof fn lemma_orbit_from_230()
    ensures
        orbit_ok(230, 244),
{
    assert(orbit_ok(255, 1));
    assert(orbit_ok(250, 108)) by {
        reveal(gf_double);
        reveal_with_fuel(orbit_ok, 6);
    }
    assert(orbit_ok(245, 233)) by {
        reveal(gf_double);
        reveal_with_fuel(orbit_ok, 6);
    }
    assert(orbit_ok(240, 44)) by {
        reveal(gf_double);
        reveal_with_fuel(orbit_ok, 6);
    }
    assert(orbit_ok(235, 235)) by {
        reveal(gf_double);
        reveal_with_fuel(orbit_ok, 6);
    }
    assert(orbit_ok(230, 244)) by {
        reveal(gf_double);
        reveal_with_fuel(orbit_ok, 6);
    }
}

#[verifier::rlimit(100)]
proof fn lemma_orbit_from_205()
    ensures
        orbit_ok(205, 167),
{
    lemma_orbit_from_230();
    assert(orbit_ok(225, 36)) by {
        reveal(gf_double);
        reveal_with_fuel(orbit_ok, 6);
    }
    assert(orbit_ok(220, 172)) by {
        reveal(gf_double);
        reveal_with_fuel(orbit_ok, 6);
    }
    assert(orbit_ok(215, 239)) by {
        reveal(gf_double);
        reveal_with_fuel(orbit_ok, 6);
    }
    assert(orbit_ok(210, 89)) by {
        reveal(gf_double);
        reveal_with_fuel(orbit_ok, 6);
    }
    assert(orbit_ok(205, 167)) by {
        reveal(gf_double);
        reveal_with_fuel(orbit_ok, 6);
    }
}

#[verifier::rlimit(100)]
proof fn lemma_orbit_from_180()
    ensures
        orbit_ok(180, 150),
{
    lemma_orbit_from_205();
    assert(orbit_ok(200, 28)) by {
        reveal(gf_double);
        reveal_with_fuel(orbit_ok, 6);
    }
    assert(orbit_ok(195, 100)) by {
        reveal(gf_double);
        reveal_with_fuel(orbit_ok, 6);
    }
    assert(orbit_ok(190, 174)) by {
        reveal(gf_double);
        reveal_with_fuel(orbit_ok, 6);
    }
    assert(orbit_ok(185, 55)) by {
        reveal(gf_double);
        reveal_with_fuel(orbit_ok, 6);
    }
    assert(orbit_ok(180, 150)) by {
        reveal(gf_double);
        reveal_with_fuel(orbit_ok, 6);
    }
}

#[verifier::rlimit(100)]
proof fn lemma_orbit_from_155()
    ensures
        orbit_ok(155, 114),
{
    lemma_orbit_from_180();
    assert(orbit_ok(175, 255)) by {
        reveal(gf_double);
        reveal_with_fuel(orbit_ok, 6);
    }
    assert(orbit_ok(170, 215)) by {
        reveal(gf_double);
        reveal_with_fuel(orbit_ok, 6);
    }
    assert(orbit_ok(165, 145)) by {
        reveal(gf_double);
        reveal_with_fuel(orbit_ok, 6);
    }
    assert(orbit_ok(160, 230)) by {
        reveal(gf_double);
        reveal_with_fuel(orbit_ok, 6);
    }
    assert(orbit_ok(155, 114)) by {
        reveal(gf_double);
        reveal_with_fuel(orbit_ok, 6);
    }
}

#[verifier::rlimit(100)]
proof fn lemma_orbit_from_130()
    ensures
        orbit_ok(130, 46),
{
    lemma_orbit_from_155();
    assert(orbit_ok(150, 85)) by {
        reveal(gf_double);
        reveal_with_fuel(orbit_ok, 6);
    }
    assert(orbit_ok(145, 77)) by {
        reveal(gf_double);
        reveal_with_fuel(orbit_ok, 6);
    }
    assert(orbit_ok(140, 132)) by {
        reveal(gf_double);
        reveal_with_fuel(orbit_ok, 6);
    }
    assert(orbit_ok(135, 169)) by {
        reveal(gf_double);
        reveal_with_fuel(orbit_ok, 6);
    }
    assert(orbit_ok(130, 46)) by {
        reveal(gf_double);
        reveal_with_fuel(orbit_ok, 6);
    }
}

#[verifier::rlimit(100)]
proof fn lemma_orbit_from_105()
    ensures
        orbit_ok(105, 26),
{
    lemma_orbit_from_130();
    assert(orbit_ok(125, 51)) by {
        reveal(gf_double);
        reveal_with_fuel(orbit_ok, 6);
    }
    assert(orbit_ok(120, 59)) by {
        reveal(gf_double);
        reveal_with_fuel(orbit_ok, 6);
    }
    assert(orbit_ok(115, 124)) by {
        reveal(gf_double);
        reveal_with_fuel(orbit_ok, 6);
    }
    assert(orbit_ok(110, 103)) by {
        reveal(gf_double);
        reveal_with_fuel(orbit_ok, 6);
    }
    assert(orbit_ok(105, 26)) by {
        reveal(gf_double);
        reveal_with_fuel(orbit_ok, 6);
    }
}

#[verifier::rlimit(100)]
proof fn lemma_orbit_from_80()
    ensures
        orbit_ok(80, 253),
{
    lemma_orbit_from_105();
    assert(orbit_ok(100, 17)) by {
        reveal(gf_double);
        reveal_with_fuel(orbit_ok, 6);
    }
    assert(orbit_ok(95, 226)) by {
        reveal(gf_double);
        reveal_with_fuel(orbit_ok, 6);
    }
    assert(orbit_ok(90, 223)) by {
        reveal(gf_double);
        reveal_with_fuel(orbit_ok, 6);
    }
    assert(orbit_ok(85, 214)) by {
        reveal(gf_double);
        reveal_with_fuel(orbit_ok, 6);
    }
    assert(orbit_ok(80, 253)) by {
        reveal(gf_double);
        reveal_with_fuel(orbit_ok, 6);
    }
}

#[verifier::rlimit(100)]
proof fn lemma_orbit_from_55()
    ensures
        orbit_ok(55, 160),
{
    lemma_orbit_from_80();
    assert(orbit_ok(75, 15)) by {
        reveal(gf_double);
        reveal_with_fuel(orbit_ok, 6);
    }
    assert(orbit_ok(70, 94)) by {
        reveal(gf_double);
        reveal_with_fuel(orbit_ok, 6);
    }
    assert(orbit_ok(65, 190)) by {
        reveal(gf_double);
        reveal_with_fuel(orbit_ok, 6);
    }
    assert(orbit_ok(60, 185)) by {
        reveal(gf_double);
        reveal_with_fuel(orbit_ok, 6);
    }
    assert(orbit_ok(55, 160)) by {
        reveal(gf_double);
        reveal_with_fuel(orbit_ok, 6);
    }
}

#[verifier::rlimit(100)]
proof fn lemma_orbit_from_30()
    ensures
        orbit_ok(30, 96),
{
    lemma_orbit_from_55();
    assert(orbit_ok(50, 5)) by {
        reveal(gf_double);
        reveal_with_fuel(orbit_ok, 6);
    }
    assert(orbit_ok(45, 193)) by {
        reveal(gf_double);
        reveal_with_fuel(orbit_ok, 6);
    }
    assert(orbit_ok(40, 106)) by {
        reveal(gf_double);
        reveal_with_fuel(orbit_ok, 6);
    }
    assert(orbit_ok(35, 156)) by {
        reveal(gf_double);
        reveal_with_fuel(orbit_ok, 6);
    }
    assert(orbit_ok(30, 96)) by {
        reveal(gf_double);
        reveal_with_fuel(orbit_ok, 6);
    }
}

#[verifier::rlimit(100)]
proof fn lemma_orbit_from_5()
    ensures
        orbit_ok(5, 32),
{
    lemma_orbit_from_30();
    assert(orbit_ok(25, 3)) by {
        reveal(gf_double);
        reveal_with_fuel(orbit_ok, 6);
    }
    assert(orbit_ok(20, 180)) by {
        reveal(gf_double);
        reveal_with_fuel(orbit_ok, 6);
    }
    assert(orbit_ok(15, 38)) by {
        reveal(gf_double);
        reveal_with_fuel(orbit_ok, 6);
    }
    assert(orbit_ok(10, 116)) by {
        reveal(gf_double);
        reveal_with_fuel(orbit_ok, 6);
    }
    assert(orbit_ok(5, 32)) by {
        reveal(gf_double);
        reveal_with_fuel(orbit_ok, 6);
    }
}

#[verifier::rlimit(100)]
proof fn lemma_orbit_from_1()
    ensures
        orbit_ok(1, 2),
{
    lemma_orbit_from_5();
    assert(orbit_ok(1, 2)) by {
        reveal(gf_double);
        reveal_with_fuel(orbit_ok, 6);
    }
}

proof fn lemma_orbit_facts(k: nat)
    requires
        1 <= k <= 255,
        orbit_ok(k, gf_pow(k)),
    ensures
        gf_pow(255) == 1,
        forall|j: nat| k <= j < 255 ==> #[trigger] gf_pow(j) != 1,
    decreases 255 - k,
{
    if k < 255 {
        assert(gf_pow(k + 1) == gf_double(gf_pow(k)));
        lemma_orbit_facts(k + 1);
    }
}

/// `2^255 = 1` in GF(256), and no smaller positive power of 2 is 1.
pub proof fn lemma_generator_order()
    ensures
        gf_pow(255) == 1,
        forall|j: nat| 1 <= j < 255 ==> #[trigger] gf_pow(j) != 1,
{
    lemma_orbit_from_1();
    assert(gf_pow(1) == 2) by {
        reveal(gf_double);
        assert(gf_pow(1) == gf_double(gf_pow(0)));
    }
    lemma_orbit_facts(1);
}

proof fn lemma_double_injective(a: nat, b: nat)
    requires
        0 < a < 256,
        0 < b < 256,
        gf_double(a) == gf_double(b),
    ensures
        a == b,
{
    lemma_double_exec(a as u32);
    lemma_double_exec(b as u32);
    let (x, y) = (a as u32, b as u32);
    assert(x == y) by (bit_vector)
        requires
            0 < x < 256,
            0 < y < 256,
            (if x * 2 > 255 { ((x * 2) as u32 ^ 285u32) } else { (x * 2) as u32 }) == (if y * 2 > 255 {
                ((y * 2) as u32 ^ 285u32)
            } else {
                (y * 2) as u32
            }),
    ;
}

/// The powers `2^0 .. 2^254` are pairwise distinct.
pub proof fn lemma_powers_distinct(i: nat, j: nat)
    requires
        i < j < 255,
    ensures
        gf_pow(i) != gf_pow(j),
    decreases i,
{
    lemma_generator_order();
    if i > 0 && gf_pow(i) == gf_pow(j) {
        lemma_pow_range((i - 1) as nat);
        lemma_pow_range((j - 1) as nat);
        lemma_double_injective(gf_pow((i - 1) as nat), gf_pow((j - 1) as nat));
        lemma_powers_distinct((i - 1) as nat, (j - 1) as nat);
    }
}

/// Every nonzero element of GF(256) is a power of 2 below 255.
pub proof fn lemma_powers_cover(x: nat)
    requires
        1 <= x <= 255,
    ensures
        exists|k: nat| k < 255 && #[trigger] gf_pow(k) == x,
{
    let p = Seq::new(255, |k: int| gf_pow(k as nat) as int);
    assert(p.no_duplicates()) by {
        assert forall|a: int, b: int| 0 <= a < p.len() && 0 <= b < p.len() && a != b implies p[a] != p[b] by {
            if a < b {
                lemma_powers_distinct(a as nat, b as nat);
            } else {
                lemma_powers_distinct(b as nat, a as nat);
            }
        }
    }
    p.unique_seq_to_set();
    let s = p.to_set();
    let r = vstd::set_lib::set_int_range(1, 256);
    vstd::set_lib::lemma_int_range(1, 256);
    assert(s.subset_of(r)) by {
        assert forall|y: int| s.contains(y) implies r.contains(y) by {
            let k = choose|k: int| 0 <= k < p.len() && p[k] == y;
            lemma_pow_range(k as nat);
        }
    }
    vstd::seq_lib::seq_to_set_is_finite(p);
    vstd::set_lib::lemma_subset_equality(s, r);
    assert(r.contains(x as int));
    let k = choose|k: int| 0 <= k < p.len() && p[k] == x as int;
    assert(gf_pow(k as nat) == x);
}

proof fn lemma_log_entries(e: nat, big: nat)
    requires
        1 <= e <= big <= 255,
    ensures
        log_table_after(big)[gf_pow(e) as int] == (e % 255) as u8,
    decreases big,
{
    lemma_generator_order();
    lemma_pow_range(e);
    lemma_log_table_len((big - 1) as nat);
    if big > e {
        lemma_log_entries(e, (big - 1) as nat);
        lemma_pow_range(big);
        if e < 255 && big < 255 {
            lemma_powers_distinct(e, big);
        } else if big == 255 {
            assert(gf_pow(big) == 1);
            assert(gf_pow(e) != 1);
        }
    }
}

/// The antilog of the log of every nonzero element is the element.
pub proof fn lemma_antilog_log(x: nat)
    requires
        1 <= x <= 255,
    ensures
        gf_exp(gf_log(x)) == x,
{
    lemma_generator_order();
    lemma_powers_cover(x);
    let k = choose|k: nat| k < 255 && #[trigger] gf_pow(k) == x;
    if k == 0 {
        lemma_log_entries(255, 255);
        assert(gf_log(x) == 0);
    } else {
        lemma_log_entries(k, 255);
        assert(gf_log(x) == k);
    }
}

proof fn lemma_first_coef(a: Seq<u8>, b: Seq<u8>, n: nat)
    requires
        1 <= n,
        a.len() >= 1,
        b.len() >= 1,
    ensures
        poly_mul_coef(a, b, n, 0) == gf_mul(a[0] as nat, b[0] as nat) as u8,
    decreases n,
{
    if n == 1 {
        let x = gf_mul(a[0] as nat, b[0] as nat) as u8;
        assert(poly_mul_coef(a, b, 0, 0) == 0u8);
        assert(mul_term(a, b, 0, 0) == x);
        assert(0u8 ^ x == x) by (bit_vector);
    } else {
        lemma_first_coef(a, b, (n - 1) as nat);
        lemma_xor_zero(poly_mul_coef(a, b, (n - 1) as nat, 0));
    }
}

/// The generator polynomial for `k` error-correction codewords has `k + 1`
/// coefficients and is monic.
pub proof fn lemma_generator_shape(k: nat)
    ensures
        generator(k).len() == k + 1,
        generator(k)[0] == 1,
    decreases k,
{
    lemma_generator_len(k);
    if k > 0 {
        lemma_generator_shape((k - 1) as nat);
        let g = generator((k - 1) as nat);
        let f = seq![1u8, exp_table()[k - 1]];
        lemma_first_coef(g, f, g.len());
        lemma_generator_order();
        lemma_log_entries(255, 255);
        assert(gf_log(1) == 0);
        assert(gf_mul(1, 1) == 1);
    }
}

} // verus!

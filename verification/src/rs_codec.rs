//! The Reed-Solomon code that protects the boot record.
use crate::gf256;
use crate::gf_linear;
use crate::matrix;
use crate::poly;
use crate::util;
use vstd::prelude::*;

verus! {

/// Tables and generator for a code with `nsym` check symbols.
pub struct RsCodec {
    nsym: usize,
    exp: [u8; 512],
    log: [u8; 256],
    generator: Vec<u8>,
}

/// The generator polynomial: the product of `x + alpha^i` for `i < n`.
pub open spec fn generator_poly(n: nat) -> Seq<u8>
    decreases n,
{
    if n == 0 {
        seq![1u8]
    } else {
        poly::product(generator_poly((n - 1) as nat), seq![1u8, gf256::alpha_pow((n - 1) as nat)])
    }
}

/// The values of a received word at the roots of the generator.
pub open spec fn syndromes_of(code: Seq<u8>, nsym: nat) -> Seq<u8> {
    Seq::new(nsym, |i: int| poly::eval(code, gf256::alpha_pow(i as nat)))
}

/// A word is in the code where it vanishes at every root of the generator.
pub open spec fn is_codeword(code: Seq<u8>, nsym: nat) -> bool {
    forall|i: nat| i < nsym ==> #[trigger] poly::eval(code, gf256::alpha_pow(i)) == 0
}

pub proof fn lemma_generator_shape(n: nat)
    ensures
        generator_poly(n).len() == n + 1,
        generator_poly(n)[0] == 1,
    decreases n,
{
    if n > 0 {
        let m = (n - 1) as nat;
        lemma_generator_shape(m);
        let g = generator_poly(m);
        let f = seq![1u8, gf256::alpha_pow(m)];
        lemma_leading_coef(g, f, g.len());
        gf256::lemma_gf_mul_units(1);
    }
}

proof fn lemma_leading_coef(g: Seq<u8>, f: Seq<u8>, n: nat)
    requires
        1 <= n <= g.len(),
        f.len() > 0,
    ensures
        poly::product_coef(g, f, 0, n) == gf256::gf_mul(g[0], f[0]),
    decreases n,
{
    if n == 1 {
        assert(poly::product_coef(g, f, 0, 0) == 0);
        poly::lemma_xor_facts(gf256::gf_mul(g[0], f[0]), 0, 0);
    } else {
        lemma_leading_coef(g, f, (n - 1) as nat);
        poly::lemma_xor_facts(gf256::gf_mul(g[0], f[0]), 0, 0);
    }
}

/// The generator vanishes at each of its roots.
pub proof fn lemma_generator_roots(n: nat, i: nat)
    requires
        i < n,
    ensures
        poly::eval(generator_poly(n), gf256::alpha_pow(i)) == 0,
    decreases n,
{
    let m = (n - 1) as nat;
    let f = seq![1u8, gf256::alpha_pow(m)];
    let x = gf256::alpha_pow(i);
    lemma_generator_shape(m);
    poly::lemma_eval_product(generator_poly(m), f, x);
    if i < m {
        lemma_generator_roots(m, i);
        gf256::lemma_gf_mul_units(poly::eval(f, x));
    } else {
        assert(f.drop_last() =~= seq![1u8]);
        assert(seq![1u8].drop_last() =~= Seq::<u8>::empty());
        assert(poly::eval(Seq::<u8>::empty(), x) == 0);
        gf256::lemma_gf_mul_units(x);
        poly::lemma_xor_facts(1, 0, 0);
        assert(poly::eval(seq![1u8], x) == 1);
        poly::lemma_xor_facts(x, 0, 0);
        assert(poly::eval(f, x) == 0);
        gf256::lemma_gf_mul_units(poly::eval(generator_poly(m), x));
    }
}

proof fn lemma_double_step(x: u16)
    requires
        x < 256,
    ensures
        (x << 1) & 0x100 == 0 ==> (x << 1) < 256 && (x << 1) as u8 == gf256::xtime(x as u8),
        (x << 1) & 0x100 != 0 ==> ((x << 1) ^ 0x11d) < 256 && ((x << 1) ^ 0x11d) as u8
            == gf256::xtime(x as u8),
{
    assert((x << 1) & 0x100 == 0 ==> (x << 1) < 256 && (x << 1) as u8 == gf256::xtime(x as u8))
        by (bit_vector)
        requires
            x < 256,
    ;
    assert((x << 1) & 0x100 != 0 ==> ((x << 1) ^ 0x11d) < 256 && ((x << 1) ^ 0x11d) as u8
        == gf256::xtime(x as u8)) by (bit_vector)
        requires
            x < 256,
    ;
}

impl RsCodec {
    /// The number of check symbols.
    pub closed spec fn nsym_view(&self) -> nat {
        self.nsym as nat
    }

    /// The tables hold the powers of the generator and their exponents.
    pub closed spec fn tables_wf(&self) -> bool {
        &&& forall|i: int| 0 <= i < 512 ==> #[trigger] self.exp[i] == gf256::alpha_pow(i as nat)
        &&& self.log[0] == 0
        &&& forall|a: u8|
            a != 0 ==> (#[trigger] self.log[a as int]) < 255 && gf256::alpha_pow(
                self.log[a as int] as nat,
            ) == a
    }

    pub closed spec fn generator_view(&self) -> Seq<u8> {
        self.generator@
    }

    pub open spec fn wf(&self) -> bool {
        &&& self.tables_wf()
        &&& self.generator_view() == generator_poly(self.nsym_view())
    }

    pub fn new(nsym: usize) -> (rs: Self)
        requires
            nsym < usize::MAX,
        ensures
            rs.wf(),
            rs.nsym_view() == nsym,
    {
        let mut exp: [u8; 512] = [0u8; 512];
        let mut log: [u8; 256] = [0u8; 256];
        let mut x: u16 = 1;
        let mut i: usize = 0;
        while i < 255
            invariant
                i <= 255,
                x < 256,
                x as u8 == gf256::alpha_pow(i as nat),
                log[0] == 0,
                forall|j: int| 0 <= j < i ==> #[trigger] exp[j] == gf256::alpha_pow(j as nat),
                forall|j: nat| j < i ==> log[#[trigger] gf256::alpha_pow(j) as int] == j,
            decreases 255 - i,
        {
            proof {
                gf256::lemma_alpha_pow_nonzero(i as nat);
                lemma_double_step(x);
                assert forall|j: nat| j < i implies gf256::alpha_pow(j) != gf256::alpha_pow(i as nat) by {
                    if gf256::alpha_pow(j) == gf256::alpha_pow(i as nat) {
                        gf256::lemma_alpha_pow_injective(j, i as nat);
                    }
                }
            }
            exp[i] = x as u8;
            log[x as usize] = i as u8;
            x = x << 1;
            if (x & 0x100) != 0 {
                x = x ^ 0x11d;
            }
            i = i + 1;
        }
        while i < 512
            invariant
                255 <= i <= 512,
                forall|j: int| 0 <= j < i ==> #[trigger] exp[j] == gf256::alpha_pow(j as nat),
            decreases 512 - i,
        {
            proof {
                gf256::lemma_alpha_pow_mod(i as nat);
                gf256::lemma_alpha_pow_mod((i - 255) as nat);
                assert(i as nat % 255 == (i - 255) as nat % 255);
            }
            exp[i] = exp[i - 255];
            i = i + 1;
        }
        assert forall|a: u8| a != 0 implies (#[trigger] log[a as int]) < 255 && gf256::alpha_pow(
            log[a as int] as nat,
        ) == a by {
            gf256::lemma_alpha_pow_surjective(a);
            let k = choose|k: nat| k < 255 && #[trigger] gf256::alpha_pow(k) == a;
            assert(log[gf256::alpha_pow(k) as int] == k);
        }
        let mut rs = RsCodec { nsym, exp, log, generator: Vec::new() };
        rs.generator = rs.make_generator();
        rs
    }

    pub fn pow_alpha(&self, p: usize) -> (r: u8)
        requires
            self.tables_wf(),
        ensures
            r == gf256::alpha_pow(p as nat),
    {
        proof {
            gf256::lemma_alpha_pow_mod(p as nat);
        }
        self.exp[p % 255]
    }

    pub fn mul(&self, a: u8, b: u8) -> (r: u8)
        requires
            self.tables_wf(),
        ensures
            r == gf256::gf_mul(a, b),
    {
        proof {
            gf256::lemma_gf_mul_units(a);
            gf256::lemma_gf_mul_units(b);
        }
        if a == 0 || b == 0 {
            0
        } else {
            proof {
                gf256::lemma_alpha_pow_sum(self.log[a as int] as nat, self.log[b as int] as nat);
            }
            self.exp[self.log[a as usize] as usize + self.log[b as usize] as usize]
        }
    }

    pub fn inv(&self, a: u8) -> (r: u8)
        requires
            self.tables_wf(),
        ensures
            r == gf256::gf_inv(a),
    {
        proof {
            if a != 0 {
                let i = self.log[a as int] as nat;
                gf256::lemma_gf_inv_of_power(i);
                gf256::lemma_gf_inv_unique(a, gf256::alpha_pow(((255 - i) % 255) as nat));
            }
        }
        self.exp[(255 - self.log[a as usize] as usize) % 255]
    }

    pub fn poly_add(&self, a: &[u8], b: &[u8]) -> (r: Vec<u8>)
        ensures
            r@ == poly::trimmed(poly::aligned_sum(a@, b@)),
    {
        let n: usize = if a.len() >= b.len() {
            a.len()
        } else {
            b.len()
        };
        let ghost sum = poly::aligned_sum(a@, b@);
        let mut out: Vec<u8> = Vec::with_capacity(n);
        let mut i: usize = 0;
        while i < n
            invariant
                i <= n,
                n == poly::longer(a@.len(), b@.len()),
                sum == poly::aligned_sum(a@, b@),
                out@ == sum.take(i as int),
            decreases n - i,
        {
            let ai: u8 = if i >= n - a.len() {
                a[i - (n - a.len())]
            } else {
                0
            };
            let bi: u8 = if i >= n - b.len() {
                b[i - (n - b.len())]
            } else {
                0
            };
            out.push(ai ^ bi);
            assert(sum.take(i + 1) =~= sum.take(i as int).push(sum[i as int]));
            i = i + 1;
        }
        assert(out@ =~= sum);
        let mut start: usize = 0;
        assert(sum.skip(0) =~= sum);
        while start + 1 < out.len() && out[start] == 0
            invariant
                start <= out.len(),
                out@.len() > 0 ==> start < out.len(),
                poly::trimmed(sum) == poly::trimmed(out@.skip(start as int)),
            decreases out.len() - start,
        {
            assert(out@.skip(start as int).drop_first() =~= out@.skip(start + 1));
            start = start + 1;
        }
        assert(poly::trimmed(out@.skip(start as int)) == out@.skip(start as int));
        let mut trimmed: Vec<u8> = Vec::with_capacity(out.len() - start);
        let mut k: usize = start;
        while k < out.len()
            invariant
                start <= k <= out.len(),
                trimmed@ == out@.subrange(start as int, k as int),
            decreases out.len() - k,
        {
            trimmed.push(out[k]);
            assert(out@.subrange(start as int, k + 1) =~= out@.subrange(start as int, k as int).push(
                out@[k as int],
            ));
            k = k + 1;
        }
        assert(out@.skip(start as int) =~= out@.subrange(start as int, out@.len() as int));
        trimmed
    }

    pub fn poly_scale(&self, p: &[u8], x: u8) -> (r: Vec<u8>)
        requires
            self.tables_wf(),
        ensures
            r@ == poly::scaled(p@, x),
    {
        let mut out: Vec<u8> = Vec::with_capacity(p.len());
        let mut i: usize = 0;
        while i < p.len()
            invariant
                self.tables_wf(),
                i <= p.len(),
                out@ == poly::scaled(p@, x).take(i as int),
            decreases p.len() - i,
        {
            out.push(self.mul(p[i], x));
            assert(poly::scaled(p@, x).take(i + 1) =~= poly::scaled(p@, x).take(i as int).push(
                poly::scaled(p@, x)[i as int],
            ));
            i = i + 1;
        }
        assert(poly::scaled(p@, x).take(i as int) =~= poly::scaled(p@, x));
        out
    }

    pub fn poly_mul(&self, p: &[u8], q: &[u8]) -> (r: Vec<u8>)
        requires
            self.tables_wf(),
            p.len() > 0,
            q.len() > 0,
            p.len() + q.len() - 1 <= usize::MAX,
        ensures
            r@ == poly::product(p@, q@),
    {
        let n: usize = p.len() + (q.len() - 1);
        let mut out: Vec<u8> = vec![0u8; n];
        let mut i: usize = 0;
        while i < p.len()
            invariant
                self.tables_wf(),
                i <= p.len(),
                n == p.len() + q.len() - 1,
                out.len() == n,
                forall|k: int|
                    0 <= k < n ==> #[trigger] out[k] == poly::product_coef(p@, q@, k, i as nat),
            decreases p.len() - i,
        {
            let ghost before = out@;
            let mut j: usize = 0;
            let pv: u8 = p[i];
            while j < q.len()
                invariant
                    self.tables_wf(),
                    i < p.len(),
                    j <= q.len(),
                    pv == p[i as int],
                    n == p.len() + q.len() - 1,
                    out.len() == n,
                    before.len() == n,
                    forall|k: int|
                        0 <= k < n ==> #[trigger] out[k] == if i <= k < i + j {
                            before[k] ^ gf256::gf_mul(pv, q@[k - i])
                        } else {
                            before[k]
                        },
                decreases q.len() - j,
            {
                let qv: u8 = q[j];
                proof {
                    gf256::lemma_gf_mul_units(pv);
                    gf256::lemma_gf_mul_units(qv);
                    poly::lemma_xor_facts(before[i + j], 0, 0);
                }
                if pv != 0 && qv != 0 {
                    let v: u8 = out[i + j] ^ self.mul(pv, qv);
                    out.set(i + j, v);
                }
                j = j + 1;
            }
            assert forall|k: int| 0 <= k < n implies #[trigger] out[k] == poly::product_coef(
                p@,
                q@,
                k,
                (i + 1) as nat,
            ) by {
                poly::lemma_xor_facts(before[k], 0, 0);
                assert(before[k] == poly::product_coef(p@, q@, k, i as nat));
            }
            i = i + 1;
        }
        assert(out@ =~= poly::product(p@, q@));
        out
    }

    pub fn poly_eval(&self, p: &[u8], x: u8) -> (y: u8)
        requires
            self.tables_wf(),
        ensures
            y == poly::eval(p@, x),
    {
        let mut y: u8 = 0;
        let mut i: usize = 0;
        while i < p.len()
            invariant
                self.tables_wf(),
                i <= p.len(),
                y == poly::eval(p@.take(i as int), x),
            decreases p.len() - i,
        {
            y = self.mul(y, x) ^ p[i];
            assert(p@.take(i + 1).drop_last() =~= p@.take(i as int));
            i = i + 1;
        }
        assert(p@.take(i as int) =~= p@);
        y
    }

    fn make_generator(&self) -> (g: Vec<u8>)
        requires
            self.tables_wf(),
            self.nsym_view() < usize::MAX,
        ensures
            g@ == generator_poly(self.nsym_view()),
    {
        let mut g: Vec<u8> = vec![1u8];
        assert(g@ =~= seq![1u8]);
        let mut i: usize = 0;
        while i < self.nsym
            invariant
                self.tables_wf(),
                self.nsym < usize::MAX,
                i <= self.nsym,
                g@ == generator_poly(i as nat),
            decreases self.nsym - i,
        {
            proof {
                lemma_generator_shape(i as nat);
            }
            let factor: [u8; 2] = [1, self.pow_alpha(i)];
            assert(factor@ =~= seq![1u8, gf256::alpha_pow(i as nat)]);
            g = self.poly_mul(g.as_slice(), factor.as_slice());
            i = i + 1;
        }
        g
    }

    /// Appends `nsym` check symbols so that the word vanishes at every root of the generator.
    pub fn encode(&self, msg: &[u8]) -> (out: Vec<u8>)
        requires
            self.wf(),
            msg.len() + self.nsym_view() <= usize::MAX,
        ensures
            out.len() == msg.len() + self.nsym_view(),
            out@.take(msg@.len() as int) == msg@,
            is_codeword(out@, self.nsym_view()),
    {
        let n: usize = msg.len();
        let total: usize = n + self.nsym;
        let ghost g = self.generator@;
        let mut buf: Vec<u8> = vec![0u8; total];
        let mut i: usize = 0;
        while i < n
            invariant
                n == msg.len(),
                total == n + self.nsym,
                i <= n,
                buf.len() == total,
                forall|k: int| 0 <= k < total ==> #[trigger] buf[k] == if k < i {
                    msg@[k]
                } else {
                    0
                },
            decreases n - i,
        {
            buf.set(i, msg[i]);
            i = i + 1;
        }
        let ghost start = buf@;
        assert(start =~= msg@ + poly::zeros(self.nsym as nat));
        i = 0;
        assert(start.skip(0) =~= start);
        proof {
            lemma_generator_shape(self.nsym as nat);
        }
        while i < n
            invariant
                self.wf(),
                n == msg.len(),
                total == n + self.nsym,
                i <= n,
                buf.len() == total,
                start.len() == total,
                g == self.generator@,
                g == generator_poly(self.nsym as nat),
                g.len() == self.nsym + 1,
                g[0] == 1,
                forall|k: nat|
                    k < self.nsym ==> poly::eval(buf@.skip(i as int), #[trigger] gf256::alpha_pow(k))
                        == poly::eval(start, gf256::alpha_pow(k)),
            decreases n - i,
        {
            let coef: u8 = buf[i];
            let ghost before = buf@;
            let mut j: usize = 1;
            while j < self.generator.len()
                invariant
                    self.wf(),
                    i < n,
                    total == n + self.nsym,
                    buf.len() == total,
                    before.len() == total,
                    g == self.generator@,
                    g.len() == self.nsym + 1,
                    1 <= j <= g.len(),
                    forall|k: int|
                        0 <= k < total ==> #[trigger] buf[k] == if i < k < i + j {
                            before[k] ^ gf256::gf_mul(g[k - i], coef)
                        } else {
                            before[k]
                        },
                decreases self.generator.len() - j,
            {
                proof {
                    gf256::lemma_gf_mul_units(g[j as int]);
                    poly::lemma_xor_facts(before[i + j], 0, 0);
                }
                if coef != 0 {
                    let v: u8 = buf[i + j] ^ self.mul(self.generator[j], coef);
                    buf.set(i + j, v);
                }
                j = j + 1;
            }
            assert forall|k: nat| k < self.nsym implies poly::eval(
                buf@.skip(i + 1),
                #[trigger] gf256::alpha_pow(k),
            ) == poly::eval(start, gf256::alpha_pow(k)) by {
                lemma_division_step(before.skip(i as int), buf@.skip(i + 1), g, coef, self.nsym as nat, k);
            }
            i = i + 1;
        }
        let mut out: Vec<u8> = util::copy_range(msg, 0, n);
        assert(msg@.subrange(0, n as int) =~= msg@);
        util::append_range(&mut out, buf.as_slice(), n, total);
        let ghost rem = buf@.skip(n as int);
        proof {
            assert(buf@.subrange(n as int, total as int) =~= rem);
            assert forall|k: nat| k < self.nsym implies #[trigger] poly::eval(out@, gf256::alpha_pow(k))
                == 0 by {
                let x = gf256::alpha_pow(k);
                let tail = poly::zeros(n as nat) + rem;
                assert(out@ =~= poly::xored(start, tail)) by {
                    assert forall|q: int| 0 <= q < total implies out@[q] == start[q] ^ tail[q] by {
                        poly::lemma_xor_facts(out@[q], 0, 0);
                    }
                }
                poly::lemma_eval_xored(start, tail, x);
                poly::lemma_eval_leading_zeros(n as nat, rem, x);
                poly::lemma_xor_facts(poly::eval(rem, x), 0, 0);
            }
            assert(out@.take(msg@.len() as int) =~= msg@);
        }
        out
    }

    pub fn syndromes(&self, code: &[u8]) -> (s: Vec<u8>)
        requires
            self.wf(),
        ensures
            s@ == syndromes_of(code@, self.nsym_view()),
    {
        let mut out: Vec<u8> = Vec::with_capacity(self.nsym);
        let mut i: usize = 0;
        let ghost want = syndromes_of(code@, self.nsym as nat);
        while i < self.nsym
            invariant
                self.wf(),
                i <= self.nsym,
                want == syndromes_of(code@, self.nsym as nat),
                out@ == want.take(i as int),
            decreases self.nsym - i,
        {
            out.push(self.poly_eval(code, self.pow_alpha(i)));
            assert(want.take(i + 1) =~= want.take(i as int).push(want[i as int]));
            i = i + 1;
        }
        assert(want.take(i as int) =~= want);
        out
    }
}

/// The sum that the first `n - 1` places of a locator contribute to discrepancy `i`.
pub open spec fn locator_sum(loc: Seq<u8>, synd: Seq<u8>, i: int, n: nat) -> u8
    decreases n,
{
    if n <= 1 {
        0
    } else {
        let j = n - 1;
        let rest = locator_sum(loc, synd, i, j as nat);
        if i >= j {
            rest ^ gf256::gf_mul(loc[loc.len() - 1 - j], synd[i - j])
        } else {
            rest
        }
    }
}

/// How far a locator is from predicting syndrome `i` from the ones before it.
pub open spec fn discrepancy(loc: Seq<u8>, synd: Seq<u8>, i: int) -> u8 {
    synd[i] ^ locator_sum(loc, synd, i, loc.len())
}

/// One step of the Berlekamp-Massey recurrence on the pair of current and previous locator.
pub open spec fn locator_step(st: (Seq<u8>, Seq<u8>), synd: Seq<u8>, i: int) -> (Seq<u8>, Seq<u8>) {
    let old = st.1.push(0);
    let delta = discrepancy(st.0, synd, i);
    if delta == 0 {
        (st.0, old)
    } else if old.len() > st.0.len() {
        let next_old = poly::scaled(st.0, gf256::gf_inv(delta));
        (
            poly::trimmed(
                poly::aligned_sum(poly::scaled(old, delta), poly::scaled(next_old, delta)),
            ),
            next_old,
        )
    } else {
        (poly::trimmed(poly::aligned_sum(st.0, poly::scaled(old, delta))), old)
    }
}

/// The pair of locators after the first `n` syndromes.
pub open spec fn locator_run(synd: Seq<u8>, n: nat) -> (Seq<u8>, Seq<u8>)
    decreases n,
{
    if n == 0 {
        (seq![1u8], seq![1u8])
    } else {
        locator_step(locator_run(synd, (n - 1) as nat), synd, n - 1)
    }
}

/// The error locator, where it stands for at least one error and for no more than can be corrected.
pub open spec fn error_locator(synd: Seq<u8>, nsym: nat) -> Option<Seq<u8>> {
    let loc = poly::trimmed(locator_run(synd, synd.len()).0);
    if loc.len() <= 1 || (loc.len() - 1) * 2 > nsym {
        None
    } else {
        Some(loc)
    }
}

/// The places `nmsg - 1 - i`, for ascending `i < n`, where the locator vanishes at `alpha^i`.
pub open spec fn located(loc: Seq<u8>, nmsg: nat, n: nat) -> Seq<usize>
    decreases n,
{
    if n == 0 {
        Seq::empty()
    } else {
        let i = (n - 1) as nat;
        let rest = located(loc, nmsg, i);
        if poly::eval(loc, gf256::alpha_pow(i)) == 0 {
            rest.push((nmsg - 1 - i) as usize)
        } else {
            rest
        }
    }
}

/// The places at which the locator vanishes, where they are as many as its degree. An error in the
/// place of the power `alpha^k` makes the locator vanish at `alpha^-k`, not at `alpha^k`, so these
/// are in general not the places of the errors. The last byte, whose power is its own inverse, is
/// found; which words are corrected is stated in `rs_laws`.
pub open spec fn error_positions(loc: Seq<u8>, nmsg: nat) -> Option<Seq<usize>> {
    let pos = located(loc, nmsg, nmsg);
    let errs: int = if loc.len() == 0 {
        0
    } else {
        loc.len() - 1
    };
    if pos.len() == errs {
        Some(pos)
    } else {
        None
    }
}

/// The equations between error magnitudes and syndromes.
pub open spec fn magnitude_matrix(pos: Seq<usize>, len: nat) -> Seq<Seq<u8>> {
    Seq::new(
        pos.len(),
        |row: int|
            Seq::new(
                pos.len(),
                |c: int| gf256::alpha_pow(((len - 1 - pos[c]) * row) as nat),
            ),
    )
}

/// The word with each magnitude added at its place, the first `n` of them.
pub open spec fn corrected(code: Seq<u8>, pos: Seq<usize>, mags: Seq<u8>, n: nat) -> Seq<u8>
    decreases n,
{
    if n == 0 {
        code
    } else {
        let c = corrected(code, pos, mags, (n - 1) as nat);
        let p = pos[n - 1] as int;
        c.update(p, c[p] ^ mags[n - 1])
    }
}

/// What decoding gives: the message part of the received word where it is in the code, and else that
/// of the codeword, if any, that changing it at the places at which the locator vanishes leads to.
pub open spec fn decoded(code: Seq<u8>, nsym: nat) -> Option<Seq<u8>> {
    let synd = syndromes_of(code, nsym);
    if code.len() < nsym {
        None
    } else if is_codeword(code, nsym) {
        Some(code.take(code.len() - nsym))
    } else {
        match error_locator(synd, nsym) {
            None => None,
            Some(loc) => match error_positions(loc, code.len()) {
                None => None,
                Some(pos) => {
                    let a = magnitude_matrix(pos, code.len());
                    if gf_linear::is_singular(a) {
                        None
                    } else {
                        let mags = choose|x: Seq<u8>|
                            gf_linear::solves(a, synd.take(pos.len() as int), x);
                        let fixed = corrected(code, pos, mags, pos.len());
                        if is_codeword(fixed, nsym) {
                            Some(fixed.take(code.len() - nsym))
                        } else {
                            None
                        }
                    }
                },
            },
        }
    }
}

impl RsCodec {
    pub fn berlekamp_massey(&self, synd: &[u8]) -> (r: Option<Vec<u8>>)
        requires
            self.wf(),
        ensures
            match r {
                Some(loc) => error_locator(synd@, self.nsym_view()) == Some(loc@),
                None => error_locator(synd@, self.nsym_view()) is None,
            },
    {
        let mut err_loc: Vec<u8> = vec![1u8];
        let mut old_loc: Vec<u8> = vec![1u8];
        assert(err_loc@ =~= seq![1u8]);
        assert(old_loc@ =~= seq![1u8]);
        let mut i: usize = 0;
        while i < synd.len()
            invariant
                self.wf(),
                i <= synd.len(),
                (err_loc@, old_loc@) == locator_run(synd@, i as nat),
                1 <= err_loc.len() <= i + 1,
                1 <= old_loc.len() <= i + 1,
            decreases synd.len() - i,
        {
            old_loc.push(0);
            let mut delta: u8 = synd[i];
            let mut j: usize = 1;
            proof {
                poly::lemma_xor_facts(delta, 0, 0);
            }
            while j < err_loc.len()
                invariant
                    self.wf(),
                    i < synd.len(),
                    1 <= j <= err_loc.len(),
                    delta == synd@[i as int] ^ locator_sum(err_loc@, synd@, i as int, j as nat),
                decreases err_loc.len() - j,
            {
                if i >= j {
                    let t: u8 = self.mul(err_loc[err_loc.len() - 1 - j], synd[i - j]);
                    proof {
                        poly::lemma_xor_facts(
                            synd@[i as int],
                            locator_sum(err_loc@, synd@, i as int, j as nat),
                            t,
                        );
                    }
                    delta = delta ^ t;
                }
                j = j + 1;
            }
            if delta != 0 {
                proof {
                    poly::lemma_trimmed_len(
                        poly::aligned_sum(err_loc@, poly::scaled(old_loc@, delta)),
                    );
                }
                if old_loc.len() > err_loc.len() {
                    let new_loc: Vec<u8> = self.poly_scale(old_loc.as_slice(), delta);
                    let next_old: Vec<u8> = self.poly_scale(err_loc.as_slice(), self.inv(delta));
                    let shift: Vec<u8> = self.poly_scale(next_old.as_slice(), delta);
                    proof {
                        poly::lemma_trimmed_len(poly::aligned_sum(new_loc@, shift@));
                    }
                    err_loc = self.poly_add(new_loc.as_slice(), shift.as_slice());
                    old_loc = next_old;
                } else {
                    let shift: Vec<u8> = self.poly_scale(old_loc.as_slice(), delta);
                    err_loc = self.poly_add(err_loc.as_slice(), shift.as_slice());
                }
            }
            i = i + 1;
        }
        let none: Vec<u8> = Vec::new();
        let loc: Vec<u8> = self.poly_add(err_loc.as_slice(), none.as_slice());
        proof {
            let e = Seq::<u8>::empty();
            assert forall|k: int| 0 <= k < err_loc@.len() implies poly::aligned_sum(err_loc@, e)[k]
                == err_loc@[k] by {
                poly::lemma_xor_facts(err_loc@[k], 0, 0);
            }
            assert(poly::aligned_sum(err_loc@, e) =~= err_loc@);
            poly::lemma_trimmed_len(err_loc@);
        }
        let errs: usize = loc.len() - 1;
        if errs == 0 || errs > self.nsym / 2 {
            return None;
        }
        Some(loc)
    }

    pub fn find_error_positions(&self, err_loc: &[u8], nmsg: usize) -> (r: Option<Vec<usize>>)
        requires
            self.wf(),
        ensures
            match r {
                Some(pos) => error_positions(err_loc@, nmsg as nat) == Some(pos@),
                None => error_positions(err_loc@, nmsg as nat) is None,
            },
    {
        let errs: usize = if err_loc.len() == 0 {
            0
        } else {
            err_loc.len() - 1
        };
        let mut pos: Vec<usize> = Vec::new();
        let mut i: usize = 0;
        while i < nmsg
            invariant
                self.wf(),
                i <= nmsg,
                pos@ == located(err_loc@, nmsg as nat, i as nat),
            decreases nmsg - i,
        {
            if self.poly_eval(err_loc, self.pow_alpha(i)) == 0 {
                pos.push(nmsg - 1 - i);
            }
            i = i + 1;
        }
        if pos.len() == errs {
            Some(pos)
        } else {
            None
        }
    }

    /// Row `target` plus `f` times row `source`.
    fn combine_rows(&self, target: &Vec<u8>, source: &Vec<u8>, f: u8) -> (r: Vec<u8>)
        requires
            self.tables_wf(),
            target.len() == source.len(),
        ensures
            r@ == gf_linear::combined(target@, source@, f),
    {
        let ghost want = gf_linear::combined(target@, source@, f);
        let mut out: Vec<u8> = Vec::with_capacity(target.len());
        let mut c: usize = 0;
        while c < target.len()
            invariant
                self.tables_wf(),
                c <= target.len(),
                target.len() == source.len(),
                want == gf_linear::combined(target@, source@, f),
                out@ == want.take(c as int),
            decreases target.len() - c,
        {
            out.push(target[c] ^ self.mul(source[c], f));
            assert(want.take(c + 1) =~= want.take(c as int).push(want[c as int]));
            c = c + 1;
        }
        assert(want.take(c as int) =~= want);
        out
    }

    /// Solves `a x = b` by Gauss-Jordan elimination; a singular or misshapen system gives nothing.
    pub fn solve_linear(&self, a: Vec<Vec<u8>>, b: Vec<u8>) -> (x: Option<Vec<u8>>)
        requires
            self.wf(),
        ensures
            ({
                let m = matrix::rows_of(a@);
                let proper = m.len() > 0 && b@.len() == m.len() && gf_linear::is_square(m, m.len());
                match x {
                    Some(v) => proper && gf_linear::unique_solution(m, b@, v@),
                    None => proper ==> gf_linear::is_singular(m),
                }
            }),
    {
        let n: usize = a.len();
        if n == 0 || b.len() != n {
            return None;
        }
        let mut k: usize = 0;
        while k < n
            invariant
                n == a.len(),
                k <= n,
                forall|r: int| 0 <= r < k ==> (#[trigger] a@[r])@.len() == n,
            decreases n - k,
        {
            if a[k].len() != n {
                assert(matrix::rows_of(a@)[k as int].len() != n);
                return None;
            }
            k = k + 1;
        }
        let ghost m0 = matrix::rows_of(a@);
        let ghost b0 = b@;
        let ghost z = poly::zeros(n as nat);
        let mut m: Vec<Vec<u8>> = a;
        let mut v: Vec<u8> = b;
        assert forall|r: int| 0 <= r < n implies (#[trigger] m0[r]).len() == n by {
            assert(m0[r] == m@[r]@);
        }
        let mut col: usize = 0;
        while col < n
            invariant
                self.wf(),
                col <= n,
                m.len() == n,
                v.len() == n,
                n > 0,
                m0 == matrix::rows_of(a@),
                b0 == b@,
                m0.len() == n,
                b0.len() == n,
                z == poly::zeros(n as nat),
                gf_linear::is_square(m0, n as nat),
                gf_linear::is_square(matrix::rows_of(m@), n as nat),
                gf_linear::same_solutions(m0, b0, matrix::rows_of(m@), v@),
                gf_linear::same_solutions(m0, z, matrix::rows_of(m@), z),
                forall|r: int, c: int|
                    0 <= r < n && 0 <= c < col ==> #[trigger] matrix::rows_of(m@)[r][c]
                        == gf_linear::unit_entry(r, c),
            decreases n - col,
        {
            let ghost m1 = matrix::rows_of(m@);
            let ghost b1 = v@;
            assert forall|r: int| 0 <= r < n implies (#[trigger] m@[r])@.len() == n by {
                assert(m1[r] == m@[r]@);
            }
            let mut piv: usize = col;
            while piv < n && m[piv][col] == 0
                invariant
                    col < n,
                    col <= piv <= n,
                    m.len() == n,
                    m1 == matrix::rows_of(m@),
                    gf_linear::is_square(m1, n as nat),
                    forall|r: int| 0 <= r < n ==> (#[trigger] m@[r])@.len() == n,
                    forall|r: int| col <= r < piv ==> #[trigger] m1[r][col as int] == 0,
                decreases n - piv,
            {
                assert(m1[piv as int] == m@[piv as int]@);
                piv = piv + 1;
            }
            if piv >= n {
                proof {
                    gf_linear::lemma_no_pivot(m1, col as int);
                    let y = choose|y: Seq<u8>| #[trigger]
                        gf_linear::solves(m1, poly::zeros(m1.len()), y) && y != poly::zeros(m1.len());
                    assert(gf_linear::solves(m0, z, y));
                }
                return None;
            }
            assert(m1[piv as int] == m@[piv as int]@ && m1[col as int] == m@[col as int]@);
            if piv != col {
                proof {
                    gf_linear::lemma_swap_rows(m1, b1, piv as int, col as int);
                    gf_linear::lemma_swap_rows(m1, z, piv as int, col as int);
                    assert(z.update(piv as int, z[col as int]).update(col as int, z[piv as int]) =~= z);
                }
                let rp: Vec<u8> = m[piv].clone();
                let rc: Vec<u8> = m[col].clone();
                assert(rp@ =~= m1[piv as int]);
                assert(rc@ =~= m1[col as int]);
                m.set(piv, rc);
                m.set(col, rp);
                let vp: u8 = v[piv];
                let vc: u8 = v[col];
                v.set(piv, vc);
                v.set(col, vp);
                assert(matrix::rows_of(m@) =~= m1.update(piv as int, m1[col as int]).update(
                    col as int,
                    m1[piv as int],
                ));
            }
            let ghost m2 = matrix::rows_of(m@);
            let ghost b2 = v@;
            proof {
                gf_linear::lemma_same_solutions_trans(m0, b0, m1, b1, m2, b2);
                gf_linear::lemma_same_solutions_trans(m0, z, m1, z, m2, z);
            }
            assert(m2[col as int] == m@[col as int]@);
            let pv: u8 = m[col][col];
            assert(pv == m1[piv as int][col as int] && pv != 0);
            let inv: u8 = self.inv(pv);
            proof {
                gf256::lemma_gf_inv(pv);
                gf_linear::lemma_scale_row(m2, b2, col as int, inv);
                gf_linear::lemma_scale_row(m2, z, col as int, inv);
                gf256::lemma_gf_mul_units(inv);
                assert(z.update(col as int, gf256::gf_mul(z[col as int], inv)) =~= z);
            }
            let scaled_row: Vec<u8> = self.poly_scale(m[col].as_slice(), inv);
            m.set(col, scaled_row);
            let vb: u8 = self.mul(v[col], inv);
            v.set(col, vb);
            let ghost m3 = matrix::rows_of(m@);
            proof {
                assert(m3 =~= m2.update(col as int, poly::scaled(m2[col as int], inv)));
                gf_linear::lemma_same_solutions_trans(m0, b0, m2, b2, m3, v@);
                gf_linear::lemma_same_solutions_trans(m0, z, m2, z, m3, z);
                assert(m3[col as int][col as int] == 1);
                assert forall|r: int, c: int| 0 <= r < n && 0 <= c < col implies #[trigger] m3[r][c]
                    == gf_linear::unit_entry(r, c) by {
                    assert(m1[piv as int][c] == gf_linear::unit_entry(piv as int, c));
                    assert(m1[col as int][c] == gf_linear::unit_entry(col as int, c));
                    assert(m1[r][c] == gf_linear::unit_entry(r, c));
                }
            }
            let mut r: usize = 0;
            while r < n
                invariant
                    self.wf(),
                    r <= n,
                    col < n,
                    m.len() == n,
                    v.len() == n,
                    m0.len() == n,
                    b0.len() == n,
                    z == poly::zeros(n as nat),
                    gf_linear::is_square(matrix::rows_of(m@), n as nat),
                    gf_linear::same_solutions(m0, b0, matrix::rows_of(m@), v@),
                    gf_linear::same_solutions(m0, z, matrix::rows_of(m@), z),
                    forall|q: int, c: int|
                        0 <= q < n && 0 <= c < col ==> #[trigger] matrix::rows_of(m@)[q][c]
                            == gf_linear::unit_entry(q, c),
                    matrix::rows_of(m@)[col as int][col as int] == 1,
                    forall|q: int|
                        0 <= q < r ==> #[trigger] matrix::rows_of(m@)[q][col as int]
                            == gf_linear::unit_entry(q, col as int),
                decreases n - r,
            {
                let ghost m4 = matrix::rows_of(m@);
                let ghost b4 = v@;
                assert(m4[r as int] == m@[r as int]@ && m4[col as int] == m@[col as int]@);
                let f: u8 = m[r][col];
                if r != col && f != 0 {
                    proof {
                        gf_linear::lemma_combine_rows(m4, b4, r as int, col as int, f);
                        gf_linear::lemma_combine_rows(m4, z, r as int, col as int, f);
                        gf256::lemma_gf_mul_units(f);
                        poly::lemma_xor_facts(0, 0, 0);
                        assert(z.update(r as int, z[r as int] ^ gf256::gf_mul(z[col as int], f)) =~= z);
                    }
                    let row: Vec<u8> = self.combine_rows(&m[r], &m[col], f);
                    m.set(r, row);
                    let vb2: u8 = v[r] ^ self.mul(v[col], f);
                    v.set(r, vb2);
                    proof {
                        let m5 = matrix::rows_of(m@);
                        assert(m5 =~= m4.update(
                            r as int,
                            gf_linear::combined(m4[r as int], m4[col as int], f),
                        ));
                        gf_linear::lemma_same_solutions_trans(m0, b0, m4, b4, m5, v@);
                        gf_linear::lemma_same_solutions_trans(m0, z, m4, z, m5, z);
                        poly::lemma_xor_facts(f, 0, 0);
                        assert(m5[r as int][col as int] == 0);
                        assert forall|q: int, c: int| 0 <= q < n && 0 <= c < col implies
                            #[trigger] m5[q][c] == gf_linear::unit_entry(q, c) by {
                            assert(m4[q][c] == gf_linear::unit_entry(q, c));
                            assert(m4[col as int][c] == 0);
                            poly::lemma_xor_facts(m4[q][c], 0, 0);
                        }
                        assert forall|q: int| 0 <= q < r + 1 implies #[trigger] m5[q][col as int]
                            == gf_linear::unit_entry(q, col as int) by {
                            assert(m4[q][col as int] == m4[q][col as int]);
                        }
                    }
                }
                r = r + 1;
            }
            col = col + 1;
        }
        proof {
            let m6 = matrix::rows_of(m@);
            gf_linear::lemma_identity_solution(m6, v@);
            assert(gf_linear::solves(m0, b0, v@));
            assert forall|y: Seq<u8>| #[trigger] gf_linear::solves(m0, b0, y) implies y == v@ by {
                assert(gf_linear::solves(m6, v@, y));
            }
        }
        Some(v)
    }
}

impl RsCodec {
    /// The message of a received word, corrected where its errors are located.
    pub fn decode(&self, code: &[u8]) -> (r: Option<Vec<u8>>)
        requires
            self.wf(),
        ensures
            match r {
                Some(m) => decoded(code@, self.nsym_view()) == Some(m@),
                None => decoded(code@, self.nsym_view()) is None,
            },
    {
        if code.len() < self.nsym {
            return None;
        }
        let n: usize = code.len();
        let ghost nsym = self.nsym as nat;
        let synd: Vec<u8> = self.syndromes(code);
        if all_zero(synd.as_slice()) {
            proof {
                lemma_zero_syndromes(code@, nsym);
                assert(code@.subrange(0, n - nsym) =~= code@.take(n - nsym));
            }
            return Some(util::copy_range(code, 0, n - self.nsym));
        }
        proof {
            lemma_zero_syndromes(code@, nsym);
        }
        let err_loc: Vec<u8> = match self.berlekamp_massey(synd.as_slice()) {
            Some(v) => v,
            None => {
                return None;
            },
        };
        let err_pos: Vec<usize> = match self.find_error_positions(err_loc.as_slice(), n) {
            Some(v) => v,
            None => {
                return None;
            },
        };
        let t: usize = err_pos.len();
        proof {
            lemma_located_in_range(err_loc@, n as nat, n as nat);
        }
        assert(0 < t && t * 2 <= nsym);
        let ghost a = magnitude_matrix(err_pos@, n as nat);
        let mut mat: Vec<Vec<u8>> = Vec::with_capacity(t);
        let mut rhs: Vec<u8> = Vec::with_capacity(t);
        let mut row: usize = 0;
        while row < t
            invariant
                self.wf(),
                row <= t,
                t == err_pos.len(),
                nsym == self.nsym,
                t * 2 <= nsym,
                n == code.len(),
                synd@ == syndromes_of(code@, nsym),
                forall|k: int| 0 <= k < t ==> (#[trigger] err_pos@[k]) < n,
                a == magnitude_matrix(err_pos@, n as nat),
                mat.len() == row,
                matrix::rows_of(mat@) == a.take(row as int),
                rhs@ == synd@.take(row as int),
            decreases t - row,
        {
            rhs.push(synd[row]);
            assert(synd@.take(row + 1) =~= synd@.take(row as int).push(synd@[row as int]));
            let mut line: Vec<u8> = Vec::with_capacity(t);
            let mut ci: usize = 0;
            while ci < t
                invariant
                    self.wf(),
                    ci <= t,
                    row < t,
                    t == err_pos.len(),
                    t * 2 <= nsym,
                    forall|k: int| 0 <= k < t ==> (#[trigger] err_pos@[k]) < n,
                    a == magnitude_matrix(err_pos@, n as nat),
                    line@ == a[row as int].take(ci as int),
                decreases t - ci,
            {
                assert(err_pos@[ci as int] < n);
                let coef: usize = n - 1 - err_pos[ci];
                assert((coef % 255) * (row % 255) <= 255 * 255) by (nonlinear_arith);
                let e: usize = (coef % 255) * (row % 255);
                proof {
                    assert(coef * row >= 0) by (nonlinear_arith)
                        requires
                            coef >= 0,
                            row >= 0,
                    ;
                    vstd::arithmetic::div_mod::lemma_mul_mod_noop(coef as int, row as int, 255);
                    gf256::lemma_alpha_pow_mod((coef * row) as nat);
                }
                line.push(self.pow_alpha(e % 255));
                assert(a[row as int].take(ci + 1) =~= a[row as int].take(ci as int).push(
                    a[row as int][ci as int],
                ));
                ci = ci + 1;
            }
            assert(line@ =~= a[row as int]);
            let ghost done = mat@;
            mat.push(line);
            assert(matrix::rows_of(mat@) =~= a.take(row + 1)) by {
                assert forall|q: int| 0 <= q < row + 1 implies matrix::rows_of(mat@)[q] == a[q] by {
                    if q < row {
                        assert(matrix::rows_of(done)[q] == a.take(row as int)[q]);
                    }
                }
            }
            row = row + 1;
        }
        assert(a.take(t as int) =~= a);
        assert(gf_linear::is_square(a, t as nat));
        let mags: Vec<u8> = match self.solve_linear(mat, rhs) {
            Some(v) => v,
            None => {
                return None;
            },
        };
        let ghost sel = choose|x: Seq<u8>| gf_linear::solves(a, synd@.take(t as int), x);
        assert(sel == mags@);
        proof {
            gf_linear::lemma_unique_not_singular(a, synd@.take(t as int), mags@);
        }
        let mut out: Vec<u8> = util::copy_range(code, 0, n);
        assert(code@.subrange(0, n as int) =~= code@);
        let mut k: usize = 0;
        while k < t
            invariant
                k <= t,
                t == err_pos.len(),
                t == mags.len(),
                n == code.len(),
                out.len() == n,
                forall|q: int| 0 <= q < t ==> (#[trigger] err_pos@[q]) < n,
                out@ == corrected(code@, err_pos@, mags@, k as nat),
            decreases t - k,
        {
            let p: usize = err_pos[k];
            let v: u8 = out[p] ^ mags[k];
            out.set(p, v);
            k = k + 1;
        }
        let synd2: Vec<u8> = self.syndromes(out.as_slice());
        proof {
            lemma_zero_syndromes(out@, nsym);
        }
        if !all_zero(synd2.as_slice()) {
            return None;
        }
        assert(out@.subrange(0, n - nsym) =~= out@.take(n - nsym));
        Some(util::copy_range(out.as_slice(), 0, n - self.nsym))
    }
}

/// Whether every byte is zero.
fn all_zero(v: &[u8]) -> (r: bool)
    ensures
        r == forall|i: int| 0 <= i < v@.len() ==> #[trigger] v@[i] == 0,
{
    let mut i: usize = 0;
    while i < v.len()
        invariant
            i <= v.len(),
            forall|k: int| 0 <= k < i ==> #[trigger] v@[k] == 0,
        decreases v.len() - i,
    {
        if v[i] != 0 {
            assert(v@[i as int] != 0);
            return false;
        }
        i = i + 1;
    }
    true
}

proof fn lemma_zero_syndromes(code: Seq<u8>, nsym: nat)
    ensures
        is_codeword(code, nsym) <==> forall|i: int|
            0 <= i < nsym ==> #[trigger] syndromes_of(code, nsym)[i] == 0,
{
    let s = syndromes_of(code, nsym);
    if is_codeword(code, nsym) {
        assert forall|i: int| 0 <= i < nsym implies #[trigger] s[i] == 0 by {
            assert(poly::eval(code, gf256::alpha_pow(i as nat)) == 0);
        }
    }
    if forall|i: int| 0 <= i < nsym ==> #[trigger] s[i] == 0 {
        assert forall|i: nat| i < nsym implies #[trigger] poly::eval(code, gf256::alpha_pow(i)) == 0 by {
            assert(s[i as int] == 0);
        }
    }
}

pub proof fn lemma_located_in_range(loc: Seq<u8>, nmsg: nat, n: nat)
    requires
        n <= nmsg,
        nmsg <= usize::MAX,
    ensures
        forall|k: int|
            0 <= k < located(loc, nmsg, n).len() ==> (#[trigger] located(loc, nmsg, n)[k]) < nmsg,
    decreases n,
{
    if n > 0 {
        let m = (n - 1) as nat;
        lemma_located_in_range(loc, nmsg, m);
        assert forall|k: int| 0 <= k < located(loc, nmsg, n).len() implies (#[trigger] located(
            loc,
            nmsg,
            n,
        )[k]) < nmsg by {
            if k < located(loc, nmsg, m).len() {
                assert(located(loc, nmsg, n)[k] == located(loc, nmsg, m)[k]);
            }
        }
    }
}

/// One step of the division by a monic polynomial keeps the value at each of its roots.
proof fn lemma_division_step(
    before: Seq<u8>,
    after: Seq<u8>,
    g: Seq<u8>,
    coef: u8,
    nsym: nat,
    k: nat,
)
    requires
        g == generator_poly(nsym),
        g.len() == nsym + 1,
        g[0] == 1,
        k < nsym,
        before.len() >= g.len(),
        before[0] == coef,
        after.len() == before.len() - 1,
        forall|q: int|
            0 <= q < after.len() ==> #[trigger] after[q] == if q + 1 < g.len() {
                before[q + 1] ^ gf256::gf_mul(g[q + 1], coef)
            } else {
                before[q + 1]
            },
    ensures
        poly::eval(after, gf256::alpha_pow(k)) == poly::eval(before, gf256::alpha_pow(k)),
{
    let x = gf256::alpha_pow(k);
    let pad = (before.len() - g.len()) as nat;
    let sub = poly::scaled(g, coef) + poly::zeros(pad);
    lemma_generator_roots(nsym, k);
    poly::lemma_eval_scaled(g, coef, x);
    gf256::lemma_gf_mul_units(coef);
    poly::lemma_eval_trailing_zeros(poly::scaled(g, coef), pad, x);
    poly::lemma_eval_xored(before, sub, x);
    poly::lemma_eval_leading_zeros(1, after, x);
    poly::lemma_xor_facts(poly::eval(before, x), 0, 0);
    assert forall|q: int| 0 <= q < before.len() implies poly::xored(before, sub)[q] == (poly::zeros(1)
        + after)[q] by {
        poly::lemma_xor_facts(before[q], 0, 0);
        if q > 0 {
            assert((poly::zeros(1) + after)[q] == after[q - 1]);
        }
    }
    assert(poly::xored(before, sub) =~= poly::zeros(1) + after);
}

} // verus!

//! The systematic low-density parity-check code.
use crate::gf2;
use crate::link_profile::LinkProfile;
use crate::matrix;
use crate::parity_rows;
use crate::qc;
use crate::qc::QcLdpcSpec;
use crate::util;
use vstd::prelude::*;

verus! {

/// The low bits of a word of bytes.
pub open spec fn bits_of(word: Seq<u8>) -> Seq<bool> {
    Seq::new(word.len(), |i: int| gf2::bit(word[i]))
}

/// Bit `i` of a 64-bit word.
pub open spec fn word_bit(w: u64, i: nat) -> bool {
    (w >> (i as u64)) & 1 == 1
}

/// The parity of the first `n` bits of a word.
pub open spec fn word_parity(w: u64, n: nat) -> bool
    decreases n,
{
    if n == 0 {
        false
    } else {
        word_parity(w, (n - 1) as nat) != word_bit(w, (n - 1) as nat)
    }
}

/// The first `n` places of `bits` packed into words, the lowest bit first, and zeros behind them.
pub open spec fn packs(words: Seq<u64>, bits: Seq<u8>, n: nat) -> bool {
    &&& words.len() == util::ceil_div(n, 64)
    &&& forall|q: int, i: nat|
        #![trigger word_bit(words[q], i)]
        0 <= q < words.len() && i < 64 ==> word_bit(words[q], i) == (q * 64 + i < n && gf2::bit(
            bits[q * 64 + i],
        ))
}

/// The edges below `n` that end in column `c`, ascending.
pub open spec fn edges_in_col(cols: Seq<usize>, c: int, n: nat) -> Seq<usize>
    decreases n,
{
    if n == 0 {
        Seq::empty()
    } else {
        let before = edges_in_col(cols, c, (n - 1) as nat);
        if cols[n - 1] == c {
            before.push((n - 1) as usize)
        } else {
            before
        }
    }
}

/// Column numbers moved up by `k`.
pub open spec fn shifted(row: Seq<usize>, k: int) -> Seq<usize> {
    Seq::new(row.len(), |i: int| (row[i] + k) as usize)
}

/// The first `n` rows one after another.
pub open spec fn concat(rows: Seq<Seq<usize>>, n: nat) -> Seq<usize>
    decreases n,
{
    if n == 0 {
        Seq::empty()
    } else {
        concat(rows, (n - 1) as nat) + rows[n - 1]
    }
}

/// The numbers `lo .. hi`.
pub open spec fn numbers(lo: int, hi: int) -> Seq<usize> {
    Seq::new((hi - lo) as nat, |i: int| (lo + i) as usize)
}

/// Each parity check as the list of the columns that it adds up: those of the information part,
/// then those of the parity part, which stand behind the `k` information columns.
pub open spec fn check_rows(h1: Seq<Seq<usize>>, h2: Seq<Seq<usize>>, k: int, m: nat) -> Seq<
    Seq<usize>,
> {
    Seq::new(m, |r: int| h1[r] + shifted(h2[r], k))
}

pub struct LdpcCode {
    pub n: usize,
    pub k: usize,
    pub m: usize,
    pub h1_rows: Vec<Vec<usize>>,
    pub h2_rows: Vec<Vec<usize>>,
    pub h2_inv_rows: Vec<Vec<u8>>,
    pub h2_inv_words: Vec<Vec<u64>>,
    pub row_edges: Vec<Vec<usize>>,
    pub row_edge_offsets: Vec<usize>,
    pub row_edge_flat: Vec<usize>,
    pub col_edges: Vec<Vec<usize>>,
    pub edge_cols: Vec<usize>,
}

impl LdpcCode {
    /// The parity checks.
    pub open spec fn checks(&self) -> Seq<Seq<usize>> {
        check_rows(
            matrix::rows_of(self.h1_rows@),
            matrix::rows_of(self.h2_rows@),
            self.k as int,
            self.m as nat,
        )
    }

    /// The two parts of the parity matrix have their shape and the second its inverse.
    pub open spec fn matrices_wf(&self) -> bool {
        &&& self.n == self.k + self.m
        &&& self.h1_rows@.len() == self.m
        &&& self.h2_rows@.len() == self.m
        &&& forall|r: int, i: int|
            0 <= r < self.m && 0 <= i < self.h1_rows@[r]@.len() ==> #[trigger] self.h1_rows@[r]@[i]
                < self.k
        &&& forall|r: int, i: int|
            0 <= r < self.m && 0 <= i < self.h2_rows@[r]@.len() ==> #[trigger] self.h2_rows@[r]@[i]
                < self.m
        &&& gf2::is_inverse(
            gf2::dense_of(matrix::rows_of(self.h2_rows@), self.m as nat),
            matrix::rows_of(self.h2_inv_rows@),
        )
        &&& self.h2_inv_words@.len() == self.m
        &&& forall|r: int|
            0 <= r < self.m ==> packs(
                (#[trigger] self.h2_inv_words@[r])@,
                self.h2_inv_rows@[r]@,
                self.m as nat,
            )
    }

    /// The edges between checks and columns are listed by check, flat, and by column.
    pub open spec fn edges_wf(&self) -> bool {
        let total = self.edge_cols@.len();
        &&& self.edge_cols@ == concat(self.checks(), self.m as nat)
        &&& self.row_edge_offsets@.len() == self.m + 1
        &&& forall|r: int|
            0 <= r <= self.m ==> #[trigger] self.row_edge_offsets@[r] == concat(
                self.checks(),
                r as nat,
            ).len()
        &&& self.row_edges@.len() == self.m
        &&& forall|r: int|
            0 <= r < self.m ==> (#[trigger] self.row_edges@[r])@ == numbers(
                self.row_edge_offsets@[r] as int,
                self.row_edge_offsets@[r + 1] as int,
            )
        &&& self.row_edge_flat@ == numbers(0, total as int)
        &&& self.col_edges@.len() == self.n
        &&& forall|c: int|
            0 <= c < self.n ==> (#[trigger] self.col_edges@[c])@ == edges_in_col(
                self.edge_cols@,
                c,
                total,
            )
    }

    pub open spec fn wf(&self) -> bool {
        self.matrices_wf() && self.edges_wf()
    }

    /// Every parity check of a word comes out even.
    pub open spec fn accepts(&self, word: Seq<u8>) -> bool {
        forall|r: int|
            0 <= r < self.m ==> !(#[trigger] gf2::sparse_parity(
                self.checks()[r],
                bits_of(word),
                self.checks()[r].len(),
            ))
    }
}

/// The block structure of a profile's code, where it is made of whole blocks.
pub open spec fn block_structure(p: &LinkProfile) -> Option<QcLdpcSpec> {
    if p.ldpc_n % 32 != 0 || p.ldpc_k % 32 != 0 || p.parity_bits() % 32 != 0 {
        None
    } else {
        Some(
            QcLdpcSpec {
                z: 32,
                kb: (p.ldpc_k / 32) as usize,
                mb: (p.parity_bits() / 32) as usize,
            },
        )
    }
}

pub fn qc_spec_from_profile(pcfg: &LinkProfile) -> (r: Option<QcLdpcSpec>)
    requires
        pcfg.ldpc_k <= pcfg.ldpc_n,
    ensures
        r == block_structure(pcfg),
{
    let z: usize = 32;
    let m: usize = pcfg.ldpc_m();
    if pcfg.ldpc_n % z != 0 || pcfg.ldpc_k % z != 0 || m % z != 0 {
        return None;
    }
    let kb: usize = pcfg.ldpc_k / z;
    let mb: usize = m / z;
    Some(QcLdpcSpec { z, kb, mb })
}

/// The blocks that the code is built of: whole ones, what is left over being information.
pub open spec fn blocks_of(p: &LinkProfile) -> QcLdpcSpec {
    QcLdpcSpec {
        z: 32,
        kb: (p.ldpc_k / 32) as usize,
        mb: (p.parity_bits() / 32) as usize,
    }
}

/// There are base matrices for the profile's code, and its parity bits fill whole blocks.
pub open spec fn is_supported(p: &LinkProfile) -> bool {
    &&& p.ldpc_k <= p.ldpc_n
    &&& p.parity_bits() % 32 == 0
    &&& qc::is_tabled(blocks_of(p))
}

/// The base matrix of the parity part with another shift in its upper right corner.
pub open spec fn with_wrap_shift(base: Seq<Seq<i16>>, sh: int) -> Seq<Seq<i16>> {
    base.update(0, base[0].update(base[0].len() - 1, sh as i16))
}

/// The rows of the parity part: those of the first shift from `sh` on that makes the matrix
/// regular, or else the scattered ones.
pub open spec fn h2_from_shift(p: &LinkProfile, sh: int) -> Seq<Seq<usize>>
    decreases 32 - sh,
{
    let m = p.parity_bits() as nat;
    if sh >= 32 {
        parity_rows::parity_rows(
            m,
            p.ldpc_seed,
            parity_rows::extra_weight(
                if p.ldpc_col_w >= 2 {
                    p.ldpc_col_w as nat
                } else {
                    2
                },
            ),
            0,
        )
    } else {
        let rows = qc::expanded(with_wrap_shift(qc::h2_table(blocks_of(p)), sh), 32);
        if gf2::is_singular(gf2::dense_of(rows, m)) {
            h2_from_shift(p, sh + 1)
        } else {
            rows
        }
    }
}

/// The rows of the parity part of a profile's code.
pub open spec fn h2_rows_for(p: &LinkProfile) -> Seq<Seq<usize>> {
    let rows = qc::expanded(qc::h2_table(blocks_of(p)), 32);
    if gf2::is_singular(gf2::dense_of(rows, p.parity_bits() as nat)) {
        h2_from_shift(p, 2)
    } else {
        rows
    }
}

/// The rows of the information part of a profile's code.
pub open spec fn h1_rows_for(p: &LinkProfile) -> Seq<Seq<usize>> {
    qc::expanded(qc::h1_table(blocks_of(p)), 32)
}

proof fn lemma_word_bits(w: u64, v: u64, k: u64, i: nat)
    requires
        k < 64,
        i < 64,
    ensures
        word_bit(w | (1u64 << k), i) == (word_bit(w, i) || i == k),
        word_bit(w & v, i) == (word_bit(w, i) && word_bit(v, i)),
        !word_bit(0, i),
{
    let j = i as u64;
    assert((((w | (1u64 << k)) >> j) & 1 == 1 <==> ((w >> j) & 1 == 1 || j == k)) && (((w & v) >> j)
        & 1 == 1 <==> ((w >> j) & 1 == 1 && (v >> j) & 1 == 1)) && (0u64 >> j) & 1 == 0)
        by (bit_vector)
        requires
            k < 64,
            j < 64,
    ;
}

/// Packs the low bits of `bits[..n]` into words.
fn pack_bits(bits: &Vec<u8>, n: usize) -> (words: Vec<u64>)
    requires
        n == bits.len(),
    ensures
        packs(words@, bits@, n as nat),
{
    let count: usize = util::div_ceil(n, 64);
    let mut words: Vec<u64> = vec![0u64; count];
    let mut c: usize = 0;
    proof {
        assert forall|q: int, i: nat|
            #![trigger word_bit(words@[q], i)]
            0 <= q < words@.len() && i < 64 implies !word_bit(words@[q], i) by {
            lemma_word_bits(0, 0, 0, i);
        }
    }
    while c < n
        invariant
            c <= n,
            n == bits.len(),
            words.len() == count,
            count == util::ceil_div(n as nat, 64),
            forall|q: int, i: nat|
                #![trigger word_bit(words@[q], i)]
                0 <= q < words@.len() && i < 64 ==> word_bit(words@[q], i) == (q * 64 + i < c
                    && gf2::bit(bits@[q * 64 + i])),
        decreases n - c,
    {
        let ghost before = words@;
        let q: usize = c / 64;
        let k: u64 = (c % 64) as u64;
        proof {
            gf2::lemma_low_bit(bits@[c as int]);
            assert(q < count);
        }
        if (bits[c] & 1) != 0 {
            let w: u64 = words[q];
            words.set(q, w | (1u64 << k));
        }
        proof {
            assert forall|p: int, i: nat|
                #![trigger word_bit(words@[p], i)]
                0 <= p < words@.len() && i < 64 implies word_bit(words@[p], i) == (p * 64 + i < c
                + 1 && gf2::bit(bits@[p * 64 + i])) by {
                lemma_word_bits(before[p], 0, k, i);
                assert(word_bit(before[p], i) == (p * 64 + i < c && gf2::bit(bits@[p * 64 + i])));
                if p * 64 + i == c {
                    assert(p == q && i == k);
                } else if p == q {
                    assert(i != k);
                }
            }
        }
        c = c + 1;
    }
    words
}

/// Whether a word has an odd number of ones.
fn is_odd(w: u64) -> (r: bool)
    ensures
        r == word_parity(w, 64),
{
    let mut acc: bool = false;
    let mut i: u64 = 0;
    while i < 64
        invariant
            i <= 64,
            acc == word_parity(w, i as nat),
        decreases 64 - i,
    {
        let b: bool = (w >> i) & 1 == 1;
        acc = acc != b;
        i = i + 1;
    }
    acc
}

/// One packed word selects the parity of its 64 places.
proof fn lemma_word_step(w: u64, row: Seq<u8>, x: Seq<bool>, n: nat, q: int, j: nat)
    requires
        0 <= q,
        j <= 64,
        forall|i: nat|
            i < 64 ==> #[trigger] word_bit(w, i) == (q * 64 + i < n && gf2::bit(row[q * 64 + i])
                && x[q * 64 + i]),
    ensures
        gf2::parity(row, x, util::lesser(q * 64 + j, n as int) as nat) == (gf2::parity(
            row,
            x,
            util::lesser(q * 64, n as int) as nat,
        ) != word_parity(w, j)),
    decreases j,
{
    if j > 0 {
        let i = (j - 1) as nat;
        lemma_word_step(w, row, x, n, q, i);
        assert(word_bit(w, i) == (q * 64 + i < n && gf2::bit(row[q * 64 + i]) && x[q * 64 + i]));
    }
}

/// The parity that a packed row selects in a packed vector.
fn packed_parity(row_words: &Vec<u64>, vec_words: &Vec<u64>, row: Ghost<Seq<u8>>, v: Ghost<Seq<u8>>, n: Ghost<nat>) -> (r: bool)
    requires
        packs(row_words@, row@, n@),
        packs(vec_words@, v@, n@),
        v@.len() == n@,
    ensures
        r == gf2::parity(row@, bits_of(v@), n@),
{
    let ghost x = bits_of(v@);
    let mut acc: bool = false;
    let mut q: usize = 0;
    while q < row_words.len()
        invariant
            q <= row_words.len(),
            row_words.len() == vec_words.len(),
            x == bits_of(v@),
            packs(row_words@, row@, n@),
            packs(vec_words@, v@, n@),
            v@.len() == n@,
            acc == gf2::parity(row@, x, util::lesser(q * 64, n@ as int) as nat),
        decreases row_words.len() - q,
    {
        let a: u64 = row_words[q];
        let b: u64 = vec_words[q];
        let odd: bool = is_odd(a & b);
        proof {
            assert forall|i: nat| i < 64 implies #[trigger] word_bit(a & b, i) == (q * 64 + i < n@
                && gf2::bit(row@[q * 64 + i]) && x[q * 64 + i]) by {
                lemma_word_bits(a, b, 0, i);
                assert(word_bit(row_words@[q as int], i) == (q * 64 + i < n@ && gf2::bit(
                    row@[q * 64 + i],
                )));
                assert(word_bit(vec_words@[q as int], i) == (q * 64 + i < n@ && gf2::bit(
                    v@[q * 64 + i],
                )));
            }
            lemma_word_step(a & b, row@, x, n@, q as int, 64);
        }
        acc = acc != odd;
        q = q + 1;
    }
    acc
}

/// Rows of a square matrix that name its columns only.
pub open spec fn rows_within(rows: Seq<Seq<usize>>, len: nat, cols: nat) -> bool {
    &&& rows.len() == len
    &&& forall|r: int, i: int|
        0 <= r < len && 0 <= i < rows[r].len() ==> #[trigger] rows[r][i] < cols
}

proof fn lemma_expanded_within(base: Seq<Seq<i16>>)
    requires
        base.len() * 32 <= usize::MAX,
        qc::base_cols(base) * 32 <= usize::MAX,
    ensures
        rows_within(qc::expanded(base, 32), base.len() * 32, qc::base_cols(base) * 32),
{
    let rows = qc::expanded(base, 32);
    assert forall|r: int, i: int| 0 <= r < rows.len() && 0 <= i < rows[r].len() implies #[trigger] rows[r][i]
        < qc::base_cols(base) * 32 by {
        qc::lemma_expanded_row(base[r / 32], 32, (r % 32) as nat, qc::base_cols(base));
    }
}

/// The parity part of a profile's code and its inverse.
fn choose_parity_part(pcfg: &LinkProfile, spec: QcLdpcSpec) -> (r: (Vec<Vec<usize>>, Vec<Vec<u8>>))
    requires
        is_supported(pcfg),
        spec == blocks_of(pcfg),
    ensures
        matrix::rows_of(r.0@) == h2_rows_for(pcfg),
        rows_within(matrix::rows_of(r.0@), pcfg.parity_bits() as nat, pcfg.parity_bits() as nat),
        gf2::is_inverse(
            gf2::dense_of(matrix::rows_of(r.0@), pcfg.parity_bits() as nat),
            matrix::rows_of(r.1@),
        ),
{
    let m: usize = pcfg.ldpc_m();
    let ghost table = qc::h2_table(spec);
    let mut base: Vec<Vec<i16>> = qc::qc_base_h2(spec);
    assert(base.len() == spec.mb && qc::base_cols(table) == spec.mb) by {
        assert(matrix::rows_of(base@).len() == base@.len());
    }
    assert forall|q: int| 0 <= q < base@.len() implies (#[trigger] base@[q])@.len() == spec.mb by {
        assert(table[q] == base@[q]@);
    }
    proof {
        lemma_expanded_within(table);
    }
    let rows: Vec<Vec<usize>> = qc::qc_expand_rows(base.as_slice(), spec.z);
    let dense: Vec<Vec<u8>> = gf2::dense_from_sparse_rows(rows.as_slice(), m);
    let found: Option<Vec<Vec<u8>>> = gf2::gf2_invert_dense(dense.as_slice());
    if let Some(inv) = found {
        proof {
            gf2::lemma_inverse_not_singular(
                gf2::dense_of(matrix::rows_of(rows@), m as nat),
                matrix::rows_of(inv@),
            );
        }
        return (rows, inv);
    }
    let mut sh: usize = 2;
    while sh < 32
        invariant
            2 <= sh <= 32,
            is_supported(pcfg),
            spec == blocks_of(pcfg),
            m == pcfg.parity_bits(),
            table == qc::h2_table(spec),
            base.len() == spec.mb,
            base.len() == table.len(),
            qc::base_cols(table) == spec.mb,
            forall|q: int| 0 <= q < base@.len() ==> (#[trigger] base@[q])@.len() == spec.mb,
            forall|q: int| 1 <= q < base@.len() ==> (#[trigger] base@[q])@ == table[q],
            forall|c: int| 0 <= c < spec.mb - 1 ==> #[trigger] base@[0]@[c] == table[0][c],
            h2_rows_for(pcfg) == h2_from_shift(pcfg, sh as int),
        decreases 32 - sh,
    {
        let corner: &mut Vec<i16> = &mut base[0];
        corner.set(spec.mb - 1, sh as i16);
        let ghost now = with_wrap_shift(table, sh as int);
        proof {
            assert(base@[0]@ =~= now[0]);
            assert(matrix::rows_of(base@) =~= now);
            lemma_expanded_within(now);
        }
        let rows: Vec<Vec<usize>> = qc::qc_expand_rows(base.as_slice(), spec.z);
        let dense: Vec<Vec<u8>> = gf2::dense_from_sparse_rows(rows.as_slice(), m);
        let found: Option<Vec<Vec<u8>>> = gf2::gf2_invert_dense(dense.as_slice());
        if let Some(inv) = found {
            proof {
                gf2::lemma_inverse_not_singular(
                    gf2::dense_of(matrix::rows_of(rows@), m as nat),
                    matrix::rows_of(inv@),
                );
            }
            return (rows, inv);
        }
        sh = sh + 1;
    }
    let col_w: usize = if pcfg.ldpc_col_w >= 2 {
        pcfg.ldpc_col_w
    } else {
        2
    };
    proof {
        parity_rows::lemma_parity_rows_bounds(
            m as nat,
            pcfg.ldpc_seed,
            parity_rows::extra_weight(col_w as nat),
            0,
        );
    }
    parity_rows::gen_ldpc_h2_rows_and_inv(m, pcfg.ldpc_seed, col_w)
}

/// The parity checks as lists of columns.
fn join_parts(h1: &Vec<Vec<usize>>, h2: &Vec<Vec<usize>>, k: usize, m: usize) -> (rows: Vec<
    Vec<usize>,
>)
    requires
        k + m <= usize::MAX,
        rows_within(matrix::rows_of(h1@), m as nat, k as nat),
        rows_within(matrix::rows_of(h2@), m as nat, m as nat),
    ensures
        matrix::rows_of(rows@) == check_rows(
            matrix::rows_of(h1@),
            matrix::rows_of(h2@),
            k as int,
            m as nat,
        ),
        rows_within(matrix::rows_of(rows@), m as nat, (k + m) as nat),
{
    let ghost a = matrix::rows_of(h1@);
    let ghost b = matrix::rows_of(h2@);
    let ghost want = check_rows(a, b, k as int, m as nat);
    let mut rows: Vec<Vec<usize>> = Vec::with_capacity(m);
    let mut r: usize = 0;
    while r < m
        invariant
            r <= m,
            k + m <= usize::MAX,
            a == matrix::rows_of(h1@),
            b == matrix::rows_of(h2@),
            rows_within(a, m as nat, k as nat),
            rows_within(b, m as nat, m as nat),
            want == check_rows(a, b, k as int, m as nat),
            rows.len() == r,
            forall|q: int| 0 <= q < r ==> (#[trigger] rows@[q])@ == want[q],
        decreases m - r,
    {
        let mut row: Vec<usize> = Vec::new();
        let mut i: usize = 0;
        assert(a[r as int] == h1@[r as int]@ && b[r as int] == h2@[r as int]@);
        while i < h1[r].len()
            invariant
                r < m,
                m == h1@.len(),
                a == matrix::rows_of(h1@),
                a[r as int] == h1@[r as int]@,
                i <= a[r as int].len(),
                row@ == a[r as int].take(i as int),
            decreases a[r as int].len() - i,
        {
            row.push(h1[r][i]);
            assert(a[r as int].take(i + 1) =~= a[r as int].take(i as int).push(
                a[r as int][i as int],
            ));
            i = i + 1;
        }
        assert(a[r as int].take(i as int) =~= a[r as int]);
        let mut j: usize = 0;
        let ghost sh = shifted(b[r as int], k as int);
        assert(row@ =~= a[r as int] + sh.take(0));
        while j < h2[r].len()
            invariant
                r < m,
                m == h2@.len(),
                k + m <= usize::MAX,
                b[r as int] == h2@[r as int]@,
                rows_within(b, m as nat, m as nat),
                sh == shifted(b[r as int], k as int),
                j <= b[r as int].len(),
                row@ == a[r as int] + sh.take(j as int),
            decreases b[r as int].len() - j,
        {
            assert(b[r as int][j as int] < m);
            row.push(k + h2[r][j]);
            assert(sh.take(j + 1) =~= sh.take(j as int).push(sh[j as int]));
            j = j + 1;
        }
        assert(sh.take(j as int) =~= sh);
        rows.push(row);
        r = r + 1;
    }
    proof {
        assert(matrix::rows_of(rows@) =~= want);
        assert forall|q: int, i: int| 0 <= q < m && 0 <= i < want[q].len() implies #[trigger] want[q][i]
            < k + m by {
            if i < a[q].len() {
                assert(a[q][i] < k);
            } else {
                assert(b[q][i - a[q].len()] < m);
            }
        }
    }
    rows
}

proof fn lemma_edges_in_col_prefix(a: Seq<usize>, b: Seq<usize>, c: int, n: nat)
    requires
        n <= a.len(),
        n <= b.len(),
        forall|e: int| 0 <= e < n ==> a[e] == b[e],
    ensures
        edges_in_col(a, c, n) == edges_in_col(b, c, n),
    decreases n,
{
    if n > 0 {
        lemma_edges_in_col_prefix(a, b, c, (n - 1) as nat);
    }
}

/// The edges of a set of checks, by check, flat and by column.
struct EdgeLists {
    row_edges: Vec<Vec<usize>>,
    row_edge_offsets: Vec<usize>,
    row_edge_flat: Vec<usize>,
    col_edges: Vec<Vec<usize>>,
    edge_cols: Vec<usize>,
}

spec fn lists_edges(l: EdgeLists, checks: Seq<Seq<usize>>, m: nat, n: nat) -> bool {
    &&& l.edge_cols@ == concat(checks, m)
    &&& l.row_edge_offsets@.len() == m + 1
    &&& forall|r: int|
        0 <= r <= m ==> #[trigger] l.row_edge_offsets@[r] == concat(checks, r as nat).len()
    &&& l.row_edges@.len() == m
    &&& forall|r: int|
        0 <= r < m ==> (#[trigger] l.row_edges@[r])@ == numbers(
            l.row_edge_offsets@[r] as int,
            l.row_edge_offsets@[r + 1] as int,
        )
    &&& l.row_edge_flat@ == numbers(0, l.edge_cols@.len() as int)
    &&& l.col_edges@.len() == n
    &&& forall|c: int|
        0 <= c < n ==> (#[trigger] l.col_edges@[c])@ == edges_in_col(
            l.edge_cols@,
            c,
            l.edge_cols@.len(),
        )
}

fn list_edges(checks: &Vec<Vec<usize>>, m: usize, n: usize) -> (l: EdgeLists)
    requires
        rows_within(matrix::rows_of(checks@), m as nat, n as nat),
        m < usize::MAX,
    ensures
        lists_edges(l, matrix::rows_of(checks@), m as nat, n as nat),
{
    let ghost rows = matrix::rows_of(checks@);
    let mut l: EdgeLists = EdgeLists {
        row_edges: Vec::with_capacity(m),
        row_edge_offsets: Vec::with_capacity(m + 1),
        row_edge_flat: Vec::new(),
        col_edges: Vec::with_capacity(n),
        edge_cols: Vec::new(),
    };
    l.row_edge_offsets.push(0);
    let mut i: usize = 0;
    while i < n
        invariant
            i <= n,
            l.col_edges@.len() == i,
            l.edge_cols@.len() == 0,
            l.row_edge_flat@.len() == 0,
            l.row_edges@.len() == 0,
            l.row_edge_offsets@ == seq![0usize],
            forall|c: int| 0 <= c < i ==> (#[trigger] l.col_edges@[c])@ == Seq::<usize>::empty(),
        decreases n - i,
    {
        l.col_edges.push(Vec::new());
        i = i + 1;
    }
    assert(l.edge_cols@ =~= concat(rows, 0));
    assert(l.row_edge_flat@ =~= numbers(0, 0));
    let mut r: usize = 0;
    while r < m
        invariant
            r <= m,
            rows == matrix::rows_of(checks@),
            rows_within(rows, m as nat, n as nat),
            lists_edges(l, rows, r as nat, n as nat),
        decreases m - r,
    {
        let ghost l0 = l;
        let ghost row = rows[r as int];
        assert(row == checks@[r as int]@);
        let mut mine: Vec<usize> = Vec::new();
        let mut i: usize = 0;
        assert(row.take(0) =~= Seq::<usize>::empty());
        assert(l.edge_cols@ =~= concat(rows, r as nat) + row.take(0));
        while i < checks[r].len()
            invariant
                r < m,
                rows == matrix::rows_of(checks@),
                rows_within(rows, m as nat, n as nat),
                row == rows[r as int],
                row == checks@[r as int]@,
                i <= row.len(),
                l.row_edges == l0.row_edges,
                l.row_edge_offsets == l0.row_edge_offsets,
                l.edge_cols@ == concat(rows, r as nat) + row.take(i as int),
                l.row_edge_flat@ == numbers(0, l.edge_cols@.len() as int),
                mine@ == numbers(concat(rows, r as nat).len() as int, l.edge_cols@.len() as int),
                l.col_edges@.len() == n,
                forall|c: int|
                    0 <= c < n ==> (#[trigger] l.col_edges@[c])@ == edges_in_col(
                        l.edge_cols@,
                        c,
                        l.edge_cols@.len(),
                    ),
            decreases row.len() - i,
        {
            let c: usize = checks[r][i];
            assert(c == rows[r as int][i as int]);
            let e: usize = l.edge_cols.len();
            let ghost cols0 = l.edge_cols@;
            let ghost by_col0 = l.col_edges@;
            let ghost flat0 = l.row_edge_flat@;
            let ghost mine0 = mine@;
            l.edge_cols.push(c);
            l.row_edge_flat.push(e);
            mine.push(e);
            parity_rows::push_at(&mut l.col_edges, c, e);
            proof {
                assert(row.take(i + 1) =~= row.take(i as int).push(row[i as int]));
                assert(l.edge_cols@ =~= concat(rows, r as nat) + row.take(i + 1));
                assert(l.row_edge_flat@ =~= numbers(0, l.edge_cols@.len() as int));
                assert(mine@ =~= numbers(
                    concat(rows, r as nat).len() as int,
                    l.edge_cols@.len() as int,
                ));
                assert forall|d: int| 0 <= d < n implies (#[trigger] l.col_edges@[d])@
                    == edges_in_col(l.edge_cols@, d, l.edge_cols@.len()) by {
                    lemma_edges_in_col_prefix(cols0, l.edge_cols@, d, cols0.len());
                    assert(by_col0[d]@ == edges_in_col(cols0, d, cols0.len()));
                    if d != c {
                        assert(l.col_edges@[d] == by_col0[d]);
                    }
                }
            }
            i = i + 1;
        }
        assert(row.take(i as int) =~= row);
        l.row_edges.push(mine);
        let end: usize = l.edge_cols.len();
        l.row_edge_offsets.push(end);
        proof {
            assert(l.edge_cols@ == concat(rows, (r + 1) as nat));
            assert forall|q: int| 0 <= q <= r + 1 implies #[trigger] l.row_edge_offsets@[q]
                == concat(rows, q as nat).len() by {
                if q <= r {
                    assert(l.row_edge_offsets@[q] == l0.row_edge_offsets@[q]);
                }
            }
            assert forall|q: int| 0 <= q < r + 1 implies (#[trigger] l.row_edges@[q])@ == numbers(
                l.row_edge_offsets@[q] as int,
                l.row_edge_offsets@[q + 1] as int,
            ) by {
                if q < r {
                    assert(l.row_edges@[q] == l0.row_edges@[q]);
                    assert(l.row_edge_offsets@[q] == l0.row_edge_offsets@[q]);
                    assert(l.row_edge_offsets@[q + 1] == l0.row_edge_offsets@[q + 1]);
                }
            }
        }
        r = r + 1;
    }
    l
}

impl LdpcCode {
    /// The code of a profile.
    pub fn from_profile(pcfg: &LinkProfile) -> (code: Self)
        requires
            is_supported(pcfg),
        ensures
            code.wf(),
            code.n == pcfg.ldpc_n,
            code.k == pcfg.ldpc_k,
            matrix::rows_of(code.h1_rows@) == h1_rows_for(pcfg),
            matrix::rows_of(code.h2_rows@) == h2_rows_for(pcfg),
    {
        let n: usize = pcfg.ldpc_n;
        let k: usize = pcfg.ldpc_k;
        let m: usize = pcfg.ldpc_m();
        let spec: QcLdpcSpec = match qc_spec_from_profile(pcfg) {
            Some(s) => s,
            None => QcLdpcSpec { z: 32, kb: k / 32, mb: m / 32 },
        };
        let h1_base: Vec<Vec<i16>> = qc::qc_base_h1(spec);
        proof {
            let table = qc::h1_table(spec);
            assert(table.len() == spec.mb && qc::base_cols(table) == spec.kb);
            assert(matrix::rows_of(h1_base@).len() == h1_base@.len());
            assert forall|q: int| 0 <= q < h1_base@.len() implies (#[trigger] h1_base@[q])@.len()
                == spec.kb by {
                assert(table[q] == h1_base@[q]@);
            }
            lemma_expanded_within(table);
        }
        let h1_rows: Vec<Vec<usize>> = qc::qc_expand_rows(h1_base.as_slice(), spec.z);
        let (h2_rows, h2_inv_rows) = choose_parity_part(pcfg, spec);
        let ghost inv = matrix::rows_of(h2_inv_rows@);
        let mut h2_inv_words: Vec<Vec<u64>> = Vec::with_capacity(m);
        let mut r: usize = 0;
        assert(inv.len() == m);
        while r < m
            invariant
                r <= m,
                inv == matrix::rows_of(h2_inv_rows@),
                gf2::is_square(inv, m as nat),
                h2_inv_words.len() == r,
                forall|q: int|
                    0 <= q < r ==> packs(
                        (#[trigger] h2_inv_words@[q])@,
                        h2_inv_rows@[q]@,
                        m as nat,
                    ),
            decreases m - r,
        {
            assert(inv[r as int] == h2_inv_rows@[r as int]@);
            h2_inv_words.push(pack_bits(&h2_inv_rows[r], m));
            r = r + 1;
        }
        assert(rows_within(matrix::rows_of(h1_rows@), m as nat, k as nat)) by {
            let a = matrix::rows_of(h1_rows@);
            assert forall|q: int, i: int| 0 <= q < m && 0 <= i < a[q].len() implies #[trigger] a[q][i]
                < k by {}
        }
        let checks: Vec<Vec<usize>> = join_parts(&h1_rows, &h2_rows, k, m);
        let l: EdgeLists = list_edges(&checks, m, n);
        let code: LdpcCode = LdpcCode {
            n,
            k,
            m,
            h1_rows,
            h2_rows,
            h2_inv_rows,
            h2_inv_words,
            row_edges: l.row_edges,
            row_edge_offsets: l.row_edge_offsets,
            row_edge_flat: l.row_edge_flat,
            col_edges: l.col_edges,
            edge_cols: l.edge_cols,
        };
        proof {
            assert forall|r: int, i: int| 0 <= r < m && 0 <= i < code.h1_rows@[r]@.len() implies #[trigger] code.h1_rows@[r]@[i]
                < k by {
                assert(matrix::rows_of(code.h1_rows@)[r][i] < k);
            }
            assert forall|r: int, i: int| 0 <= r < m && 0 <= i < code.h2_rows@[r]@.len() implies #[trigger] code.h2_rows@[r]@[i]
                < m by {
                assert(matrix::rows_of(code.h2_rows@)[r][i] < m);
            }
        }
        code
    }
}

pub proof fn lemma_sparse_concat(a: Seq<usize>, b: Seq<usize>, x: Seq<bool>, n: nat)
    requires
        n <= b.len(),
    ensures
        gf2::sparse_parity(a + b, x, a.len() + n) == (gf2::sparse_parity(a, x, a.len())
            != gf2::sparse_parity(b, x, n)),
    decreases n,
{
    if n == 0 {
        lemma_sparse_prefix(a, b, x, a.len());
    } else {
        lemma_sparse_concat(a, b, x, (n - 1) as nat);
        assert((a + b)[a.len() + n - 1] == b[n - 1]);
    }
}

proof fn lemma_sparse_prefix(a: Seq<usize>, b: Seq<usize>, x: Seq<bool>, n: nat)
    requires
        n <= a.len(),
    ensures
        gf2::sparse_parity(a + b, x, n) == gf2::sparse_parity(a, x, n),
    decreases n,
{
    if n > 0 {
        lemma_sparse_prefix(a, b, x, (n - 1) as nat);
        assert((a + b)[n - 1] == a[n - 1]);
    }
}

/// Two lists that select the same values select the same parity.
pub proof fn lemma_sparse_agree(a: Seq<usize>, x: Seq<bool>, b: Seq<usize>, y: Seq<bool>, n: nat)
    requires
        n <= a.len(),
        n <= b.len(),
        forall|i: int| 0 <= i < n ==> x[(#[trigger] a[i]) as int] == y[b[i] as int],
    ensures
        gf2::sparse_parity(a, x, n) == gf2::sparse_parity(b, y, n),
    decreases n,
{
    if n > 0 {
        lemma_sparse_agree(a, x, b, y, (n - 1) as nat);
        assert(x[a[n - 1] as int] == y[b[n - 1] as int]);
    }
}

impl LdpcCode {
    /// The parity bits of a word.
    spec fn parity_part(&self, word: Seq<u8>) -> Seq<bool> {
        Seq::new(self.m as nat, |r: int| gf2::bit(word[self.k + r]))
    }

    /// What the parity part of a word has to come to in each check.
    spec fn information_sums(&self, word: Seq<u8>) -> Seq<bool> {
        Seq::new(
            self.m as nat,
            |r: int|
                gf2::sparse_parity(
                    self.h1_rows@[r]@,
                    bits_of(word),
                    self.h1_rows@[r]@.len(),
                ),
        )
    }

    /// A word is accepted exactly where its parity part solves the equations of its information.
    proof fn lemma_accepts(&self, word: Seq<u8>)
        requires
            self.matrices_wf(),
            word.len() == self.n,
        ensures
            self.accepts(word) <==> gf2::maps_to(
                gf2::dense_of(matrix::rows_of(self.h2_rows@), self.m as nat),
                self.parity_part(word),
                self.information_sums(word),
            ),
    {
        let h1 = matrix::rows_of(self.h1_rows@);
        let h2 = matrix::rows_of(self.h2_rows@);
        let m = self.m as nat;
        let d = gf2::dense_of(h2, m);
        let x = bits_of(word);
        let p = self.parity_part(word);
        let s = self.information_sums(word);
        assert forall|r: int| 0 <= r < m implies gf2::sparse_parity(
            #[trigger] self.checks()[r],
            x,
            self.checks()[r].len(),
        ) == (s[r] != gf2::parity(d[r], p, m)) by {
            let up = shifted(h2[r], self.k as int);
            assert(h1[r] == self.h1_rows@[r]@ && h2[r] == self.h2_rows@[r]@);
            lemma_sparse_concat(h1[r], up, x, up.len());
            assert forall|i: int| 0 <= i < up.len() implies x[(#[trigger] up[i]) as int]
                == p[h2[r][i] as int] by {
                assert(self.h2_rows@[r]@[i] < self.m);
            }
            lemma_sparse_agree(up, x, h2[r], p, up.len());
            assert forall|i: int| 0 <= i < h2[r].len() implies #[trigger] h2[r][i] < m by {
                assert(self.h2_rows@[r]@[i] < self.m);
            }
            gf2::lemma_dense_parity(h2[r], m, p, h2[r].len());
        }
        if self.accepts(word) {
            assert forall|r: int| 0 <= r < m implies gf2::parity(#[trigger] d[r], p, d.len())
                == s[r] by {
                assert(!gf2::sparse_parity(self.checks()[r], x, self.checks()[r].len()));
            }
        }
        if gf2::maps_to(d, p, s) {
            assert forall|r: int| 0 <= r < m implies !(#[trigger] gf2::sparse_parity(
                self.checks()[r],
                x,
                self.checks()[r].len(),
            )) by {
                assert(gf2::parity(d[r], p, d.len()) == s[r]);
            }
        }
    }

    /// The information bits of an accepted word determine its parity bits.
    pub proof fn law_parity_determined(&self, a: Seq<u8>, b: Seq<u8>)
        requires
            self.wf(),
            a.len() == self.n,
            b.len() == self.n,
            self.accepts(a),
            self.accepts(b),
            forall|i: int| 0 <= i < self.k ==> gf2::bit(#[trigger] a[i]) == gf2::bit(b[i]),
        ensures
            bits_of(a) == bits_of(b),
    {
        let d = gf2::dense_of(matrix::rows_of(self.h2_rows@), self.m as nat);
        let inv = matrix::rows_of(self.h2_inv_rows@);
        let (p, q) = (self.parity_part(a), self.parity_part(b));
        let s = self.information_sums(a);
        assert(s =~= self.information_sums(b)) by {
            assert forall|r: int| 0 <= r < self.m implies s[r] == self.information_sums(b)[r] by {
                let row = self.h1_rows@[r]@;
                assert forall|i: int| 0 <= i < row.len() implies bits_of(
                    a,
                )[(#[trigger] row[i]) as int] == bits_of(b)[row[i] as int] by {
                    assert(self.h1_rows@[r]@[i] < self.k);
                    assert(gf2::bit(a[row[i] as int]) == gf2::bit(b[row[i] as int]));
                }
                lemma_sparse_agree(row, bits_of(a), row, bits_of(b), row.len());
            }
        }
        self.lemma_accepts(a);
        self.lemma_accepts(b);
        assert(gf2::maps_to(inv, s, p));
        assert(gf2::maps_to(inv, s, q));
        assert forall|i: int| 0 <= i < self.n implies bits_of(a)[i] == bits_of(b)[i] by {
            if i < self.k {
                assert(gf2::bit(a[i]) == gf2::bit(b[i]));
            } else {
                let r = i - self.k;
                assert(gf2::parity(inv[r], s, inv.len()) == p[r]);
                assert(gf2::parity(inv[r], s, inv.len()) == q[r]);
            }
        }
        assert(bits_of(a) =~= bits_of(b));
    }
}

/// The buffers that encoding works in.
pub struct LdpcEncodeScratch {
    pub out: Vec<u8>,
    pub rhs: Vec<u8>,
    pub rhs_words: Vec<u64>,
}

impl LdpcEncodeScratch {
    /// The buffers have the sizes that a code needs.
    pub open spec fn fits(&self, code: &LdpcCode) -> bool {
        &&& self.out@.len() == code.n
        &&& self.rhs@.len() == code.m
        &&& self.rhs_words@.len() == util::ceil_div(code.m as nat, 64)
    }

    pub fn for_code(code: &LdpcCode) -> (s: Self)
        ensures
            s.fits(code),
            s.out@ == util::constant(code.n as nat, 0),
            s.rhs@ == util::constant(code.m as nat, 0),
            forall|i: int| 0 <= i < s.rhs_words@.len() ==> s.rhs_words@[i] == 0,
    {
        LdpcEncodeScratch {
            out: util::filled(code.n, 0),
            rhs: util::filled(code.m, 0),
            rhs_words: vec![0u64; util::div_ceil(code.m, 64)],
        }
    }

    /// Brings each buffer to its size; what was in it stays as far as it fits.
    pub fn ensure_for_code(&mut self, code: &LdpcCode)
        ensures
            final(self).fits(code),
            forall|i: int|
                0 <= i < code.n ==> #[trigger] final(self).out@[i] == if i < old(self).out@.len() {
                    old(self).out@[i]
                } else {
                    0
                },
            forall|i: int|
                0 <= i < code.m ==> #[trigger] final(self).rhs@[i] == if i < old(self).rhs@.len() {
                    old(self).rhs@[i]
                } else {
                    0
                },
            forall|i: int|
                0 <= i < final(self).rhs_words@.len() ==> #[trigger] final(self).rhs_words@[i]
                    == if i < old(self).rhs_words@.len() {
                    old(self).rhs_words@[i]
                } else {
                    0
                },
    {
        if self.out.len() != code.n {
            self.out.resize(code.n, 0);
        }
        if self.rhs.len() != code.m {
            self.rhs.resize(code.m, 0);
        }
        let words: usize = util::div_ceil(code.m, 64);
        if self.rhs_words.len() != words {
            self.rhs_words.resize(words, 0);
        }
    }
}

/// `word` is the codeword of the information bits: those that there are, zeros for the rest of
/// the information part, and the parity bits that make every check come out even.
pub open spec fn encodes(code: &LdpcCode, info: Seq<u8>, word: Seq<u8>) -> bool {
    &&& word.len() == code.n
    &&& forall|i: int|
        0 <= i < code.k ==> #[trigger] word[i] == if i < info.len() {
            info[i]
        } else {
            0
        }
    &&& forall|i: int| code.k <= i < code.n ==> (#[trigger] word[i] == 0 || word[i] == 1)
    &&& code.accepts(word)
}

impl LdpcCode {
    /// The parity of the information bits that a check adds up.
    fn information_sum(&self, r: usize, word: &Vec<u8>) -> (v: u8)
        requires
            self.matrices_wf(),
            r < self.m,
            word.len() == self.n,
        ensures
            v == if gf2::sparse_parity(
                self.h1_rows@[r as int]@,
                bits_of(word@),
                self.h1_rows@[r as int]@.len(),
            ) {
                1u8
            } else {
                0u8
            },
    {
        let ghost row = self.h1_rows@[r as int]@;
        let ghost x = bits_of(word@);
        let mut v: u8 = 0;
        let mut i: usize = 0;
        while i < self.h1_rows[r].len()
            invariant
                self.matrices_wf(),
                r < self.m,
                word.len() == self.n,
                row == self.h1_rows@[r as int]@,
                x == bits_of(word@),
                i <= row.len(),
                v == if gf2::sparse_parity(row, x, i as nat) {
                    1u8
                } else {
                    0u8
                },
            decreases row.len() - i,
        {
            let c: usize = self.h1_rows[r][i];
            assert(self.h1_rows@[r as int]@[i as int] < self.k);
            proof {
                gf2::lemma_low_bit(word@[c as int]);
                gf2::lemma_small_bits();
            }
            v = v ^ (word[c] & 1);
            i = i + 1;
        }
        v
    }

    /// Encodes into the scratch buffers; the codeword is left in `out`, which is handed back.
    pub fn encode_with_scratch<'a>(
        &self,
        info_bits: &[u8],
        scratch: &'a mut LdpcEncodeScratch,
    ) -> (word: &'a [u8])
        requires
            self.wf(),
        ensures
            encodes(self, info_bits@, word@),
            final(scratch).out@ == word@,
            final(scratch).fits(self),
    {
        scratch.ensure_for_code(self);
        let copy_n: usize = util::min_usize(info_bits.len(), self.k);
        let mut i: usize = 0;
        while i < self.n
            invariant
                i <= self.n,
                self.wf(),
                copy_n == util::lesser(info_bits@.len() as int, self.k as int),
                scratch.fits(self),
                forall|j: int|
                    0 <= j < i ==> #[trigger] scratch.out@[j] == if j < copy_n {
                        info_bits@[j]
                    } else {
                        0
                    },
            decreases self.n - i,
        {
            let b: u8 = if i < copy_n {
                info_bits[i]
            } else {
                0
            };
            scratch.out.set(i, b);
            i = i + 1;
        }
        let ghost start = scratch.out@;
        let ghost sums = self.information_sums(start);
        let mut r: usize = 0;
        while r < self.m
            invariant
                r <= self.m,
                self.wf(),
                scratch.fits(self),
                scratch.out@ == start,
                sums == self.information_sums(start),
                forall|j: int|
                    0 <= j < r ==> #[trigger] scratch.rhs@[j] == if sums[j] {
                        1u8
                    } else {
                        0u8
                    },
            decreases self.m - r,
        {
            let v: u8 = self.information_sum(r, &scratch.out);
            scratch.rhs.set(r, v);
            r = r + 1;
        }
        let words: Vec<u64> = pack_bits(&scratch.rhs, self.m);
        scratch.rhs_words = words;
        proof {
            gf2::lemma_small_bits();
            assert(bits_of(scratch.rhs@) =~= sums);
        }
        let ghost inv = matrix::rows_of(self.h2_inv_rows@);
        let mut r: usize = 0;
        while r < self.m
            invariant
                r <= self.m,
                self.wf(),
                scratch.fits(self),
                start.len() == self.n,
                inv == matrix::rows_of(self.h2_inv_rows@),
                packs(scratch.rhs_words@, scratch.rhs@, self.m as nat),
                bits_of(scratch.rhs@) == sums,
                forall|j: int| 0 <= j < self.k ==> #[trigger] scratch.out@[j] == start[j],
                forall|j: int|
                    0 <= j < r ==> #[trigger] scratch.out@[self.k + j] == if gf2::parity(
                        inv[j],
                        sums,
                        self.m as nat,
                    ) {
                        1u8
                    } else {
                        0u8
                    },
            decreases self.m - r,
        {
            assert(inv[r as int] == self.h2_inv_rows@[r as int]@);
            let odd: bool = packed_parity(
                &self.h2_inv_words[r],
                &scratch.rhs_words,
                Ghost(self.h2_inv_rows@[r as int]@),
                Ghost(scratch.rhs@),
                Ghost(self.m as nat),
            );
            let b: u8 = if odd {
                1
            } else {
                0
            };
            let ghost before = scratch.out@;
            scratch.out.set(self.k + r, b);
            proof {
                assert forall|j: int| 0 <= j < r + 1 implies #[trigger] scratch.out@[self.k + j]
                    == if gf2::parity(inv[j], sums, self.m as nat) {
                    1u8
                } else {
                    0u8
                } by {
                    if j < r {
                        assert(scratch.out@[self.k + j] == before[self.k + j]);
                    }
                }
            }
            r = r + 1;
        }
        proof {
            self.lemma_is_codeword(start, scratch.out@);
        }
        scratch.out.as_slice()
    }

    /// The sums of the information part do not depend on the parity part.
    proof fn lemma_same_sums(&self, a: Seq<u8>, b: Seq<u8>)
        requires
            self.matrices_wf(),
            a.len() == self.n,
            b.len() == self.n,
            forall|i: int| 0 <= i < self.k ==> #[trigger] b[i] == a[i],
        ensures
            self.information_sums(a) == self.information_sums(b),
    {
        let s = self.information_sums(a);
        let t = self.information_sums(b);
        assert forall|r: int| 0 <= r < self.m implies s[r] == t[r] by {
            let row = self.h1_rows@[r]@;
            assert forall|i: int| 0 <= i < row.len() implies bits_of(a)[(#[trigger] row[i]) as int]
                == bits_of(b)[row[i] as int] by {
                assert(self.h1_rows@[r]@[i] < self.k);
                assert(b[row[i] as int] == a[row[i] as int]);
            }
            lemma_sparse_agree(row, bits_of(a), row, bits_of(b), row.len());
        }
        assert(s =~= t);
    }

    /// A word whose parity bits are the product of the inverse with the sums of its information
    /// bits passes every check.
    proof fn lemma_is_codeword(&self, start: Seq<u8>, word: Seq<u8>)
        requires
            self.wf(),
            start.len() == self.n,
            word.len() == self.n,
            forall|j: int| 0 <= j < self.k ==> #[trigger] word[j] == start[j],
            forall|j: int|
                0 <= j < self.m ==> #[trigger] word[self.k + j] == if gf2::parity(
                    matrix::rows_of(self.h2_inv_rows@)[j],
                    self.information_sums(start),
                    self.m as nat,
                ) {
                    1u8
                } else {
                    0u8
                },
        ensures
            self.accepts(word),
            forall|i: int| self.k <= i < self.n ==> (#[trigger] word[i] == 0 || word[i] == 1),
    {
        let inv = matrix::rows_of(self.h2_inv_rows@);
        let sums = self.information_sums(start);
        self.lemma_same_sums(start, word);
        gf2::lemma_small_bits();
        let p = self.parity_part(word);
        assert forall|j: int| 0 <= j < self.m implies gf2::parity(
            #[trigger] inv[j],
            sums,
            inv.len(),
        ) == p[j] by {
            assert(word[self.k + j] == if gf2::parity(inv[j], sums, self.m as nat) {
                1u8
            } else {
                0u8
            });
        }
        assert(gf2::maps_to(inv, sums, p));
        self.lemma_accepts(word);
        assert forall|i: int| self.k <= i < self.n implies (#[trigger] word[i] == 0 || word[i] == 1) by {
            let j = i - self.k;
            assert(word[self.k + j] == 0 || word[self.k + j] == 1);
        }
    }

    /// All information bits have a codeword.
    pub proof fn law_codeword_exists(&self, info: Seq<u8>)
        requires
            self.wf(),
        ensures
            encodes(self, info, codeword_of(self, info)),
    {
        let start = Seq::new(
            self.n as nat,
            |i: int|
                if i < self.k && i < info.len() {
                    info[i]
                } else {
                    0u8
                },
        );
        let inv = matrix::rows_of(self.h2_inv_rows@);
        let sums = self.information_sums(start);
        let word = Seq::new(
            self.n as nat,
            |i: int|
                if i < self.k {
                    start[i]
                } else if gf2::parity(inv[i - self.k], sums, self.m as nat) {
                    1u8
                } else {
                    0u8
                },
        );
        self.lemma_is_codeword(start, word);
        assert(encodes(self, info, word));
    }

    /// The codeword of the information bits.
    pub fn encode(&self, info_bits: &[u8]) -> (word: Vec<u8>)
        requires
            self.wf(),
        ensures
            encodes(self, info_bits@, word@),
    {
        let mut scratch: LdpcEncodeScratch = LdpcEncodeScratch::for_code(self);
        let _ = self.encode_with_scratch(info_bits, &mut scratch);
        scratch.out
    }

    /// Whether every parity check of a hard-decided word comes out even.
    pub fn parity_ok(&self, hard: &[u8]) -> (ok: bool)
        requires
            self.wf(),
            hard.len() == self.n,
        ensures
            ok == self.accepts(hard@),
    {
        let ghost x = bits_of(hard@);
        let ghost checks = self.checks();
        let mut r: usize = 0;
        while r < self.m
            invariant
                r <= self.m,
                self.wf(),
                hard.len() == self.n,
                x == bits_of(hard@),
                checks == self.checks(),
                forall|q: int|
                    0 <= q < r ==> !(#[trigger] gf2::sparse_parity(
                        checks[q],
                        x,
                        checks[q].len(),
                    )),
            decreases self.m - r,
        {
            let start: usize = self.row_edge_offsets[r];
            let end: usize = self.row_edge_offsets[r + 1];
            let ghost row = checks[r as int];
            proof {
                assert(start == concat(checks, r as nat).len());
                assert(end == concat(checks, (r + 1) as nat).len());
                lemma_concat_slice(checks, r as nat, self.m as nat);
            }
            let mut p: u8 = 0;
            let mut e: usize = start;
            while e < end
                invariant
                    start <= e <= end,
                    end <= self.edge_cols@.len(),
                    end == start + row.len(),
                    r < self.m,
                    self.wf(),
                    hard.len() == self.n,
                    x == bits_of(hard@),
                    checks == self.checks(),
                    row == checks[r as int],
                    row == self.edge_cols@.subrange(start as int, end as int),
                    p == if gf2::sparse_parity(row, x, (e - start) as nat) {
                        1u8
                    } else {
                        0u8
                    },
                decreases end - e,
            {
                let c: usize = self.edge_cols[self.row_edge_flat[e]];
                proof {
                    assert(c == row[e - start]);
                    self.lemma_check_column(r as int, e - start);
                    gf2::lemma_low_bit(hard@[c as int]);
                    gf2::lemma_small_bits();
                }
                p = p ^ (hard[c] & 1);
                e = e + 1;
            }
            if p != 0 {
                assert(gf2::sparse_parity(checks[r as int], x, checks[r as int].len()));
                return false;
            }
            r = r + 1;
        }
        true
    }

    proof fn lemma_check_column(&self, r: int, i: int)
        requires
            self.matrices_wf(),
            0 <= r < self.m,
            0 <= i < self.checks()[r].len(),
        ensures
            self.checks()[r][i] < self.n,
    {
        let a = self.h1_rows@[r]@;
        if i < a.len() {
            assert(self.h1_rows@[r]@[i] < self.k);
        } else {
            assert(self.h2_rows@[r]@[i - a.len()] < self.m);
        }
    }

    /// The information bits of a hard-decided word that passes every check.
    pub fn accept_hard(&self, hard: &[u8]) -> (r: Option<Vec<u8>>)
        requires
            self.wf(),
            hard.len() == self.n,
        ensures
            match r {
                Some(info) => self.accepts(hard@) && info@ == hard@.take(self.k as int),
                None => !self.accepts(hard@),
            },
    {
        if self.parity_ok(hard) {
            let info: Vec<u8> = util::copy_range(hard, 0, self.k);
            assert(info@ =~= hard@.take(self.k as int));
            Some(info)
        } else {
            None
        }
    }
}

/// Row `r` is a stretch of the rows put one after another.
proof fn lemma_concat_slice(rows: Seq<Seq<usize>>, r: nat, m: nat)
    requires
        r < m <= rows.len(),
    ensures
        concat(rows, r).len() + rows[r as int].len() == concat(rows, r + 1).len(),
        concat(rows, r + 1).len() <= concat(rows, m).len(),
        concat(rows, m).subrange(concat(rows, r).len() as int, concat(rows, r + 1).len() as int)
            == rows[r as int],
    decreases m,
{
    let all = concat(rows, m);
    if m == r + 1 {
        assert(all.subrange(concat(rows, r).len() as int, all.len() as int) =~= rows[r as int]);
    } else {
        lemma_concat_slice(rows, r, (m - 1) as nat);
        let less = concat(rows, (m - 1) as nat);
        assert(all.subrange(concat(rows, r).len() as int, concat(rows, r + 1).len() as int)
            =~= less.subrange(concat(rows, r).len() as int, concat(rows, r + 1).len() as int));
    }
}

/// A codeword that arrives unharmed gives the information bits back.
pub proof fn law_accepted_codeword_returns_information(code: &LdpcCode, info: Seq<u8>, word: Seq<u8>)
    requires
        code.wf(),
        info.len() == code.k,
        encodes(code, info, word),
    ensures
        code.accepts(word),
        word.take(code.k as int) == info,
{
    assert(word.take(code.k as int) =~= info);
}

/// The codeword of information bits.
pub open spec fn codeword_of(code: &LdpcCode, info: Seq<u8>) -> Seq<u8> {
    choose|w: Seq<u8>| encodes(code, info, w)
}

/// Information bits have one codeword.
pub proof fn law_one_codeword(code: &LdpcCode, info: Seq<u8>, word: Seq<u8>)
    requires
        code.wf(),
        encodes(code, info, word),
    ensures
        codeword_of(code, info) == word,
{
    let w = codeword_of(code, info);
    assert(encodes(code, info, w));
    assert forall|i: int| 0 <= i < code.k implies gf2::bit(#[trigger] w[i]) == gf2::bit(word[i]) by {
        assert(w[i] == word[i]);
    }
    code.law_parity_determined(w, word);
    gf2::lemma_small_bits();
    assert forall|i: int| 0 <= i < code.n implies w[i] == word[i] by {
        assert(bits_of(w)[i] == gf2::bit(w[i]));
        assert(bits_of(word)[i] == gf2::bit(word[i]));
        if i < code.k {
            assert(w[i] == word[i]);
        } else {
            assert(w[i] == 0 || w[i] == 1);
            assert(word[i] == 0 || word[i] == 1);
        }
    }
    assert(w =~= word);
}

} // verus!

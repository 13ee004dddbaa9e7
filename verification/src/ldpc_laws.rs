//! What holds of the base matrices and of the codes that are built on them.
use crate::gf2;
use crate::ldpc;
use crate::ldpc::LdpcCode;
use crate::link_profile::LinkProfile;
use crate::matrix;
use crate::qc;
use crate::qc::QcLdpcSpec;
use vstd::prelude::*;

verus! {

/// How many checks each information bit is in.
pub open spec fn information_weight(spec: QcLdpcSpec) -> nat {
    if spec.mb == 12 {
        4
    } else {
        3
    }
}

/// How many of the first `n` blocks of a block column are not zero.
pub open spec fn column_weight(table: Seq<Seq<i16>>, c: int, n: nat) -> nat
    decreases n,
{
    if n == 0 {
        0
    } else {
        column_weight(table, c, (n - 1) as nat) + if table[n - 1][c] >= 0 {
            1nat
        } else {
            0nat
        }
    }
}

/// The shift that a block in block row `r` and block column `c` of the information part has: four
/// more from row to row, and as many again each time the rows have gone round the weight; 24 more
/// from column to column, and every third time eleven beyond that.
pub open spec fn shift_at(r: int, c: int, weight: int) -> int {
    (4 * r + 24 * c + 11 * (c / 3) + 4 * ((r + c % 3) / weight)) % 32
}

proof fn lemma_entries_5_6(r: int, c: int)
    requires
        0 <= r < 4,
        0 <= c < 20,
    ensures
        qc::h1_rate_5_6()[r][c] == qc::NIL || qc::h1_rate_5_6()[r][c] == shift_at(r, c, 3),
{
    assert(r == 0 || r == 1 || r == 2 || r == 3);
    assert(c == 0 || c == 1 || c == 2 || c == 3 || c == 4 || c == 5 || c == 6 || c == 7 || c == 8
        || c == 9 || c == 10 || c == 11 || c == 12 || c == 13 || c == 14 || c == 15 || c == 16
        || c == 17 || c == 18 || c == 19);
}

proof fn lemma_weight_5_6(c: int)
    requires
        0 <= c < 20,
    ensures
        column_weight(qc::h1_rate_5_6(), c, 4) == 3,
{
    reveal_with_fuel(column_weight, 5);
    assert(c == 0 || c == 1 || c == 2 || c == 3 || c == 4 || c == 5 || c == 6 || c == 7 || c == 8
        || c == 9 || c == 10 || c == 11 || c == 12 || c == 13 || c == 14 || c == 15 || c == 16
        || c == 17 || c == 18 || c == 19);
}

proof fn lemma_entries_2_3(r: int, c: int)
    requires
        0 <= r < 8,
        0 <= c < 16,
    ensures
        qc::h1_rate_2_3()[r][c] == qc::NIL || qc::h1_rate_2_3()[r][c] == shift_at(r, c, 3),
{
    assert(r == 0 || r == 1 || r == 2 || r == 3 || r == 4 || r == 5 || r == 6 || r == 7);
    assert(c == 0 || c == 1 || c == 2 || c == 3 || c == 4 || c == 5 || c == 6 || c == 7 || c == 8
        || c == 9 || c == 10 || c == 11 || c == 12 || c == 13 || c == 14 || c == 15);
}

proof fn lemma_weight_2_3(c: int)
    requires
        0 <= c < 16,
    ensures
        column_weight(qc::h1_rate_2_3(), c, 8) == 3,
{
    reveal_with_fuel(column_weight, 9);
    assert(c == 0 || c == 1 || c == 2 || c == 3 || c == 4 || c == 5 || c == 6 || c == 7 || c == 8
        || c == 9 || c == 10 || c == 11 || c == 12 || c == 13 || c == 14 || c == 15);
}

proof fn lemma_entries_1_2(r: int, c: int)
    requires
        0 <= r < 12,
        0 <= c < 12,
    ensures
        qc::h1_rate_1_2()[r][c] == qc::NIL || qc::h1_rate_1_2()[r][c] == shift_at(r, c, 4),
{
    assert(r == 0 || r == 1 || r == 2 || r == 3 || r == 4 || r == 5 || r == 6 || r == 7 || r == 8
        || r == 9 || r == 10 || r == 11);
    assert(c == 0 || c == 1 || c == 2 || c == 3 || c == 4 || c == 5 || c == 6 || c == 7 || c == 8
        || c == 9 || c == 10 || c == 11);
}

proof fn lemma_weight_1_2(c: int)
    requires
        0 <= c < 12,
    ensures
        column_weight(qc::h1_rate_1_2(), c, 12) == 4,
{
    reveal_with_fuel(column_weight, 13);
    assert(c == 0 || c == 1 || c == 2 || c == 3 || c == 4 || c == 5 || c == 6 || c == 7 || c == 8
        || c == 9 || c == 10 || c == 11);
}

proof fn lemma_parity_entries_4(i: int, j: int)
    requires
        0 <= i < 4,
        0 <= j < 4,
    ensures
        qc::h2_of_4()[i][j] == if i == j {
            0
        } else if j == (i + 3) % 4 {
            (3 * i + 1) % 32
        } else {
            -1
        },
{
    assert(i == 0 || i == 1 || i == 2 || i == 3);
    assert(j == 0 || j == 1 || j == 2 || j == 3);
}

proof fn lemma_parity_entries_8(i: int, j: int)
    requires
        0 <= i < 8,
        0 <= j < 8,
    ensures
        qc::h2_of_8()[i][j] == if i == j {
            0
        } else if j == (i + 7) % 8 {
            (3 * i + 1) % 32
        } else {
            -1
        },
{
    assert(i == 0 || i == 1 || i == 2 || i == 3 || i == 4 || i == 5 || i == 6 || i == 7);
    assert(j == 0 || j == 1 || j == 2 || j == 3 || j == 4 || j == 5 || j == 6 || j == 7);
}

proof fn lemma_parity_entries_12(i: int, j: int)
    requires
        0 <= i < 12,
        0 <= j < 12,
    ensures
        qc::h2_of_12()[i][j] == if i == j {
            0
        } else if j == (i + 11) % 12 {
            (3 * i + 1) % 32
        } else {
            -1
        },
{
    assert(i == 0 || i == 1 || i == 2 || i == 3 || i == 4 || i == 5 || i == 6 || i == 7 || i == 8
        || i == 9 || i == 10 || i == 11);
    assert(j == 0 || j == 1 || j == 2 || j == 3 || j == 4 || j == 5 || j == 6 || j == 7 || j == 8
        || j == 9 || j == 10 || j == 11);
}

/// In every table each block column of the information part has as many blocks that are not zero
/// as the weight says, and their shifts follow one rule.
pub proof fn law_information_blocks(spec: QcLdpcSpec, r: int, c: int)
    requires
        qc::is_tabled(spec),
        0 <= r < spec.mb,
        0 <= c < spec.kb,
    ensures
        column_weight(qc::h1_table(spec), c, spec.mb as nat) == information_weight(spec),
        qc::h1_table(spec)[r][c] == qc::NIL || qc::h1_table(spec)[r][c] == shift_at(
            r,
            c,
            information_weight(spec) as int,
        ),
{
    if spec.mb == 4 {
        lemma_entries_5_6(r, c);
        lemma_weight_5_6(c);
    } else if spec.mb == 8 {
        lemma_entries_2_3(r, c);
        lemma_weight_2_3(c);
    } else {
        lemma_entries_1_2(r, c);
        lemma_weight_1_2(c);
    }
}

/// In every table the parity part has two blocks in each block row: the identity on the diagonal,
/// and left of it, round the edge, one whose shift is three more than that of the row above.
pub proof fn law_parity_blocks(spec: QcLdpcSpec, i: int, j: int)
    requires
        qc::is_tabled(spec),
        0 <= i < spec.mb,
        0 <= j < spec.mb,
    ensures
        qc::h2_table(spec)[i][j] == if i == j {
            0
        } else if j == (i + spec.mb - 1) % (spec.mb as int) {
            (3 * i + 1) % 32
        } else {
            -1
        },
{
    if spec.mb == 4 {
        lemma_parity_entries_4(i, j);
    } else if spec.mb == 8 {
        lemma_parity_entries_8(i, j);
    } else {
        lemma_parity_entries_12(i, j);
    }
}

/// A block column with blocks that are not zero has one.
proof fn lemma_weighty(table: Seq<Seq<i16>>, c: int, n: nat) -> (r: int)
    requires
        column_weight(table, c, n) > 0,
    ensures
        0 <= r < n,
        table[r][c] >= 0,
    decreases n,
{
    if table[n - 1][c] >= 0 {
        n - 1
    } else {
        lemma_weighty(table, c, (n - 1) as nat)
    }
}

/// A block that is not zero puts its column into the row that its shift leads there.
proof fn lemma_in_row(row: Seq<i16>, zr: nat, n: nat, cb: nat) -> (i: int)
    requires
        cb < n,
        row[cb as int] >= 0,
        n * 32 <= usize::MAX,
    ensures
        0 <= i < qc::expanded_row(row, 32, zr, n).len(),
        qc::expanded_row(row, 32, zr, n)[i] == cb * 32 + (zr + row[cb as int] as nat % 32) % 32,
    decreases n,
{
    if cb == n - 1 {
        qc::expanded_row(row, 32, zr, cb).len() as int
    } else {
        lemma_in_row(row, zr, (n - 1) as nat, cb)
    }
}

/// Turning a bit over turns over the parity of a list that names it once, and of no other.
proof fn lemma_turned(row: Seq<usize>, x: Seq<bool>, y: Seq<bool>, c: int, n: nat)
    requires
        n <= row.len(),
        qc::is_ascending(row),
        forall|i: int|
            0 <= i < n ==> y[(#[trigger] row[i]) as int] == (x[row[i] as int] != (row[i] == c)),
    ensures
        gf2::sparse_parity(row, y, n) == (gf2::sparse_parity(row, x, n) != exists|i: int|
            0 <= i < n && #[trigger] row[i] == c),
    decreases n,
{
    if n > 0 {
        lemma_turned(row, x, y, c, (n - 1) as nat);
        assert(y[row[n - 1] as int] == (x[row[n - 1] as int] != (row[n - 1] == c)));
        if exists|i: int| 0 <= i < n - 1 && #[trigger] row[i] == c {
            let i = choose|i: int| 0 <= i < n - 1 && #[trigger] row[i] == c;
            assert(row[i] < row[n - 1]);
        }
    }
}

/// Two words of one length that differ in bit `c` and in no other.
pub open spec fn differ_in_one_bit(a: Seq<u8>, b: Seq<u8>, c: int) -> bool {
    &&& a.len() == b.len()
    &&& 0 <= c < a.len()
    &&& forall|i: int|
        0 <= i < a.len() ==> gf2::bit(#[trigger] b[i]) == (gf2::bit(a[i]) != (i == c))
}

/// The code of a profile notices any bit that is turned over in an accepted word: the word is then
/// not accepted. Bits that fill no whole block are left out, being in no check.
pub proof fn law_turned_bit_is_noticed(
    p: &LinkProfile,
    code: LdpcCode,
    a: Seq<u8>,
    b: Seq<u8>,
    c: int,
)
    requires
        ldpc::is_supported(p),
        code.wf(),
        code.n == p.ldpc_n,
        code.k == p.ldpc_k,
        matrix::rows_of(code.h1_rows@) == ldpc::h1_rows_for(p),
        a.len() == code.n,
        differ_in_one_bit(a, b, c),
        c < p.ldpc_k / 32 * 32 || c >= p.ldpc_k,
        code.accepts(a),
    ensures
        !code.accepts(b),
{
    if code.accepts(b) {
        if c >= code.k {
            assert forall|i: int| 0 <= i < code.k implies gf2::bit(#[trigger] a[i]) == gf2::bit(
                b[i],
            ) by {}
            code.law_parity_determined(a, b);
            assert(ldpc::bits_of(a)[c] == ldpc::bits_of(b)[c]);
        } else {
            let r = lemma_check_of(p, code, c);
            lemma_turned_in_check(p, code, a, b, c, r);
            assert(!gf2::sparse_parity(code.checks()[r], ldpc::bits_of(a), code.checks()[r].len()));
            assert(!gf2::sparse_parity(code.checks()[r], ldpc::bits_of(b), code.checks()[r].len()));
        }
    }
}

proof fn lemma_table_size(spec: QcLdpcSpec)
    requires
        qc::is_tabled(spec),
    ensures
        qc::h1_table(spec).len() == spec.mb,
        qc::base_cols(qc::h1_table(spec)) == spec.kb,
{
}

/// Where block row `rb` has a block that is not zero, one of its rows has column `c` of the block.
proof fn lemma_column_in_expanded(base: Seq<Seq<i16>>, rb: int, c: int) -> (at: (int, int))
    requires
        0 <= rb < base.len(),
        0 <= c < qc::base_cols(base) * 32 <= usize::MAX,
        base[rb][c / 32] >= 0,
    ensures
        rb * 32 <= at.0 < rb * 32 + 32,
        0 <= at.1 < qc::expanded(base, 32)[at.0].len(),
        qc::expanded(base, 32)[at.0][at.1] == c,
{
    let cb = c / 32;
    let s = base[rb][cb] as int % 32;
    let zr = (c % 32 - s) % 32;
    let r = rb * 32 + zr;
    assert(r / 32 == rb && r % 32 == zr);
    assert((zr + s) % 32 == c % 32);
    let i = lemma_in_row(base[rb], zr as nat, qc::base_cols(base), cb as nat);
    assert(qc::expanded(base, 32)[r] == qc::expanded_row(
        base[rb],
        32,
        zr as nat,
        qc::base_cols(base),
    ));
    (r, i)
}

/// A check that an information bit is in.
proof fn lemma_check_of(p: &LinkProfile, code: LdpcCode, c: int) -> (r: int)
    requires
        ldpc::is_supported(p),
        code.wf(),
        code.n == p.ldpc_n,
        code.k == p.ldpc_k,
        matrix::rows_of(code.h1_rows@) == ldpc::h1_rows_for(p),
        0 <= c < p.ldpc_k / 32 * 32,
    ensures
        0 <= r < code.m,
        exists|i: int| 0 <= i < code.h1_rows@[r]@.len() && #[trigger] code.h1_rows@[r]@[i] == c,
{
    let spec = ldpc::blocks_of(p);
    lemma_table_size(spec);
    law_information_blocks(spec, 0, c / 32);
    lemma_check_in(qc::h1_table(spec), code, c, spec.mb as int)
}

proof fn lemma_check_in(table: Seq<Seq<i16>>, code: LdpcCode, c: int, mb: int) -> (r: int)
    requires
        matrix::rows_of(code.h1_rows@) == qc::expanded(table, 32),
        table.len() == mb,
        mb * 32 == code.m,
        0 <= c < qc::base_cols(table) * 32 <= usize::MAX,
        column_weight(table, c / 32, table.len()) > 0,
    ensures
        0 <= r < code.m,
        exists|i: int| 0 <= i < code.h1_rows@[r]@.len() && #[trigger] code.h1_rows@[r]@[i] == c,
{
    let rb = lemma_weighty(table, c / 32, table.len());
    let (r, i) = lemma_column_in_expanded(table, rb, c);
    assert(matrix::rows_of(code.h1_rows@).len() == table.len() * 32);
    assert(matrix::rows_of(code.h1_rows@)[r] == code.h1_rows@[r]@);
    assert(code.h1_rows@[r]@[i] == c);
    r
}

/// Turning over an information bit turns over each check that it is in.
proof fn lemma_turned_in_check(
    p: &LinkProfile,
    code: LdpcCode,
    a: Seq<u8>,
    b: Seq<u8>,
    c: int,
    r: int,
)
    requires
        ldpc::is_supported(p),
        code.wf(),
        code.n == p.ldpc_n,
        code.k == p.ldpc_k,
        matrix::rows_of(code.h1_rows@) == ldpc::h1_rows_for(p),
        a.len() == code.n,
        differ_in_one_bit(a, b, c),
        c < code.k,
        0 <= r < code.m,
        exists|i: int| 0 <= i < code.h1_rows@[r]@.len() && #[trigger] code.h1_rows@[r]@[i] == c,
    ensures
        gf2::sparse_parity(code.checks()[r], ldpc::bits_of(b), code.checks()[r].len())
            != gf2::sparse_parity(code.checks()[r], ldpc::bits_of(a), code.checks()[r].len()),
{
    let (x, y) = (ldpc::bits_of(a), ldpc::bits_of(b));
    let h1 = code.h1_rows@[r]@;
    let h2 = code.h2_rows@[r]@;
    let up = ldpc::shifted(h2, code.k as int);
    let spec = ldpc::blocks_of(p);
    let table = qc::h1_table(spec);
    assert(matrix::rows_of(code.h1_rows@)[r] == h1);
    assert(matrix::rows_of(code.h2_rows@)[r] == h2);
    assert(code.checks()[r] == h1 + up);
    assert(table.len() == spec.mb && qc::base_cols(table) == spec.kb);
    qc::lemma_expanded_row(table[r / 32], 32, (r % 32) as nat, spec.kb as nat);
    assert(qc::is_ascending(h1));
    assert forall|i: int| 0 <= i < h1.len() implies y[(#[trigger] h1[i]) as int] == (x[h1[i] as int]
        != (h1[i] == c)) by {
        assert(h1[i] < code.k);
        assert(gf2::bit(b[h1[i] as int]) == (gf2::bit(a[h1[i] as int]) != (h1[i] == c)));
    }
    lemma_turned(h1, x, y, c, h1.len());
    assert forall|i: int| 0 <= i < up.len() implies y[(#[trigger] up[i]) as int] == x[up[i] as int] by {
        assert(h2[i] < code.m);
        assert(up[i] == h2[i] + code.k);
        assert(gf2::bit(b[up[i] as int]) == (gf2::bit(a[up[i] as int]) != (up[i] == c)));
    }
    ldpc::lemma_sparse_agree(up, y, up, x, up.len());
    ldpc::lemma_sparse_concat(h1, up, x, up.len());
    ldpc::lemma_sparse_concat(h1, up, y, up.len());
}

/// The parity part of a code is that of the table where that can be inverted, and else that of the
/// table with the first shift from two on in its upper right corner with which it can.
pub proof fn law_first_regular_parity_part(p: &LinkProfile, base: Seq<Seq<i16>>, sh: int)
    requires
        ldpc::is_supported(p),
        2 <= sh < 32,
        base.len() == qc::h2_table(ldpc::blocks_of(p)).len(),
        forall|r: int, c: int|
            #![trigger base[r][c]]
            0 <= r < base.len() && 0 <= c < base.len() ==> base[r][c] == if r == 0 && c
                == base.len() - 1 {
                sh
            } else {
                qc::h2_table(ldpc::blocks_of(p))[r][c] as int
            },
        forall|r: int| 0 <= r < base.len() ==> (#[trigger] base[r]).len() == base.len(),
        !gf2::is_singular(gf2::dense_of(qc::expanded(base, 32), p.parity_bits() as nat)),
        forall|s: int|
            2 <= s < sh ==> gf2::is_singular(
                gf2::dense_of(
                    qc::expanded(
                        #[trigger] ldpc::with_wrap_shift(qc::h2_table(ldpc::blocks_of(p)), s),
                        32,
                    ),
                    p.parity_bits() as nat,
                ),
            ),
    ensures
        ({
            let plain = qc::expanded(qc::h2_table(ldpc::blocks_of(p)), 32);
            ldpc::h2_rows_for(p) == if gf2::is_singular(
                gf2::dense_of(plain, p.parity_bits() as nat),
            ) {
                qc::expanded(base, 32)
            } else {
                plain
            }
        }),
{
    let table = qc::h2_table(ldpc::blocks_of(p));
    let made = ldpc::with_wrap_shift(table, sh);
    lemma_parity_table_size(ldpc::blocks_of(p));
    let n = table.len() as int;
    assert(base =~= made) by {
        assert forall|r: int| 0 <= r < n implies base[r] == made[r] by {
            assert(base[r].len() == n);
            assert(table[r].len() == n);
            assert(base[r] =~= made[r]) by {
                assert forall|c: int| 0 <= c < n implies base[r][c] == made[r][c] by {}
            }
        }
    }
    lemma_from_shift(p, 2, sh);
}

proof fn lemma_parity_table_size(spec: QcLdpcSpec)
    requires
        qc::is_tabled(spec),
    ensures
        qc::h2_table(spec).len() == spec.mb,
        spec.mb > 0,
        forall|r: int| 0 <= r < spec.mb ==> (#[trigger] qc::h2_table(spec)[r]).len() == spec.mb,
{
    let t = qc::h2_table(spec);
    assert forall|r: int| 0 <= r < spec.mb implies (#[trigger] t[r]).len() == spec.mb by {
        assert(r == 0 || r == 1 || r == 2 || r == 3 || r == 4 || r == 5 || r == 6 || r == 7 || r
            == 8 || r == 9 || r == 10 || r == 11);
    }
}

proof fn lemma_from_shift(p: &LinkProfile, from: int, sh: int)
    requires
        2 <= from <= sh < 32,
        !gf2::is_singular(
            gf2::dense_of(
                qc::expanded(ldpc::with_wrap_shift(qc::h2_table(ldpc::blocks_of(p)), sh), 32),
                p.parity_bits() as nat,
            ),
        ),
        forall|s: int|
            from <= s < sh ==> gf2::is_singular(
                gf2::dense_of(
                    qc::expanded(
                        #[trigger] ldpc::with_wrap_shift(qc::h2_table(ldpc::blocks_of(p)), s),
                        32,
                    ),
                    p.parity_bits() as nat,
                ),
            ),
    ensures
        ldpc::h2_from_shift(p, from) == qc::expanded(
            ldpc::with_wrap_shift(qc::h2_table(ldpc::blocks_of(p)), sh),
            32,
        ),
    decreases sh - from,
{
    if from < sh {
        let w = ldpc::with_wrap_shift(qc::h2_table(ldpc::blocks_of(p)), from);
        assert(gf2::is_singular(gf2::dense_of(qc::expanded(w, 32), p.parity_bits() as nat)));
        lemma_from_shift(p, from + 1, sh);
    }
}

} // verus!

//! The base matrices of the quasi-cyclic code and their expansion into sparse rows.
use crate::matrix;
use vstd::prelude::*;

verus! {

/// The block structure of a code: `z` rows to a block, `kb` information and `mb` parity blocks.
#[derive(Clone, Copy, Debug)]
pub struct QcLdpcSpec {
    pub z: usize,
    pub kb: usize,
    pub mb: usize,
}

/// The sizes for which there are base matrices.
pub open spec fn is_tabled(spec: QcLdpcSpec) -> bool {
    spec.z == 32 && ((spec.kb == 20 && spec.mb == 4) || (spec.kb == 16 && spec.mb == 8) || (spec.kb
        == 12 && spec.mb == 12))
}

/// The entry of a zero block.
pub const NIL: i16 = -1;

/// The information part at rate 5/6.
pub open spec fn h1_rate_5_6() -> Seq<Seq<i16>> {
    seq![
        seq![0i16, 24, 16, 19, 11, 3, 6, 30, 22, 25, 17, 9, 12, 4, 28, 31, 23, 15, 18, 10],
        seq![4i16, 28, NIL, 23, 15, NIL, 10, 2, NIL, 29, 21, NIL, 16, 8, NIL, 3, 27, NIL, 22, 14],
        seq![8i16, NIL, 28, 27, NIL, 15, 14, NIL, 2, 1, NIL, 21, 20, NIL, 8, 7, NIL, 27, 26, NIL],
        seq![NIL, 8, 0, NIL, 27, 19, NIL, 14, 6, NIL, 1, 25, NIL, 20, 12, NIL, 7, 31, NIL, 26],
    ]
}

/// The parity part with 4 blocks.
pub open spec fn h2_of_4() -> Seq<Seq<i16>> {
    seq![
        seq![0i16, NIL, NIL, 1],
        seq![4i16, 0, NIL, NIL],
        seq![NIL, 7, 0, NIL],
        seq![NIL, NIL, 10, 0],
    ]
}

/// The information part at rate 2/3.
pub open spec fn h1_rate_2_3() -> Seq<Seq<i16>> {
    seq![
        seq![0i16, NIL, 16, 19, NIL, 3, 6, NIL, 22, 25, NIL, 9, 12, NIL, 28, 31],
        seq![NIL, 28, NIL, NIL, 15, NIL, NIL, 2, NIL, NIL, 21, NIL, NIL, 8, NIL, NIL],
        seq![8i16, NIL, NIL, 27, NIL, NIL, 14, NIL, NIL, 1, NIL, NIL, 20, NIL, NIL, 7],
        seq![NIL, NIL, 0, NIL, NIL, 19, NIL, NIL, 6, NIL, NIL, 25, NIL, NIL, 12, NIL],
        seq![NIL, 12, NIL, NIL, 31, NIL, NIL, 18, NIL, NIL, 5, NIL, NIL, 24, NIL, NIL],
        seq![24i16, NIL, NIL, 11, NIL, NIL, 30, NIL, NIL, 17, NIL, NIL, 4, NIL, NIL, 23],
        seq![NIL, NIL, 16, NIL, NIL, 3, NIL, NIL, 22, NIL, NIL, 9, NIL, NIL, 28, NIL],
        seq![NIL, 28, NIL, NIL, 15, NIL, NIL, 2, NIL, NIL, 21, NIL, NIL, 8, NIL, NIL],
    ]
}

/// The parity part with 8 blocks.
pub open spec fn h2_of_8() -> Seq<Seq<i16>> {
    seq![
        seq![0i16, NIL, NIL, NIL, NIL, NIL, NIL, 1],
        seq![4i16, 0, NIL, NIL, NIL, NIL, NIL, NIL],
        seq![NIL, 7, 0, NIL, NIL, NIL, NIL, NIL],
        seq![NIL, NIL, 10, 0, NIL, NIL, NIL, NIL],
        seq![NIL, NIL, NIL, 13, 0, NIL, NIL, NIL],
        seq![NIL, NIL, NIL, NIL, 16, 0, NIL, NIL],
        seq![NIL, NIL, NIL, NIL, NIL, 19, 0, NIL],
        seq![NIL, NIL, NIL, NIL, NIL, NIL, 22, 0],
    ]
}

/// The information part at rate 1/2.
pub open spec fn h1_rate_1_2() -> Seq<Seq<i16>> {
    seq![
        seq![0i16, 24, 16, NIL, NIL, NIL, NIL, NIL, NIL, 25, 17, 9],
        seq![NIL, NIL, NIL, 23, 15, 7, NIL, NIL, NIL, NIL, NIL, NIL],
        seq![NIL, NIL, 28, NIL, NIL, NIL, 14, 6, NIL, NIL, NIL, 21],
        seq![12i16, NIL, NIL, NIL, 27, 19, NIL, NIL, NIL, 5, NIL, NIL],
        seq![NIL, NIL, NIL, NIL, NIL, NIL, 26, 18, 10, NIL, NIL, NIL],
        seq![24i16, 16, 8, NIL, NIL, NIL, NIL, NIL, NIL, 17, 9, 1],
        seq![NIL, NIL, NIL, 15, 7, NIL, NIL, NIL, 22, NIL, NIL, NIL],
        seq![NIL, 28, 20, NIL, NIL, NIL, 6, NIL, NIL, NIL, 21, 13],
        seq![NIL, NIL, NIL, 27, 19, 11, NIL, NIL, NIL, NIL, NIL, NIL],
        seq![NIL, NIL, NIL, NIL, NIL, NIL, 18, 10, 2, NIL, NIL, NIL],
        seq![16i16, 8, NIL, NIL, NIL, 23, NIL, NIL, NIL, 9, 1, NIL],
        seq![NIL, NIL, NIL, 7, NIL, NIL, NIL, 22, 14, NIL, NIL, NIL],
    ]
}

/// The parity part with 12 blocks.
pub open spec fn h2_of_12() -> Seq<Seq<i16>> {
    seq![
        seq![0i16, NIL, NIL, NIL, NIL, NIL, NIL, NIL, NIL, NIL, NIL, 1],
        seq![4i16, 0, NIL, NIL, NIL, NIL, NIL, NIL, NIL, NIL, NIL, NIL],
        seq![NIL, 7, 0, NIL, NIL, NIL, NIL, NIL, NIL, NIL, NIL, NIL],
        seq![NIL, NIL, 10, 0, NIL, NIL, NIL, NIL, NIL, NIL, NIL, NIL],
        seq![NIL, NIL, NIL, 13, 0, NIL, NIL, NIL, NIL, NIL, NIL, NIL],
        seq![NIL, NIL, NIL, NIL, 16, 0, NIL, NIL, NIL, NIL, NIL, NIL],
        seq![NIL, NIL, NIL, NIL, NIL, 19, 0, NIL, NIL, NIL, NIL, NIL],
        seq![NIL, NIL, NIL, NIL, NIL, NIL, 22, 0, NIL, NIL, NIL, NIL],
        seq![NIL, NIL, NIL, NIL, NIL, NIL, NIL, 25, 0, NIL, NIL, NIL],
        seq![NIL, NIL, NIL, NIL, NIL, NIL, NIL, NIL, 28, 0, NIL, NIL],
        seq![NIL, NIL, NIL, NIL, NIL, NIL, NIL, NIL, NIL, 31, 0, NIL],
        seq![NIL, NIL, NIL, NIL, NIL, NIL, NIL, NIL, NIL, NIL, 2, 0],
    ]
}

pub open spec fn h1_table(spec: QcLdpcSpec) -> Seq<Seq<i16>> {
    if spec.mb == 4 {
        h1_rate_5_6()
    } else if spec.mb == 8 {
        h1_rate_2_3()
    } else {
        h1_rate_1_2()
    }
}

pub open spec fn h2_table(spec: QcLdpcSpec) -> Seq<Seq<i16>> {
    if spec.mb == 4 {
        h2_of_4()
    } else if spec.mb == 8 {
        h2_of_8()
    } else {
        h2_of_12()
    }
}

fn make_h1_rate_5_6() -> (t: Vec<Vec<i16>>)
    ensures
        matrix::rows_of(t@) == h1_rate_5_6(),
{
    let mut t: Vec<Vec<i16>> = Vec::with_capacity(4);
    t.push(vec![0, 24, 16, 19, 11, 3, 6, 30, 22, 25, 17, 9, 12, 4, 28, 31, 23, 15, 18, 10]);
    t.push(vec![4, 28, NIL, 23, 15, NIL, 10, 2, NIL, 29, 21, NIL, 16, 8, NIL, 3, 27, NIL, 22, 14]);
    t.push(vec![8, NIL, 28, 27, NIL, 15, 14, NIL, 2, 1, NIL, 21, 20, NIL, 8, 7, NIL, 27, 26, NIL]);
    t.push(vec![NIL, 8, 0, NIL, 27, 19, NIL, 14, 6, NIL, 1, 25, NIL, 20, 12, NIL, 7, 31, NIL, 26]);
    let ghost want = h1_rate_5_6();
    assert(t@[0]@ =~= want[0]);
    assert(t@[1]@ =~= want[1]);
    assert(t@[2]@ =~= want[2]);
    assert(t@[3]@ =~= want[3]);
    assert(matrix::rows_of(t@) =~= want);
    t
}

fn make_h2_of_4() -> (t: Vec<Vec<i16>>)
    ensures
        matrix::rows_of(t@) == h2_of_4(),
{
    let mut t: Vec<Vec<i16>> = Vec::with_capacity(4);
    t.push(vec![0, NIL, NIL, 1]);
    t.push(vec![4, 0, NIL, NIL]);
    t.push(vec![NIL, 7, 0, NIL]);
    t.push(vec![NIL, NIL, 10, 0]);
    let ghost want = h2_of_4();
    assert(t@[0]@ =~= want[0]);
    assert(t@[1]@ =~= want[1]);
    assert(t@[2]@ =~= want[2]);
    assert(t@[3]@ =~= want[3]);
    assert(matrix::rows_of(t@) =~= want);
    t
}

fn make_h1_rate_2_3() -> (t: Vec<Vec<i16>>)
    ensures
        matrix::rows_of(t@) == h1_rate_2_3(),
{
    let mut t: Vec<Vec<i16>> = Vec::with_capacity(8);
    t.push(vec![0, NIL, 16, 19, NIL, 3, 6, NIL, 22, 25, NIL, 9, 12, NIL, 28, 31]);
    t.push(vec![NIL, 28, NIL, NIL, 15, NIL, NIL, 2, NIL, NIL, 21, NIL, NIL, 8, NIL, NIL]);
    t.push(vec![8, NIL, NIL, 27, NIL, NIL, 14, NIL, NIL, 1, NIL, NIL, 20, NIL, NIL, 7]);
    t.push(vec![NIL, NIL, 0, NIL, NIL, 19, NIL, NIL, 6, NIL, NIL, 25, NIL, NIL, 12, NIL]);
    t.push(vec![NIL, 12, NIL, NIL, 31, NIL, NIL, 18, NIL, NIL, 5, NIL, NIL, 24, NIL, NIL]);
    t.push(vec![24, NIL, NIL, 11, NIL, NIL, 30, NIL, NIL, 17, NIL, NIL, 4, NIL, NIL, 23]);
    t.push(vec![NIL, NIL, 16, NIL, NIL, 3, NIL, NIL, 22, NIL, NIL, 9, NIL, NIL, 28, NIL]);
    t.push(vec![NIL, 28, NIL, NIL, 15, NIL, NIL, 2, NIL, NIL, 21, NIL, NIL, 8, NIL, NIL]);
    let ghost want = h1_rate_2_3();
    assert(t@[0]@ =~= want[0]);
    assert(t@[1]@ =~= want[1]);
    assert(t@[2]@ =~= want[2]);
    assert(t@[3]@ =~= want[3]);
    assert(t@[4]@ =~= want[4]);
    assert(t@[5]@ =~= want[5]);
    assert(t@[6]@ =~= want[6]);
    assert(t@[7]@ =~= want[7]);
    assert(matrix::rows_of(t@) =~= want);
    t
}

fn make_h2_of_8() -> (t: Vec<Vec<i16>>)
    ensures
        matrix::rows_of(t@) == h2_of_8(),
{
    let mut t: Vec<Vec<i16>> = Vec::with_capacity(8);
    t.push(vec![0, NIL, NIL, NIL, NIL, NIL, NIL, 1]);
    t.push(vec![4, 0, NIL, NIL, NIL, NIL, NIL, NIL]);
    t.push(vec![NIL, 7, 0, NIL, NIL, NIL, NIL, NIL]);
    t.push(vec![NIL, NIL, 10, 0, NIL, NIL, NIL, NIL]);
    t.push(vec![NIL, NIL, NIL, 13, 0, NIL, NIL, NIL]);
    t.push(vec![NIL, NIL, NIL, NIL, 16, 0, NIL, NIL]);
    t.push(vec![NIL, NIL, NIL, NIL, NIL, 19, 0, NIL]);
    t.push(vec![NIL, NIL, NIL, NIL, NIL, NIL, 22, 0]);
    let ghost want = h2_of_8();
    assert(t@[0]@ =~= want[0]);
    assert(t@[1]@ =~= want[1]);
    assert(t@[2]@ =~= want[2]);
    assert(t@[3]@ =~= want[3]);
    assert(t@[4]@ =~= want[4]);
    assert(t@[5]@ =~= want[5]);
    assert(t@[6]@ =~= want[6]);
    assert(t@[7]@ =~= want[7]);
    assert(matrix::rows_of(t@) =~= want);
    t
}

fn make_h1_rate_1_2() -> (t: Vec<Vec<i16>>)
    ensures
        matrix::rows_of(t@) == h1_rate_1_2(),
{
    let mut t: Vec<Vec<i16>> = Vec::with_capacity(12);
    t.push(vec![0, 24, 16, NIL, NIL, NIL, NIL, NIL, NIL, 25, 17, 9]);
    t.push(vec![NIL, NIL, NIL, 23, 15, 7, NIL, NIL, NIL, NIL, NIL, NIL]);
    t.push(vec![NIL, NIL, 28, NIL, NIL, NIL, 14, 6, NIL, NIL, NIL, 21]);
    t.push(vec![12, NIL, NIL, NIL, 27, 19, NIL, NIL, NIL, 5, NIL, NIL]);
    t.push(vec![NIL, NIL, NIL, NIL, NIL, NIL, 26, 18, 10, NIL, NIL, NIL]);
    t.push(vec![24, 16, 8, NIL, NIL, NIL, NIL, NIL, NIL, 17, 9, 1]);
    t.push(vec![NIL, NIL, NIL, 15, 7, NIL, NIL, NIL, 22, NIL, NIL, NIL]);
    t.push(vec![NIL, 28, 20, NIL, NIL, NIL, 6, NIL, NIL, NIL, 21, 13]);
    t.push(vec![NIL, NIL, NIL, 27, 19, 11, NIL, NIL, NIL, NIL, NIL, NIL]);
    t.push(vec![NIL, NIL, NIL, NIL, NIL, NIL, 18, 10, 2, NIL, NIL, NIL]);
    t.push(vec![16, 8, NIL, NIL, NIL, 23, NIL, NIL, NIL, 9, 1, NIL]);
    t.push(vec![NIL, NIL, NIL, 7, NIL, NIL, NIL, 22, 14, NIL, NIL, NIL]);
    let ghost want = h1_rate_1_2();
    assert(t@[0]@ =~= want[0]);
    assert(t@[1]@ =~= want[1]);
    assert(t@[2]@ =~= want[2]);
    assert(t@[3]@ =~= want[3]);
    assert(t@[4]@ =~= want[4]);
    assert(t@[5]@ =~= want[5]);
    assert(t@[6]@ =~= want[6]);
    assert(t@[7]@ =~= want[7]);
    assert(t@[8]@ =~= want[8]);
    assert(t@[9]@ =~= want[9]);
    assert(t@[10]@ =~= want[10]);
    assert(t@[11]@ =~= want[11]);
    assert(matrix::rows_of(t@) =~= want);
    t
}

fn make_h2_of_12() -> (t: Vec<Vec<i16>>)
    ensures
        matrix::rows_of(t@) == h2_of_12(),
{
    let mut t: Vec<Vec<i16>> = Vec::with_capacity(12);
    t.push(vec![0, NIL, NIL, NIL, NIL, NIL, NIL, NIL, NIL, NIL, NIL, 1]);
    t.push(vec![4, 0, NIL, NIL, NIL, NIL, NIL, NIL, NIL, NIL, NIL, NIL]);
    t.push(vec![NIL, 7, 0, NIL, NIL, NIL, NIL, NIL, NIL, NIL, NIL, NIL]);
    t.push(vec![NIL, NIL, 10, 0, NIL, NIL, NIL, NIL, NIL, NIL, NIL, NIL]);
    t.push(vec![NIL, NIL, NIL, 13, 0, NIL, NIL, NIL, NIL, NIL, NIL, NIL]);
    t.push(vec![NIL, NIL, NIL, NIL, 16, 0, NIL, NIL, NIL, NIL, NIL, NIL]);
    t.push(vec![NIL, NIL, NIL, NIL, NIL, 19, 0, NIL, NIL, NIL, NIL, NIL]);
    t.push(vec![NIL, NIL, NIL, NIL, NIL, NIL, 22, 0, NIL, NIL, NIL, NIL]);
    t.push(vec![NIL, NIL, NIL, NIL, NIL, NIL, NIL, 25, 0, NIL, NIL, NIL]);
    t.push(vec![NIL, NIL, NIL, NIL, NIL, NIL, NIL, NIL, 28, 0, NIL, NIL]);
    t.push(vec![NIL, NIL, NIL, NIL, NIL, NIL, NIL, NIL, NIL, 31, 0, NIL]);
    t.push(vec![NIL, NIL, NIL, NIL, NIL, NIL, NIL, NIL, NIL, NIL, 2, 0]);
    let ghost want = h2_of_12();
    assert(t@[0]@ =~= want[0]);
    assert(t@[1]@ =~= want[1]);
    assert(t@[2]@ =~= want[2]);
    assert(t@[3]@ =~= want[3]);
    assert(t@[4]@ =~= want[4]);
    assert(t@[5]@ =~= want[5]);
    assert(t@[6]@ =~= want[6]);
    assert(t@[7]@ =~= want[7]);
    assert(t@[8]@ =~= want[8]);
    assert(t@[9]@ =~= want[9]);
    assert(t@[10]@ =~= want[10]);
    assert(t@[11]@ =~= want[11]);
    assert(matrix::rows_of(t@) =~= want);
    t
}

/// The base matrix of the information part.
pub fn qc_base_h1(spec: QcLdpcSpec) -> (t: Vec<Vec<i16>>)
    requires
        is_tabled(spec),
    ensures
        matrix::rows_of(t@) == h1_table(spec),
{
    if spec.mb == 4 {
        make_h1_rate_5_6()
    } else if spec.mb == 8 {
        make_h1_rate_2_3()
    } else {
        make_h1_rate_1_2()
    }
}

/// The base matrix of the parity part.
pub fn qc_base_h2(spec: QcLdpcSpec) -> (t: Vec<Vec<i16>>)
    requires
        spec.z == 32,
        spec.mb == 4 || spec.mb == 8 || spec.mb == 12,
    ensures
        matrix::rows_of(t@) == h2_table(spec),
{
    if spec.mb == 4 {
        make_h2_of_4()
    } else if spec.mb == 8 {
        make_h2_of_8()
    } else {
        make_h2_of_12()
    }
}

/// How many columns a base matrix has.
pub open spec fn base_cols(base: Seq<Seq<i16>>) -> nat {
    if base.len() == 0 {
        0
    } else {
        base[0].len()
    }
}

/// The columns that row `zr` of a block row has its ones in: one in each block of the first `n`
/// that is not zero, shifted cyclically by the block's entry.
pub open spec fn expanded_row(row: Seq<i16>, z: nat, zr: nat, n: nat) -> Seq<usize>
    decreases n,
{
    if n == 0 {
        Seq::empty()
    } else {
        let cb = (n - 1) as nat;
        let before = expanded_row(row, z, zr, cb);
        if row[cb as int] < 0 {
            before
        } else {
            before.push((cb * z + (zr + row[cb as int] as nat % z) % z) as usize)
        }
    }
}

/// The rows of the matrix that a base matrix stands for.
pub open spec fn expanded(base: Seq<Seq<i16>>, z: nat) -> Seq<Seq<usize>> {
    Seq::new(
        base.len() * z,
        |i: int| expanded_row(base[i / (z as int)], z, (i % (z as int)) as nat, base_cols(base)),
    )
}

pub open spec fn is_ascending(row: Seq<usize>) -> bool {
    forall|i: int, j: int| 0 <= i < j < row.len() ==> row[i] < row[j]
}

/// An expanded row names each column once, in ascending order, and stays within its blocks.
pub proof fn lemma_expanded_row(row: Seq<i16>, z: nat, zr: nat, n: nat)
    requires
        z > 0,
        n * z <= usize::MAX,
    ensures
        is_ascending(expanded_row(row, z, zr, n)),
        forall|i: int|
            0 <= i < expanded_row(row, z, zr, n).len() ==> #[trigger] expanded_row(row, z, zr, n)[i]
                < n * z,
    decreases n,
{
    if n > 0 {
        let cb = (n - 1) as nat;
        assert(n * z == cb * z + z) by (nonlinear_arith)
            requires
                n == cb + 1,
        ;
        lemma_expanded_row(row, z, zr, cb);
        let before = expanded_row(row, z, zr, cb);
        let s = (zr + row[cb as int] as nat % z) % z;
        assert(0 <= s < z);
        let after = expanded_row(row, z, zr, n);
        assert forall|i: int| 0 <= i < after.len() implies #[trigger] after[i] < n * z by {
            if i < before.len() {
                assert(after[i] == before[i]);
            }
        }
        assert forall|i: int, j: int| 0 <= i < j < after.len() implies after[i] < after[j] by {
            assert(after[i] == before[i]);
            if j < before.len() {
                assert(after[j] == before[j]);
            }
        }
    }
}

/// Expands a base matrix into sparse rows.
pub fn qc_expand_rows(base: &[Vec<i16>], z: usize) -> (rows: Vec<Vec<usize>>)
    requires
        base.len() * z <= usize::MAX,
        base_cols(matrix::rows_of(base@)) * z <= usize::MAX,
        forall|r: int|
            0 <= r < base@.len() ==> (#[trigger] base@[r])@.len() >= base_cols(
                matrix::rows_of(base@),
            ),
    ensures
        matrix::rows_of(rows@) == expanded(matrix::rows_of(base@), z as nat),
        forall|r: int|
            0 <= r < rows@.len() ==> is_ascending(#[trigger] matrix::rows_of(rows@)[r]),
{
    let ghost b = matrix::rows_of(base@);
    let ghost want = expanded(b, z as nat);
    let rb_n: usize = base.len();
    let cb_n: usize = if rb_n == 0 {
        0
    } else {
        base[0].len()
    };
    let mut rows: Vec<Vec<usize>> = Vec::with_capacity(rb_n * z);
    let mut rb: usize = 0;
    assert(b.len() == rb_n);
    while rb < rb_n
        invariant
            rb <= rb_n,
            rb_n == base.len(),
            b == matrix::rows_of(base@),
            want == expanded(b, z as nat),
            cb_n == base_cols(b),
            cb_n * z <= usize::MAX,
            rb_n * z <= usize::MAX,
            forall|r: int| 0 <= r < base@.len() ==> (#[trigger] base@[r])@.len() >= cb_n,
            rows.len() == rb * z,
            forall|k: int| 0 <= k < rb * z ==> (#[trigger] rows@[k])@ == want[k],
        decreases rb_n - rb,
    {
        let mut zr: usize = 0;
        while zr < z
            invariant
                rb < rb_n,
                rb_n == base.len(),
                zr <= z,
                b == matrix::rows_of(base@),
                want == expanded(b, z as nat),
                cb_n == base_cols(b),
                cb_n * z <= usize::MAX,
                rb_n * z <= usize::MAX,
                forall|r: int| 0 <= r < base@.len() ==> (#[trigger] base@[r])@.len() >= cb_n,
                rows.len() == rb * z + zr,
                forall|k: int| 0 <= k < rb * z + zr ==> (#[trigger] rows@[k])@ == want[k],
            decreases z - zr,
        {
            let ghost line = b[rb as int];
            let mut cols: Vec<usize> = Vec::new();
            let mut cb: usize = 0;
            while cb < cb_n
                invariant
                    rb < rb_n,
                    rb_n == base.len(),
                    zr < z,
                    cb <= cb_n,
                    cb_n * z <= usize::MAX,
                    b == matrix::rows_of(base@),
                    line == b[rb as int],
                    forall|r: int| 0 <= r < base@.len() ==> (#[trigger] base@[r])@.len() >= cb_n,
                    cols@ == expanded_row(line, z as nat, zr as nat, cb as nat),
                decreases cb_n - cb,
            {
                assert(line == base@[rb as int]@);
                let entry: i16 = base[rb][cb];
                if entry >= 0 {
                    let sh: usize = entry as usize % z;
                    assert(cb * z + z <= cb_n * z) by (nonlinear_arith)
                        requires
                            cb + 1 <= cb_n,
                    ;
                    let col: usize = if zr < z - sh {
                        cb * z + (zr + sh)
                    } else {
                        cb * z + (zr - (z - sh))
                    };
                    proof {
                        assert((zr + sh) % (z as int) == if zr < z - sh {
                            zr + sh
                        } else {
                            zr + sh - z
                        }) by {
                            if zr < z - sh {
                                vstd::arithmetic::div_mod::lemma_small_mod(
                                    (zr + sh) as nat,
                                    z as nat,
                                );
                            } else {
                                vstd::arithmetic::div_mod::lemma_small_mod(
                                    (zr + sh - z) as nat,
                                    z as nat,
                                );
                                vstd::arithmetic::div_mod::lemma_mod_add_multiples_vanish(
                                    zr + sh - z,
                                    z as int,
                                );
                            }
                        }
                    }
                    cols.push(col);
                }
                cb = cb + 1;
            }
            proof {
                let i: int = rb * z + zr;
                assert(rb * z + z <= rb_n * z) by (nonlinear_arith)
                    requires
                        rb + 1 <= rb_n,
                ;
                vstd::arithmetic::div_mod::lemma_fundamental_div_mod_converse(
                    i,
                    z as int,
                    rb as int,
                    zr as int,
                );
                assert(want[i] == cols@);
            }
            rows.push(cols);
            zr = zr + 1;
        }
        assert((rb + 1) * z == rb * z + z) by (nonlinear_arith);
        rb = rb + 1;
    }
    proof {
        assert(matrix::rows_of(rows@) =~= want);
        assert forall|r: int| 0 <= r < rows@.len() implies is_ascending(
            #[trigger] matrix::rows_of(rows@)[r],
        ) by {
            assert(z > 0) by (nonlinear_arith)
                requires
                    rb_n * z > 0,
            ;
            lemma_expanded_row(b[r / (z as int)], z as nat, (r % (z as int)) as nat, cb_n as nat);
        }
    }
    rows
}

} // verus!

//! Matrices held as vectors of rows.
use vstd::prelude::*;

verus! {

/// The rows of a matrix held as nested vectors.
pub open spec fn rows_of<T>(a: Seq<Vec<T>>) -> Seq<Seq<T>> {
    Seq::new(a.len(), |i: int| a[i]@)
}

} // verus!

//! Arithmetic on rows.
//!
//! What a row's bytes mean as numbers is the business of the backend that runs the model: it casts
//! rows between stored formats and blends them. The cache decides which rows take part, in which
//! order, and where each result lands; it claims nothing of the numbers, only that the row it
//! stores is the one the coder returned for exactly these rows.

use crate::dtype::{DType, KVLayoutDesc};
use crate::kv_cache::CacheShape;
use vstd::prelude::*;

verus! {

/// How a row's bytes encode its elements.
#[derive(Clone, Copy, Debug, PartialEq, Eq, Structural)]
pub struct RowFormat {
    pub dtype: DType,
    pub opaque: Option<KVLayoutDesc>,
    pub head_dim: usize,
}

impl CacheShape {
    /// The format of the cache's rows.
    pub open spec fn spec_row_format(self) -> RowFormat {
        RowFormat { dtype: self.dtype, opaque: self.opaque, head_dim: self.head_dim }
    }

    /// The format of the cache's rows.
    pub fn row_format(&self) -> (r: RowFormat)
        ensures
            r == self.spec_row_format(),
    {
        RowFormat { dtype: self.dtype, opaque: self.opaque, head_dim: self.head_dim }
    }
}

/// A typed row format.
pub open spec fn spec_typed(dtype: DType, head_dim: usize) -> RowFormat {
    RowFormat { dtype, opaque: None, head_dim }
}

/// A typed row format.
pub fn typed(dtype: DType, head_dim: usize) -> (r: RowFormat)
    ensures
        r == spec_typed(dtype, head_dim),
{
    RowFormat { dtype, opaque: None, head_dim }
}

/// Arithmetic on rows, as a backend supplies it.
pub trait RowCodec {
    /// The same elements in another format.
    fn recode(&self, row: &Vec<u8>, from: RowFormat, to: RowFormat) -> Vec<u8>;

    /// `into_weight * into + sum of weights[i] * from[i]`, in the format of the rows. Weights are
    /// the bit patterns of single-precision numbers.
    fn merge(
        &self,
        format: RowFormat,
        into: &Vec<u8>,
        into_weight: u32,
        from: &Vec<Vec<u8>>,
        weights: &Vec<u32>,
    ) -> Vec<u8>;
}

/// `out` is what the coder returned for `row`.
pub open spec fn recoded<C: RowCodec>(
    codec: &C,
    row: Seq<u8>,
    from: RowFormat,
    to: RowFormat,
    out: Seq<u8>,
) -> bool {
    exists|a: Vec<u8>, b: Vec<u8>|
        a@ == row && b@ == out && #[trigger] call_ensures(C::recode, (codec, &a, from, to), b)
}

/// The coder has one answer for a row.
pub open spec fn casts_one_way<C: RowCodec>(codec: &C, from: RowFormat, to: RowFormat) -> bool {
    forall|row: Seq<u8>, x: Seq<u8>, y: Seq<u8>| #[trigger]
        recoded(codec, row, from, to, x) && #[trigger] recoded(codec, row, from, to, y) ==> x == y
}

/// For `row` the coder returned a row of another width than `width`.
pub open spec fn misfits<C: RowCodec>(
    codec: &C,
    row: Seq<u8>,
    from: RowFormat,
    to: RowFormat,
    width: nat,
) -> bool {
    exists|out: Seq<u8>| #[trigger] recoded(codec, row, from, to, out) && out.len() != width
}

/// `out` is what the coder returned for this blend.
pub open spec fn merged<C: RowCodec>(
    codec: &C,
    format: RowFormat,
    into: Seq<u8>,
    into_weight: u32,
    from: Seq<Seq<u8>>,
    weights: Seq<u32>,
    out: Seq<u8>,
) -> bool {
    exists|a: Vec<u8>, f: Vec<Vec<u8>>, w: Vec<u32>, b: Vec<u8>|
        a@ == into && f.deep_view() == from && w@ == weights && b@ == out
            && #[trigger] call_ensures(C::merge, (codec, format, &a, into_weight, &f, &w), b)
}

/// For this blend the coder returned a row of another width than `width`.
pub open spec fn misblends<C: RowCodec>(
    codec: &C,
    format: RowFormat,
    into: Seq<u8>,
    into_weight: u32,
    from: Seq<Seq<u8>>,
    weights: Seq<u32>,
    width: nat,
) -> bool {
    exists|out: Seq<u8>|
        #[trigger] merged(codec, format, into, into_weight, from, weights, out) && out.len()
            != width
}

} // verus!

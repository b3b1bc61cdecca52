//! Stored element formats, layouts, and the row widths they give.

use vstd::prelude::*;

verus! {

/// Elements per `q4_0` block.
pub const QK4_0: usize = 32;

/// Bytes of one `q4_0` block: a 16-bit scale and 32 nibbles.
pub const BLOCK_Q4_0_BYTES: usize = 18;

/// How a K/V element is stored.
#[derive(Clone, Copy, Debug, PartialEq, Eq, Structural)]
pub enum DType {
    F32,
    F16,
    Q4_0,
    U8,
}

/// Which of position and head varies fastest between rows.
#[derive(Clone, Copy, Debug, PartialEq, Eq, Structural)]
pub enum KVLayout {
    /// `[position][head]`.
    SeqMajor,
    /// `[head][position]`.
    HeadMajor,
}

/// How a block codec packs its codes.
#[derive(Clone, Copy, Debug, PartialEq, Eq, Structural)]
pub enum Packing {
    Nibble,
    Quad,
}

/// Where a block codec keeps its scales.
#[derive(Clone, Copy, Debug, PartialEq, Eq, Structural)]
pub enum ScaleLayout {
    PerBlockF16,
    PerBlockF16WithMin,
}

/// The shape of a block codec that stores K/V as opaque bytes.
#[derive(Clone, Copy, Debug, PartialEq, Eq, Structural)]
pub struct KVLayoutDesc {
    pub block_elems: usize,
    pub bits: usize,
    pub scale_layout: ScaleLayout,
    pub packing: Packing,
}

impl ScaleLayout {
    /// Scale bytes per block.
    pub open spec fn spec_bytes(self) -> nat {
        match self {
            ScaleLayout::PerBlockF16 => 2,
            ScaleLayout::PerBlockF16WithMin => 4,
        }
    }

    /// Scale bytes per block.
    pub fn bytes(self) -> (n: usize)
        ensures
            n == self.spec_bytes(),
    {
        match self {
            ScaleLayout::PerBlockF16 => 2,
            ScaleLayout::PerBlockF16WithMin => 4,
        }
    }
}

impl KVLayoutDesc {
    /// Bytes of one block: its codes and its scales.
    pub open spec fn block_bytes(self) -> nat {
        (self.block_elems * self.bits / 8 + self.scale_layout.spec_bytes()) as nat
    }

    /// The bytes `n` elements take, when they fill whole blocks.
    pub open spec fn spec_bytes_for(self, n: nat) -> Option<nat> {
        if self.block_elems == 0 || n % (self.block_elems as nat) != 0 {
            None
        } else {
            Some((n / (self.block_elems as nat)) * self.block_bytes())
        }
    }

    /// Whether the byte count of `n` elements, and what leads to it, fits a machine word.
    pub open spec fn counts_fit(self, n: nat) -> bool {
        &&& self.block_elems * self.bits <= usize::MAX
        &&& self.block_bytes() <= usize::MAX
        &&& (self.spec_bytes_for(n) matches Some(b) ==> b <= usize::MAX)
    }

    /// The bytes that `n` elements take: `None` when they do not fill whole blocks, or when the
    /// count does not fit.
    pub fn bytes_for_elems(&self, n: usize) -> (r: Option<usize>)
        ensures
            r is Some <==> self.spec_bytes_for(n as nat) is Some && self.counts_fit(n as nat),
            r matches Some(b) ==> self.spec_bytes_for(n as nat) == Some(b as nat),
    {
        if self.block_elems == 0 || n % self.block_elems != 0 {
            return None;
        }
        let code_bits: usize = match self.block_elems.checked_mul(self.bits) {
            Some(x) => x,
            None => {
                return None;
            },
        };
        let block: usize = match (code_bits / 8).checked_add(self.scale_layout.bytes()) {
            Some(x) => x,
            None => {
                return None;
            },
        };
        (n / self.block_elems).checked_mul(block)
    }

    /// The two-bit codec that has a device decoder: 32 elements per block, four codes per byte, a
    /// scale and a minimum per block.
    pub open spec fn spec_is_q2(self) -> bool {
        self.bits == 2 && self.block_elems == 32 && self.packing == Packing::Quad
            && self.scale_layout == ScaleLayout::PerBlockF16WithMin
    }

    /// Whether this is the two-bit codec that has a device decoder.
    pub fn is_q2(&self) -> (r: bool)
        ensures
            r == self.spec_is_q2(),
    {
        self.bits == 2 && self.block_elems == 32 && self.packing == Packing::Quad
            && self.scale_layout == ScaleLayout::PerBlockF16WithMin
    }
}

/// Bytes that one head's `head_dim` elements take: `None` when the format cannot tile them.
pub open spec fn spec_row_bytes(dtype: DType, opaque: Option<KVLayoutDesc>, head_dim: nat) -> Option<
    nat,
> {
    match opaque {
        Some(desc) => desc.spec_bytes_for(head_dim),
        None => match dtype {
            DType::F32 => Some(head_dim * 4),
            DType::F16 => Some(head_dim * 2),
            DType::Q4_0 => if head_dim % 32 == 0 {
                Some((head_dim / 32) * 18)
            } else {
                None
            },
            DType::U8 => Some(head_dim),
        },
    }
}

/// Bytes that one head's `head_dim` elements take in a typed store; `None` when `q4_0` cannot tile
/// them or the count does not fit.
pub fn typed_row_bytes(dtype: DType, head_dim: usize) -> (r: Option<usize>)
    ensures
        r matches Some(b) ==> spec_row_bytes(dtype, None, head_dim as nat) == Some(b as nat),
        r is Some <==> (spec_row_bytes(dtype, None, head_dim as nat) matches Some(b) && b
            <= usize::MAX),
{
    match dtype {
        DType::F32 => head_dim.checked_mul(4),
        DType::F16 => head_dim.checked_mul(2),
        DType::Q4_0 => if head_dim % QK4_0 == 0 {
            (head_dim / QK4_0).checked_mul(BLOCK_Q4_0_BYTES)
        } else {
            None
        },
        DType::U8 => Some(head_dim),
    }
}

/// Name of a stored format, as callers ask for it.
pub open spec fn spec_format_name(dtype: DType) -> Seq<char> {
    match dtype {
        DType::F32 => "f32"@,
        DType::F16 => "f16"@,
        DType::Q4_0 => "q4_0"@,
        DType::U8 => "unknown"@,
    }
}

/// Name of a stored format: `f32`, `f16`, `q4_0`, or `unknown` for a store without typed elements.
pub fn format_name(dtype: DType) -> (r: &'static str)
    ensures
        r@ == spec_format_name(dtype),
{
    match dtype {
        DType::F32 => "f32",
        DType::F16 => "f16",
        DType::Q4_0 => "q4_0",
        DType::U8 => "unknown",
    }
}

/// How many bytes a row takes: four per element in single precision, two in half, one where elements
/// are bytes; blocks of 32 elements take a 16-bit scale and half a byte per element. A block codec's
/// row is whole blocks, each with its codes and its one or two 16-bit scales. No other row has a
/// width.
pub proof fn lemma_row_widths(desc: KVLayoutDesc, head_dim: nat, blocks: nat)
    ensures
        spec_row_bytes(DType::F32, None, head_dim) == Some(4 * head_dim),
        spec_row_bytes(DType::F16, None, head_dim) == Some(2 * head_dim),
        spec_row_bytes(DType::U8, None, head_dim) == Some(head_dim),
        head_dim == 32 * blocks ==> spec_row_bytes(DType::Q4_0, None, head_dim) == Some(
            blocks * (2 + 16),
        ),
        spec_row_bytes(DType::Q4_0, None, head_dim) is Some ==> head_dim % 32 == 0,
        forall|dtype: DType|
            desc.block_elems > 0 && head_dim == blocks * desc.block_elems ==> #[trigger] spec_row_bytes(
                dtype,
                Some(desc),
                head_dim,
            ) == Some(
                blocks * ((desc.block_elems * desc.bits / 8 + match desc.scale_layout {
                    ScaleLayout::PerBlockF16 => 2int,
                    ScaleLayout::PerBlockF16WithMin => 4int,
                }) as nat),
            ),
        forall|dtype: DType|
            desc.block_elems == 0 || head_dim % (desc.block_elems as nat) != 0
                ==> #[trigger] spec_row_bytes(dtype, Some(desc), head_dim) is None,
{
    if head_dim == 32 * blocks {
        vstd::arithmetic::div_mod::lemma_div_multiples_vanish(blocks as int, 32);
        vstd::arithmetic::div_mod::lemma_mod_multiples_basic(blocks as int, 32);
    }
    if desc.block_elems > 0 && head_dim == blocks * desc.block_elems {
        let w = desc.block_elems as int;
        assert(blocks * w == w * blocks) by (nonlinear_arith);
        vstd::arithmetic::div_mod::lemma_div_multiples_vanish(blocks as int, w);
        vstd::arithmetic::div_mod::lemma_mod_multiples_basic(blocks as int, w);
    }
}

/// A format's name is known by no other format.
pub proof fn lemma_format_names_differ(a: DType, b: DType)
    requires
        spec_format_name(a) == spec_format_name(b),
    ensures
        a == b,
{
    reveal_strlit("f32");
    reveal_strlit("f16");
    reveal_strlit("q4_0");
    reveal_strlit("unknown");
    assert("f32"@[1] == '3' && "f16"@[1] == '1');
    assert("f32"@.len() == 3 && "f16"@.len() == 3 && "q4_0"@.len() == 4 && "unknown"@.len() == 7);
}

/// Which block codec has a device decoder: two bits for each of thirty-two elements, four codes to a byte,
/// with a scale and a minimum; its block takes twelve bytes.
pub proof fn lemma_the_codec_that_a_device_decodes(desc: KVLayoutDesc)
    ensures
        desc.spec_is_q2() ==> desc.bits == 2 && desc.block_elems == 32 && desc.packing != Packing::Nibble
            && desc.scale_layout != ScaleLayout::PerBlockF16,
        desc.bits == 2 && desc.block_elems == 32 && desc.packing == Packing::Quad && desc.scale_layout
            == ScaleLayout::PerBlockF16WithMin ==> desc.spec_is_q2(),
        desc.spec_is_q2() ==> desc.block_bytes() == 12,
{
}

} // verus!

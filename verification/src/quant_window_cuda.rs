//! The argument blocks of the device kernels over a packed cache, and what their return codes mean.
//!
//! Device pointers and streams are plain numbers here: the kernels are run elsewhere.

use crate::text::{decimal, decimal_text};
use vstd::prelude::*;

verus! {

/// A buffer, by the kind of memory it is in.
#[derive(Clone, Copy, Debug, PartialEq, Eq, Structural)]
pub enum DeviceBuffer {
    /// Host memory that the device can see, at this device pointer.
    PinnedHost(u64),
    /// Memory that moves between host and device, at this device pointer.
    Managed(u64),
    /// Device memory, at this device pointer.
    Device(u64),
    /// Memory that the device cannot see.
    Other,
}

/// Why a kernel was not run, or failed.
#[derive(Clone, Copy, Debug, PartialEq, Eq, Structural)]
pub enum KernelError {
    /// The backend has no stream.
    NoStream,
    /// A buffer that the device cannot see.
    NotOnDevice,
    /// The kernel that packs or unpacks a window failed.
    DequantFlush { key: bool, rc: i32 },
    /// The kernel that copies the recent run failed.
    ScatterResidual { key: bool, rc: i32 },
    /// The attention kernel failed.
    Attention { rc: i32 },
}

/// A number in decimal, with its sign.
pub open spec fn signed_decimal(n: int) -> Seq<char> {
    if n < 0 {
        "-"@ + decimal((-n) as nat)
    } else {
        decimal(n as nat)
    }
}

fn signed_text(n: i32) -> (s: String)
    ensures
        s@ == signed_decimal(n as int),
{
    if n < 0 {
        let mut s: String = "-".to_owned();
        let magnitude: i64 = -(n as i64);
        let digits: String = decimal_text(magnitude as usize);
        s.append(digits.as_str());
        s
    } else {
        decimal_text(n as usize)
    }
}

/// One side of the cache, as messages name it.
pub open spec fn side_name(key: bool) -> Seq<char> {
    if key {
        "K"@
    } else {
        "V"@
    }
}

impl KernelError {
    /// The error in words.
    pub open spec fn words(self) -> Seq<char> {
        match self {
            KernelError::NoStream => "quant-window CUDA: backend is not CudaBackend"@,
            KernelError::NotOnDevice => "quant-window CUDA: buffer is not a CUDA device buffer"@,
            KernelError::DequantFlush { key, rc } => "quant-window CUDA dequant_flush ("@
                + side_name(key) + ") failed (rc="@ + signed_decimal(rc as int) + ")"@,
            KernelError::ScatterResidual { key, rc } => "quant-window CUDA scatter_residual ("@
                + side_name(key) + ") failed (rc="@ + signed_decimal(rc as int) + ")"@,
            KernelError::Attention { rc } => "quant-window CUDA attention_gen_quant failed (rc="@
                + signed_decimal(rc as int) + ")"@,
        }
    }

    /// The error in words.
    pub fn message(&self) -> (s: String)
        ensures
            s@ == self.words(),
    {
        match self {
            KernelError::NoStream => "quant-window CUDA: backend is not CudaBackend".to_owned(),
            KernelError::NotOnDevice =>
                "quant-window CUDA: buffer is not a CUDA device buffer".to_owned(),
            KernelError::DequantFlush { key, rc } => {
                let mut s: String = "quant-window CUDA dequant_flush (".to_owned();
                s.append(if *key { "K" } else { "V" });
                s.append(") failed (rc=");
                let digits: String = signed_text(*rc);
                s.append(digits.as_str());
                s.append(")");
                s
            },
            KernelError::ScatterResidual { key, rc } => {
                let mut s: String = "quant-window CUDA scatter_residual (".to_owned();
                s.append(if *key { "K" } else { "V" });
                s.append(") failed (rc=");
                let digits: String = signed_text(*rc);
                s.append(digits.as_str());
                s.append(")");
                s
            },
            KernelError::Attention { rc } => {
                let mut s: String = "quant-window CUDA attention_gen_quant failed (rc=".to_owned();
                let digits: String = signed_text(*rc);
                s.append(digits.as_str());
                s.append(")");
                s
            },
        }
    }
}

impl DeviceBuffer {
    /// The device pointer, where there is one.
    pub open spec fn pointer(self) -> Option<u64> {
        match self {
            DeviceBuffer::PinnedHost(p) => Some(p),
            DeviceBuffer::Managed(p) => Some(p),
            DeviceBuffer::Device(p) => Some(p),
            DeviceBuffer::Other => None,
        }
    }
}

/// The device pointer of a buffer.
pub fn cu_devptr(buf: DeviceBuffer) -> (r: Result<u64, KernelError>)
    ensures
        r == match buf.pointer() {
            Some(p) => Ok::<u64, KernelError>(p),
            None => Err(KernelError::NotOnDevice),
        },
{
    match buf {
        DeviceBuffer::PinnedHost(p) => Ok(p),
        DeviceBuffer::Managed(p) => Ok(p),
        DeviceBuffer::Device(p) => Ok(p),
        DeviceBuffer::Other => Err(KernelError::NotOnDevice),
    }
}

/// The stream that the kernels share.
pub fn cu_stream(stream: Option<u64>) -> (r: Result<u64, KernelError>)
    ensures
        r == match stream {
            Some(s) => Ok::<u64, KernelError>(s),
            None => Err(KernelError::NoStream),
        },
{
    match stream {
        Some(s) => Ok(s),
        None => Err(KernelError::NoStream),
    }
}

/// Where a window is unpacked to.
#[derive(Clone, Copy, Debug, PartialEq, Eq, Structural)]
pub struct FlushGeometry {
    pub kv_heads: usize,
    pub head_dim: usize,
    pub n_groups_or_tokens: usize,
    pub tok_base: usize,
    pub block_start: usize,
}

/// The argument block of the kernel that unpacks a window.
#[derive(Clone, Copy, Debug, PartialEq, Eq, Structural)]
pub struct CudaQuantDequantFlushArgs {
    pub cu_stream: u64,
    pub q_blocks_mem: u64,
    pub attn_mem: u64,
    pub geometry: FlushGeometry,
    pub bits: u8,
    pub is_key: bool,
}

/// The kernel that unpacks a window does so at two bits only.
pub fn dequant_flush_q2_args(
    stream: Option<u64>,
    q_blocks: DeviceBuffer,
    attn: DeviceBuffer,
    geometry: FlushGeometry,
    is_key: bool,
) -> (r: Result<CudaQuantDequantFlushArgs, KernelError>)
    ensures
        r == match (stream, q_blocks.pointer(), attn.pointer()) {
            (None, _, _) => Err::<CudaQuantDequantFlushArgs, KernelError>(KernelError::NoStream),
            (Some(s), Some(q), Some(a)) => Ok(
                CudaQuantDequantFlushArgs {
                    cu_stream: s,
                    q_blocks_mem: q,
                    attn_mem: a,
                    geometry,
                    bits: 2,
                    is_key,
                },
            ),
            _ => Err(KernelError::NotOnDevice),
        },
{
    Ok(
        CudaQuantDequantFlushArgs {
            cu_stream: cu_stream(stream)?,
            q_blocks_mem: cu_devptr(q_blocks)?,
            attn_mem: cu_devptr(attn)?,
            geometry,
            bits: 2,
            is_key,
        },
    )
}

/// Where the recent run is copied to.
#[derive(Clone, Copy, Debug, PartialEq, Eq, Structural)]
pub struct ResidualGeometry {
    pub kv_heads: usize,
    pub res_cap: usize,
    pub head_dim: usize,
    pub res_pos: usize,
    pub tok_base: usize,
}

/// The argument block of the kernel that copies the recent run.
#[derive(Clone, Copy, Debug, PartialEq, Eq, Structural)]
pub struct CudaQuantScatterResidualArgs {
    pub cu_stream: u64,
    pub res_mem: u64,
    pub attn_mem: u64,
    pub geometry: ResidualGeometry,
}

/// The argument block of the kernel that copies the recent run.
pub fn scatter_residual_args(
    stream: Option<u64>,
    res: DeviceBuffer,
    attn: DeviceBuffer,
    geometry: ResidualGeometry,
) -> (r: Result<CudaQuantScatterResidualArgs, KernelError>)
    ensures
        r == match (stream, res.pointer(), attn.pointer()) {
            (None, _, _) => Err::<CudaQuantScatterResidualArgs, KernelError>(KernelError::NoStream),
            (Some(s), Some(m), Some(a)) => Ok(
                CudaQuantScatterResidualArgs { cu_stream: s, res_mem: m, attn_mem: a, geometry },
            ),
            _ => Err(KernelError::NotOnDevice),
        },
{
    Ok(
        CudaQuantScatterResidualArgs {
            cu_stream: cu_stream(stream)?,
            res_mem: cu_devptr(res)?,
            attn_mem: cu_devptr(attn)?,
            geometry,
        },
    )
}

/// The buffers of the attention kernel.
#[derive(Clone, Copy, Debug, PartialEq, Eq, Structural)]
pub struct AttentionBuffers {
    pub q: DeviceBuffer,
    pub qk: DeviceBuffer,
    pub qv: DeviceBuffer,
    pub res_k: DeviceBuffer,
    pub res_v: DeviceBuffer,
    pub out: DeviceBuffer,
}

/// The device pointers of the attention kernel.
#[derive(Clone, Copy, Debug, PartialEq, Eq, Structural)]
pub struct AttentionPointers {
    pub cu_stream: u64,
    pub q_mem: u64,
    pub qk_mem: u64,
    pub qv_mem: u64,
    pub res_k_mem: u64,
    pub res_v_mem: u64,
    pub out_mem: u64,
}

impl AttentionBuffers {
    /// The device can see every buffer.
    pub open spec fn on_device(self) -> bool {
        &&& self.q.pointer() is Some
        &&& self.qk.pointer() is Some
        &&& self.qv.pointer() is Some
        &&& self.res_k.pointer() is Some
        &&& self.res_v.pointer() is Some
        &&& self.out.pointer() is Some
    }

    /// The pointers of buffers that the device can see.
    pub open spec fn pointers(self, cu_stream: u64) -> AttentionPointers {
        AttentionPointers {
            cu_stream,
            q_mem: self.q.pointer()->0,
            qk_mem: self.qk.pointer()->0,
            qv_mem: self.qv.pointer()->0,
            res_k_mem: self.res_k.pointer()->0,
            res_v_mem: self.res_v.pointer()->0,
            out_mem: self.out.pointer()->0,
        }
    }
}

/// The device pointers of the attention kernel.
pub fn attention_pointers(stream: Option<u64>, buffers: AttentionBuffers) -> (r: Result<
    AttentionPointers,
    KernelError,
>)
    ensures
        stream is None ==> r == Err::<AttentionPointers, KernelError>(KernelError::NoStream),
        stream is Some && !buffers.on_device() ==> r == Err::<AttentionPointers, KernelError>(
            KernelError::NotOnDevice,
        ),
        stream is Some && buffers.on_device() ==> r == Ok::<AttentionPointers, KernelError>(
            buffers.pointers(stream->0),
        ),
{
    Ok(
        AttentionPointers {
            cu_stream: cu_stream(stream)?,
            q_mem: cu_devptr(buffers.q)?,
            qk_mem: cu_devptr(buffers.qk)?,
            qv_mem: cu_devptr(buffers.qv)?,
            res_k_mem: cu_devptr(buffers.res_k)?,
            res_v_mem: cu_devptr(buffers.res_v)?,
            out_mem: cu_devptr(buffers.out)?,
        },
    )
}

/// What the attention kernel is told of a step.
#[derive(Clone, Copy, Debug, PartialEq, Eq, Structural)]
pub struct AttentionGeometry {
    pub num_heads_q: usize,
    pub num_heads_kv: usize,
    pub head_dim: usize,
    /// Packed tokens.
    pub q_tokens: usize,
    /// Tokens of the recent run.
    pub res_tokens: usize,
    /// Tokens that the run has room for.
    pub res_cap: usize,
    pub bits: u8,
    /// Length of the score buffer; zero when no scores are wanted.
    pub scores_len: usize,
}

/// The argument block of the attention kernel.
#[derive(Clone, Copy, Debug, PartialEq, Eq, Structural)]
pub struct CudaQuantAttnArgs {
    pub pointers: AttentionPointers,
    pub geometry: AttentionGeometry,
    /// Where the kernel puts the scores, on the host; zero for nowhere.
    pub scores_out: u64,
    /// What the products are scaled by; the bit pattern of a single-precision number.
    pub scale: u32,
}

/// The argument block of the attention kernel.
pub fn attention_args(
    stream: Option<u64>,
    buffers: AttentionBuffers,
    geometry: AttentionGeometry,
    scores_out: u64,
    scale: u32,
) -> (r: Result<CudaQuantAttnArgs, KernelError>)
    ensures
        stream is None ==> r == Err::<CudaQuantAttnArgs, KernelError>(KernelError::NoStream),
        stream is Some && !buffers.on_device() ==> r == Err::<CudaQuantAttnArgs, KernelError>(
            KernelError::NotOnDevice,
        ),
        stream is Some && buffers.on_device() ==> r == Ok::<CudaQuantAttnArgs, KernelError>(
            CudaQuantAttnArgs {
                pointers: buffers.pointers(stream->0),
                geometry,
                scores_out,
                scale,
            },
        ),
{
    let pointers = attention_pointers(stream, buffers)?;
    Ok(CudaQuantAttnArgs { pointers, geometry, scores_out, scale })
}

/// A kernel over a packed cache.
#[derive(Clone, Copy, Debug, PartialEq, Eq, Structural)]
pub enum Kernel {
    DequantFlush { key: bool },
    ScatterResidual { key: bool },
    Attention,
}

/// What a kernel's return code means: zero is success, anything else a failure of that kernel.
pub fn kernel_outcome(kernel: Kernel, rc: i32) -> (r: Result<(), KernelError>)
    ensures
        rc == 0 ==> r is Ok,
        rc != 0 ==> r == Err::<(), KernelError>(
            match kernel {
                Kernel::DequantFlush { key } => KernelError::DequantFlush { key, rc },
                Kernel::ScatterResidual { key } => KernelError::ScatterResidual { key, rc },
                Kernel::Attention => KernelError::Attention { rc },
            },
        ),
{
    if rc == 0 {
        return Ok(());
    }
    match kernel {
        Kernel::DequantFlush { key } => Err(KernelError::DequantFlush { key, rc }),
        Kernel::ScatterResidual { key } => Err(KernelError::ScatterResidual { key, rc }),
        Kernel::Attention => Err(KernelError::Attention { rc }),
    }
}

/// What the attention kernel is handed: the stream, each buffer's own pointer in its own place, and what
/// it is told of the step; refused without a stream, and for any buffer that the device cannot see.
pub proof fn lemma_attention_reads_its_buffers(
    stream: Option<u64>,
    buffers: AttentionBuffers,
    geometry: AttentionGeometry,
    scores_out: u64,
    scale: u32,
    r: Result<CudaQuantAttnArgs, KernelError>,
)
    requires
        call_ensures(attention_args, (stream, buffers, geometry, scores_out, scale), r),
    ensures
        r == Err::<CudaQuantAttnArgs, KernelError>(KernelError::NoStream) <==> stream is None,
        r is Ok <==> stream is Some && buffers.q != DeviceBuffer::Other && buffers.qk
            != DeviceBuffer::Other && buffers.qv != DeviceBuffer::Other && buffers.res_k
            != DeviceBuffer::Other && buffers.res_v != DeviceBuffer::Other && buffers.out
            != DeviceBuffer::Other,
        r matches Err(e) ==> e == KernelError::NoStream || e == KernelError::NotOnDevice,
        r matches Ok(args) ==> {
            &&& Some(args.pointers.cu_stream) == stream
            &&& lies_at(buffers.q, args.pointers.q_mem)
            &&& lies_at(buffers.qk, args.pointers.qk_mem)
            &&& lies_at(buffers.qv, args.pointers.qv_mem)
            &&& lies_at(buffers.res_k, args.pointers.res_k_mem)
            &&& lies_at(buffers.res_v, args.pointers.res_v_mem)
            &&& lies_at(buffers.out, args.pointers.out_mem)
            &&& args.geometry == geometry
            &&& args.scores_out == scores_out
            &&& args.scale == scale
        },
{
}

/// A buffer that the device sees at a pointer.
pub open spec fn lies_at(buffer: DeviceBuffer, pointer: u64) -> bool {
    buffer == DeviceBuffer::PinnedHost(pointer) || buffer == DeviceBuffer::Managed(pointer) || buffer
        == DeviceBuffer::Device(pointer)
}

/// What the kernels that unpack a window and copy the run are handed: each buffer's own pointer in its
/// own place, and where to work; a window is unpacked at two bits.
pub proof fn lemma_flush_and_scatter_read_their_buffers(
    stream: Option<u64>,
    from: DeviceBuffer,
    attn: DeviceBuffer,
    window: FlushGeometry,
    is_key: bool,
    run: ResidualGeometry,
    flush: Result<CudaQuantDequantFlushArgs, KernelError>,
    scatter: Result<CudaQuantScatterResidualArgs, KernelError>,
)
    requires
        call_ensures(dequant_flush_q2_args, (stream, from, attn, window, is_key), flush),
        call_ensures(scatter_residual_args, (stream, from, attn, run), scatter),
    ensures
        flush is Ok <==> stream is Some && from != DeviceBuffer::Other && attn
            != DeviceBuffer::Other,
        scatter is Ok <==> flush is Ok,
        flush == Err::<CudaQuantDequantFlushArgs, KernelError>(KernelError::NoStream) <==> stream is None,
        scatter == Err::<CudaQuantScatterResidualArgs, KernelError>(KernelError::NoStream)
            <==> stream is None,
        flush matches Ok(args) ==> {
            &&& Some(args.cu_stream) == stream
            &&& lies_at(from, args.q_blocks_mem)
            &&& lies_at(attn, args.attn_mem)
            &&& args.geometry == window
            &&& args.bits == 2
            &&& args.is_key == is_key
        },
        scatter matches Ok(args) ==> {
            &&& Some(args.cu_stream) == stream
            &&& lies_at(from, args.res_mem)
            &&& lies_at(attn, args.attn_mem)
            &&& args.geometry == run
        },
{
}

/// A return code is a success exactly when it is zero, and a failure says which kernel, which side and
/// which code.
pub proof fn lemma_return_codes(kernel: Kernel, rc: i32, r: Result<(), KernelError>)
    requires
        call_ensures(kernel_outcome, (kernel, rc), r),
    ensures
        r is Ok <==> rc == 0,
        rc != 0 && kernel == Kernel::Attention ==> r == Err::<(), KernelError>(
            KernelError::Attention { rc },
        ),
        rc != 0 ==> (kernel matches Kernel::DequantFlush { key } ==> r == Err::<(), KernelError>(
            KernelError::DequantFlush { key, rc },
        )),
        rc != 0 ==> (kernel matches Kernel::ScatterResidual { key } ==> r == Err::<(), KernelError>(
            KernelError::ScatterResidual { key, rc },
        )),
{
}

} // verus!

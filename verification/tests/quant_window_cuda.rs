use argus_kv::quant_window_cuda::{attention_args, attention_pointers, AttentionGeometry, cu_devptr, cu_stream, dequant_flush_q2_args,
    kernel_outcome, scatter_residual_args, AttentionBuffers, DeviceBuffer, FlushGeometry, Kernel,
    KernelError, ResidualGeometry};

const STREAM: Option<u64> = Some(77);

#[test]
fn pointers_come_from_memory_that_the_device_sees() {
    assert_eq!(cu_devptr(DeviceBuffer::PinnedHost(1)), Ok(1));
    assert_eq!(cu_devptr(DeviceBuffer::Managed(2)), Ok(2));
    assert_eq!(cu_devptr(DeviceBuffer::Device(3)), Ok(3));
    assert_eq!(cu_devptr(DeviceBuffer::Other), Err(KernelError::NotOnDevice));
    assert_eq!(cu_stream(STREAM), Ok(77));
    assert_eq!(cu_stream(None), Err(KernelError::NoStream));
}

#[test]
fn a_window_is_unpacked_at_two_bits() {
    let geometry = FlushGeometry {
        kv_heads: 8,
        head_dim: 64,
        n_groups_or_tokens: 4,
        tok_base: 128,
        block_start: 16,
    };
    let (q, a) = (DeviceBuffer::Device(10), DeviceBuffer::Managed(20));
    let args = dequant_flush_q2_args(STREAM, q, a, geometry, true).unwrap();
    assert_eq!((args.cu_stream, args.q_blocks_mem, args.attn_mem), (77, 10, 20));
    assert_eq!((args.bits, args.is_key, args.geometry), (2, true, geometry));
    assert_eq!(dequant_flush_q2_args(None, q, a, geometry, true), Err(KernelError::NoStream));
    assert_eq!(
        dequant_flush_q2_args(STREAM, q, DeviceBuffer::Other, geometry, false),
        Err(KernelError::NotOnDevice)
    );
}

#[test]
fn the_recent_run_is_copied_behind_the_windows() {
    let geometry =
        ResidualGeometry { kv_heads: 8, res_cap: 32, head_dim: 64, res_pos: 5, tok_base: 128 };
    let (res, attn) = (DeviceBuffer::PinnedHost(30), DeviceBuffer::Device(40));
    let args = scatter_residual_args(STREAM, res, attn, geometry).unwrap();
    assert_eq!((args.cu_stream, args.res_mem, args.attn_mem), (77, 30, 40));
    assert_eq!(args.geometry, geometry);
    assert_eq!(scatter_residual_args(None, res, attn, geometry), Err(KernelError::NoStream));
    assert_eq!(
        scatter_residual_args(STREAM, DeviceBuffer::Other, attn, geometry),
        Err(KernelError::NotOnDevice)
    );
}

#[test]
fn attention_needs_every_buffer_on_the_device() {
    let buffers = AttentionBuffers {
        q: DeviceBuffer::Device(1),
        qk: DeviceBuffer::Device(2),
        qv: DeviceBuffer::Device(3),
        res_k: DeviceBuffer::Device(4),
        res_v: DeviceBuffer::Device(5),
        out: DeviceBuffer::Device(6),
    };
    let p = attention_pointers(STREAM, buffers).unwrap();
    assert_eq!(
        [p.cu_stream, p.q_mem, p.qk_mem, p.qv_mem, p.res_k_mem, p.res_v_mem, p.out_mem],
        [77, 1, 2, 3, 4, 5, 6]
    );
    assert_eq!(attention_pointers(None, buffers), Err(KernelError::NoStream));
    let lost = AttentionBuffers { out: DeviceBuffer::Other, ..buffers };
    assert_eq!(attention_pointers(STREAM, lost), Err(KernelError::NotOnDevice));
}

#[test]
fn return_codes_become_errors_in_words() {
    assert_eq!(kernel_outcome(Kernel::Attention, 0), Ok(()));
    let words = |kernel, rc| kernel_outcome(kernel, rc).unwrap_err().message();
    assert_eq!(
        words(Kernel::DequantFlush { key: true }, 7),
        "quant-window CUDA dequant_flush (K) failed (rc=7)"
    );
    assert_eq!(
        words(Kernel::ScatterResidual { key: false }, -3),
        "quant-window CUDA scatter_residual (V) failed (rc=-3)"
    );
    assert_eq!(
        words(Kernel::Attention, i32::MIN),
        "quant-window CUDA attention_gen_quant failed (rc=-2147483648)"
    );
    assert_eq!(
        KernelError::NoStream.message(),
        "quant-window CUDA: backend is not CudaBackend"
    );
    assert_eq!(
        KernelError::NotOnDevice.message(),
        "quant-window CUDA: buffer is not a CUDA device buffer"
    );
}

#[test]
fn the_attention_kernel_is_told_the_whole_step() {
    let buffers = AttentionBuffers {
        q: DeviceBuffer::Device(1),
        qk: DeviceBuffer::Device(2),
        qv: DeviceBuffer::Device(3),
        res_k: DeviceBuffer::Device(4),
        res_v: DeviceBuffer::Device(5),
        out: DeviceBuffer::Device(6),
    };
    let geometry = AttentionGeometry {
        num_heads_q: 8,
        num_heads_kv: 2,
        head_dim: 64,
        q_tokens: 96,
        res_tokens: 5,
        res_cap: 32,
        bits: 2,
        scores_len: 808,
    };
    let scale = 0.125f32.to_bits();
    let args = attention_args(STREAM, buffers, geometry, 9, scale).unwrap();
    assert_eq!(Ok(args.pointers), attention_pointers(STREAM, buffers));
    assert_eq!((args.geometry, args.scores_out, args.scale), (geometry, 9, scale));
    assert_eq!(attention_args(None, buffers, geometry, 9, scale), Err(KernelError::NoStream));
    let lost = AttentionBuffers { q: DeviceBuffer::Other, ..buffers };
    assert_eq!(attention_args(STREAM, lost, geometry, 9, scale), Err(KernelError::NotOnDevice));
}

//! Compute backends: which one runs, and how work is laid out for it.

pub mod act;
pub mod backend_select;
pub mod cpu_backend;
pub mod kernels;
pub mod kernels_u8;
pub mod lanes;
pub mod launch;
pub mod trace;

pub use act::{act_decode, act_encode, ACT_SIZE};
pub use backend_select::{
    create_backend, warmup_shapes, AnyBackend, BackendPreference, WgpuDevice, GPU_DEQUANT_DTYPES,
};

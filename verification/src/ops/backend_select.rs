//! Backend selection: the preference of the caller, and the backend that runs.

use vstd::prelude::*;
use vstd::string::*;

use crate::text::str_eq;
use crate::types::GgmlType;

verus! {

/// Backend selection preference.
#[derive(Debug, Clone, Copy, PartialEq, Eq, Structural)]
pub enum BackendPreference {
    Auto,
    Cpu,
    Wgpu,
    Metal,
    Hip,
    Cuda,
}

/// The devices of the wgpu backend.
#[derive(Debug, Clone, Copy, PartialEq, Eq, Structural)]
pub enum WgpuDevice {
    /// A device that must be able to store half-precision activations.
    Default,
    /// A device that stores whatever activations the build has.
    Metal,
}

/// Enum over all possible backends so model code can dispatch without
/// knowing the concrete runtime type.
#[derive(Debug, Clone, Copy, PartialEq, Eq, Structural)]
pub enum AnyBackend {
    Cpu,
    Wgpu(WgpuDevice),
}

/// Quantization formats with a fused GPU dequant+matmul kernel.
/// Kept in one place so model code and warmup can agree on what's dispatchable.
pub const GPU_DEQUANT_DTYPES: [GgmlType; 4] = [
    GgmlType::Q8_0,
    GgmlType::Q4_K,
    GgmlType::Q5_K,
    GgmlType::Q6_K,
];

/// Whether a format has a fused GPU kernel.
pub open spec fn gpu_dequantizable(t: GgmlType) -> bool {
    t == GgmlType::Q8_0 || t == GgmlType::Q4_K || t == GgmlType::Q5_K || t == GgmlType::Q6_K
}

/// Whether a format has a fused GPU kernel.
pub fn has_gpu_kernel(t: GgmlType) -> (r: bool)
    ensures
        r == gpu_dequantizable(t),
        r <==> exists|i: int| 0 <= i < 4 && GPU_DEQUANT_DTYPES@[i] == t,
{
    proof {
        let all = GPU_DEQUANT_DTYPES@;
        assert(all[0] == GgmlType::Q8_0 && all[1] == GgmlType::Q4_K && all[2] == GgmlType::Q5_K
            && all[3] == GgmlType::Q6_K);
    }
    match t {
        GgmlType::Q8_0 => true,
        GgmlType::Q4_K => true,
        GgmlType::Q5_K => true,
        GgmlType::Q6_K => true,
        _ => false,
    }
}

impl AnyBackend {
    /// The name of a backend.
    pub open spec fn spec_name(self) -> Seq<char> {
        match self {
            AnyBackend::Cpu => "cpu"@,
            AnyBackend::Wgpu(_) => "wgpu"@,
        }
    }

    /// The name of a backend.
    pub fn name(&self) -> (s: &str)
        ensures
            s@ == self.spec_name(),
    {
        match self {
            AnyBackend::Cpu => "cpu",
            AnyBackend::Wgpu(_) => "wgpu",
        }
    }
}

/// The backend that a preference leads to where its device is usable: the one that was
/// asked for where there is one, and the CPU otherwise.
pub open spec fn selected(preference: BackendPreference) -> AnyBackend {
    match preference {
        BackendPreference::Wgpu => AnyBackend::Wgpu(WgpuDevice::Default),
        BackendPreference::Metal => AnyBackend::Wgpu(WgpuDevice::Metal),
        _ => AnyBackend::Cpu,
    }
}

/// Create a backend based on preference. Falls back to CPU if the preferred backend
/// is unavailable: if there is none of its own, or its device is not `usable`.
pub fn create_backend(preference: BackendPreference, usable: bool) -> (b: AnyBackend)
    ensures
        b == if usable {
            selected(preference)
        } else {
            AnyBackend::Cpu
        },
{
    if !usable {
        return AnyBackend::Cpu;
    }
    match preference {
        BackendPreference::Cpu => AnyBackend::Cpu,
        BackendPreference::Auto => AnyBackend::Cpu,
        BackendPreference::Wgpu => AnyBackend::Wgpu(WgpuDevice::Default),
        BackendPreference::Metal => AnyBackend::Wgpu(WgpuDevice::Metal),
        // No backend of their own yet.
        BackendPreference::Hip => AnyBackend::Cpu,
        BackendPreference::Cuda => AnyBackend::Cpu,
    }
}

/// The preference that a name asks for, where it is one of `cpu`, `wgpu` and
/// `metal`.
pub fn named_backend(name: &str) -> (p: Option<BackendPreference>)
    ensures
        p == if name@ == "metal"@ {
            Some(BackendPreference::Metal)
        } else if name@ == "wgpu"@ {
            Some(BackendPreference::Wgpu)
        } else if name@ == "cpu"@ {
            Some(BackendPreference::Cpu)
        } else {
            None
        },
{
    if str_eq(name, "metal") {
        Some(BackendPreference::Metal)
    } else if str_eq(name, "wgpu") {
        Some(BackendPreference::Wgpu)
    } else if str_eq(name, "cpu") {
        Some(BackendPreference::Cpu)
    } else {
        None
    }
}

/// The first of each dtype among `shapes`, in order.
pub open spec fn first_of_each(shapes: Seq<(GgmlType, usize)>) -> Seq<(GgmlType, usize)>
    decreases shapes.len(),
{
    if shapes.len() == 0 {
        Seq::empty()
    } else {
        let rest = first_of_each(shapes.drop_last());
        if has_dtype(rest, shapes.last().0) {
            rest
        } else {
            rest.push(shapes.last())
        }
    }
}

/// Whether there is a shape of a dtype.
pub open spec fn has_dtype(shapes: Seq<(GgmlType, usize)>, t: GgmlType) -> bool {
    exists|i: int| 0 <= i < shapes.len() && (#[trigger] shapes[i]).0 == t
}

/// The kernel variants to compile up front, given the shapes of the tensors that
/// were uploaded: one for each dtype, and none on the CPU.
pub fn warmup_shapes(backend: AnyBackend, uploaded: &[(GgmlType, usize)]) -> (r: Vec<
    (GgmlType, usize),
>)
    ensures
        r@ == if backend == AnyBackend::Cpu {
            Seq::empty()
        } else {
            first_of_each(uploaded@)
        },
{
    let mut shapes: Vec<(GgmlType, usize)> = Vec::new();
    match backend {
        AnyBackend::Cpu => {
            return shapes;
        },
        AnyBackend::Wgpu(_) => {},
    }
    let mut i: usize = 0;
    while i < uploaded.len()
        invariant
            i <= uploaded@.len(),
            shapes@ == first_of_each(uploaded@.take(i as int)),
        decreases uploaded@.len() - i,
    {
        proof {
            assert(uploaded@.take(i as int + 1).drop_last() =~= uploaded@.take(i as int));
        }
        let shape = uploaded[i];
        let mut seen = false;
        let mut j: usize = 0;
        while j < shapes.len()
            invariant
                j <= shapes@.len(),
                seen == has_dtype(shapes@.take(j as int), shape.0),
            decreases shapes@.len() - j,
        {
            proof {
                let upto = shapes@.take(j as int + 1);
                assert forall|k: int| 0 <= k < j implies upto[k] == shapes@.take(j as int)[k] by {}
                if seen {
                    let k = choose|k: int|
                        0 <= k < j && (#[trigger] shapes@.take(j as int)[k]).0 == shape.0;
                    assert(upto[k].0 == shape.0);
                }
                assert(upto[j as int] == shapes@[j as int]);
                if has_dtype(upto, shape.0) {
                    let k = choose|k: int| 0 <= k < j + 1 && (#[trigger] upto[k]).0 == shape.0;
                    assert(k < j ==> shapes@.take(j as int)[k].0 == shape.0);
                }
            }
            if shapes[j].0 == shape.0 {
                seen = true;
            }
            j += 1;
        }
        proof {
            assert(shapes@.take(j as int) =~= shapes@);
        }
        if !seen {
            shapes.push(shape);
        }
        i += 1;
    }
    proof {
        assert(uploaded@.take(i as int) =~= uploaded@);
    }
    shapes
}

/// The shapes to compile hold every dtype that was uploaded, and no dtype twice.
pub proof fn law_one_shape_for_each_dtype(uploaded: Seq<(GgmlType, usize)>)
    ensures
        forall|i: int|
            0 <= i < uploaded.len() ==> has_dtype(
                first_of_each(uploaded),
                (#[trigger] uploaded[i]).0,
            ),
        forall|i: int, j: int|
            0 <= i < j < first_of_each(uploaded).len() ==> (#[trigger] first_of_each(
                uploaded,
            )[i]).0 != (#[trigger] first_of_each(uploaded)[j]).0,
        forall|i: int|
            0 <= i < first_of_each(uploaded).len() ==> uploaded.contains(
                #[trigger] first_of_each(uploaded)[i],
            ),
    decreases uploaded.len(),
{
    if uploaded.len() > 0 {
        let front = uploaded.drop_last();
        law_one_shape_for_each_dtype(front);
        let rest = first_of_each(front);
        let all = first_of_each(uploaded);
        assert forall|i: int| 0 <= i < uploaded.len() implies has_dtype(
            all,
            (#[trigger] uploaded[i]).0,
        ) by {
            if i < front.len() {
                assert(front[i] == uploaded[i]);
                assert(has_dtype(rest, front[i].0));
                let k = choose|k: int| 0 <= k < rest.len() && (#[trigger] rest[k]).0 == front[i].0;
                assert(all[k] == rest[k]);
            } else if !has_dtype(rest, uploaded.last().0) {
                assert(all[rest.len() as int] == uploaded.last());
            }
        }
        assert forall|i: int| 0 <= i < all.len() implies uploaded.contains(
            #[trigger] all[i],
        ) by {
            if i < rest.len() {
                assert(rest[i] == all[i]);
                assert(front.contains(rest[i]));
                let k = choose|k: int| 0 <= k < front.len() && front[k] == rest[i];
                assert(uploaded[k] == rest[i]);
            } else {
                assert(uploaded[uploaded.len() - 1] == all[i]);
            }
        }
        assert forall|i: int, j: int| 0 <= i < j < all.len() implies (#[trigger] all[i]).0 != (
        #[trigger] all[j]).0 by {
            assert(all[i] == rest[i]);
            if j < rest.len() {
                assert(all[j] == rest[j]);
            }
        }
    }
}

/// A preference for the GPU selects it, and every other one the CPU; each goes by its name.
pub proof fn law_preferences_select_their_backend(p: BackendPreference)
    ensures
        selected(p) == AnyBackend::Cpu <==> p != BackendPreference::Wgpu && p
            != BackendPreference::Metal,
        selected(BackendPreference::Wgpu) == AnyBackend::Wgpu(WgpuDevice::Default),
        selected(BackendPreference::Metal) == AnyBackend::Wgpu(WgpuDevice::Metal),
        AnyBackend::Cpu.spec_name() == "cpu"@,
        selected(BackendPreference::Wgpu).spec_name() == "wgpu"@,
{
}

} // verus!

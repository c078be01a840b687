//! Where the products of a pass are computed that runs operation by operation.

use vstd::prelude::*;

use crate::error::Result;
use crate::model::llama::gpu::{held_of, route_of, Residency, Route};
use crate::model::llama::load::LlamaModel;
use crate::model::llama::program::{Buffer, Op};
use crate::model::weights::{last_named, tensor_name};
use crate::ops::AnyBackend;

verus! {

/// Where the next products of a pass are computed.
#[derive(Debug)]
pub enum Products {
    /// On the GPU, all at once: one for each of these matrices, which are there.
    Resident(Vec<usize>),
    /// The first one on the GPU, with a matrix that is uploaded for it.
    Upload,
    /// On the CPU, or what comes next is no product.
    Cpu,
}

/// The name of the matrix that an operation multiplies with.
pub open spec fn multiplier(model: LlamaModel, op: Op) -> Option<Seq<char>> {
    match op {
        Op::MatMul(matrix, _, _) => model.spec_matrix_name(matrix),
        _ => None,
    }
}

/// Whether an operation is a product of a matrix of the model with the vector in a buffer.
pub open spec fn multiplies(model: LlamaModel, op: Op, from: Buffer) -> bool {
    multiplier(model, op) is Some && op->MatMul_1 == from
}

/// Whether just the first `n` operations are products with the vector in a buffer.
pub open spec fn share_buffer(model: LlamaModel, ops: Seq<Op>, n: int, from: Buffer) -> bool {
    &&& forall|i: int| 0 <= i < n ==> #[trigger] multiplies(model, ops[i], from)
    &&& n < ops.len() ==> !multiplies(model, ops[n], from)
}

/// Whether just the first `n` operations are products with one vector.
pub open spec fn share_input(model: LlamaModel, ops: Seq<Op>, n: int) -> bool {
    &&& 0 <= n <= ops.len()
    &&& n > 0 ==> exists|from: Buffer| share_buffer(model, ops, n, from)
    &&& n == 0 && ops.len() > 0 ==> multiplier(model, ops[0]) is None
}

/// Whether a model runs on a GPU that holds the matrices of the first `n` operations.
pub open spec fn all_resident(model: LlamaModel, r: Residency, ops: Seq<Op>, n: int) -> bool {
    &&& model.backend matches Some(AnyBackend::Wgpu(_))
    &&& forall|i: int|
        0 <= i < n ==> held_of(r, multiplier(model, #[trigger] ops[i])->0) is Some
}

/// Whether `route` is where the products come from that the first operations make: all of
/// those that share their vector at once, where the GPU holds every matrix, and else the
/// first one alone.
pub open spec fn is_products_route(
    model: LlamaModel,
    r: Residency,
    ops: Seq<Op>,
    n: int,
    route: Result<Products>,
) -> bool {
    let name = multiplier(model, ops[0])->0;
    if n == 0 {
        route matches Ok(Products::Cpu)
    } else if all_resident(model, r, ops, n) {
        &&& route matches Ok(Products::Resident(handles))
        &&& handles@.len() == n
        &&& forall|i: int|
            0 <= i < n ==> held_of(r, multiplier(model, ops[i])->0) == Some(
                #[trigger] handles@[i],
            )
    } else {
        match (
            last_named(model.weights.tensor_list(), name),
            model.backend,
            held_of(r, name),
        ) {
            (None, Some(AnyBackend::Wgpu(_)), Some(h)) => is_first(route, Route::Resident(h)),
            (None, _, _) => route matches Err(e) && e.is_missing(tensor_name(name)),
            (Some(t), backend, held) => is_first(route, route_of(backend, held, t.ggml_type)),
        }
    }
}

/// Whether `route` sends the first product on a route.
pub open spec fn is_first(route: Result<Products>, first: Route) -> bool {
    match first {
        Route::Resident(h) => route matches Ok(Products::Resident(handles)) && handles@ == seq![h],
        Route::Upload => route matches Ok(Products::Upload),
        Route::Cpu => route matches Ok(Products::Cpu),
    }
}

impl<'a> LlamaModel<'a> {
    /// Where the products come from that the first operations make.
    pub fn products_route(&self, r: &Residency, ops: &[Op]) -> (route: Result<Products>)
        requires
            self.weights.wf(),
        ensures
            exists|n: int| #[trigger]
                share_input(*self, ops@, n) && is_products_route(*self, *r, ops@, n, route),
    {
        let mut names: Vec<&str> = Vec::new();
        let mut first: Option<Buffer> = None;
        let mut i: usize = 0;
        while i < ops.len()
            invariant
                i <= ops@.len(),
                names@.len() == i,
                first is None <==> i == 0,
                forall|j: int|
                    0 <= j < i ==> #[trigger] multiplies(*self, ops@[j], first->0),
                forall|j: int|
                    0 <= j < i ==> multiplier(*self, ops@[j]) == Some((#[trigger] names@[j])@),
            ensures
                i <= ops@.len(),
                names@.len() == i,
                first is None <==> i == 0,
                forall|j: int|
                    0 <= j < i ==> #[trigger] multiplies(*self, ops@[j], first->0),
                forall|j: int|
                    0 <= j < i ==> multiplier(*self, ops@[j]) == Some((#[trigger] names@[j])@),
                i == 0 && ops@.len() > 0 ==> multiplier(*self, ops@[0]) is None,
                0 < i < ops@.len() ==> !multiplies(*self, ops@[i as int], first->0),
            decreases ops@.len() - i,
        {
            let (matrix, from) = match ops[i] {
                Op::MatMul(matrix, from, _) => (matrix, from),
                _ => {
                    break;
                },
            };
            let name = match self.matrix_name(matrix) {
                Some(name) => name,
                None => {
                    break;
                },
            };
            if let Some(b) = first {
                if b != from {
                    break;
                }
            }
            first = Some(from);
            names.push(name);
            i += 1;
        }
        let ghost n = i as int;
        proof {
            if n > 0 {
                assert(share_buffer(*self, ops@, n, first->0));
            }
            assert(share_input(*self, ops@, n));
        }
        if i == 0 {
            return Ok(Products::Cpu);
        }
        if let Some(handles) = self.batch_route(r, names.as_slice()) {
            proof {
                assert forall|j: int| 0 <= j < n implies held_of(
                    *r,
                    multiplier(*self, #[trigger] ops@[j])->0,
                ) is Some by {
                    assert(held_of(*r, (names@[j])@) == Some(handles@[j]));
                }
                assert forall|j: int| 0 <= j < n implies held_of(
                    *r,
                    multiplier(*self, ops@[j])->0,
                ) == Some(#[trigger] handles@[j]) by {
                    assert(multiplier(*self, ops@[j]) == Some((names@[j])@));
                }
            }
            return Ok(Products::Resident(handles));
        }
        proof {
            if all_resident(*self, *r, ops@, n) {
                assert forall|j: int| 0 <= j < names@.len() implies held_of(
                    *r,
                    (#[trigger] names@[j])@,
                ) is Some by {
                    assert(held_of(*r, multiplier(*self, ops@[j])->0) is Some);
                }
            }
            assert(multiplier(*self, ops@[0]) == Some((names@[0])@));
        }
        match self.matmul_route(r, names[0]) {
            Ok(Route::Resident(h)) => {
                let mut handles: Vec<usize> = Vec::new();
                handles.push(h);
                proof {
                    assert(handles@ =~= seq![h]);
                }
                Ok(Products::Resident(handles))
            },
            Ok(Route::Upload) => Ok(Products::Upload),
            Ok(Route::Cpu) => Ok(Products::Cpu),
            Err(e) => Err(e),
        }
    }
}

} // verus!

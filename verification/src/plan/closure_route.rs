//! Which kernel closes a property path: the walk in this library, or a sparse
//! matrix product outside it. Both give the same pairs, so the choice may rest
//! on an estimate.

use crate::exec::executor::Executor;
use crate::plan::explain::{estimate, estimated};
use crate::plan::PhysicalPlan;
use crate::text::Text;
use vstd::prelude::*;
use vstd::string::*;

verus! {

/// The kernel chosen for a path closure.
#[derive(Debug, Clone, Copy, PartialEq, Eq, Structural)]
pub enum ClosureRoute {
    /// The walk in this library.
    Native,
    /// A sparse matrix product.
    GraphBlas,
}

impl ClosureRoute {
    pub open spec fn label_view(self) -> Text {
        match self {
            ClosureRoute::Native => "native"@,
            ClosureRoute::GraphBlas => "graphblas"@,
        }
    }

    /// The name of the kernel.
    pub fn label(self) -> (r: &'static str)
        ensures
            r@ == self.label_view(),
    {
        match self {
            ClosureRoute::Native => "native",
            ClosureRoute::GraphBlas => "graphblas",
        }
    }
}

/// The number of edges from which a matrix product pays.
pub const GRAPHBLAS_MIN_EDGE_ROWS: u64 = 100_000;

/// The environment variable that overrides [`GRAPHBLAS_MIN_EDGE_ROWS`].
pub const GRAPHBLAS_MIN_EDGE_ROWS_ENV: &'static str = "HORNDB_PATH_CLOSURE_GRAPHBLAS_MIN_ROWS";

/// The kernel for a number of edges. An unknown number stays native.
pub open spec fn route_of(edges: Option<u64>, min_rows: u64) -> ClosureRoute {
    match edges {
        Some(n) => if n >= min_rows {
            ClosureRoute::GraphBlas
        } else {
            ClosureRoute::Native
        },
        None => ClosureRoute::Native,
    }
}

pub fn route_for(edge_estimate: Option<u64>, min_rows: u64) -> (r: ClosureRoute)
    ensures
        r == route_of(edge_estimate, min_rows),
{
    match edge_estimate {
        Some(n) => if n >= min_rows {
            ClosureRoute::GraphBlas
        } else {
            ClosureRoute::Native
        },
        None => ClosureRoute::Native,
    }
}

/// Which kernel closes a path over `edge`. Without a matrix kernel at hand
/// there is no choice to make.
pub fn path_closure_route<E: Executor>(
    edge: &PhysicalPlan,
    exec: &E,
    matrix_kernel: bool,
    min_rows: u64,
) -> (r: ClosureRoute)
    ensures
        r == if matrix_kernel {
            route_of(estimated(exec, edge@), min_rows)
        } else {
            ClosureRoute::Native
        },
{
    if !matrix_kernel {
        return ClosureRoute::Native;
    }
    route_for(estimate(edge, exec), min_rows)
}

}

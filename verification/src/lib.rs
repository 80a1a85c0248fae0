//! Parallel iterator pipelines with verified semantics.
use vstd::prelude::*;

pub mod fallible;
pub mod laws;
pub mod merge;
pub mod par;
pub mod par_result;
pub mod parameters;
pub mod reduce;
pub mod runner;
pub mod seqs;
pub mod xap;

pub use fallible::{Fallible, IntoOption, IntoResult, ResultIntoOption};
pub use par::{
    par, IntoPar, Par, ParEmpty, ParFMap, ParFMapFilter, ParFilter, ParFilterMap, ParFilterMapFilter,
    ParFlatMap, ParFlatMapFilter, ParIterCore, ParMap, ParMapFilter, ParallelDrainableOverSlice, Parallelizable,
    ParallelizableCollection,
};
pub use par_result::{ParOption, ParResult, XLift};
pub use reduce::Reduce;
pub use xap::{Id, XCloned, XCopied, XFilter, XFilterMap, XFlatMap, XInspect, XMap, XReject, Xap};
pub use parameters::{ChunkSize, Collect, CollectOrdering, NonZeroUsize, NumThreads, Params};

verus! {

} // verus!

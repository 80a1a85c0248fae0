//! Parameters of a parallel computation: degree of parallelism, chunk size and
//! the ordering of collected outputs.
use vstd::prelude::*;
use vstd::std_specs::convert::IntoSpec;

verus! {

/// A positive `usize`.
///
/// The value is kept private so that only [`NonZeroUsize::new`] can create one;
/// the type invariant guarantees that it is never zero.
#[derive(Clone, Copy, Debug, PartialEq, Eq, Structural)]
pub struct NonZeroUsize {
    value: usize,
}

impl View for NonZeroUsize {
    type V = usize;

    closed spec fn view(&self) -> usize {
        self.value
    }
}

impl NonZeroUsize {
    #[verifier::type_invariant]
    spec fn positive(self) -> bool {
        self.value > 0
    }

    /// The positive number with the given value; meaningful only when `n > 0`.
    pub closed spec fn with_value(n: usize) -> NonZeroUsize {
        NonZeroUsize { value: n }
    }

    /// `with_value(n)` holds `n`.
    pub proof fn lemma_with_value(n: usize)
        ensures
            Self::with_value(n)@ == n,
    {
    }

    /// Two positive numbers are equal exactly when their values are.
    pub proof fn lemma_view_injective(a: NonZeroUsize, b: NonZeroUsize)
        ensures
            a@ == b@ <==> a == b,
    {
    }

    /// Creates a positive number; returns `None` when `n` is zero.
    pub fn new(n: usize) -> (r: Option<NonZeroUsize>)
        ensures
            n == 0 ==> r is None,
            n > 0 ==> r == Some(Self::with_value(n)),
    {
        if n == 0 {
            None
        } else {
            Some(NonZeroUsize { value: n })
        }
    }

    /// The value, which is positive.
    pub fn get(self) -> (r: usize)
        ensures
            r == self@,
            r > 0,
    {
        proof {
            use_type_invariant(&self);
        }
        self.value
    }
}

/// Degree of parallelization: an upper bound on the number of threads of a computation.
///
/// `NumThreads::Max(1)` (see [`NumThreads::sequential`]) runs the computation
/// sequentially, exactly as a sequential iterator would.
#[derive(Clone, Copy, Debug, PartialEq, Eq, Structural)]
pub enum NumThreads {
    /// May use all available threads; spawns them only when required.
    Auto,
    /// Never uses more than the given number of threads.
    Max(NonZeroUsize),
}

impl Default for NumThreads {
    fn default() -> (r: Self)
        ensures
            r == NumThreads::Auto,
    {
        NumThreads::Auto
    }
}

/// The number of threads that `n` converts to: 0 is `Auto`, a positive `n` is `Max(n)`.
pub open spec fn num_threads_of(n: usize) -> NumThreads {
    if n == 0 {
        NumThreads::Auto
    } else {
        NumThreads::Max(NonZeroUsize::with_value(n))
    }
}

impl From<usize> for NumThreads {
    /// Converts 0 to `NumThreads::Auto` and a positive `n` to `NumThreads::Max(n)`.
    fn from(value: usize) -> (r: Self)
        ensures
            r == num_threads_of(value),
    {
        match NonZeroUsize::new(value) {
            None => NumThreads::Auto,
            Some(n) => NumThreads::Max(n),
        }
    }
}

impl vstd::std_specs::convert::FromSpecImpl<usize> for NumThreads {
    open spec fn obeys_from_spec() -> bool {
        true
    }

    open spec fn from_spec(v: usize) -> Self {
        num_threads_of(v)
    }
}

impl NumThreads {
    /// Whether this is the sequential setting, `Max(1)`.
    pub open spec fn is_sequential_spec(self) -> bool {
        self == NumThreads::Max(NonZeroUsize::with_value(1))
    }

    /// Equivalent to `NumThreads::Max(1)`: the computation runs sequentially
    /// on the calling thread.
    pub fn sequential() -> (r: Self)
        ensures
            r == NumThreads::Max(NonZeroUsize::with_value(1)),
            r.is_sequential_spec(),
    {
        proof {
            NonZeroUsize::lemma_with_value(1);
        }
        NumThreads::Max(NonZeroUsize::new(1).unwrap())
    }

    /// Returns true if and only if this is `Max(1)`.
    pub fn is_sequential(self) -> (r: bool)
        ensures
            r == self.is_sequential_spec(),
            r == (match self {
                NumThreads::Auto => false,
                NumThreads::Max(n) => n@ == 1,
            }),
    {
        match self {
            NumThreads::Auto => false,
            NumThreads::Max(n) => {
                proof {
                    NonZeroUsize::lemma_view_injective(n, NonZeroUsize::with_value(1));
                }
                n.get() == 1
            },
        }
    }
}

/// The number of elements a thread pulls from the input at once.
#[derive(Clone, Copy, Debug, PartialEq, Eq, Structural)]
pub enum ChunkSize {
    /// The chunk size is decided by the computation.
    Auto,
    /// Each pull takes at least this many elements.
    Min(NonZeroUsize),
    /// Each pull takes exactly this many elements.
    Exact(NonZeroUsize),
}

impl Default for ChunkSize {
    fn default() -> (r: Self)
        ensures
            r == ChunkSize::Auto,
    {
        ChunkSize::Auto
    }
}

/// The chunk size that `n` converts to: 0 is `Auto`, a positive `n` is `Exact(n)`.
pub open spec fn chunk_size_of(n: usize) -> ChunkSize {
    if n == 0 {
        ChunkSize::Auto
    } else {
        ChunkSize::Exact(NonZeroUsize::with_value(n))
    }
}

impl From<usize> for ChunkSize {
    /// Converts 0 to `ChunkSize::Auto` and a positive `n` to `ChunkSize::Exact(n)`.
    fn from(value: usize) -> (r: Self)
        ensures
            r == chunk_size_of(value),
    {
        match NonZeroUsize::new(value) {
            None => ChunkSize::Auto,
            Some(n) => ChunkSize::Exact(n),
        }
    }
}

impl vstd::std_specs::convert::FromSpecImpl<usize> for ChunkSize {
    open spec fn obeys_from_spec() -> bool {
        true
    }

    open spec fn from_spec(v: usize) -> Self {
        chunk_size_of(v)
    }
}

/// Ordering of the outputs when a parallel computation is collected.
#[derive(Clone, Copy, Debug, PartialEq, Eq, Structural)]
pub enum CollectOrdering {
    /// Outputs may be collected in arbitrary order.
    Arbitrary,
    /// Outputs are collected in the order of their inputs.
    Ordered,
}

impl Default for CollectOrdering {
    fn default() -> (r: Self)
        ensures
            r == CollectOrdering::Ordered,
    {
        CollectOrdering::Ordered
    }
}

/// Strategy of collecting outputs.
#[derive(Clone, Copy, Debug, PartialEq, Eq, Structural)]
pub enum Collect {
    InArbitraryOrder,
    WithHeapSort,
    WithInPlaceSort,
}

impl Default for Collect {
    fn default() -> (r: Self)
        ensures
            r == Collect::WithHeapSort,
    {
        Collect::WithHeapSort
    }
}

/// Parameters of a parallel computation.
#[derive(Clone, Copy, Debug, PartialEq, Eq, Structural)]
pub struct Params {
    /// Number of threads to be used.
    pub num_threads: NumThreads,
    /// Chunk size to be used.
    pub chunk_size: ChunkSize,
    /// Ordering of outputs when they are collected.
    pub collect_ordering: CollectOrdering,
}

impl Default for Params {
    fn default() -> (r: Self)
        ensures
            r == Params::default_spec(),
    {
        Params {
            num_threads: NumThreads::Auto,
            chunk_size: ChunkSize::Auto,
            collect_ordering: CollectOrdering::Ordered,
        }
    }
}

impl Params {
    /// The default parameters: any number of threads, automatic chunk size, ordered
    /// collection.
    pub open spec fn default_spec() -> Params {
        Params {
            num_threads: NumThreads::Auto,
            chunk_size: ChunkSize::Auto,
            collect_ordering: CollectOrdering::Ordered,
        }
    }

    /// These parameters with the collect ordering replaced.
    pub open spec fn with_collect_ordering_spec(self, collect_ordering: CollectOrdering) -> Params {
        Params { collect_ordering, ..self }
    }

    /// Whether the computation runs sequentially.
    pub open spec fn is_sequential_spec(self) -> bool {
        self.num_threads.is_sequential_spec()
    }

    /// Creates parameters from the given configurations.
    pub fn new<N: Into<NumThreads>, C: Into<ChunkSize>>(
        num_threads: N,
        chunk_size: C,
        collect_ordering: CollectOrdering,
    ) -> (r: Self)
        ensures
            N::obeys_into_spec() ==> r.num_threads == num_threads.into_spec(),
            C::obeys_into_spec() ==> r.chunk_size == chunk_size.into_spec(),
            r.collect_ordering == collect_ordering,
    {
        Params { num_threads: num_threads.into(), chunk_size: chunk_size.into(), collect_ordering }
    }

    /// Returns true if the number of threads is set to 1; the computation then
    /// runs sequentially.
    pub fn is_sequential(self) -> (r: bool)
        ensures
            r == self.is_sequential_spec(),
    {
        self.num_threads.is_sequential()
    }

    /// These parameters with the number of threads replaced.
    pub fn with_num_threads<N: Into<NumThreads>>(self, num_threads: N) -> (r: Self)
        ensures
            N::obeys_into_spec() ==> r.num_threads == num_threads.into_spec(),
            r.chunk_size == self.chunk_size,
            r.collect_ordering == self.collect_ordering,
    {
        Params {
            num_threads: num_threads.into(),
            chunk_size: self.chunk_size,
            collect_ordering: self.collect_ordering,
        }
    }

    /// These parameters with the chunk size replaced.
    pub fn with_chunk_size<C: Into<ChunkSize>>(self, chunk_size: C) -> (r: Self)
        ensures
            r.num_threads == self.num_threads,
            C::obeys_into_spec() ==> r.chunk_size == chunk_size.into_spec(),
            r.collect_ordering == self.collect_ordering,
    {
        Params {
            num_threads: self.num_threads,
            chunk_size: chunk_size.into(),
            collect_ordering: self.collect_ordering,
        }
    }

    /// These parameters with the collect ordering replaced.
    pub fn with_collect_ordering(self, collect_ordering: CollectOrdering) -> (r: Self)
        ensures
            r.num_threads == self.num_threads,
            r.chunk_size == self.chunk_size,
            r.collect_ordering == collect_ordering,
    {
        Params { num_threads: self.num_threads, chunk_size: self.chunk_size, collect_ordering }
    }
}

} // verus!

//! The parallel iterator: an input vector, the parameters of the computation, and the
//! transformation applied to every input element.
use vstd::prelude::*;
use core::marker::PhantomData;
use crate::fallible::Fallible;
use crate::parameters::{ChunkSize, CollectOrdering, NumThreads, Params};
use crate::reduce::Reduce;
use crate::runner::{self, capped, call_step, fold_callable, fold_vec, is_first, reduces};
use crate::xap::{
    accepts_all, filtered, produces, rejected, Id, XCloned, XCopied, XFilter, XFilterMap, XFlatMap, XInspect, XMap,
    XReject, Xap,
};
use vstd::std_specs::convert::IntoSpec;

verus! {

/// A parallel iterator over the elements of `input`, each transformed by `xap`.
///
/// Every computation on it (collecting, counting, searching, reducing) sees the
/// outputs of the inputs in input order, whatever the number of threads or the
/// chunk size.
pub struct Par<T, O, X> {
    /// The input elements.
    pub input: Vec<T>,
    /// The parameters of the computation.
    pub params: Params,
    /// The transformation of each input element.
    pub xap: X,
    pub phantom: PhantomData<O>,
}

/// A parallel iterator over `input` with default parameters.
pub fn par<T>(input: Vec<T>) -> (r: Par<T, T, Id>)
    ensures
        r.input == input,
        r.params == Params::default_spec(),
{
    Par { input, params: Params::default(), xap: Id, phantom: PhantomData }
}

/// The chunk length used for `n` inputs with the given chunk size setting.
pub open spec fn chunk_len_of(chunk_size: ChunkSize, n: usize) -> usize {
    match chunk_size {
        ChunkSize::Exact(c) => c@,
        ChunkSize::Min(c) => c@,
        ChunkSize::Auto => if n / 256 == 0 { 1 } else { n / 256 },
    }
}

fn chunk_len(chunk_size: ChunkSize, n: usize) -> (r: usize)
    ensures
        r == chunk_len_of(chunk_size, n),
        r > 0,
{
    match chunk_size {
        ChunkSize::Exact(c) => c.get(),
        ChunkSize::Min(c) => c.get(),
        ChunkSize::Auto => if n / 256 == 0 { 1 } else { n / 256 },
    }
}

/// The number of chunks of `chunk_len` inputs needed to cover `n` inputs.
pub open spec fn chunk_count(n: usize, chunk_len: usize) -> int {
    if n % chunk_len == 0 {
        (n / chunk_len) as int
    } else {
        (n / chunk_len) as int + 1
    }
}

/// The chunks `0, 1, ...` covering `n` inputs, in order.
fn ascending_chunks(n: usize, chunk_len: usize) -> (r: Vec<usize>)
    requires
        chunk_len > 0,
    ensures
        r@.len() == chunk_count(n, chunk_len),
        forall|i: int| 0 <= i < r@.len() ==> #[trigger] r@[i] == i,
{
    let q = n / chunk_len;
    proof {
        if q == usize::MAX && n % chunk_len != 0 {
            assert(q * chunk_len + n % chunk_len == n) by (nonlinear_arith)
                requires
                    q == n / chunk_len,
                    chunk_len > 0,
            ;
            assert(q * chunk_len >= q) by (nonlinear_arith)
                requires
                    chunk_len > 0,
                    q >= 0,
            ;
        }
    }
    let k = if n % chunk_len == 0 || q == usize::MAX {
        q
    } else {
        q + 1
    };
    let mut schedule: Vec<usize> = Vec::new();
    let mut c: usize = 0;
    while c < k
        invariant
            c <= k,
            schedule@.len() == c,
            forall|i: int| 0 <= i < c ==> #[trigger] schedule@[i] == i,
        decreases k - c,
    {
        schedule.push(c);
        c = c + 1;
    }
    schedule
}

impl<T, O, X: Xap<T, O>> Par<T, O, X> {
    /// `out` is a possible sequence of the outputs of this iterator, in input order.
    pub open spec fn outputs(self, out: Seq<O>) -> bool {
        produces(self.xap, self.input@, out)
    }

    /// Every closure of the iterator accepts every value it receives from the inputs.
    pub open spec fn ready(self) -> bool {
        accepts_all(self.xap, self.input@)
    }

    /// Creates a parallel iterator from its parts.
    pub fn new(input: Vec<T>, params: Params, xap: X) -> (r: Self)
        ensures
            r.input == input,
            r.params == params,
            r.xap == xap,
    {
        Par { input, params, xap, phantom: PhantomData }
    }

    /// The parameters of the computation.
    pub fn params(&self) -> (r: Params)
        ensures
            r == self.params,
    {
        self.params
    }

    /// The number of input elements; always known for a vector input.
    pub fn iter_len(&self) -> (r: Option<usize>)
        ensures
            r == Some(self.input@.len() as usize),
    {
        Some(self.input.len())
    }

    /// The iterator with the number of threads replaced.
    pub fn num_threads<N: Into<NumThreads>>(self, num_threads: N) -> (r: Self)
        ensures
            r.input == self.input,
            r.xap == self.xap,
            N::obeys_into_spec() ==> r.params.num_threads == num_threads.into_spec(),
            r.params.chunk_size == self.params.chunk_size,
            r.params.collect_ordering == self.params.collect_ordering,
    {
        let params = self.params.with_num_threads(num_threads);
        Par { input: self.input, params, xap: self.xap, phantom: PhantomData }
    }

    /// The iterator with the chunk size replaced.
    pub fn chunk_size<C: Into<ChunkSize>>(self, chunk_size: C) -> (r: Self)
        ensures
            r.input == self.input,
            r.xap == self.xap,
            r.params.num_threads == self.params.num_threads,
            C::obeys_into_spec() ==> r.params.chunk_size == chunk_size.into_spec(),
            r.params.collect_ordering == self.params.collect_ordering,
    {
        let params = self.params.with_chunk_size(chunk_size);
        Par { input: self.input, params, xap: self.xap, phantom: PhantomData }
    }

    /// The iterator with the collect ordering replaced.
    pub fn collect_ordering(self, collect_ordering: CollectOrdering) -> (r: Self)
        ensures
            r.input == self.input,
            r.xap == self.xap,
            r.params == self.params.with_collect_ordering_spec(collect_ordering),
    {
        let params = self.params.with_collect_ordering(collect_ordering);
        Par { input: self.input, params, xap: self.xap, phantom: PhantomData }
    }

    // transformations

    /// Maps each output with `map`.
    pub fn map<Q, H: Fn(O) -> Q>(self, map: H) -> (r: Par<T, Q, XMap<O, X, H>>)
        ensures
            r.input == self.input,
            r.params == self.params,
            r.xap.inner == self.xap,
            r.xap.map == map,
            self.ready() && (forall|o: O| call_requires(map, (o,))) ==> r.ready(),
            forall|x: T|
                #[trigger] r.xap.accepts(x) <==> (self.xap.accepts(x) && forall|zs: Seq<O>, k: int|
                    #![trigger self.xap.yields(x, zs), zs[k]]
                    self.xap.yields(x, zs) && 0 <= k < zs.len() ==> call_requires(map, (zs[k],))),
    {
        Par { input: self.input, params: self.params, xap: XMap::new(self.xap, map), phantom: PhantomData }
    }

    /// Keeps the outputs for which `filter` returns true.
    pub fn filter<H: Fn(&O) -> bool>(self, filter: H) -> (r: Par<T, O, XFilter<O, X, H>>)
        ensures
            r.input == self.input,
            r.params == self.params,
            r.xap.inner == self.xap,
            r.xap.filter == filter,
            self.ready() && (forall|o: O| call_requires(filter, (&o,))) ==> r.ready(),
            forall|x: T|
                #[trigger] r.xap.accepts(x) <==> (self.xap.accepts(x) && forall|zs: Seq<O>, k: int|
                    #![trigger self.xap.yields(x, zs), zs[k]]
                    self.xap.yields(x, zs) && 0 <= k < zs.len() ==> call_requires(filter, (&zs[k],))),
    {
        Par { input: self.input, params: self.params, xap: XFilter::new(self.xap, filter), phantom: PhantomData }
    }

    /// Maps each output with `filter_map` and keeps the successful values.
    pub fn filter_map<Q, FO: Fallible<Q>, H: Fn(O) -> FO>(self, filter_map: H) -> (r: Par<
        T,
        Q,
        XFilterMap<O, FO, X, H>,
    >)
        ensures
            r.input == self.input,
            r.params == self.params,
            r.xap.inner == self.xap,
            r.xap.filter_map == filter_map,
            self.ready() && (forall|o: O| call_requires(filter_map, (o,))) ==> r.ready(),
            forall|x: T|
                #[trigger] r.xap.accepts(x) <==> (self.xap.accepts(x) && forall|zs: Seq<O>, k: int|
                    #![trigger self.xap.yields(x, zs), zs[k]]
                    self.xap.yields(x, zs) && 0 <= k < zs.len() ==> call_requires(filter_map, (zs[k],))),
    {
        Par {
            input: self.input,
            params: self.params,
            xap: XFilterMap::new(self.xap, filter_map),
            phantom: PhantomData,
        }
    }

    /// Maps each output to a vector with `flat_map` and yields the elements of the
    /// vectors, in order.
    pub fn flat_map<Q, H: Fn(O) -> Vec<Q>>(self, flat_map: H) -> (r: Par<T, Q, XFlatMap<O, X, H>>)
        ensures
            r.input == self.input,
            r.params == self.params,
            r.xap.inner == self.xap,
            r.xap.flat_map == flat_map,
            self.ready() && (forall|o: O| call_requires(flat_map, (o,))) ==> r.ready(),
            forall|x: T|
                #[trigger] r.xap.accepts(x) <==> (self.xap.accepts(x) && forall|zs: Seq<O>, k: int|
                    #![trigger self.xap.yields(x, zs), zs[k]]
                    self.xap.yields(x, zs) && 0 <= k < zs.len() ==> call_requires(flat_map, (zs[k],))),
    {
        Par {
            input: self.input,
            params: self.params,
            xap: XFlatMap::new(self.xap, flat_map),
            phantom: PhantomData,
        }
    }

    /// Calls `operation` on each output and yields the outputs unchanged.
    pub fn inspect<H: Fn(&O)>(self, operation: H) -> (r: Par<T, O, XInspect<O, X, H>>)
        ensures
            r.input == self.input,
            r.params == self.params,
            r.xap.inner == self.xap,
            r.xap.operation == operation,
            self.ready() && (forall|o: O| call_requires(operation, (&o,))) ==> r.ready(),
            forall|x: T|
                #[trigger] r.xap.accepts(x) <==> (self.xap.accepts(x) && forall|zs: Seq<O>, k: int|
                    #![trigger self.xap.yields(x, zs), zs[k]]
                    self.xap.yields(x, zs) && 0 <= k < zs.len() ==> call_requires(operation, (&zs[k],))),
    {
        Par {
            input: self.input,
            params: self.params,
            xap: XInspect::new(self.xap, operation),
            phantom: PhantomData,
        }
    }

    // collect

    /// Collects the outputs into `output`, after its current elements, in input order.
    pub fn collect_into(self, output: Vec<O>) -> (r: Vec<O>)
        requires
            self.ready(),
        ensures
            exists|out: Seq<O>| self.outputs(out) && r@ == output@ + out,
    {
        let mut output = output;
        let Par { input, params, xap, phantom: _ } = self;
        if params.is_sequential() {
            runner::collect_seq(&xap, input, &mut output);
        } else {
            let n = input.len();
            let c = chunk_len(params.chunk_size, n);
            let schedule = ascending_chunks(n, c);
            runner::collect_chunked(&xap, input, c, &schedule, &mut output);
        }
        output
    }

    /// Collects the outputs into a new vector, in input order.
    pub fn collect_vec(self) -> (r: Vec<O>)
        requires
            self.ready(),
        ensures
            self.outputs(r@),
    {
        let r = self.collect_into(Vec::new());
        proof {
            assert forall|out: Seq<O>| Seq::<O>::empty() + out == out by {
                assert(Seq::<O>::empty() + out =~= out);
            }
        }
        r
    }

    /// Collects the outputs into a new vector, in input order.
    pub fn collect(self) -> (r: Vec<O>)
        requires
            self.ready(),
        ensures
            self.outputs(r@),
    {
        self.collect_vec()
    }

    /// Collects the outputs, processing the chunks of `chunk_len` inputs in the order
    /// given by `schedule` and any remaining input afterwards; the result is in input
    /// order whatever the schedule.
    pub fn collect_scheduled(self, chunk_len: usize, schedule: &Vec<usize>) -> (r: Vec<O>)
        requires
            self.ready(),
        ensures
            self.outputs(r@),
    {
        let mut output = Vec::new();
        let Par { input, params: _, xap, phantom: _ } = self;
        runner::collect_chunked(&xap, input, chunk_len, schedule, &mut output);
        proof {
            assert forall|out: Seq<O>| Seq::<O>::empty() + out == out by {
                assert(Seq::<O>::empty() + out =~= out);
            }
        }
        output
    }

    // reduce

    /// The number of outputs; a count beyond `usize::MAX` is reported as `usize::MAX`.
    pub fn count(self) -> (r: usize)
        requires
            self.ready(),
        ensures
            exists|out: Seq<O>|
                self.outputs(out) && r == capped(out.len()) && (out.len() <= usize::MAX ==> r == out.len()),
    {
        let ghost me = self;
        let r = runner::count(&self.xap, self.input);
        proof {
            let out = choose|out: Seq<O>|
                produces(me.xap, me.input@, out) && r == capped(out.len()) && (out.len() <= usize::MAX ==> r
                    == out.len());
            assert(me.outputs(out));
        }
        r
    }

    /// Reduces the outputs from the left with `op`; `None` when there is no output.
    pub fn reduce<F: Fn(O, O) -> O>(self, op: F) -> (r: Option<O>)
        requires
            self.ready(),
            forall|out: Seq<O>| self.outputs(out) ==> fold_callable(op, out),
        ensures
            exists|out: Seq<O>| self.outputs(out) && reduces(call_step(op), out, r),
    {
        let ghost me = self;
        let outputs = self.collect_vec();
        proof {
            assert(me.outputs(outputs@));
        }
        fold_vec(outputs, op)
    }

    // find

    /// The first output together with the position of the input it came from; inputs
    /// after it are not transformed.
    pub fn first_with_index(self) -> (r: Option<(usize, O)>)
        requires
            self.ready(),
        ensures
            is_first(self.xap, self.input@, r),
    {
        runner::first_with_index(&self.xap, self.input)
    }

    /// The first output; `None` when there is none.
    pub fn first(self) -> (r: Option<O>)
        requires
            self.ready(),
        ensures
            exists|f: Option<(usize, O)>|
                is_first(self.xap, self.input@, f) && r == (match f {
                    Some(p) => Some(p.1),
                    None => None::<O>,
                }),
    {
        let ghost xap = self.xap;
        let ghost input = self.input@;
        let f = self.first_with_index();
        match f {
            Some(p) => Some(p.1),
            None => None,
        }
    }

    /// The first output satisfying `predicate`, together with the position of the
    /// input it came from.
    pub fn find_with_index<P: Fn(&O) -> bool>(self, predicate: P) -> (r: Option<(usize, O)>)
        requires
            self.ready(),
            forall|o: O| call_requires(predicate, (&o,)),
        ensures
            is_first(filtered(self.xap, predicate), self.input@, r),
    {
        let f = self.filter(predicate);
        f.first_with_index()
    }

    /// The first output satisfying `predicate`; `None` when there is none.
    pub fn find<P: Fn(&O) -> bool>(self, predicate: P) -> (r: Option<O>)
        requires
            self.ready(),
            forall|o: O| call_requires(predicate, (&o,)),
        ensures
            exists|f: Option<(usize, O)>|
                is_first(filtered(self.xap, predicate), self.input@, f) && r == (match f {
                    Some(p) => Some(p.1),
                    None => None::<O>,
                }),
    {
        let ghost xap = self.xap;
        let ghost input = self.input@;
        let f = self.find_with_index(predicate);
        match f {
            Some(p) => Some(p.1),
            None => None,
        }
    }

    /// Whether some output satisfies `predicate`.
    pub fn any<P: Fn(&O) -> bool>(self, predicate: P) -> (r: bool)
        requires
            self.ready(),
            forall|o: O| call_requires(predicate, (&o,)),
        ensures
            exists|f: Option<(usize, O)>|
                is_first(filtered(self.xap, predicate), self.input@, f) && r == f is Some,
    {
        let f = self.find_with_index(predicate);
        f.is_some()
    }

    /// Whether every output satisfies `predicate`: true when no output violates it.
    /// Inputs after the first violating output are not transformed.
    pub fn all<P: Fn(&O) -> bool>(self, predicate: P) -> (r: bool)
        requires
            self.ready(),
            forall|o: O| call_requires(predicate, (&o,)),
        ensures
            exists|f: Option<(usize, O)>|
                is_first(rejected(self.xap, predicate), self.input@, f) && r == f is None,
    {
        let Par { input, params, xap, phantom: _ } = self;
        let violations: Par<T, O, XReject<O, X, P>> = Par::new(input, params, XReject::new(xap, predicate));
        let f = violations.first_with_index();
        f.is_none()
    }

    /// Calls `operation` on every output, in input order.
    pub fn for_each<F: Fn(O)>(self, operation: F)
        requires
            self.ready(),
            forall|o: O| call_requires(operation, (o,)),
        ensures
            exists|out: Seq<O>|
                self.outputs(out) && forall|i: int| 0 <= i < out.len() ==> call_ensures(operation, (#[trigger] out[i],), ()),
    {
        let ghost me = self;
        let outputs = self.collect_vec();
        let ghost out = outputs@;
        for o in it: outputs.into_iter()
            invariant
                forall|o: O| call_requires(operation, (o,)),
                it.seq() == out,
                forall|i: int| 0 <= i < it.index() ==> call_ensures(operation, (#[trigger] out[i],), ()),
        {
            proof {
                assert(o == out[it.index() as int]);
            }
            operation(o);
        }
        proof {
            assert(me.outputs(out));
        }
    }
}

impl<'a, T, Q: 'a, X: Xap<T, &'a Q>> Par<T, &'a Q, X> {
    /// The iterator yielding copies of the referenced outputs.
    pub fn copied(self) -> (r: Par<T, Q, XCopied<X>>) where Q: Copy
        ensures
            r.input == self.input,
            r.params == self.params,
            r.xap.inner == self.xap,
            self.ready() ==> r.ready(),
    {
        Par { input: self.input, params: self.params, xap: XCopied { inner: self.xap }, phantom: PhantomData }
    }

    /// The iterator yielding clones of the referenced outputs.
    pub fn cloned(self) -> (r: Par<T, Q, XCloned<X>>) where Q: Clone
        ensures
            r.input == self.input,
            r.params == self.params,
            r.xap.inner == self.xap,
            self.ready() ==> r.ready(),
    {
        Par { input: self.input, params: self.params, xap: XCloned { inner: self.xap }, phantom: PhantomData }
    }
}

impl<T, O, X: Xap<T, O>> Reduce<O> for Par<T, O, X> {
    open spec fn reduce_ready(&self) -> bool {
        accepts_all(self.xap, self.input@)
    }

    open spec fn reduce_outputs(&self, out: Seq<O>) -> bool {
        produces(self.xap, self.input@, out)
    }

    fn reduce<R: Fn(O, O) -> O>(self, op: R) -> (r: Option<O>) {
        let ghost me = self;
        let r = Par::reduce(self, op);
        proof {
            let out = choose|out: Seq<O>| me.outputs(out) && reduces(call_step(op), out, r);
            assert(me.reduce_outputs(out));
        }
        r
    }
}

/// Access to the length of the input of a parallel iterator.
pub trait ParIterCore {
    /// The length of the input, when it is known.
    spec fn input_len_spec(&self) -> Option<usize>;

    /// Returns the length of the input, when it is known.
    fn input_len(&self) -> (r: Option<usize>)
        ensures
            r == self.input_len_spec(),
    ;
}

impl<T, O, X: Xap<T, O>> ParIterCore for Par<T, O, X> {
    open spec fn input_len_spec(&self) -> Option<usize> {
        Some(self.input@.len() as usize)
    }

    fn input_len(&self) -> (r: Option<usize>) {
        Some(self.input.len())
    }
}

/// Conversion of a collection into a parallel iterator over its elements.
pub trait IntoPar<T>: Sized {
    /// The elements of the collection, in order.
    spec fn elements(self) -> Seq<T>;

    /// A parallel iterator over the elements, with default parameters.
    fn into_par(self) -> (r: Par<T, T, Id>)
        ensures
            r.input@ == self.elements(),
            r.params == Params::default_spec(),
    ;
}

impl<T> IntoPar<T> for Vec<T> {
    open spec fn elements(self) -> Seq<T> {
        self@
    }

    fn into_par(self) -> (r: Par<T, T, Id>)
        ensures
            r.input@ == self@,
    {
        par(self)
    }
}

impl IntoPar<usize> for core::ops::Range<usize> {
    open spec fn elements(self) -> Seq<usize> {
        Seq::new(
            if self.start <= self.end {
                (self.end - self.start) as nat
            } else {
                0
            },
            |i: int| (self.start + i) as usize,
        )
    }

    fn into_par(self) -> (r: Par<usize, usize, Id>)
        ensures
            self.start <= self.end ==> r.input@.len() == self.end - self.start,
            self.start > self.end ==> r.input@.len() == 0,
            forall|i: int| 0 <= i < r.input@.len() ==> r.input@[i] == self.start + i,
    {
        let mut v: Vec<usize> = Vec::new();
        let mut i = self.start;
        while i < self.end
            invariant
                self.start <= i,
                self.start <= self.end ==> i <= self.end,
                self.start > self.end ==> i == self.start,
                v@.len() == i - self.start,
                forall|j: int| 0 <= j < v@.len() ==> #[trigger] v@[j] == self.start + j,
            decreases self.end - i,
        {
            v.push(i);
            i = i + 1;
        }
        proof {
            assert(v@ =~= self.elements());
        }
        par(v)
    }
}

/// A collection whose elements can be iterated in parallel by reference.
pub trait Parallelizable<T> {
    /// The elements of the collection, in order.
    spec fn elements_ref(&self) -> Seq<T>;

    /// A parallel iterator over references to the elements, with default parameters.
    fn par(&self) -> (r: Par<&T, &T, Id>)
        ensures
            r.input@.len() == self.elements_ref().len(),
            forall|i: int| 0 <= i < r.input@.len() ==> *r.input@[i] == self.elements_ref()[i],
            r.params == Params::default_spec(),
    ;
}

impl<T> Parallelizable<T> for Vec<T> {
    open spec fn elements_ref(&self) -> Seq<T> {
        self@
    }

    fn par(&self) -> (r: Par<&T, &T, Id>) {
        let mut refs: Vec<&T> = Vec::new();
        let mut i: usize = 0;
        while i < self.len()
            invariant
                i <= self@.len(),
                refs@.len() == i,
                forall|j: int| 0 <= j < i ==> *refs@[j] == self@[j],
            decreases self@.len() - i,
        {
            refs.push(&self[i]);
            i = i + 1;
        }
        par(refs)
    }
}

impl<T> Parallelizable<T> for [T] {
    open spec fn elements_ref(&self) -> Seq<T> {
        self@
    }

    fn par(&self) -> (r: Par<&T, &T, Id>)
        ensures
            r.input@.len() == self@.len(),
            forall|i: int| 0 <= i < r.input@.len() ==> *r.input@[i] == self@[i],
    {
        let mut refs: Vec<&T> = Vec::new();
        let mut i: usize = 0;
        while i < self.len()
            invariant
                i <= self@.len(),
                refs@.len() == i,
                forall|j: int| 0 <= j < i ==> *refs@[j] == self@[j],
            decreases self@.len() - i,
        {
            refs.push(&self[i]);
            i = i + 1;
        }
        par(refs)
    }
}

/// A collection whose elements can be iterated in parallel by reference.
pub trait ParallelizableCollection<T> {
    /// The elements of the collection, in order.
    spec fn collection_elements(&self) -> Seq<T>;

    /// A parallel iterator over references to the elements, with default parameters.
    fn par(&self) -> (r: Par<&T, &T, Id>)
        ensures
            r.input@.len() == self.collection_elements().len(),
            forall|i: int| 0 <= i < r.input@.len() ==> *r.input@[i] == self.collection_elements()[i],
            r.params == Params::default_spec(),
    ;
}

impl<T> ParallelizableCollection<T> for Vec<T> {
    open spec fn collection_elements(&self) -> Seq<T> {
        self@
    }

    fn par(&self) -> (r: Par<&T, &T, Id>) {
        Parallelizable::par(self)
    }
}

/// A collection whose elements in a range can be drained into a parallel iterator.
pub trait ParallelDrainableOverSlice<T>: Sized {
    /// The elements of the collection, in order.
    spec fn drainable_elements(&self) -> Seq<T>;

    /// Removes the elements at positions `range` from the collection, keeping the
    /// others in order, and returns a parallel iterator over the removed elements,
    /// in order, with default parameters.
    fn par_drain(&mut self, range: core::ops::Range<usize>) -> (r: Par<T, T, Id>)
        requires
            range.start <= range.end <= old(self).drainable_elements().len(),
        ensures
            r.input@ == old(self).drainable_elements().subrange(range.start as int, range.end as int),
            final(self).drainable_elements() == old(self).drainable_elements().subrange(0, range.start as int)
                + old(self).drainable_elements().subrange(range.end as int, old(self).drainable_elements().len() as int),
            r.params == Params::default_spec(),
    ;
}

impl<T> ParallelDrainableOverSlice<T> for Vec<T> {
    open spec fn drainable_elements(&self) -> Seq<T> {
        self@
    }

    fn par_drain(&mut self, range: core::ops::Range<usize>) -> (r: Par<T, T, Id>) {
        let mut tail = self.split_off(range.end);
        let drained = self.split_off(range.start);
        self.append(&mut tail);
        par(drained)
    }
}

/// The parallel iterator with no transformation.
pub type ParEmpty<T> = Par<T, T, Id>;

/// A parallel iterator mapping its inputs.
pub type ParMap<T, O, M> = Par<T, O, XMap<T, Id, M>>;

/// A parallel iterator filtering its inputs.
pub type ParFilter<T, F> = Par<T, T, XFilter<T, Id, F>>;

/// A parallel iterator mapping its inputs and filtering the results.
pub type ParMapFilter<T, O, M, F> = Par<T, O, XFilter<O, XMap<T, Id, M>, F>>;

/// A parallel iterator keeping the successful values of a fallible map of its inputs.
pub type ParFilterMap<T, FO, O, M> = Par<T, O, XFilterMap<T, FO, Id, M>>;

/// A parallel iterator keeping the successful values of a fallible map of its inputs
/// and filtering them.
pub type ParFilterMapFilter<T, FO, O, M, F> = Par<T, O, XFilter<O, XFilterMap<T, FO, Id, M>, F>>;

/// A parallel iterator flat-mapping its inputs.
pub type ParFlatMap<T, O, M> = Par<T, O, XFlatMap<T, Id, M>>;

/// A parallel iterator flat-mapping its inputs and filtering the results.
pub type ParFlatMapFilter<T, O, M, F> = Par<T, O, XFilter<O, XFlatMap<T, Id, M>, F>>;

/// Another name of [`ParFlatMap`].
pub type ParFMap<T, O, M> = ParFlatMap<T, O, M>;

/// Another name of [`ParFlatMapFilter`].
pub type ParFMapFilter<T, O, M, F> = ParFlatMapFilter<T, O, M, F>;

} // verus!

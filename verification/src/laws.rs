//! Laws of parallel iterators.
//!
//! The outputs of a pipeline are those of its sequential counterpart: mapping,
//! filtering, filter-mapping or flat-mapping the outputs of a parallel iterator gives
//! exactly the mapped, filtered, filter-mapped or flat-mapped outputs of the iterator,
//! in the same order. With transformations whose closures always return the same
//! result for the same argument, the outputs are unique, so that no parameter of the
//! computation (number of threads, chunk size, processing order of the chunks) can
//! change them; such transformations stay so under composition.
//!
//! A fallible iterator transforms the successes of its base only and keeps each
//! failure as it is; with closures that always return the same result for the same
//! argument, it either succeeds with a single sequence of successes, or every
//! computation on it ends with its first failure.
use vstd::prelude::*;
use crate::fallible::{Fallible, IntoResult};
use crate::par::{IntoPar, Par, ParallelDrainableOverSlice, Parallelizable, ParallelizableCollection};
use crate::reduce::Reduce;
use crate::par_result::{
    all_ok, fails_after, fails_with, first_result, lifted, lifted_outputs, lifts, oks, option_of, XLift,
};
use crate::parameters::{chunk_size_of, num_threads_of, ChunkSize, NonZeroUsize, NumThreads};
use crate::runner::{call_step, capped, fold_steps, is_first, reduces};
use crate::seqs::{flatten, keep, lemma_flatten_append, values_of, views_of};
use crate::xap::{
    flagged, inspected, mapped, negated, outputs_of, produces, rejected, Id, XFilter, XFilterMap, XFlatMap,
    XCloned, XCopied, XInspect, XMap, XReject, Xap,
};

verus! {

/// Every input has at most one possible output sequence.
pub open spec fn deterministic<I, O, X: Xap<I, O>>(xap: X) -> bool {
    forall|x: I, ys1: Seq<O>, ys2: Seq<O>| #[trigger] xap.yields(x, ys1) && #[trigger] xap.yields(x, ys2) ==> ys1 == ys2
}

/// With a deterministic transformation, the outputs of an input sequence are unique:
/// every way of computing them (sequentially or chunk by chunk, in any order, with any
/// number of threads) gives the same result.
pub proof fn lemma_outputs_unique<I, O, X: Xap<I, O>>(xap: X, input: Seq<I>, out1: Seq<O>, out2: Seq<O>)
    requires
        deterministic(xap),
        produces(xap, input, out1),
        produces(xap, input, out2),
    ensures
        out1 == out2,
{
    let per1 = choose|per: Seq<Seq<O>>| #[trigger] outputs_of(xap, input, per) && out1 == flatten(per);
    let per2 = choose|per: Seq<Seq<O>>| #[trigger] outputs_of(xap, input, per) && out2 == flatten(per);
    assert forall|i: int| 0 <= i < per1.len() implies per1[i] == per2[i] by {
        assert(xap.yields(input[i], per1[i]));
        assert(xap.yields(input[i], per2[i]));
    }
    assert(per1 =~= per2);
}

/// Transforming one more input appends its outputs.
pub proof fn lemma_produces_push<I, O, X: Xap<I, O>>(xap: X, input: Seq<I>, out: Seq<O>, x: I, ys: Seq<O>)
    requires
        produces(xap, input, out),
        xap.yields(x, ys),
    ensures
        produces(xap, input.push(x), out + ys),
{
    let per = choose|per: Seq<Seq<O>>| #[trigger] outputs_of(xap, input, per) && out == flatten(per);
    let per2 = per.push(ys);
    assert(per2.drop_last() =~= per);
    let input2 = input.push(x);
    assert forall|i: int| 0 <= i < input2.len() implies xap.yields(#[trigger] input2[i], per2[i]) by {
        if i < input.len() {
            assert(input2[i] == input[i]);
        }
    }
    assert(outputs_of(xap, input2, per2));
}

/// The outputs of a non-empty input are the outputs of all but its last element
/// followed by the outputs of its last element.
pub proof fn lemma_produces_last<I, O, X: Xap<I, O>>(xap: X, input: Seq<I>, out: Seq<O>) -> (r: (Seq<O>, Seq<O>))
    requires
        produces(xap, input, out),
        input.len() > 0,
    ensures
        produces(xap, input.drop_last(), r.0),
        xap.yields(input.last(), r.1),
        out == r.0 + r.1,
{
    let per = choose|per: Seq<Seq<O>>| #[trigger] outputs_of(xap, input, per) && out == flatten(per);
    let init = input.drop_last();
    assert forall|i: int| 0 <= i < init.len() implies xap.yields(#[trigger] init[i], per.drop_last()[i]) by {
        assert(init[i] == input[i]);
    }
    assert(outputs_of(xap, init, per.drop_last()));
    assert(xap.yields(input[input.len() - 1], per[per.len() - 1]));
    (flatten(per.drop_last()), per.last())
}

/// An empty input has no output.
pub proof fn lemma_produces_empty<I, O, X: Xap<I, O>>(xap: X, out: Seq<O>)
    ensures
        produces(xap, Seq::<I>::empty(), out) <==> out == Seq::<O>::empty(),
{
    if out == Seq::<O>::empty() {
        let per = Seq::<Seq<O>>::empty();
        assert(outputs_of(xap, Seq::<I>::empty(), per));
        assert(flatten(per) =~= Seq::<O>::empty());
    }
}

/// A relation between the outputs of an inner transformation and those of a step
/// applied after it which can be cut and glued along sequences.
pub open spec fn segmentable<O, Q>(post: spec_fn(Seq<O>, Seq<Q>) -> bool) -> bool {
    &&& forall|ys: Seq<Q>| #[trigger] post(Seq::<O>::empty(), ys) <==> ys == Seq::<Q>::empty()
    &&& forall|a: Seq<O>, b: Seq<Q>, c: Seq<O>, d: Seq<Q>|
        #![trigger post(a + c, b + d)]
        post(a, b) && post(c, d) ==> post(a + c, b + d)
    &&& forall|a: Seq<O>, c: Seq<O>, y: Seq<Q>|
        #![trigger post(a + c, y)]
        post(a + c, y) ==> exists|b: Seq<Q>, d: Seq<Q>|
            y == b + d && #[trigger] post(a, b) && #[trigger] post(c, d)
}

/// Glues the step relation over the per-element outputs.
proof fn lemma_post_flatten<O, Q>(post: spec_fn(Seq<O>, Seq<Q>) -> bool, a: Seq<Seq<O>>, b: Seq<Seq<Q>>)
    requires
        segmentable(post),
        a.len() == b.len(),
        forall|i: int| 0 <= i < a.len() ==> #[trigger] post(a[i], b[i]),
    ensures
        post(flatten(a), flatten(b)),
    decreases a.len(),
{
    if a.len() == 0 {
        assert(post(Seq::<O>::empty(), Seq::<Q>::empty()));
    } else {
        lemma_post_flatten(post, a.drop_last(), b.drop_last());
        assert(post(a[a.len() - 1], b[b.len() - 1]));
        assert(post(flatten(a.drop_last()) + a.last(), flatten(b.drop_last()) + b.last()));
    }
}

/// The outputs of a step applied after an inner transformation are exactly the
/// step applied to the outputs of the inner transformation.
pub proof fn lemma_step_outputs<I, O, Q, X: Xap<I, O>, C: Xap<I, Q>>(
    inner: X,
    outer: C,
    post: spec_fn(Seq<O>, Seq<Q>) -> bool,
    input: Seq<I>,
    out: Seq<Q>,
)
    requires
        segmentable(post),
        forall|x: I, ys: Seq<Q>| #[trigger] outer.yields(x, ys) <==> exists|zs: Seq<O>| #[trigger] inner.yields(x, zs) && post(zs, ys),
    ensures
        produces(outer, input, out) <==> exists|mid: Seq<O>| #[trigger] produces(inner, input, mid) && post(mid, out),
    decreases input.len(),
{
    if produces(outer, input, out) {
        let per = choose|per: Seq<Seq<Q>>| #[trigger] outputs_of(outer, input, per) && out == flatten(per);
        let mid_per = Seq::new(input.len(), |i: int| choose|zs: Seq<O>| #[trigger] inner.yields(input[i], zs) && post(zs, per[i]));
        assert forall|i: int| 0 <= i < input.len() implies #[trigger] inner.yields(input[i], mid_per[i]) && post(mid_per[i], per[i]) by {
            assert(outer.yields(input[i], per[i]));
        }
        assert(outputs_of(inner, input, mid_per));
        assert forall|i: int| 0 <= i < mid_per.len() implies #[trigger] post(mid_per[i], per[i]) by {
        }
        lemma_post_flatten(post, mid_per, per);
        assert(produces(inner, input, flatten(mid_per)));
        assert(post(flatten(mid_per), out));
    }
    if exists|mid: Seq<O>| #[trigger] produces(inner, input, mid) && post(mid, out) {
        let mid = choose|mid: Seq<O>| #[trigger] produces(inner, input, mid) && post(mid, out);
        if input.len() == 0 {
            assert(input =~= Seq::<I>::empty());
            lemma_produces_empty(inner, mid);
            assert(out == Seq::<Q>::empty());
            lemma_produces_empty(outer, out);
            assert(produces(outer, input, out));
        } else {
            let (m0, m1) = lemma_produces_last(inner, input, mid);
            assert(post(m0 + m1, out));
            let (b, d) = choose|b: Seq<Q>, d: Seq<Q>| out == b + d && #[trigger] post(m0, b) && #[trigger] post(m1, d);
            lemma_step_outputs(inner, outer, post, input.drop_last(), b);
            assert(outer.yields(input.last(), d));
            lemma_produces_push(outer, input.drop_last(), b, input.last(), d);
            assert(input.drop_last().push(input.last()) =~= input);
            assert(produces(outer, input, out));
        }
    }
}

/// Mapping step relation.
pub open spec fn map_post<O, Q, H: Fn(O) -> Q>(h: H) -> spec_fn(Seq<O>, Seq<Q>) -> bool {
    |zs: Seq<O>, ys: Seq<Q>| mapped(h, zs, ys)
}

proof fn lemma_map_segmentable<O, Q, H: Fn(O) -> Q>(h: H)
    ensures
        segmentable(map_post(h)),
{
    let post = map_post(h);
    assert forall|ys: Seq<Q>| #[trigger] post(Seq::<O>::empty(), ys) <==> ys == Seq::<Q>::empty() by {
        if ys.len() == 0 {
            assert(ys =~= Seq::<Q>::empty());
        }
    }
    assert forall|a: Seq<O>, b: Seq<Q>, c: Seq<O>, d: Seq<Q>|
        #![trigger post(a + c, b + d)]
        post(a, b) && post(c, d) implies post(a + c, b + d) by {
        assert forall|i: int| 0 <= i < (a + c).len() implies call_ensures(h, ((a + c)[i],), #[trigger] (b + d)[i]) by {
            if i < a.len() {
                assert(call_ensures(h, (a[i],), b[i]));
            } else {
                assert(call_ensures(h, (c[i - a.len()],), d[i - a.len()]));
            }
        }
    }
    assert forall|a: Seq<O>, c: Seq<O>, y: Seq<Q>|
        #![trigger post(a + c, y)]
        post(a + c, y) implies exists|b: Seq<Q>, d: Seq<Q>|
            y == b + d && #[trigger] post(a, b) && #[trigger] post(c, d) by {
        let b = y.take(a.len() as int);
        let d = y.skip(a.len() as int);
        assert(y =~= b + d);
        assert forall|i: int| 0 <= i < a.len() implies call_ensures(h, (a[i],), #[trigger] b[i]) by {
            assert(call_ensures(h, ((a + c)[i],), y[i]));
        }
        assert forall|i: int| 0 <= i < c.len() implies call_ensures(h, (c[i],), #[trigger] d[i]) by {
            assert(call_ensures(h, ((a + c)[i + a.len()],), y[i + a.len()]));
        }
        assert(post(a, b) && post(c, d));
    }
}

/// The outputs of a mapped iterator are the outputs of the iterator, each mapped, in
/// the same order.
pub proof fn law_map_outputs<I, O, Q, X: Xap<I, O>, H: Fn(O) -> Q>(
    step: XMap<O, X, H>,
    input: Seq<I>,
    out: Seq<Q>,
)
    ensures
        produces(step, input, out) <==> exists|mid: Seq<O>|
            #[trigger] produces(step.inner, input, mid) && mapped(step.map, mid, out),
{
    lemma_map_segmentable(step.map);
    let post = map_post::<O, Q, H>(step.map);
    assert forall|x: I, ys: Seq<Q>| #[trigger] step.yields(x, ys) <==> exists|zs: Seq<O>|
        #[trigger] step.inner.yields(x, zs) && post(zs, ys) by {
    }
    lemma_step_outputs(step.inner, step, post, input, out);
}

/// Keeping flagged elements distributes over concatenation.
pub proof fn lemma_keep_append<A>(a: Seq<A>, fa: Seq<bool>, c: Seq<A>, fc: Seq<bool>)
    requires
        fa.len() == a.len(),
        fc.len() == c.len(),
    ensures
        keep(a + c, fa + fc) == keep(a, fa) + keep(c, fc),
    decreases c.len(),
{
    if c.len() == 0 {
        assert(a + c =~= a);
        assert(fa + fc =~= fa);
        assert(keep(c, fc) =~= Seq::<A>::empty());
        assert(keep(a, fa) + keep(c, fc) =~= keep(a, fa));
    } else {
        lemma_keep_append(a, fa, c.drop_last(), fc.drop_last());
        assert((a + c).drop_last() =~= a + c.drop_last());
        assert((fa + fc).drop_last() =~= fa + fc.drop_last());
        assert((a + c).last() == c.last());
        assert((fa + fc)[(a + c).len() - 1] == fc[c.len() - 1]);
        if fc[c.len() - 1] {
            assert(keep(a, fa) + keep(c, fc) =~= (keep(a, fa) + keep(c.drop_last(), fc.drop_last())).push(c.last()));
        } else {
            assert(keep(a, fa) + keep(c, fc) =~= keep(a, fa) + keep(c.drop_last(), fc.drop_last()));
        }
    }
}

/// Filtering step relation.
pub open spec fn filter_post<O, H: Fn(&O) -> bool>(h: H) -> spec_fn(Seq<O>, Seq<O>) -> bool {
    |zs: Seq<O>, ys: Seq<O>| exists|flags: Seq<bool>| #[trigger] flagged(h, zs, flags) && ys == keep(zs, flags)
}

proof fn lemma_filter_segmentable<O, H: Fn(&O) -> bool>(h: H)
    ensures
        segmentable(filter_post(h)),
{
    let post = filter_post(h);
    assert forall|ys: Seq<O>| #[trigger] post(Seq::<O>::empty(), ys) <==> ys == Seq::<O>::empty() by {
        if ys == Seq::<O>::empty() {
            assert(flagged(h, Seq::<O>::empty(), Seq::<bool>::empty()));
        }
    }
    assert forall|a: Seq<O>, b: Seq<O>, c: Seq<O>, d: Seq<O>|
        #![trigger post(a + c, b + d)]
        post(a, b) && post(c, d) implies post(a + c, b + d) by {
        let fa = choose|flags: Seq<bool>| #[trigger] flagged(h, a, flags) && b == keep(a, flags);
        let fc = choose|flags: Seq<bool>| #[trigger] flagged(h, c, flags) && d == keep(c, flags);
        lemma_keep_append(a, fa, c, fc);
        assert forall|i: int| 0 <= i < (a + c).len() implies call_ensures(h, (&(a + c)[i],), #[trigger] (fa + fc)[i]) by {
            if i < a.len() {
                assert(call_ensures(h, (&a[i],), fa[i]));
            } else {
                assert(call_ensures(h, (&c[i - a.len()],), fc[i - a.len()]));
            }
        }
        assert(flagged(h, a + c, fa + fc));
    }
    assert forall|a: Seq<O>, c: Seq<O>, y: Seq<O>|
        #![trigger post(a + c, y)]
        post(a + c, y) implies exists|b: Seq<O>, d: Seq<O>|
            y == b + d && #[trigger] post(a, b) && #[trigger] post(c, d) by {
        let f = choose|flags: Seq<bool>| #[trigger] flagged(h, a + c, flags) && y == keep(a + c, flags);
        let fa = f.take(a.len() as int);
        let fc = f.skip(a.len() as int);
        assert(f =~= fa + fc);
        lemma_keep_append(a, fa, c, fc);
        assert forall|i: int| 0 <= i < a.len() implies call_ensures(h, (&a[i],), #[trigger] fa[i]) by {
            assert(call_ensures(h, (&(a + c)[i],), f[i]));
        }
        assert forall|i: int| 0 <= i < c.len() implies call_ensures(h, (&c[i],), #[trigger] fc[i]) by {
            assert(call_ensures(h, (&(a + c)[i + a.len()],), f[i + a.len()]));
        }
        assert(flagged(h, a, fa));
        assert(flagged(h, c, fc));
        assert(post(a, keep(a, fa)) && post(c, keep(c, fc)));
    }
}

/// The outputs of a filtered iterator are the outputs of the iterator for which the
/// filter returns true, in the same order.
pub proof fn law_filter_outputs<I, O, X: Xap<I, O>, H: Fn(&O) -> bool>(
    step: XFilter<O, X, H>,
    input: Seq<I>,
    out: Seq<O>,
)
    ensures
        produces(step, input, out) <==> exists|mid: Seq<O>, flags: Seq<bool>|
            #[trigger] produces(step.inner, input, mid) && #[trigger] flagged(step.filter, mid, flags)
                && out == keep(mid, flags),
{
    lemma_filter_segmentable(step.filter);
    let post = filter_post::<O, H>(step.filter);
    assert forall|x: I, ys: Seq<O>| #[trigger] step.yields(x, ys) <==> exists|zs: Seq<O>|
        #[trigger] step.inner.yields(x, zs) && post(zs, ys) by {
        if step.yields(x, ys) {
            let (zs, flags) = choose|zs: Seq<O>, flags: Seq<bool>|
                #[trigger] step.inner.yields(x, zs) && #[trigger] flagged(step.filter, zs, flags) && ys == keep(zs, flags);
            assert(post(zs, ys));
        }
    }
    lemma_step_outputs(step.inner, step, post, input, out);
    if produces(step, input, out) {
        let mid = choose|mid: Seq<O>| #[trigger] produces(step.inner, input, mid) && post(mid, out);
        let flags = choose|flags: Seq<bool>| #[trigger] flagged(step.filter, mid, flags) && out == keep(mid, flags);
        assert(produces(step.inner, input, mid) && flagged(step.filter, mid, flags));
    }
    if exists|mid: Seq<O>, flags: Seq<bool>|
        #[trigger] produces(step.inner, input, mid) && #[trigger] flagged(step.filter, mid, flags) && out == keep(mid, flags) {
        let (mid, flags) = choose|mid: Seq<O>, flags: Seq<bool>|
            #[trigger] produces(step.inner, input, mid) && #[trigger] flagged(step.filter, mid, flags) && out == keep(mid, flags);
        assert(post(mid, out));
    }
}

/// Taking successful values distributes over concatenation.
pub proof fn lemma_values_of_append<T, F: Fallible<T>>(a: Seq<F>, c: Seq<F>)
    ensures
        values_of(a + c) == values_of(a) + values_of(c),
    decreases c.len(),
{
    if c.len() == 0 {
        assert(a + c =~= a);
        assert(values_of(c) =~= Seq::<T>::empty());
        assert(values_of(a) + values_of(c) =~= values_of(a));
    } else {
        lemma_values_of_append(a, c.drop_last());
        assert((a + c).drop_last() =~= a + c.drop_last());
        assert((a + c).last() == c.last());
        if c.last().has_value_spec() {
            assert(values_of(a) + values_of(c) =~= (values_of(a) + values_of(c.drop_last())).push(c.last().value_spec()));
        } else {
            assert(values_of(a) + values_of(c) =~= values_of(a) + values_of(c.drop_last()));
        }
    }
}

/// Filter-mapping step relation.
pub open spec fn filter_map_post<O, Q, FO: Fallible<Q>, H: Fn(O) -> FO>(h: H) -> spec_fn(Seq<O>, Seq<Q>) -> bool {
    |zs: Seq<O>, ys: Seq<Q>| exists|fos: Seq<FO>| #[trigger] mapped(h, zs, fos) && ys == values_of(fos)
}

proof fn lemma_filter_map_segmentable<O, Q, FO: Fallible<Q>, H: Fn(O) -> FO>(h: H)
    ensures
        segmentable(filter_map_post::<O, Q, FO, H>(h)),
{
    let post = filter_map_post::<O, Q, FO, H>(h);
    assert forall|ys: Seq<Q>| #[trigger] post(Seq::<O>::empty(), ys) <==> ys == Seq::<Q>::empty() by {
        if ys == Seq::<Q>::empty() {
            assert(mapped(h, Seq::<O>::empty(), Seq::<FO>::empty()));
        }
        if post(Seq::<O>::empty(), ys) {
            let fos = choose|fos: Seq<FO>| #[trigger] mapped(h, Seq::<O>::empty(), fos) && ys == values_of(fos);
            assert(fos =~= Seq::<FO>::empty());
        }
    }
    assert forall|a: Seq<O>, b: Seq<Q>, c: Seq<O>, d: Seq<Q>|
        #![trigger post(a + c, b + d)]
        post(a, b) && post(c, d) implies post(a + c, b + d) by {
        let fa = choose|fos: Seq<FO>| #[trigger] mapped(h, a, fos) && b == values_of(fos);
        let fc = choose|fos: Seq<FO>| #[trigger] mapped(h, c, fos) && d == values_of(fos);
        lemma_values_of_append(fa, fc);
        assert forall|i: int| 0 <= i < (a + c).len() implies call_ensures(h, ((a + c)[i],), #[trigger] (fa + fc)[i]) by {
            if i < a.len() {
                assert(call_ensures(h, (a[i],), fa[i]));
            } else {
                assert(call_ensures(h, (c[i - a.len()],), fc[i - a.len()]));
            }
        }
        assert(mapped(h, a + c, fa + fc));
    }
    assert forall|a: Seq<O>, c: Seq<O>, y: Seq<Q>|
        #![trigger post(a + c, y)]
        post(a + c, y) implies exists|b: Seq<Q>, d: Seq<Q>|
            y == b + d && #[trigger] post(a, b) && #[trigger] post(c, d) by {
        let f = choose|fos: Seq<FO>| #[trigger] mapped(h, a + c, fos) && y == values_of(fos);
        let fa = f.take(a.len() as int);
        let fc = f.skip(a.len() as int);
        assert(f =~= fa + fc);
        lemma_values_of_append(fa, fc);
        assert forall|i: int| 0 <= i < a.len() implies call_ensures(h, (a[i],), #[trigger] fa[i]) by {
            assert(call_ensures(h, ((a + c)[i],), f[i]));
        }
        assert forall|i: int| 0 <= i < c.len() implies call_ensures(h, (c[i],), #[trigger] fc[i]) by {
            assert(call_ensures(h, ((a + c)[i + a.len()],), f[i + a.len()]));
        }
        assert(mapped(h, a, fa));
        assert(mapped(h, c, fc));
        assert(post(a, values_of(fa)) && post(c, values_of(fc)));
    }
}

/// The outputs of a filter-mapped iterator are the successful values of the
/// filter-mapped outputs of the iterator, in the same order.
pub proof fn law_filter_map_outputs<I, O, Q, FO: Fallible<Q>, X: Xap<I, O>, H: Fn(O) -> FO>(
    step: XFilterMap<O, FO, X, H>,
    input: Seq<I>,
    out: Seq<Q>,
)
    ensures
        produces(step, input, out) <==> exists|mid: Seq<O>, fos: Seq<FO>|
            #[trigger] produces(step.inner, input, mid) && #[trigger] mapped(step.filter_map, mid, fos)
                && out == values_of(fos),
{
    lemma_filter_map_segmentable::<O, Q, FO, H>(step.filter_map);
    let post = filter_map_post::<O, Q, FO, H>(step.filter_map);
    assert forall|x: I, ys: Seq<Q>| #[trigger] step.yields(x, ys) <==> exists|zs: Seq<O>|
        #[trigger] step.inner.yields(x, zs) && post(zs, ys) by {
        if step.yields(x, ys) {
            let (zs, fos) = choose|zs: Seq<O>, fos: Seq<FO>|
                #[trigger] step.inner.yields(x, zs) && #[trigger] mapped(step.filter_map, zs, fos) && ys == values_of(fos);
            assert(post(zs, ys));
        }
    }
    lemma_step_outputs(step.inner, step, post, input, out);
    if produces(step, input, out) {
        let mid = choose|mid: Seq<O>| #[trigger] produces(step.inner, input, mid) && post(mid, out);
        let fos = choose|fos: Seq<FO>| #[trigger] mapped(step.filter_map, mid, fos) && out == values_of(fos);
        assert(produces(step.inner, input, mid) && mapped(step.filter_map, mid, fos));
    }
    if exists|mid: Seq<O>, fos: Seq<FO>|
        #[trigger] produces(step.inner, input, mid) && #[trigger] mapped(step.filter_map, mid, fos) && out == values_of(fos) {
        let (mid, fos) = choose|mid: Seq<O>, fos: Seq<FO>|
            #[trigger] produces(step.inner, input, mid) && #[trigger] mapped(step.filter_map, mid, fos) && out == values_of(fos);
        assert(post(mid, out));
    }
}

/// Flat-mapping step relation.
pub open spec fn flat_map_post<O, Q, H: Fn(O) -> Vec<Q>>(h: H) -> spec_fn(Seq<O>, Seq<Q>) -> bool {
    |zs: Seq<O>, ys: Seq<Q>| exists|vs: Seq<Vec<Q>>| #[trigger] mapped(h, zs, vs) && ys == flatten(views_of(vs))
}

proof fn lemma_views_of_append<A>(a: Seq<Vec<A>>, c: Seq<Vec<A>>)
    ensures
        views_of(a + c) == views_of(a) + views_of(c),
{
    assert(views_of(a + c) =~= views_of(a) + views_of(c));
}

proof fn lemma_flat_map_segmentable<O, Q, H: Fn(O) -> Vec<Q>>(h: H)
    ensures
        segmentable(flat_map_post::<O, Q, H>(h)),
{
    let post = flat_map_post::<O, Q, H>(h);
    assert forall|ys: Seq<Q>| #[trigger] post(Seq::<O>::empty(), ys) <==> ys == Seq::<Q>::empty() by {
        if ys == Seq::<Q>::empty() {
            assert(mapped(h, Seq::<O>::empty(), Seq::<Vec<Q>>::empty()));
            assert(views_of(Seq::<Vec<Q>>::empty()) =~= Seq::<Seq<Q>>::empty());
        }
        if post(Seq::<O>::empty(), ys) {
            let vs = choose|vs: Seq<Vec<Q>>| #[trigger] mapped(h, Seq::<O>::empty(), vs) && ys == flatten(views_of(vs));
            assert(views_of(vs) =~= Seq::<Seq<Q>>::empty());
        }
    }
    assert forall|a: Seq<O>, b: Seq<Q>, c: Seq<O>, d: Seq<Q>|
        #![trigger post(a + c, b + d)]
        post(a, b) && post(c, d) implies post(a + c, b + d) by {
        let va = choose|vs: Seq<Vec<Q>>| #[trigger] mapped(h, a, vs) && b == flatten(views_of(vs));
        let vc = choose|vs: Seq<Vec<Q>>| #[trigger] mapped(h, c, vs) && d == flatten(views_of(vs));
        lemma_views_of_append(va, vc);
        lemma_flatten_append(views_of(va), views_of(vc));
        assert forall|i: int| 0 <= i < (a + c).len() implies call_ensures(h, ((a + c)[i],), #[trigger] (va + vc)[i]) by {
            if i < a.len() {
                assert(call_ensures(h, (a[i],), va[i]));
            } else {
                assert(call_ensures(h, (c[i - a.len()],), vc[i - a.len()]));
            }
        }
        assert(mapped(h, a + c, va + vc));
    }
    assert forall|a: Seq<O>, c: Seq<O>, y: Seq<Q>|
        #![trigger post(a + c, y)]
        post(a + c, y) implies exists|b: Seq<Q>, d: Seq<Q>|
            y == b + d && #[trigger] post(a, b) && #[trigger] post(c, d) by {
        let v = choose|vs: Seq<Vec<Q>>| #[trigger] mapped(h, a + c, vs) && y == flatten(views_of(vs));
        let va = v.take(a.len() as int);
        let vc = v.skip(a.len() as int);
        assert(v =~= va + vc);
        lemma_views_of_append(va, vc);
        lemma_flatten_append(views_of(va), views_of(vc));
        assert forall|i: int| 0 <= i < a.len() implies call_ensures(h, (a[i],), #[trigger] va[i]) by {
            assert(call_ensures(h, ((a + c)[i],), v[i]));
        }
        assert forall|i: int| 0 <= i < c.len() implies call_ensures(h, (c[i],), #[trigger] vc[i]) by {
            assert(call_ensures(h, ((a + c)[i + a.len()],), v[i + a.len()]));
        }
        assert(mapped(h, a, va));
        assert(mapped(h, c, vc));
        assert(post(a, flatten(views_of(va))) && post(c, flatten(views_of(vc))));
    }
}

/// The outputs of a flat-mapped iterator are the elements of the vectors that the
/// outputs of the iterator are mapped to, concatenated in the same order.
pub proof fn law_flat_map_outputs<I, O, Q, X: Xap<I, O>, H: Fn(O) -> Vec<Q>>(
    step: XFlatMap<O, X, H>,
    input: Seq<I>,
    out: Seq<Q>,
)
    ensures
        produces(step, input, out) <==> exists|mid: Seq<O>, vs: Seq<Vec<Q>>|
            #[trigger] produces(step.inner, input, mid) && #[trigger] mapped(step.flat_map, mid, vs)
                && out == flatten(views_of(vs)),
{
    lemma_flat_map_segmentable::<O, Q, H>(step.flat_map);
    let post = flat_map_post::<O, Q, H>(step.flat_map);
    assert forall|x: I, ys: Seq<Q>| #[trigger] step.yields(x, ys) <==> exists|zs: Seq<O>|
        #[trigger] step.inner.yields(x, zs) && post(zs, ys) by {
        if step.yields(x, ys) {
            let (zs, vs) = choose|zs: Seq<O>, vs: Seq<Vec<Q>>|
                #[trigger] step.inner.yields(x, zs) && #[trigger] mapped(step.flat_map, zs, vs) && ys == flatten(views_of(vs));
            assert(post(zs, ys));
        }
    }
    lemma_step_outputs(step.inner, step, post, input, out);
    if produces(step, input, out) {
        let mid = choose|mid: Seq<O>| #[trigger] produces(step.inner, input, mid) && post(mid, out);
        let vs = choose|vs: Seq<Vec<Q>>| #[trigger] mapped(step.flat_map, mid, vs) && out == flatten(views_of(vs));
        assert(produces(step.inner, input, mid) && mapped(step.flat_map, mid, vs));
    }
    if exists|mid: Seq<O>, vs: Seq<Vec<Q>>|
        #[trigger] produces(step.inner, input, mid) && #[trigger] mapped(step.flat_map, mid, vs) && out == flatten(views_of(vs)) {
        let (mid, vs) = choose|mid: Seq<O>, vs: Seq<Vec<Q>>|
            #[trigger] produces(step.inner, input, mid) && #[trigger] mapped(step.flat_map, mid, vs) && out == flatten(views_of(vs));
        assert(post(mid, out));
    }
}

/// Inspecting step relation: the outputs are unchanged and the operation has been
/// called on each of them.
pub open spec fn inspect_post<O, H: Fn(&O)>(h: H) -> spec_fn(Seq<O>, Seq<O>) -> bool {
    |zs: Seq<O>, ys: Seq<O>| ys == zs && inspected(h, zs)
}

proof fn lemma_inspect_segmentable<O, H: Fn(&O)>(h: H)
    ensures
        segmentable(inspect_post(h)),
{
    let post = inspect_post(h);
    assert forall|ys: Seq<O>| #[trigger] post(Seq::<O>::empty(), ys) <==> ys == Seq::<O>::empty() by {
    }
    assert forall|a: Seq<O>, b: Seq<O>, c: Seq<O>, d: Seq<O>|
        #![trigger post(a + c, b + d)]
        post(a, b) && post(c, d) implies post(a + c, b + d) by {
        assert forall|i: int| 0 <= i < (a + c).len() implies call_ensures(h, (&#[trigger] (a + c)[i],), ()) by {
            if i < a.len() {
                assert(call_ensures(h, (&a[i],), ()));
            } else {
                assert(call_ensures(h, (&c[i - a.len()],), ()));
            }
        }
    }
    assert forall|a: Seq<O>, c: Seq<O>, y: Seq<O>|
        #![trigger post(a + c, y)]
        post(a + c, y) implies exists|b: Seq<O>, d: Seq<O>|
            y == b + d && #[trigger] post(a, b) && #[trigger] post(c, d) by {
        assert forall|i: int| 0 <= i < a.len() implies call_ensures(h, (&#[trigger] a[i],), ()) by {
            assert(call_ensures(h, (&(a + c)[i],), ()));
        }
        assert forall|i: int| 0 <= i < c.len() implies call_ensures(h, (&#[trigger] c[i],), ()) by {
            assert(call_ensures(h, (&(a + c)[i + a.len()],), ()));
        }
        assert(post(a, a) && post(c, c));
    }
}

/// Inspecting does not change the outputs, and the operation is called on each of
/// them.
pub proof fn law_inspect_outputs<I, O, X: Xap<I, O>, H: Fn(&O)>(step: XInspect<O, X, H>, input: Seq<I>, out: Seq<O>)
    ensures
        produces(step, input, out) <==> produces(step.inner, input, out) && inspected(step.operation, out),
{
    lemma_inspect_segmentable(step.operation);
    let post = inspect_post::<O, H>(step.operation);
    assert forall|x: I, ys: Seq<O>| #[trigger] step.yields(x, ys) <==> exists|zs: Seq<O>|
        #[trigger] step.inner.yields(x, zs) && post(zs, ys) by {
        if step.yields(x, ys) {
            assert(step.inner.yields(x, ys) && post(ys, ys));
        }
    }
    lemma_step_outputs(step.inner, step, post, input, out);
    if produces(step.inner, input, out) && inspected(step.operation, out) {
        assert(post(out, out));
    }
}

/// The outputs of the untransformed iterator are its inputs.
pub proof fn law_identity_outputs<T>(input: Seq<T>, out: Seq<T>)
    ensures
        produces(Id, input, out) <==> out == input,
    decreases input.len(),
{
    if input.len() == 0 {
        assert(input =~= Seq::<T>::empty());
        lemma_produces_empty(Id, out);
    } else {
        if produces(Id, input, out) {
            let (o1, o2) = lemma_produces_last(Id, input, out);
            law_identity_outputs(input.drop_last(), o1);
            assert(out =~= input);
        }
        if out == input {
            law_identity_outputs(input.drop_last(), input.drop_last());
            lemma_produces_push(Id, input.drop_last(), input.drop_last(), input.last(), seq![input.last()]);
            assert(input.drop_last().push(input.last()) =~= input);
            assert(input.drop_last() + seq![input.last()] =~= input);
        }
    }
}

/// With a deterministic transformation, the outputs of a prefix of the input are a
/// prefix of the outputs of the whole input.
pub proof fn lemma_produces_prefix<I, O, X: Xap<I, O>>(
    xap: X,
    input: Seq<I>,
    k: int,
    out: Seq<O>,
    full: Seq<O>,
)
    requires
        deterministic(xap),
        0 <= k <= input.len(),
        produces(xap, input.take(k), out),
        produces(xap, input, full),
    ensures
        out.len() <= full.len(),
        out == full.take(out.len() as int),
{
    let per = choose|per: Seq<Seq<O>>| #[trigger] outputs_of(xap, input.take(k), per) && out == flatten(per);
    let pf = choose|pf: Seq<Seq<O>>| #[trigger] outputs_of(xap, input, pf) && full == flatten(pf);
    assert forall|i: int| 0 <= i < k implies per[i] == pf.take(k)[i] by {
        assert(input.take(k)[i] == input[i]);
        assert(xap.yields(input.take(k)[i], per[i]));
        assert(xap.yields(input[i], pf[i]));
    }
    assert(per =~= pf.take(k));
    assert(pf.take(k) + pf.skip(k) =~= pf);
    lemma_flatten_append(pf.take(k), pf.skip(k));
    assert(full == out + flatten(pf.skip(k)));
    assert(out =~= full.take(out.len() as int));
}

/// With closures that always return the same result for the same argument, a
/// computation on a fallible iterator that stops at the first failure ends with `e`
/// exactly when `e` is the first failure among the results of the iterator.
pub proof fn law_fails_with_first_failure<T, Q, E, X: Xap<T, Result<Q, E>>>(
    xap: X,
    input: Seq<T>,
    full: Seq<Result<Q, E>>,
    e: E,
)
    requires
        deterministic(xap),
        produces(xap, input, full),
    ensures
        fails_with(xap, input, e) <==> exists|j: int|
            0 <= j < full.len() && #[trigger] full[j] == Err::<Q, E>(e) && all_ok(full.take(j)),
{
    if fails_with(xap, input, e) {
        let (k, out, j) = choose|k: int, out: Seq<Result<Q, E>>, j: int|
            #![trigger produces(xap, input.take(k), out), out[j]]
            0 <= k <= input.len() && produces(xap, input.take(k), out) && 0 <= j < out.len() && out[j]
                == Err::<Q, E>(e) && all_ok(out.take(j));
        lemma_produces_prefix(xap, input, k, out, full);
        assert(full[j] == out[j]);
        assert(full.take(j) =~= out.take(j));
    }
    if exists|j: int| 0 <= j < full.len() && #[trigger] full[j] == Err::<Q, E>(e) && all_ok(full.take(j)) {
        let j = choose|j: int| 0 <= j < full.len() && #[trigger] full[j] == Err::<Q, E>(e) && all_ok(full.take(j));
        assert(input.take(input.len() as int) =~= input);
        assert(produces(xap, input.take(input.len() as int), full) && full[j] == Err::<Q, E>(e));
    }
}

/// With closures that always return the same result for the same argument, a
/// fallible iterator whose results are all successes has a single sequence of
/// successes, and no computation on it stopping at the first failure can fail.
pub proof fn law_success_is_unique<T, Q, E, X: Xap<T, Result<Q, E>>>(
    xap: X,
    input: Seq<T>,
    v: Seq<Q>,
    w: Seq<Q>,
    e: E,
)
    requires
        deterministic(xap),
        produces(xap, input, oks(v)),
        produces(xap, input, oks(w)),
    ensures
        v == w,
        !fails_with(xap, input, e),
{
    lemma_outputs_unique(xap, input, oks::<Q, E>(v), oks::<Q, E>(w));
    assert(oks::<Q, E>(v).len() == v.len() && oks::<Q, E>(w).len() == w.len());
    assert forall|i: int| 0 <= i < v.len() implies v[i] == w[i] by {
        assert(oks::<Q, E>(v)[i] == Ok::<Q, E>(v[i]));
        assert(oks::<Q, E>(w)[i] == Ok::<Q, E>(w[i]));
        assert(oks::<Q, E>(v)[i] == oks::<Q, E>(w)[i]);
    }
    assert(v =~= w);
    law_fails_with_first_failure(xap, input, oks::<Q, E>(v), e);
    if exists|j: int| 0 <= j < oks::<Q, E>(v).len() && #[trigger] oks::<Q, E>(v)[j] == Err::<Q, E>(e) && all_ok(
        oks::<Q, E>(v).take(j),
    ) {
        let j = choose|j: int| 0 <= j < oks::<Q, E>(v).len() && #[trigger] oks::<Q, E>(v)[j] == Err::<Q, E>(e) && all_ok(
            oks::<Q, E>(v).take(j),
        );
        assert(oks::<Q, E>(v)[j] == Ok::<Q, E>(v[j]));
    }
}

/// The relation between the outputs of the base of a fallible iterator and its
/// results.
pub open spec fn lift_post<F: IntoResult<S, E>, S, E, Q, Y: Xap<S, Q>>(ok: Y) -> spec_fn(
    Seq<F>,
    Seq<Result<Q, E>>,
) -> bool {
    |zs: Seq<F>, ys: Seq<Result<Q, E>>| lifted_outputs(ok, zs, ys)
}

proof fn lemma_lift_segmentable<F: IntoResult<S, E>, S, E, Q, Y: Xap<S, Q>>(ok: Y)
    ensures
        segmentable(lift_post::<F, S, E, Q, Y>(ok)),
{
    let post = lift_post::<F, S, E, Q, Y>(ok);
    assert forall|ys: Seq<Result<Q, E>>| #[trigger] post(Seq::<F>::empty(), ys) <==> ys == Seq::<
        Result<Q, E>,
    >::empty() by {
        if post(Seq::<F>::empty(), ys) {
            let (wss, per) = choose|wss: Seq<Seq<Q>>, per: Seq<Seq<Result<Q, E>>>|
                #[trigger] lifted(ok, Seq::<F>::empty(), wss, per) && ys == flatten(per);
            assert(per =~= Seq::<Seq<Result<Q, E>>>::empty());
        }
        if ys == Seq::<Result<Q, E>>::empty() {
            let wss = Seq::<Seq<Q>>::empty();
            let per = Seq::<Seq<Result<Q, E>>>::empty();
            assert(lifted(ok, Seq::<F>::empty(), wss, per));
            assert(flatten(per) =~= ys);
        }
    }
    assert forall|a: Seq<F>, b: Seq<Result<Q, E>>, c: Seq<F>, d: Seq<Result<Q, E>>|
        #![trigger post(a + c, b + d)]
        post(a, b) && post(c, d) implies post(a + c, b + d) by {
        let (wa, pa) = choose|wss: Seq<Seq<Q>>, per: Seq<Seq<Result<Q, E>>>|
            #[trigger] lifted(ok, a, wss, per) && b == flatten(per);
        let (wc, pc) = choose|wss: Seq<Seq<Q>>, per: Seq<Seq<Result<Q, E>>>|
            #[trigger] lifted(ok, c, wss, per) && d == flatten(per);
        let ac = a + c;
        let w = wa + wc;
        let p = pa + pc;
        assert forall|i: int| 0 <= i < ac.len() implies #[trigger] lifts(ok, ac[i], w[i], p[i]) by {
            if i < a.len() {
                assert(lifts(ok, a[i], wa[i], pa[i]));
            } else {
                assert(lifts(ok, c[i - a.len()], wc[i - a.len()], pc[i - a.len()]));
            }
        }
        assert(lifted(ok, ac, w, p));
        lemma_flatten_append(pa, pc);
    }
    assert forall|a: Seq<F>, c: Seq<F>, y: Seq<Result<Q, E>>|
        #![trigger post(a + c, y)]
        post(a + c, y) implies exists|b: Seq<Result<Q, E>>, d: Seq<Result<Q, E>>|
            y == b + d && #[trigger] post(a, b) && #[trigger] post(c, d) by {
        let ac = a + c;
        let (w, p) = choose|wss: Seq<Seq<Q>>, per: Seq<Seq<Result<Q, E>>>|
            #[trigger] lifted(ok, ac, wss, per) && y == flatten(per);
        let n = a.len() as int;
        let (wa, pa) = (w.take(n), p.take(n));
        let (wc, pc) = (w.skip(n), p.skip(n));
        assert forall|i: int| 0 <= i < a.len() implies #[trigger] lifts(ok, a[i], wa[i], pa[i]) by {
            assert(lifts(ok, ac[i], w[i], p[i]));
        }
        assert forall|i: int| 0 <= i < c.len() implies #[trigger] lifts(ok, c[i], wc[i], pc[i]) by {
            assert(lifts(ok, ac[i + n], w[i + n], p[i + n]));
        }
        assert(lifted(ok, a, wa, pa));
        assert(lifted(ok, c, wc, pc));
        assert(pa + pc =~= p);
        lemma_flatten_append(pa, pc);
        assert(post(a, flatten(pa)) && post(c, flatten(pc)));
    }
}

/// The results of a fallible iterator are the outputs of its base, in order, with
/// each failure kept as it is and each success transformed on the success path.
pub proof fn law_lift_outputs<I, F: IntoResult<S, E>, S, E, Q, B: Xap<I, F>, Y: Xap<S, Q>>(
    lift: XLift<F, S, E, B, Y>,
    input: Seq<I>,
    out: Seq<Result<Q, E>>,
)
    ensures
        produces(lift, input, out) <==> exists|mid: Seq<F>|
            #[trigger] produces(lift.base, input, mid) && lifted_outputs(lift.ok, mid, out),
{
    lemma_lift_segmentable::<F, S, E, Q, Y>(lift.ok);
    let post = lift_post::<F, S, E, Q, Y>(lift.ok);
    assert forall|x: I, ys: Seq<Result<Q, E>>| #[trigger] lift.yields(x, ys) <==> exists|zs: Seq<F>|
        #[trigger] lift.base.yields(x, zs) && post(zs, ys) by {
        if lift.yields(x, ys) {
            let (zs, wss, per) = choose|zs: Seq<F>, wss: Seq<Seq<Q>>, per: Seq<Seq<Result<Q, E>>>|
                #[trigger] lift.base.yields(x, zs) && #[trigger] lifted(lift.ok, zs, wss, per) && ys
                    == flatten(per);
            assert(post(zs, ys));
        }
    }
    lemma_step_outputs(lift.base, lift, post, input, out);
}

/// The outputs of a parallel iterator do not depend on its parameters: two iterators
/// over the same input with the same transformation, whose closures always return the
/// same result for the same argument, have the same outputs whatever their number of
/// threads, chunk size or collect ordering.
pub proof fn law_outputs_independent_of_params<T, O, X: Xap<T, O>>(
    a: Par<T, O, X>,
    b: Par<T, O, X>,
    out_a: Seq<O>,
    out_b: Seq<O>,
)
    requires
        a.input@ == b.input@,
        a.xap == b.xap,
        deterministic(a.xap),
        a.outputs(out_a),
        b.outputs(out_b),
    ensures
        out_a == out_b,
{
    lemma_outputs_unique(a.xap, a.input@, out_a, out_b);
}

/// A fallible transformation whose base and success transformation are deterministic
/// is deterministic.
pub proof fn law_lift_deterministic<I, F: IntoResult<S, E>, S, E, Q, B: Xap<I, F>, Y: Xap<S, Q>>(
    lift: XLift<F, S, E, B, Y>,
)
    requires
        deterministic(lift.base),
        deterministic(lift.ok),
    ensures
        deterministic(lift),
{
    assert forall|x: I, ys1: Seq<Result<Q, E>>, ys2: Seq<Result<Q, E>>|
        #[trigger] lift.yields(x, ys1) && #[trigger] lift.yields(x, ys2) implies ys1 == ys2 by {
        let (zs1, wss1, per1) = choose|zs: Seq<F>, wss: Seq<Seq<Q>>, per: Seq<Seq<Result<Q, E>>>|
            #[trigger] lift.base.yields(x, zs) && #[trigger] lifted(lift.ok, zs, wss, per) && ys1 == flatten(per);
        let (zs2, wss2, per2) = choose|zs: Seq<F>, wss: Seq<Seq<Q>>, per: Seq<Seq<Result<Q, E>>>|
            #[trigger] lift.base.yields(x, zs) && #[trigger] lifted(lift.ok, zs, wss, per) && ys2 == flatten(per);
        assert(zs1 == zs2);
        assert forall|i: int| 0 <= i < per1.len() implies per1[i] == per2[i] by {
            assert(lifts(lift.ok, zs1[i], wss1[i], per1[i]));
            assert(lifts(lift.ok, zs2[i], wss2[i], per2[i]));
            match zs1[i].as_result() {
                Ok(s) => {
                    assert(lift.ok.yields(s, wss1[i]) && lift.ok.yields(s, wss2[i]));
                },
                Err(_) => {},
            }
        }
        assert(per1 =~= per2);
    }
}

/// `h` has at most one possible result for each argument.
pub open spec fn functional<A, R, H: Fn(A) -> R>(h: H) -> bool {
    forall|a: A, r1: R, r2: R| #[trigger] call_ensures(h, (a,), r1) && #[trigger] call_ensures(h, (a,), r2) ==> r1 == r2
}

/// `h`, which takes its argument by reference, has at most one possible result for
/// each argument.
pub open spec fn functional_ref<A, R, H: Fn(&A) -> R>(h: H) -> bool {
    forall|a: A, r1: R, r2: R|
        #[trigger] call_ensures(h, (&a,), r1) && #[trigger] call_ensures(h, (&a,), r2) ==> r1 == r2
}

/// The untransformed iterator is deterministic.
pub proof fn law_identity_deterministic<T>()
    ensures
        deterministic::<T, T, Id>(Id),
{
}

/// Mapping the outputs of a deterministic transformation with a functional closure
/// is deterministic.
pub proof fn law_map_deterministic<I, O, Q, X: Xap<I, O>, H: Fn(O) -> Q>(step: XMap<O, X, H>)
    requires
        deterministic(step.inner),
        functional(step.map),
    ensures
        deterministic(step),
{
    assert forall|x: I, ys1: Seq<Q>, ys2: Seq<Q>| #[trigger] step.yields(x, ys1) && #[trigger] step.yields(x, ys2) implies ys1
        == ys2 by {
        let zs1 = choose|zs: Seq<O>| #[trigger] step.inner.yields(x, zs) && mapped(step.map, zs, ys1);
        let zs2 = choose|zs: Seq<O>| #[trigger] step.inner.yields(x, zs) && mapped(step.map, zs, ys2);
        assert(zs1 == zs2);
        assert forall|i: int| 0 <= i < ys1.len() implies ys1[i] == ys2[i] by {
            assert(call_ensures(step.map, (zs1[i],), ys1[i]));
            assert(call_ensures(step.map, (zs1[i],), ys2[i]));
        }
        assert(ys1 =~= ys2);
    }
}

/// Filtering the outputs of a deterministic transformation with a functional
/// predicate is deterministic.
pub proof fn law_filter_deterministic<I, O, X: Xap<I, O>, H: Fn(&O) -> bool>(step: XFilter<O, X, H>)
    requires
        deterministic(step.inner),
        functional_ref(step.filter),
    ensures
        deterministic(step),
{
    assert forall|x: I, ys1: Seq<O>, ys2: Seq<O>| #[trigger] step.yields(x, ys1) && #[trigger] step.yields(x, ys2) implies ys1
        == ys2 by {
        let (zs1, f1) = choose|zs: Seq<O>, flags: Seq<bool>|
            #[trigger] step.inner.yields(x, zs) && #[trigger] flagged(step.filter, zs, flags) && ys1 == keep(zs, flags);
        let (zs2, f2) = choose|zs: Seq<O>, flags: Seq<bool>|
            #[trigger] step.inner.yields(x, zs) && #[trigger] flagged(step.filter, zs, flags) && ys2 == keep(zs, flags);
        assert(zs1 == zs2);
        assert forall|i: int| 0 <= i < f1.len() implies f1[i] == f2[i] by {
            assert(call_ensures(step.filter, (&zs1[i],), f1[i]));
            assert(call_ensures(step.filter, (&zs1[i],), f2[i]));
        }
        assert(f1 =~= f2);
    }
}

/// Filter-mapping the outputs of a deterministic transformation with a functional
/// closure is deterministic.
pub proof fn law_filter_map_deterministic<I, O, Q, FO: Fallible<Q>, X: Xap<I, O>, H: Fn(O) -> FO>(
    step: XFilterMap<O, FO, X, H>,
)
    requires
        deterministic(step.inner),
        functional(step.filter_map),
    ensures
        deterministic(step),
{
    assert forall|x: I, ys1: Seq<Q>, ys2: Seq<Q>| #[trigger] step.yields(x, ys1) && #[trigger] step.yields(x, ys2) implies ys1
        == ys2 by {
        let (zs1, f1) = choose|zs: Seq<O>, fos: Seq<FO>|
            #[trigger] step.inner.yields(x, zs) && #[trigger] mapped(step.filter_map, zs, fos) && ys1 == values_of(fos);
        let (zs2, f2) = choose|zs: Seq<O>, fos: Seq<FO>|
            #[trigger] step.inner.yields(x, zs) && #[trigger] mapped(step.filter_map, zs, fos) && ys2 == values_of(fos);
        assert(zs1 == zs2);
        assert forall|i: int| 0 <= i < f1.len() implies f1[i] == f2[i] by {
            assert(call_ensures(step.filter_map, (zs1[i],), f1[i]));
            assert(call_ensures(step.filter_map, (zs1[i],), f2[i]));
        }
        assert(f1 =~= f2);
    }
}

/// Flat-mapping the outputs of a deterministic transformation with a functional
/// closure is deterministic.
pub proof fn law_flat_map_deterministic<I, O, Q, X: Xap<I, O>, H: Fn(O) -> Vec<Q>>(step: XFlatMap<O, X, H>)
    requires
        deterministic(step.inner),
        functional(step.flat_map),
    ensures
        deterministic(step),
{
    assert forall|x: I, ys1: Seq<Q>, ys2: Seq<Q>| #[trigger] step.yields(x, ys1) && #[trigger] step.yields(x, ys2) implies ys1
        == ys2 by {
        let (zs1, v1) = choose|zs: Seq<O>, vs: Seq<Vec<Q>>|
            #[trigger] step.inner.yields(x, zs) && #[trigger] mapped(step.flat_map, zs, vs) && ys1 == flatten(views_of(vs));
        let (zs2, v2) = choose|zs: Seq<O>, vs: Seq<Vec<Q>>|
            #[trigger] step.inner.yields(x, zs) && #[trigger] mapped(step.flat_map, zs, vs) && ys2 == flatten(views_of(vs));
        assert(zs1 == zs2);
        assert forall|i: int| 0 <= i < v1.len() implies v1[i] == v2[i] by {
            assert(call_ensures(step.flat_map, (zs1[i],), v1[i]));
            assert(call_ensures(step.flat_map, (zs1[i],), v2[i]));
        }
        assert(v1 =~= v2);
    }
}

/// Inspecting the outputs of a deterministic transformation is deterministic.
pub proof fn law_inspect_deterministic<I, O, X: Xap<I, O>, H: Fn(&O)>(step: XInspect<O, X, H>)
    requires
        deterministic(step.inner),
    ensures
        deterministic(step),
{
    assert forall|x: I, ys1: Seq<O>, ys2: Seq<O>| #[trigger] step.yields(x, ys1) && #[trigger] step.yields(x, ys2) implies ys1
        == ys2 by {
        assert(step.inner.yields(x, ys1) && step.inner.yields(x, ys2));
    }
}

/// The left fold of a non-empty `s` with `f`.
pub open spec fn fold1<T>(f: spec_fn(T, T) -> T, s: Seq<T>) -> T
    decreases s.len(),
{
    if s.len() <= 1 {
        s[0]
    } else {
        f(fold1(f, s.drop_last()), s.last())
    }
}

/// `None` for an empty `s`, otherwise the left fold of `s` with `f`.
pub open spec fn opt_fold<T>(f: spec_fn(T, T) -> T) -> spec_fn(Seq<T>) -> Option<T> {
    |s: Seq<T>| if s.len() == 0 {
        None
    } else {
        Some(fold1(f, s))
    }
}

/// `f` is associative.
pub open spec fn associative<T>(f: spec_fn(T, T) -> T) -> bool {
    forall|a: T, b: T, c: T| #[trigger] f(f(a, b), c) == f(a, f(b, c))
}

/// Every result of `op` on `(a, b)` is `f(a, b)`.
pub open spec fn computes<O, F: Fn(O, O) -> O>(op: F, f: spec_fn(O, O) -> O) -> bool {
    forall|a: O, b: O, c: O| #[trigger] call_ensures(op, (a, b), c) ==> c == f(a, b)
}

/// A reduction with a closure computing `f` is the left fold with `f`.
pub proof fn lemma_reduces_computes<O, F: Fn(O, O) -> O>(op: F, f: spec_fn(O, O) -> O, s: Seq<O>, r: Option<O>)
    requires
        computes(op, f),
        reduces(call_step(op), s, r),
    ensures
        r == (opt_fold(f))(s),
{
    if let Some(v) = r {
        let accs = choose|accs: Seq<O>| #[trigger] fold_steps(call_step(op), s, accs) && v == accs.last();
        assert forall|i: int| 0 <= i < s.len() implies #[trigger] accs[i] == fold1(f, s.take(i + 1)) by {
            lemma_fold_steps_computes(op, f, s, accs, i);
        }
        assert(s.take(s.len() as int) =~= s);
    }
}

proof fn lemma_fold_steps_computes<O, F: Fn(O, O) -> O>(op: F, f: spec_fn(O, O) -> O, s: Seq<O>, accs: Seq<O>, i: int)
    requires
        computes(op, f),
        fold_steps(call_step(op), s, accs),
        0 <= i < s.len(),
    ensures
        accs[i] == fold1(f, s.take(i + 1)),
    decreases i,
{
    if i > 0 {
        lemma_fold_steps_computes(op, f, s, accs, i - 1);
        let step = call_step(op);
        assert(step(accs[i - 1], s[i], accs[i]));
        assert(s.take(i + 1).drop_last() =~= s.take(i));
    }
}

/// Folding a concatenation of two non-empty sequences with an associative `f` folds
/// each part and combines the two results.
pub proof fn law_fold_split<T>(f: spec_fn(T, T) -> T, a: Seq<T>, b: Seq<T>)
    requires
        associative(f),
        a.len() > 0,
        b.len() > 0,
    ensures
        fold1(f, a + b) == f(fold1(f, a), fold1(f, b)),
    decreases b.len(),
{
    if b.len() == 1 {
        assert((a + b).drop_last() =~= a);
    } else {
        law_fold_split(f, a, b.drop_last());
        assert((a + b).drop_last() =~= a + b.drop_last());
        assert(f(f(fold1(f, a), fold1(f, b.drop_last())), b.last()) == f(
            fold1(f, a),
            f(fold1(f, b.drop_last()), b.last()),
        ));
    }
}

/// Reducing the chunks of a sequence one by one and then the chunk results in chunk
/// order gives the reduction of the whole sequence, for an associative `f`.
pub proof fn law_fold_chunks<T>(f: spec_fn(T, T) -> T, cs: Seq<Seq<T>>)
    requires
        associative(f),
    ensures
        (opt_fold(f))(flatten(cs)) == (opt_fold(f))(values_of(cs.map_values(opt_fold(f)))),
    decreases cs.len(),
{
    let g = opt_fold(f);
    if cs.len() > 0 {
        let init = cs.drop_last();
        let last = cs.last();
        law_fold_chunks(f, init);
        let rs = cs.map_values(g);
        assert(rs.drop_last() =~= init.map_values(g));
        let w = values_of(init.map_values(g));
        if last.len() == 0 {
            assert(flatten(cs) =~= flatten(init));
        } else {
            assert(values_of(rs) == w.push(fold1(f, last)));
            if flatten(init).len() == 0 {
                assert(flatten(cs) =~= last);
                assert(w.len() == 0);
                assert(w.push(fold1(f, last)) =~= seq![fold1(f, last)]);
            } else {
                law_fold_split(f, flatten(init), last);
                assert(w.push(fold1(f, last)).drop_last() =~= w);
            }
        }
    } else {
        assert(flatten(cs) =~= Seq::<T>::empty());
    }
}

/// Reducing chunk by chunk, each chunk from the left and then the chunk results in
/// chunk order, gives the same result as reducing the whole sequence from the left,
/// when the closure computes an associative operation.
pub proof fn law_chunked_reduce<O, F: Fn(O, O) -> O>(
    op: F,
    f: spec_fn(O, O) -> O,
    chunks: Seq<Seq<O>>,
    parts: Seq<Option<O>>,
    r: Option<O>,
    whole: Option<O>,
)
    requires
        computes(op, f),
        associative(f),
        parts.len() == chunks.len(),
        forall|i: int| 0 <= i < chunks.len() ==> reduces(call_step(op), #[trigger] chunks[i], parts[i]),
        reduces(call_step(op), values_of(parts), r),
        reduces(call_step(op), flatten(chunks), whole),
    ensures
        r == whole,
{
    let g = opt_fold(f);
    assert forall|i: int| 0 <= i < chunks.len() implies parts[i] == chunks.map_values(g)[i] by {
        lemma_reduces_computes(op, f, chunks[i], parts[i]);
    }
    assert(parts =~= chunks.map_values(g));
    lemma_reduces_computes(op, f, values_of(parts), r);
    lemma_reduces_computes(op, f, flatten(chunks), whole);
    law_fold_chunks(f, chunks);
}

/// The negations of `flags`, one by one.
pub open spec fn flipped(flags: Seq<bool>) -> Seq<bool> {
    Seq::new(flags.len(), |i: int| !flags[i])
}

/// Rejecting step relation: `ys` holds the elements of `zs`, in order, for which the
/// predicate returned false.
pub open spec fn reject_post<O, H: Fn(&O) -> bool>(h: H) -> spec_fn(Seq<O>, Seq<O>) -> bool {
    |zs: Seq<O>, ys: Seq<O>| exists|flags: Seq<bool>| #[trigger] flagged(h, zs, flags) && ys == keep(zs, flipped(flags))
}

proof fn lemma_reject_segmentable<O, H: Fn(&O) -> bool>(h: H)
    ensures
        segmentable(reject_post(h)),
{
    let post = reject_post(h);
    assert forall|ys: Seq<O>| #[trigger] post(Seq::<O>::empty(), ys) <==> ys == Seq::<O>::empty() by {
        if ys == Seq::<O>::empty() {
            assert(flagged(h, Seq::<O>::empty(), Seq::<bool>::empty()));
            assert(keep(Seq::<O>::empty(), flipped(Seq::<bool>::empty())) =~= ys);
        }
    }
    assert forall|a: Seq<O>, b: Seq<O>, c: Seq<O>, d: Seq<O>|
        #![trigger post(a + c, b + d)]
        post(a, b) && post(c, d) implies post(a + c, b + d) by {
        let fa = choose|flags: Seq<bool>| #[trigger] flagged(h, a, flags) && b == keep(a, flipped(flags));
        let fc = choose|flags: Seq<bool>| #[trigger] flagged(h, c, flags) && d == keep(c, flipped(flags));
        lemma_keep_append(a, flipped(fa), c, flipped(fc));
        assert(flipped(fa + fc) =~= flipped(fa) + flipped(fc));
        assert forall|i: int| 0 <= i < (a + c).len() implies call_ensures(h, (&(a + c)[i],), #[trigger] (fa + fc)[i]) by {
            if i < a.len() {
                assert(call_ensures(h, (&a[i],), fa[i]));
            } else {
                assert(call_ensures(h, (&c[i - a.len()],), fc[i - a.len()]));
            }
        }
        assert(flagged(h, a + c, fa + fc));
    }
    assert forall|a: Seq<O>, c: Seq<O>, y: Seq<O>|
        #![trigger post(a + c, y)]
        post(a + c, y) implies exists|b: Seq<O>, d: Seq<O>|
            y == b + d && #[trigger] post(a, b) && #[trigger] post(c, d) by {
        let f = choose|flags: Seq<bool>| #[trigger] flagged(h, a + c, flags) && y == keep(a + c, flipped(flags));
        let fa = f.take(a.len() as int);
        let fc = f.skip(a.len() as int);
        assert(f =~= fa + fc);
        assert(flipped(f) =~= flipped(fa) + flipped(fc));
        lemma_keep_append(a, flipped(fa), c, flipped(fc));
        assert forall|i: int| 0 <= i < a.len() implies call_ensures(h, (&a[i],), #[trigger] fa[i]) by {
            assert(call_ensures(h, (&(a + c)[i],), f[i]));
        }
        assert forall|i: int| 0 <= i < c.len() implies call_ensures(h, (&c[i],), #[trigger] fc[i]) by {
            assert(call_ensures(h, (&(a + c)[i + a.len()],), f[i + a.len()]));
        }
        assert(flagged(h, a, fa));
        assert(flagged(h, c, fc));
        assert(post(a, keep(a, flipped(fa))) && post(c, keep(c, flipped(fc))));
    }
}

/// The outputs of a rejecting step are the outputs of the inner transformation, over
/// the whole sequence and in the same order, for which the predicate returns false.
pub proof fn law_reject_outputs<I, O, X: Xap<I, O>, H: Fn(&O) -> bool>(
    step: XReject<O, X, H>,
    input: Seq<I>,
    out: Seq<O>,
)
    ensures
        produces(step, input, out) <==> exists|mid: Seq<O>, flags: Seq<bool>|
            #[trigger] produces(step.inner, input, mid) && #[trigger] flagged(step.reject, mid, flags) && out
                == keep(mid, flipped(flags)),
{
    lemma_reject_segmentable(step.reject);
    let post = reject_post::<O, H>(step.reject);
    assert forall|x: I, ys: Seq<O>| #[trigger] step.yields(x, ys) <==> exists|zs: Seq<O>|
        #[trigger] step.inner.yields(x, zs) && post(zs, ys) by {
        if step.yields(x, ys) {
            let (zs, flags) = choose|zs: Seq<O>, flags: Seq<bool>|
                #[trigger] step.inner.yields(x, zs) && #[trigger] flagged(step.reject, zs, flags) && ys == keep(zs, negated(flags));
            assert(negated(flags) =~= flipped(flags));
            assert(post(zs, ys));
        }
        if exists|zs: Seq<O>| #[trigger] step.inner.yields(x, zs) && post(zs, ys) {
            let zs = choose|zs: Seq<O>| #[trigger] step.inner.yields(x, zs) && post(zs, ys);
            let flags = choose|flags: Seq<bool>| #[trigger] flagged(step.reject, zs, flags) && ys == keep(zs, flipped(flags));
            assert(negated(flags) =~= flipped(flags));
        }
    }
    lemma_step_outputs(step.inner, step, post, input, out);
    if produces(step, input, out) {
        let mid = choose|mid: Seq<O>| #[trigger] produces(step.inner, input, mid) && post(mid, out);
        let flags = choose|flags: Seq<bool>| #[trigger] flagged(step.reject, mid, flags) && out == keep(mid, flipped(flags));
    }
    if exists|mid: Seq<O>, flags: Seq<bool>|
        #[trigger] produces(step.inner, input, mid) && #[trigger] flagged(step.reject, mid, flags) && out == keep(mid, flipped(flags)) {
        let (mid, flags) = choose|mid: Seq<O>, flags: Seq<bool>|
            #[trigger] produces(step.inner, input, mid) && #[trigger] flagged(step.reject, mid, flags) && out == keep(mid, flipped(flags));
        assert(post(mid, out));
    }
}

/// Keeping the elements whose flag is set gives nothing exactly when no flag is set.
pub proof fn lemma_keep_empty<A>(s: Seq<A>, flags: Seq<bool>)
    requires
        flags.len() == s.len(),
    ensures
        keep(s, flags).len() == 0 <==> forall|i: int| 0 <= i < s.len() ==> !#[trigger] flags[i],
    decreases s.len(),
{
    if s.len() > 0 {
        lemma_keep_empty(s.drop_last(), flags.drop_last());
        if keep(s, flags).len() == 0 {
            assert forall|i: int| 0 <= i < s.len() implies !#[trigger] flags[i] by {
                if i < s.len() - 1 {
                    assert(flags.drop_last()[i] == flags[i]);
                }
            }
        }
        if forall|i: int| 0 <= i < s.len() ==> !#[trigger] flags[i] {
            assert forall|i: int| 0 <= i < s.drop_last().len() implies !#[trigger] flags.drop_last()[i] by {
                assert(flags.drop_last()[i] == flags[i]);
            }
            assert(!flags[s.len() - 1]);
        }
    }
}

/// `all(predicate)` on a parallel iterator returns true exactly when the predicate
/// holds of every output: it is true when some sequence of outputs of the whole
/// input satisfies the predicate everywhere, and when it is false, some output (of a
/// prefix of the input) violates the predicate.
pub proof fn law_all_outputs<I, O, X: Xap<I, O>, H: Fn(&O) -> bool>(
    xap: X,
    predicate: H,
    input: Seq<I>,
    f: Option<(usize, O)>,
)
    requires
        is_first(rejected(xap, predicate), input, f),
    ensures
        f is None ==> exists|out: Seq<O>, flags: Seq<bool>|
            #[trigger] produces(xap, input, out) && #[trigger] flagged(predicate, out, flags) && forall|i: int|
                0 <= i < out.len() ==> #[trigger] flags[i],
        f is Some ==> exists|k: int, out: Seq<O>, flags: Seq<bool>, j: int|
            #![trigger produces(xap, input.take(k), out), flagged(predicate, out, flags), flags[j]]
            0 <= k <= input.len() && produces(xap, input.take(k), out) && flagged(predicate, out, flags) && 0
                <= j < out.len() && !flags[j],
{
    let step = rejected(xap, predicate);
    match f {
        None => {
            law_reject_outputs(step, input, Seq::<O>::empty());
            let (mid, flags) = choose|mid: Seq<O>, flags: Seq<bool>|
                #[trigger] produces(xap, input, mid) && #[trigger] flagged(predicate, mid, flags) && Seq::<O>::empty()
                    == keep(mid, flipped(flags));
            lemma_keep_empty(mid, flipped(flags));
            assert forall|i: int| 0 <= i < mid.len() implies #[trigger] flags[i] by {
                assert(!flipped(flags)[i]);
            }
        },
        Some((i, v)) => {
            let k = i as int;
            let ys = choose|ys: Seq<O>| #[trigger] step.yields(input[k], ys) && ys.len() > 0 && ys[0] == v;
            lemma_produces_push(step, input.take(k), Seq::<O>::empty(), input[k], ys);
            assert(input.take(k).push(input[k]) =~= input.take(k + 1));
            assert(Seq::<O>::empty() + ys =~= ys);
            law_reject_outputs(step, input.take(k + 1), ys);
            let (mid, flags) = choose|mid: Seq<O>, flags: Seq<bool>|
                #[trigger] produces(xap, input.take(k + 1), mid) && #[trigger] flagged(predicate, mid, flags) && ys
                    == keep(mid, flipped(flags));
            lemma_keep_empty(mid, flipped(flags));
            let j = choose|j: int| 0 <= j < mid.len() && flipped(flags)[j];
            assert(!flags[j]);
        },
    }
}

/// The results that the outputs `zs` of a fallible iterator's base stand for.
pub open spec fn results_of<F: IntoResult<S, E>, S, E>(zs: Seq<F>) -> Seq<Result<S, E>> {
    Seq::new(zs.len(), |i: int| zs[i].as_result())
}

/// The successes of each sequence of `wss`, one sequence each.
pub open spec fn oks_each<Q, E>(wss: Seq<Seq<Q>>) -> Seq<Seq<Result<Q, E>>> {
    Seq::new(wss.len(), |i: int| oks::<Q, E>(wss[i]))
}

/// Wrapping in `Ok` commutes with flattening.
pub proof fn lemma_flatten_oks<Q, E>(wss: Seq<Seq<Q>>)
    ensures
        flatten(oks_each::<Q, E>(wss)) == oks::<Q, E>(flatten(wss)),
    decreases wss.len(),
{
    if wss.len() > 0 {
        lemma_flatten_oks::<Q, E>(wss.drop_last());
        assert(oks_each::<Q, E>(wss).drop_last() =~= oks_each::<Q, E>(wss.drop_last()));
        assert(oks::<Q, E>(flatten(wss.drop_last()) + wss.last()) =~= oks::<Q, E>(flatten(wss.drop_last()))
            + oks::<Q, E>(wss.last()));
    } else {
        assert(oks::<Q, E>(flatten(wss)) =~= Seq::<Result<Q, E>>::empty());
    }
}

/// Wrapping in `Ok` is injective.
pub proof fn lemma_oks_injective<Q, E>(v: Seq<Q>, w: Seq<Q>)
    requires
        oks::<Q, E>(v) == oks::<Q, E>(w),
    ensures
        v == w,
{
    assert(oks::<Q, E>(v).len() == v.len() && oks::<Q, E>(w).len() == w.len());
    assert forall|i: int| 0 <= i < v.len() implies v[i] == w[i] by {
        assert(oks::<Q, E>(v)[i] == Ok::<Q, E>(v[i]));
        assert(oks::<Q, E>(w)[i] == Ok::<Q, E>(w[i]));
    }
    assert(v =~= w);
}

/// When all the results of a fallible iterator's base outputs are lifted to
/// successes only, every base output was a success.
proof fn lemma_lifted_all_ok<F: IntoResult<S, E>, S, E, Q, Y: Xap<S, Q>>(
    ok: Y,
    zs: Seq<F>,
    wss: Seq<Seq<Q>>,
    per: Seq<Seq<Result<Q, E>>>,
)
    requires
        lifted(ok, zs, wss, per),
        all_ok(flatten(per)),
    ensures
        forall|i: int| 0 <= i < zs.len() ==> (#[trigger] zs[i]).as_result() is Ok,
    decreases zs.len(),
{
    if zs.len() > 0 {
        let n = zs.len() - 1;
        let init = flatten(per.drop_last());
        assert(flatten(per) == init + per.last());
        assert(all_ok(init)) by {
            assert forall|i: int| 0 <= i < init.len() implies (#[trigger] init[i]) is Ok by {
                assert(flatten(per)[i] == init[i]);
            }
        }
        assert(lifted(ok, zs.drop_last(), wss.drop_last(), per.drop_last())) by {
            assert forall|i: int| 0 <= i < zs.drop_last().len() implies #[trigger] lifts(
                ok,
                zs.drop_last()[i],
                wss.drop_last()[i],
                per.drop_last()[i],
            ) by {
                assert(lifts(ok, zs[i], wss[i], per[i]));
            }
        }
        lemma_lifted_all_ok(ok, zs.drop_last(), wss.drop_last(), per.drop_last());
        assert(lifts(ok, zs[n], wss[n], per[n]));
        if zs[n].as_result() is Err {
            assert(per[n].len() == 1);
            assert(flatten(per)[init.len() as int] == per[n][0]);
        }
        assert forall|i: int| 0 <= i < zs.len() implies (#[trigger] zs[i]).as_result() is Ok by {
            if i < n {
                assert(zs.drop_last()[i] == zs[i]);
            }
        }
    }
}

/// On the success path, a fallible iterator is its success transformation: its
/// results are the successes `v` exactly when its base yields only successes, whose
/// values `ss` the success transformation turns into `v`, in order.
pub proof fn law_lift_success_path<I, F: IntoResult<S, E>, S, E, Q, B: Xap<I, F>, Y: Xap<S, Q>>(
    lift: XLift<F, S, E, B, Y>,
    input: Seq<I>,
    v: Seq<Q>,
)
    ensures
        produces(lift, input, oks::<Q, E>(v)) <==> exists|mid: Seq<F>, ss: Seq<S>|
            #[trigger] produces(lift.base, input, mid) && results_of(mid) == oks::<S, E>(ss) && #[trigger] produces(
                lift.ok,
                ss,
                v,
            ),
{
    law_lift_outputs(lift, input, oks::<Q, E>(v));
    if produces(lift, input, oks::<Q, E>(v)) {
        let mid = choose|mid: Seq<F>| #[trigger] produces(lift.base, input, mid) && lifted_outputs(lift.ok, mid, oks::<Q, E>(v));
        let (wss, per) = choose|wss: Seq<Seq<Q>>, per: Seq<Seq<Result<Q, E>>>|
            #[trigger] lifted(lift.ok, mid, wss, per) && oks::<Q, E>(v) == flatten(per);
        assert(all_ok(flatten(per))) by {
            assert forall|i: int| 0 <= i < flatten(per).len() implies (#[trigger] flatten(per)[i]) is Ok by {
                assert(oks::<Q, E>(v)[i] == Ok::<Q, E>(v[i]));
            }
        }
        lemma_lifted_all_ok(lift.ok, mid, wss, per);
        let ss = Seq::new(mid.len(), |i: int| mid[i].as_result()->Ok_0);
        assert forall|i: int| 0 <= i < mid.len() implies results_of(mid)[i] == oks::<S, E>(ss)[i] by {
            assert(mid[i].as_result() is Ok);
        }
        assert(results_of(mid) =~= oks::<S, E>(ss));
        assert forall|i: int| 0 <= i < ss.len() implies lift.ok.yields(#[trigger] ss[i], wss[i]) && per[i] == oks::<Q, E>(wss[i]) by {
            assert(lifts(lift.ok, mid[i], wss[i], per[i]));
            assert(mid[i].as_result() is Ok);
        }
        assert(outputs_of(lift.ok, ss, wss));
        assert(produces(lift.ok, ss, flatten(wss)));
        assert forall|i: int| 0 <= i < per.len() implies per[i] == oks_each::<Q, E>(wss)[i] by {
            assert(lifts(lift.ok, mid[i], wss[i], per[i]));
            assert(mid[i].as_result() is Ok);
        }
        assert(per =~= oks_each::<Q, E>(wss));
        lemma_flatten_oks::<Q, E>(wss);
        lemma_oks_injective::<Q, E>(v, flatten(wss));
    }
    if exists|mid: Seq<F>, ss: Seq<S>|
        #[trigger] produces(lift.base, input, mid) && results_of(mid) == oks::<S, E>(ss) && #[trigger] produces(lift.ok, ss, v) {
        let (mid, ss) = choose|mid: Seq<F>, ss: Seq<S>|
            #[trigger] produces(lift.base, input, mid) && results_of(mid) == oks::<S, E>(ss) && #[trigger] produces(lift.ok, ss, v);
        let wss = choose|wss: Seq<Seq<Q>>| #[trigger] outputs_of(lift.ok, ss, wss) && v == flatten(wss);
        let per = oks_each::<Q, E>(wss);
        assert(results_of(mid).len() == mid.len());
        assert forall|i: int| 0 <= i < mid.len() implies #[trigger] lifts(lift.ok, mid[i], wss[i], per[i]) by {
            assert(results_of(mid)[i] == oks::<S, E>(ss)[i]);
            assert(mid[i].as_result() == Ok::<S, E>(ss[i]));
            assert(lift.ok.yields(ss[i], wss[i]));
        }
        assert(lifted(lift.ok, mid, wss, per));
        lemma_flatten_oks::<Q, E>(wss);
        assert(lifted_outputs(lift.ok, mid, oks::<Q, E>(v)));
    }
}

/// A parallel iterator created from a vector, by value or by reference, runs over
/// the vector's elements in order.
pub proof fn law_vec_elements_in_order<T>(v: Vec<T>)
    ensures
        <Vec<T> as ParallelizableCollection<T>>::collection_elements(&v) == v@,
        <Vec<T> as Parallelizable<T>>::elements_ref(&v) == v@,
        <Vec<T> as IntoPar<T>>::elements(v) == v@,
{
}

/// A parallel iterator created from a slice runs over the slice's elements in order.
pub proof fn law_slice_elements_in_order<T>(s: &[T])
    ensures
        <[T] as Parallelizable<T>>::elements_ref(s) == s@,
{
}

/// A parallel iterator created from a range runs over `start, start + 1, ...` up to,
/// not including, `end`; it is empty when `end <= start`.
pub proof fn law_range_elements(r: core::ops::Range<usize>)
    ensures
        <core::ops::Range<usize> as IntoPar<usize>>::elements(r).len() == (if r.start <= r.end {
            r.end - r.start
        } else {
            0
        }),
        forall|i: int|
            0 <= i < <core::ops::Range<usize> as IntoPar<usize>>::elements(r).len() ==> #[trigger] <core::ops::Range<
                usize,
            > as IntoPar<usize>>::elements(r)[i] == r.start + i,
{
}

/// A count is exact whenever the number of outputs fits in a `usize`, and saturates
/// at `usize::MAX` otherwise.
pub proof fn law_count_exact(n: nat)
    ensures
        n <= usize::MAX ==> capped(n) == n,
        n > usize::MAX ==> capped(n) == usize::MAX,
{
}

/// The reductions of a parallel iterator (reduce, fold, sum, min, max and their `by`
/// forms) see exactly the outputs of the iterator, all of them and in order, and can
/// run exactly when the iterator can.
pub proof fn law_reduce_sees_all_outputs<T, O, X: Xap<T, O>>(p: Par<T, O, X>, out: Seq<O>)
    ensures
        <Par<T, O, X> as Reduce<O>>::reduce_outputs(&p, out) <==> produces(p.xap, p.input@, out),
        <Par<T, O, X> as Reduce<O>>::reduce_ready(&p) <==> forall|i: int|
            0 <= i < p.input@.len() ==> p.xap.accepts(#[trigger] p.input@[i]),
{
}

/// Copying step relation: `ys` holds copies of what the references `zs` refer to, in
/// order.
pub open spec fn copy_post<'a, T: Copy + 'a>() -> spec_fn(Seq<&'a T>, Seq<T>) -> bool {
    |zs: Seq<&'a T>, ys: Seq<T>| ys.len() == zs.len() && forall|i: int| 0 <= i < zs.len() ==> #[trigger] ys[i] == *zs[i]
}

proof fn lemma_copy_segmentable<'a, T: Copy + 'a>()
    ensures
        segmentable(copy_post::<'a, T>()),
{
    let post = copy_post::<'a, T>();
    assert forall|ys: Seq<T>| #[trigger] post(Seq::<&'a T>::empty(), ys) <==> ys == Seq::<T>::empty() by {
        if ys.len() == 0 {
            assert(ys =~= Seq::<T>::empty());
        }
    }
    assert forall|a: Seq<&'a T>, b: Seq<T>, c: Seq<&'a T>, d: Seq<T>|
        #![trigger post(a + c, b + d)]
        post(a, b) && post(c, d) implies post(a + c, b + d) by {
        assert forall|i: int| 0 <= i < (a + c).len() implies #[trigger] (b + d)[i] == *(a + c)[i] by {
            if i < a.len() {
                assert(b[i] == *a[i]);
            } else {
                assert(d[i - a.len()] == *c[i - a.len()]);
            }
        }
    }
    assert forall|a: Seq<&'a T>, c: Seq<&'a T>, y: Seq<T>|
        #![trigger post(a + c, y)]
        post(a + c, y) implies exists|b: Seq<T>, d: Seq<T>|
            y == b + d && #[trigger] post(a, b) && #[trigger] post(c, d) by {
        let b = y.take(a.len() as int);
        let d = y.skip(a.len() as int);
        assert(y =~= b + d);
        assert forall|i: int| 0 <= i < a.len() implies #[trigger] b[i] == *a[i] by {
            assert(y[i] == *(a + c)[i]);
        }
        assert forall|i: int| 0 <= i < c.len() implies #[trigger] d[i] == *c[i] by {
            assert(y[i + a.len()] == *(a + c)[i + a.len()]);
        }
        assert(post(a, b) && post(c, d));
    }
}

/// The outputs of a copying iterator are copies of what the outputs of the inner
/// iterator refer to, one for one and in the same order.
pub proof fn law_copied_outputs<'a, I, T: Copy + 'a, X: Xap<I, &'a T>>(step: XCopied<X>, input: Seq<I>, out: Seq<T>)
    ensures
        produces(step, input, out) <==> exists|mid: Seq<&'a T>|
            #[trigger] produces(step.inner, input, mid) && out.len() == mid.len() && forall|i: int|
                0 <= i < mid.len() ==> #[trigger] out[i] == *mid[i],
{
    lemma_copy_segmentable::<'a, T>();
    let post = copy_post::<'a, T>();
    assert forall|x: I, ys: Seq<T>| #[trigger] step.yields(x, ys) <==> exists|zs: Seq<&'a T>|
        #[trigger] step.inner.yields(x, zs) && post(zs, ys) by {
        if step.yields(x, ys) {
            let zs = choose|zs: Seq<&'a T>| #[trigger] step.inner.yields(x, zs) && ys == zs.map_values(|z: &'a T| *z);
            assert(post(zs, ys));
        }
        if exists|zs: Seq<&'a T>| #[trigger] step.inner.yields(x, zs) && post(zs, ys) {
            let zs = choose|zs: Seq<&'a T>| #[trigger] step.inner.yields(x, zs) && post(zs, ys);
            assert(ys =~= zs.map_values(|z: &'a T| *z));
        }
    }
    lemma_step_outputs(step.inner, step, post, input, out);
    if produces(step, input, out) {
        let mid = choose|mid: Seq<&'a T>| #[trigger] produces(step.inner, input, mid) && post(mid, out);
    }
    if exists|mid: Seq<&'a T>|
        #[trigger] produces(step.inner, input, mid) && out.len() == mid.len() && forall|i: int|
            0 <= i < mid.len() ==> #[trigger] out[i] == *mid[i] {
        let mid = choose|mid: Seq<&'a T>|
            #[trigger] produces(step.inner, input, mid) && out.len() == mid.len() && forall|i: int|
                0 <= i < mid.len() ==> #[trigger] out[i] == *mid[i];
        assert(post(mid, out));
    }
}

/// Cloning step relation: `ys` holds clones of what the references `zs` refer to, in
/// order.
pub open spec fn clone_post<'a, T: Clone + 'a>() -> spec_fn(Seq<&'a T>, Seq<T>) -> bool {
    |zs: Seq<&'a T>, ys: Seq<T>| ys.len() == zs.len() && forall|i: int| 0 <= i < zs.len() ==> cloned::<T>(*zs[i], #[trigger] ys[i])
}

proof fn lemma_clone_segmentable<'a, T: Clone + 'a>()
    ensures
        segmentable(clone_post::<'a, T>()),
{
    let post = clone_post::<'a, T>();
    assert forall|ys: Seq<T>| #[trigger] post(Seq::<&'a T>::empty(), ys) <==> ys == Seq::<T>::empty() by {
        if ys.len() == 0 {
            assert(ys =~= Seq::<T>::empty());
        }
    }
    assert forall|a: Seq<&'a T>, b: Seq<T>, c: Seq<&'a T>, d: Seq<T>|
        #![trigger post(a + c, b + d)]
        post(a, b) && post(c, d) implies post(a + c, b + d) by {
        assert forall|i: int| 0 <= i < (a + c).len() implies cloned::<T>(*(a + c)[i], #[trigger] (b + d)[i]) by {
            if i < a.len() {
                assert(cloned::<T>(*a[i], b[i]));
            } else {
                assert(cloned::<T>(*c[i - a.len()], d[i - a.len()]));
            }
        }
    }
    assert forall|a: Seq<&'a T>, c: Seq<&'a T>, y: Seq<T>|
        #![trigger post(a + c, y)]
        post(a + c, y) implies exists|b: Seq<T>, d: Seq<T>|
            y == b + d && #[trigger] post(a, b) && #[trigger] post(c, d) by {
        let b = y.take(a.len() as int);
        let d = y.skip(a.len() as int);
        assert(y =~= b + d);
        assert forall|i: int| 0 <= i < a.len() implies cloned::<T>(*a[i], #[trigger] b[i]) by {
            assert(cloned::<T>(*(a + c)[i], y[i]));
        }
        assert forall|i: int| 0 <= i < c.len() implies cloned::<T>(*c[i], #[trigger] d[i]) by {
            assert(cloned::<T>(*(a + c)[i + a.len()], y[i + a.len()]));
        }
        assert(post(a, b) && post(c, d));
    }
}

/// The outputs of a cloning iterator are clones of what the outputs of the inner
/// iterator refer to, one for one and in the same order.
pub proof fn law_cloned_outputs<'a, I, T: Clone + 'a, X: Xap<I, &'a T>>(step: XCloned<X>, input: Seq<I>, out: Seq<T>)
    ensures
        produces(step, input, out) <==> exists|mid: Seq<&'a T>|
            #[trigger] produces(step.inner, input, mid) && out.len() == mid.len() && forall|i: int|
                0 <= i < mid.len() ==> cloned::<T>(*mid[i], #[trigger] out[i]),
{
    lemma_clone_segmentable::<'a, T>();
    let post = clone_post::<'a, T>();
    assert forall|x: I, ys: Seq<T>| #[trigger] step.yields(x, ys) <==> exists|zs: Seq<&'a T>|
        #[trigger] step.inner.yields(x, zs) && post(zs, ys) by {
    }
    lemma_step_outputs(step.inner, step, post, input, out);
    if produces(step, input, out) {
        let mid = choose|mid: Seq<&'a T>| #[trigger] produces(step.inner, input, mid) && post(mid, out);
    }
    if exists|mid: Seq<&'a T>|
        #[trigger] produces(step.inner, input, mid) && out.len() == mid.len() && forall|i: int|
            0 <= i < mid.len() ==> cloned::<T>(*mid[i], #[trigger] out[i]) {
        let mid = choose|mid: Seq<&'a T>|
            #[trigger] produces(step.inner, input, mid) && out.len() == mid.len() && forall|i: int|
                0 <= i < mid.len() ==> cloned::<T>(*mid[i], #[trigger] out[i]);
        assert(post(mid, out));
    }
}

/// With closures that always return the same result for the same argument, the
/// first output found is the first of the outputs: there is none exactly when there
/// are no outputs, and otherwise it is the output at position 0.
pub proof fn law_first_is_first_output<I, O, X: Xap<I, O>>(
    xap: X,
    input: Seq<I>,
    out: Seq<O>,
    f: Option<(usize, O)>,
)
    requires
        deterministic(xap),
        produces(xap, input, out),
        is_first(xap, input, f),
    ensures
        f is None <==> out.len() == 0,
        f matches Some((_, v)) ==> out.len() > 0 && v == out[0],
{
    match f {
        None => {
            lemma_outputs_unique(xap, input, Seq::<O>::empty(), out);
        },
        Some((i, v)) => {
            let k = i as int;
            let ys = choose|ys: Seq<O>| #[trigger] xap.yields(input[k], ys) && ys.len() > 0 && ys[0] == v;
            lemma_produces_push(xap, input.take(k), Seq::<O>::empty(), input[k], ys);
            assert(input.take(k).push(input[k]) =~= input.take(k + 1));
            assert(Seq::<O>::empty() + ys =~= ys);
            lemma_produces_prefix(xap, input, k + 1, ys, out);
            assert(out[0] == ys[0]);
        },
    }
}

/// With closures that always return the same result for the same argument, `first`
/// on a fallible iterator gives `Ok(None)` when there are no results, `Ok(Some(q))`
/// when the first result is the success `q`, and `Err(e)` when it is the failure `e`.
pub proof fn law_fallible_first<I, F: IntoResult<S, E>, S, E, Q, B: Xap<I, F>, Y: Xap<S, Q>>(
    lift: XLift<F, S, E, B, Y>,
    input: Seq<I>,
    out: Seq<Result<Q, E>>,
    f: Option<(usize, Result<Q, E>)>,
)
    requires
        deterministic(lift),
        produces(lift, input, out),
        is_first(lift, input, f),
    ensures
        first_result(f) == (if out.len() == 0 {
            Ok(None)
        } else {
            match out[0] {
                Ok(q) => Ok(Some(q)),
                Err(e) => Err(e),
            }
        }),
{
    law_first_is_first_output(lift, input, out, f);
}

/// The failures of `s`, in order.
pub open spec fn failures<A, E>(s: Seq<Result<A, E>>) -> Seq<E>
    decreases s.len(),
{
    if s.len() == 0 {
        Seq::empty()
    } else {
        let rest = failures(s.drop_last());
        match s.last() {
            Ok(_) => rest,
            Err(e) => rest.push(e),
        }
    }
}

proof fn lemma_failures_append<A, E>(a: Seq<Result<A, E>>, b: Seq<Result<A, E>>)
    ensures
        failures(a + b) == failures(a) + failures(b),
    decreases b.len(),
{
    if b.len() == 0 {
        assert(a + b =~= a);
        assert(failures(a) + failures(b) =~= failures(a));
    } else {
        lemma_failures_append(a, b.drop_last());
        assert((a + b).drop_last() =~= a + b.drop_last());
        assert((a + b).last() == b.last());
        match b.last() {
            Ok(_) => {},
            Err(e) => {
                assert(failures(a) + failures(b) =~= (failures(a) + failures(b.drop_last())).push(e));
            },
        }
    }
}

proof fn lemma_failures_oks<Q, E>(w: Seq<Q>)
    ensures
        failures(oks::<Q, E>(w)) == Seq::<E>::empty(),
    decreases w.len(),
{
    if w.len() > 0 {
        lemma_failures_oks::<Q, E>(w.drop_last());
        assert(oks::<Q, E>(w).drop_last() =~= oks::<Q, E>(w.drop_last()));
    }
}

proof fn lemma_lifted_failures<F: IntoResult<S, E>, S, E, Q, Y: Xap<S, Q>>(
    ok: Y,
    zs: Seq<F>,
    wss: Seq<Seq<Q>>,
    per: Seq<Seq<Result<Q, E>>>,
)
    requires
        lifted(ok, zs, wss, per),
    ensures
        failures(flatten(per)) == failures(results_of(zs)),
    decreases zs.len(),
{
    if zs.len() > 0 {
        let n = zs.len() - 1;
        assert(lifted(ok, zs.drop_last(), wss.drop_last(), per.drop_last())) by {
            assert forall|i: int| 0 <= i < zs.drop_last().len() implies #[trigger] lifts(
                ok,
                zs.drop_last()[i],
                wss.drop_last()[i],
                per.drop_last()[i],
            ) by {
                assert(lifts(ok, zs[i], wss[i], per[i]));
            }
        }
        lemma_lifted_failures(ok, zs.drop_last(), wss.drop_last(), per.drop_last());
        assert(results_of(zs).drop_last() =~= results_of(zs.drop_last()));
        lemma_failures_append(flatten(per.drop_last()), per.last());
        assert(lifts(ok, zs[n], wss[n], per[n]));
        match zs[n].as_result() {
            Ok(_) => {
                lemma_failures_oks::<Q, E>(wss[n]);
                assert(failures(flatten(per.drop_last())) + Seq::<E>::empty() =~= failures(flatten(per.drop_last())));
            },
            Err(e) => {
                assert(failures(seq![Err::<Q, E>(e)]) =~= seq![e]) by {
                    let one = seq![Err::<Q, E>(e)];
                    assert(one.drop_last() =~= Seq::<Result<Q, E>>::empty());
                    assert(failures(Seq::<Result<Q, E>>::empty()) == Seq::<E>::empty());
                    assert(one.last() == Err::<Q, E>(e));
                    assert(failures(one) == failures(one.drop_last()).push(e));
                    assert(Seq::<E>::empty().push(e) =~= seq![e]);
                }
                assert(failures(flatten(per.drop_last())) + seq![e] =~= failures(flatten(per.drop_last())).push(e));
            },
        }
    } else {
        assert(flatten(per) =~= Seq::<Result<Q, E>>::empty());
        assert(results_of(zs) =~= Seq::<Result<S, E>>::empty());
    }
}

/// Failures pass through a fallible iterator unchanged: the failures among its
/// results are exactly the failures of its base, in the same order.
pub proof fn law_lift_failures<I, F: IntoResult<S, E>, S, E, Q, B: Xap<I, F>, Y: Xap<S, Q>>(
    lift: XLift<F, S, E, B, Y>,
    input: Seq<I>,
    out: Seq<Result<Q, E>>,
)
    requires
        produces(lift, input, out),
    ensures
        exists|mid: Seq<F>| #[trigger] produces(lift.base, input, mid) && failures(out) == failures(results_of(mid)),
{
    law_lift_outputs(lift, input, out);
    let mid = choose|mid: Seq<F>| #[trigger] produces(lift.base, input, mid) && lifted_outputs(lift.ok, mid, out);
    let (wss, per) = choose|wss: Seq<Seq<Q>>, per: Seq<Seq<Result<Q, E>>>|
        #[trigger] lifted(lift.ok, mid, wss, per) && out == flatten(per);
    lemma_lifted_failures(lift.ok, mid, wss, per);
}

/// With closures that always return the same result for the same argument, a
/// computation that calls an operation on each success and stops at the first
/// failure `e` has called it on every success before the first failure of the
/// results, and `e` is that failure.
pub proof fn law_fails_after_first_failure<T, Q, E, X: Xap<T, Result<Q, E>>>(
    xap: X,
    input: Seq<T>,
    full: Seq<Result<Q, E>>,
    e: E,
    done: spec_fn(Q) -> bool,
)
    requires
        deterministic(xap),
        produces(xap, input, full),
        fails_after(xap, input, e, done),
    ensures
        exists|j: int|
            0 <= j < full.len() && #[trigger] full[j] == Err::<Q, E>(e) && all_ok(full.take(j)) && forall|i: int|
                0 <= i < j ==> done((#[trigger] full[i])->Ok_0),
{
    let (k, out, j) = choose|k: int, out: Seq<Result<Q, E>>, j: int|
        #![trigger produces(xap, input.take(k), out), out[j]]
        0 <= k <= input.len() && produces(xap, input.take(k), out) && 0 <= j < out.len() && out[j]
            == Err::<Q, E>(e) && all_ok(out.take(j)) && forall|i: int| 0 <= i < j ==> done((#[trigger] out[i])->Ok_0);
    lemma_produces_prefix(xap, input, k, out, full);
    assert(full[j] == out[j]);
    assert(full.take(j) =~= out.take(j));
    assert forall|i: int| 0 <= i < j implies done((#[trigger] full[i])->Ok_0) by {
        assert(full[i] == out[i]);
    }
}

/// Keeping from one element keeps it exactly when its flag is set; with
/// `lemma_keep_append` this fixes what `keep` is on every sequence.
pub proof fn law_keep_single<A>(x: A, flag: bool)
    ensures
        keep(seq![x], seq![flag]) == (if flag {
            seq![x]
        } else {
            Seq::<A>::empty()
        }),
{
    let xs = seq![x];
    let fs = seq![flag];
    assert(xs.drop_last() =~= Seq::<A>::empty());
    assert(fs.drop_last() =~= Seq::<bool>::empty());
    assert(keep(Seq::<A>::empty(), Seq::<bool>::empty()) == Seq::<A>::empty());
    assert(fs[0] == flag && xs.last() == x);
    assert(keep(xs, fs) == (if flag {
        keep(xs.drop_last(), fs.drop_last()).push(x)
    } else {
        keep(xs.drop_last(), fs.drop_last())
    }));
    assert(Seq::<A>::empty().push(x) =~= seq![x]);
}

/// The successful values of one fallible are its value when present and nothing
/// otherwise; with `lemma_values_of_append` this fixes `values_of` on every sequence.
pub proof fn law_values_of_single<T, F: Fallible<T>>(x: F)
    ensures
        values_of(seq![x]) == (if x.has_value_spec() {
            seq![x.value_spec()]
        } else {
            Seq::<T>::empty()
        }),
{
    let xs = seq![x];
    assert(xs.drop_last() =~= Seq::<F>::empty());
    assert(values_of(Seq::<F>::empty()) == Seq::<T>::empty());
    assert(xs.last() == x);
    assert(values_of(xs) == (if x.has_value_spec() {
        values_of(xs.drop_last()).push(x.value_spec())
    } else {
        values_of(xs.drop_last())
    }));
    assert(Seq::<T>::empty().push(x.value_spec()) =~= seq![x.value_spec()]);
}

/// Flattening one sequence gives it back; with `lemma_flatten_append` this fixes
/// `flatten` on every sequence of sequences.
pub proof fn law_flatten_single<A>(s: Seq<A>)
    ensures
        flatten(seq![s]) == s,
{
    let ss = seq![s];
    assert(ss.drop_last() =~= Seq::<Seq<A>>::empty());
    assert(flatten(Seq::<Seq<A>>::empty()) == Seq::<A>::empty());
    assert(ss.last() == s);
    assert(flatten(ss) == flatten(ss.drop_last()) + ss.last());
    assert(Seq::<A>::empty() + s =~= s);
}

/// An optional computation gives `Some(x)` exactly when the computation over results
/// with unit failures gives `Ok(x)`, and `None` exactly when it fails.
pub proof fn law_option_of<X>(r: Result<X, ()>)
    ensures
        option_of(r) is None <==> r is Err,
        forall|x: X| option_of(r) == Some(x) <==> r == Ok::<X, ()>(x),
{
}

/// Converting an integer to a number of threads: 0 is `Auto`, a positive `n` is
/// `Max` with value `n`, and only 1 is sequential.
pub proof fn law_num_threads_of(n: usize)
    ensures
        n == 0 <==> num_threads_of(n) == NumThreads::Auto,
        n > 0 ==> (num_threads_of(n) matches NumThreads::Max(k) && k@ == n),
        num_threads_of(n).is_sequential_spec() <==> n == 1,
{
    NonZeroUsize::lemma_with_value(n);
    NonZeroUsize::lemma_with_value(1);
    NonZeroUsize::lemma_view_injective(NonZeroUsize::with_value(n), NonZeroUsize::with_value(1));
}

/// Converting an integer to a chunk size: 0 is `Auto` and a positive `n` is `Exact`
/// with value `n`.
pub proof fn law_chunk_size_of(n: usize)
    ensures
        n == 0 <==> chunk_size_of(n) == ChunkSize::Auto,
        n > 0 ==> (chunk_size_of(n) matches ChunkSize::Exact(k) && k@ == n),
{
    NonZeroUsize::lemma_with_value(n);
}

/// A vector drained in parallel holds its elements in order.
pub proof fn law_vec_drainable_in_order<T>(v: Vec<T>)
    ensures
        <Vec<T> as ParallelDrainableOverSlice<T>>::drainable_elements(&v) == v@,
{
}

} // verus!

//! Fallible parallel iterators: iterators whose elements are results (or options), and
//! whose computations either succeed on every element or end with the first failure.
//!
//! Transformations act on the success path only; a failure passes through them
//! unchanged and ends every computation.
use vstd::prelude::*;
use core::marker::PhantomData;
use core::ops::Add;
use vstd::std_specs::ops::AddSpec;
use crate::fallible::{Fallible, IntoResult};
use crate::laws::law_identity_outputs;
use crate::par::{par, Par};
use crate::parameters::{ChunkSize, CollectOrdering, NumThreads, Params};
use core::cmp::Ordering;
use crate::reduce::{
    add_step, max_by_key_step, max_by_step, max_step, min_by_key_step, min_by_step, min_step, sums_fit,
    Reduce,
};
use crate::runner::{call_step, first_with_index, fold_callable, folds, is_first, reduces};
use crate::seqs::flatten;
use crate::xap::{
    accepts_all, filtered, outputs_of, produces, rejected, Id, XFilter, XFilterMap, XFlatMap, XInspect, XMap, XReject,
    Xap,
};
use vstd::std_specs::convert::IntoSpec;

verus! {

/// `v` with every element wrapped in `Ok`.
pub open spec fn oks<Q, E>(v: Seq<Q>) -> Seq<Result<Q, E>> {
    v.map_values(|q: Q| Ok::<Q, E>(q))
}

/// Every element of `s` is a success.
pub open spec fn all_ok<Q, E>(s: Seq<Result<Q, E>>) -> bool {
    forall|i: int| 0 <= i < s.len() ==> (#[trigger] s[i]) is Ok
}

/// `ys` is what one output `z` of the base becomes: a failure passes as it is; a
/// success `s` goes through `ok`, which yields `ws` for it, and each of those is a
/// success.
pub open spec fn lifts<F: IntoResult<S, E>, S, E, Q, Y: Xap<S, Q>>(
    ok: Y,
    z: F,
    ws: Seq<Q>,
    ys: Seq<Result<Q, E>>,
) -> bool {
    match z.as_result() {
        Ok(s) => ok.yields(s, ws) && ys == oks::<Q, E>(ws),
        Err(e) => ys == seq![Err::<Q, E>(e)],
    }
}

/// `per[i]` is what `zs[i]` becomes, for every `i`.
pub open spec fn lifted<F: IntoResult<S, E>, S, E, Q, Y: Xap<S, Q>>(
    ok: Y,
    zs: Seq<F>,
    wss: Seq<Seq<Q>>,
    per: Seq<Seq<Result<Q, E>>>,
) -> bool {
    &&& wss.len() == zs.len()
    &&& per.len() == zs.len()
    &&& forall|i: int| 0 <= i < zs.len() ==> #[trigger] lifts(ok, zs[i], wss[i], per[i])
}

/// `ys` is what the outputs `zs` of the base become, in order: each failure as it is,
/// each success transformed by `ok` into successes.
pub open spec fn lifted_outputs<F: IntoResult<S, E>, S, E, Q, Y: Xap<S, Q>>(
    ok: Y,
    zs: Seq<F>,
    ys: Seq<Result<Q, E>>,
) -> bool {
    exists|wss: Seq<Seq<Q>>, per: Seq<Seq<Result<Q, E>>>| #[trigger] lifted(ok, zs, wss, per) && ys == flatten(per)
}

/// The transformation of a fallible iterator: the outputs of `base` are results; the
/// successes are transformed by `ok` and the failures are kept as they are.
pub struct XLift<F, S, E, B, Y> {
    pub base: B,
    pub ok: Y,
    pub phantom: PhantomData<(F, S, E)>,
}

impl<F, S, E, B, Y> XLift<F, S, E, B, Y> {
    pub fn new<I, Q>(base: B, ok: Y) -> (r: Self) where F: IntoResult<S, E>, B: Xap<I, F>, Y: Xap<S, Q>
        ensures
            r.base == base,
            r.ok == ok,
            forall|x: I|
                #[trigger] r.accepts(x) <==> (base.accepts(x) && forall|zs: Seq<F>, k: int|
                    #![trigger base.yields(x, zs), zs[k]]
                    base.yields(x, zs) && 0 <= k < zs.len() && zs[k].as_result() is Ok ==> ok.accepts(
                        zs[k].as_result()->Ok_0,
                    )),
    {
        XLift { base, ok, phantom: PhantomData }
    }
}

impl<I, F: IntoResult<S, E>, S, E, Q, B: Xap<I, F>, Y: Xap<S, Q>> Xap<I, Result<Q, E>> for XLift<
    F,
    S,
    E,
    B,
    Y,
> {
    open spec fn accepts(&self, x: I) -> bool {
        &&& self.base.accepts(x)
        &&& forall|zs: Seq<F>, k: int|
            #![trigger self.base.yields(x, zs), zs[k]]
            self.base.yields(x, zs) && 0 <= k < zs.len() && zs[k].as_result() is Ok ==> self.ok.accepts(
                zs[k].as_result()->Ok_0,
            )
    }

    open spec fn yields(&self, x: I, ys: Seq<Result<Q, E>>) -> bool {
        exists|zs: Seq<F>, wss: Seq<Seq<Q>>, per: Seq<Seq<Result<Q, E>>>|
            #[trigger] self.base.yields(x, zs) && #[trigger] lifted(self.ok, zs, wss, per) && ys
                == flatten(per)
    }

    open spec fn single_spec(&self) -> bool {
        self.base.single_spec() && self.ok.single_spec()
    }

    fn apply(&self, x: I) -> (ys: Vec<Result<Q, E>>) {
        let zs = self.base.apply(x);
        let ghost zs_seq = zs@;
        proof {
            assert(self.base.yields(x, zs_seq));
        }
        let ghost mut wss: Seq<Seq<Q>> = Seq::empty();
        let ghost mut per: Seq<Seq<Result<Q, E>>> = Seq::empty();
        let mut ys: Vec<Result<Q, E>> = Vec::new();
        for z in it: zs.into_iter()
            invariant
                forall|k: int|
                    0 <= k < zs_seq.len() && (#[trigger] zs_seq[k]).as_result() is Ok ==> self.ok.accepts(
                        zs_seq[k].as_result()->Ok_0,
                    ),
                it.seq() == zs_seq,
                self.base.single_spec() ==> zs_seq.len() <= 1,
                wss.len() == it.index(),
                per.len() == it.index(),
                lifted(self.ok, zs_seq.take(it.index() as int), wss, per),
                ys@ == flatten(per),
                self.single_spec() ==> ys.len() <= it.index(),
        {
            let ghost k = it.index() as int;
            let ghost old_ys = ys@;
            let ghost old_wss = wss;
            let ghost old_per = per;
            proof {
                assert(z == zs_seq[k]);
            }
            match z.into_result() {
                Ok(s) => {
                    let ws = self.ok.apply(s);
                    let ghost ws_seq = ws@;
                    for w in jt: ws.into_iter()
                        invariant
                            jt.seq() == ws_seq,
                            ys@ == old_ys + oks::<Q, E>(ws_seq.take(jt.index() as int)),
                    {
                        let ghost j = jt.index() as int;
                        proof {
                            assert(w == ws_seq[j]);
                        }
                        ys.push(Ok(w));
                        proof {
                            assert(oks::<Q, E>(ws_seq.take(j + 1)) =~= oks::<Q, E>(ws_seq.take(j)).push(
                                Ok(w),
                            ));
                            assert(ys@ =~= old_ys + oks::<Q, E>(ws_seq.take(j + 1)));
                        }
                    }
                    proof {
                        assert(ws_seq.take(ws_seq.len() as int) =~= ws_seq);
                        wss = wss.push(ws_seq);
                        per = per.push(oks::<Q, E>(ws_seq));
                        assert(lifts(self.ok, zs_seq[k], wss[k], per[k]));
                    }
                },
                Err(e) => {
                    ys.push(Err(e));
                    proof {
                        wss = wss.push(Seq::empty());
                        per = per.push(seq![Err::<Q, E>(e)]);
                        assert(ys@ =~= old_ys + seq![Err::<Q, E>(e)]);
                        assert(lifts(self.ok, zs_seq[k], wss[k], per[k]));
                    }
                },
            }
            proof {
                assert(per.drop_last() =~= old_per);
                assert(ys@ == flatten(per));
                let t = zs_seq.take(k + 1);
                assert forall|i: int| 0 <= i < t.len() implies #[trigger] lifts(
                    self.ok,
                    t[i],
                    wss[i],
                    per[i],
                ) by {
                    if i < k {
                        assert(t[i] == zs_seq.take(k)[i]);
                        assert(wss[i] == old_wss[i]);
                        assert(per[i] == old_per[i]);
                    }
                }
                if self.single_spec() {
                    assert(k == 0);
                }
            }
        }
        proof {
            assert(zs_seq.take(zs_seq.len() as int) =~= zs_seq);
            assert(self.base.yields(x, zs_seq));
            assert(lifted(self.ok, zs_seq, wss, per));
        }
        ys
    }

    fn is_single(&self) -> (r: bool) {
        self.base.is_single() && self.ok.is_single()
    }
}

/// A computation over the results of transforming `input` with `xap`, stopping at the
/// first failure, can end with the failure `e`: the outputs of the first `k` inputs,
/// in order, are successes up to position `j`, where `e` stands.
pub open spec fn fails_with<T, Q, E, X: Xap<T, Result<Q, E>>>(xap: X, input: Seq<T>, e: E) -> bool {
    exists|k: int, out: Seq<Result<Q, E>>, j: int|
        #![trigger produces(xap, input.take(k), out), out[j]]
        0 <= k <= input.len() && produces(xap, input.take(k), out) && 0 <= j < out.len() && out[j]
            == Err::<Q, E>(e) && all_ok(out.take(j))
}

/// Like [`fails_with`], where in addition `done` holds of each success before the
/// failure `e`.
pub open spec fn fails_after<T, Q, E, X: Xap<T, Result<Q, E>>>(
    xap: X,
    input: Seq<T>,
    e: E,
    done: spec_fn(Q) -> bool,
) -> bool {
    exists|k: int, out: Seq<Result<Q, E>>, j: int|
        #![trigger produces(xap, input.take(k), out), out[j]]
        0 <= k <= input.len() && produces(xap, input.take(k), out) && 0 <= j < out.len() && out[j]
            == Err::<Q, E>(e) && all_ok(out.take(j)) && forall|i: int|
            0 <= i < j ==> done((#[trigger] out[i])->Ok_0)
}

/// Transforms the inputs in order and calls `operation` on each successful output as
/// it comes; stops at the first failure and returns it. Inputs after it are not
/// transformed.
pub fn try_for_each<T, Q, E, X: Xap<T, Result<Q, E>>, P: Fn(Q)>(xap: &X, input: Vec<T>, operation: P) -> (r: Result<(), E>)
    requires
        accepts_all(*xap, input@),
        forall|q: Q| call_requires(operation, (q,)),
    ensures
        match r {
            Ok(_) => exists|v: Seq<Q>|
                produces(*xap, input@, oks(v)) && forall|i: int| 0 <= i < v.len() ==> call_ensures(operation, (#[trigger] v[i],), ()),
            Err(e) => fails_with(*xap, input@, e) && fails_after(*xap, input@, e, |q: Q| call_ensures(operation, (q,), ())),
        },
{
    let ghost input_seq = input@;
    let ghost mut per: Seq<Seq<Result<Q, E>>> = Seq::empty();
    let ghost mut values: Seq<Q> = Seq::empty();
    for x in it: input.into_iter()
        invariant
            accepts_all(*xap, input_seq),
            forall|q: Q| call_requires(operation, (q,)),
            it.seq() == input_seq,
            per.len() == it.index(),
            outputs_of(*xap, input_seq.take(it.index() as int), per),
            oks::<Q, E>(values) == flatten(per),
            forall|i: int| 0 <= i < values.len() ==> call_ensures(operation, (#[trigger] values[i],), ()),
    {
        let ghost k = it.index() as int;
        proof {
            assert(x == input_seq[k]);
        }
        let ys = xap.apply(x);
        let ghost ys_seq = ys@;
        let ghost base = flatten(per);
        let ghost base_values = values;
        proof {
            assert(produces(*xap, input_seq.take(k), base));
            crate::laws::lemma_produces_push(*xap, input_seq.take(k), base, input_seq[k], ys_seq);
            assert(input_seq.take(k).push(input_seq[k]) =~= input_seq.take(k + 1));
        }
        for y in jt: ys.into_iter()
            invariant
                forall|q: Q| call_requires(operation, (q,)),
                jt.seq() == ys_seq,
                input_seq == input@,
                0 <= k < input_seq.len(),
                produces(*xap, input_seq.take(k + 1), base + ys_seq),
                oks::<Q, E>(base_values) == base,
                oks::<Q, E>(values) == base + ys_seq.take(jt.index() as int),
                forall|i: int| 0 <= i < values.len() ==> call_ensures(operation, (#[trigger] values[i],), ()),
        {
            let ghost j = jt.index() as int;
            proof {
                assert(y == ys_seq[j]);
            }
            match y {
                Ok(q) => {
                    let ghost before = values;
                    operation(q);
                    proof {
                        values = values.push(q);
                        assert(ys_seq.take(j + 1) =~= ys_seq.take(j).push(Ok::<Q, E>(q)));
                        assert(oks::<Q, E>(values) =~= oks::<Q, E>(before).push(Ok::<Q, E>(q)));
                        assert(oks::<Q, E>(values) =~= base + ys_seq.take(j + 1));
                        assert forall|i: int| 0 <= i < values.len() implies call_ensures(
                            operation,
                            (#[trigger] values[i],),
                            (),
                        ) by {
                            if i < before.len() {
                                assert(values[i] == before[i]);
                            }
                        }
                    }
                },
                Err(e) => {
                    proof {
                        let out = base + ys_seq;
                        let jj = base.len() + j;
                        assert(out[jj] == Err::<Q, E>(e));
                        assert(out.take(jj) =~= oks::<Q, E>(values));
                        assert(all_ok(out.take(jj)));
                        assert forall|i: int| 0 <= i < jj implies (|q: Q| call_ensures(operation, (q,), ()))(
                            (#[trigger] out[i])->Ok_0,
                        ) by {
                            assert(out[i] == out.take(jj)[i]);
                            assert(oks::<Q, E>(values)[i] == Ok::<Q, E>(values[i]));
                        }
                        assert(produces(*xap, input_seq.take(k + 1), out) && out[jj] == Err::<Q, E>(e));
                        assert(fails_with(*xap, input_seq, e));
                        assert(fails_after(*xap, input_seq, e, |q: Q| call_ensures(operation, (q,), ())));
                    }
                    return Err(e);
                },
            }
        }
        proof {
            assert(ys_seq.take(ys_seq.len() as int) =~= ys_seq);
            let old_per = per;
            per = per.push(ys_seq);
            assert(per.drop_last() =~= old_per);
            let t = input_seq.take(k + 1);
            assert forall|i: int| 0 <= i < t.len() implies xap.yields(#[trigger] t[i], per[i]) by {
                if i < k {
                    assert(t[i] == input_seq.take(k)[i]);
                }
            }
        }
    }
    proof {
        assert(input_seq.take(input_seq.len() as int) =~= input_seq);
        assert(outputs_of(*xap, input_seq, per));
        assert(produces(*xap, input_seq, oks::<Q, E>(values)));
    }
    Ok(())
}

/// Transforms the inputs in order and collects the successful outputs; stops at the
/// first failure and returns it. Inputs after it are not transformed.
pub fn try_collect<T, Q, E, X: Xap<T, Result<Q, E>>>(xap: &X, input: Vec<T>) -> (r: Result<Vec<Q>, E>)
    requires
        accepts_all(*xap, input@),
    ensures
        match r {
            Ok(v) => produces(*xap, input@, oks(v@)),
            Err(e) => fails_with(*xap, input@, e),
        },
{
    let ghost input_seq = input@;
    let ghost mut per: Seq<Seq<Result<Q, E>>> = Seq::empty();
    let mut values: Vec<Q> = Vec::new();
    for x in it: input.into_iter()
        invariant
            accepts_all(*xap, input_seq),
            it.seq() == input_seq,
            per.len() == it.index(),
            outputs_of(*xap, input_seq.take(it.index() as int), per),
            oks::<Q, E>(values@) == flatten(per),
    {
        let ghost k = it.index() as int;
        proof {
            assert(x == input_seq[k]);
        }
        let ys = xap.apply(x);
        let ghost ys_seq = ys@;
        let ghost base = flatten(per);
        let ghost base_values = values@;
        proof {
            assert(produces(*xap, input_seq.take(k), base));
            crate::laws::lemma_produces_push(*xap, input_seq.take(k), base, input_seq[k], ys_seq);
            assert(input_seq.take(k).push(input_seq[k]) =~= input_seq.take(k + 1));
        }
        for y in jt: ys.into_iter()
            invariant
                jt.seq() == ys_seq,
                input_seq == input@,
                0 <= k < input_seq.len(),
                produces(*xap, input_seq.take(k + 1), base + ys_seq),
                oks::<Q, E>(base_values) == base,
                oks::<Q, E>(values@) == base + ys_seq.take(jt.index() as int),
        {
            let ghost j = jt.index() as int;
            proof {
                assert(y == ys_seq[j]);
            }
            match y {
                Ok(q) => {
                    let ghost before = values@;
                    values.push(q);
                    proof {
                        assert(ys_seq.take(j + 1) =~= ys_seq.take(j).push(Ok::<Q, E>(q)));
                        assert(oks::<Q, E>(values@) =~= oks::<Q, E>(before).push(Ok::<Q, E>(q)));
                        assert(oks::<Q, E>(values@) =~= base + ys_seq.take(j + 1));
                    }
                },
                Err(e) => {
                    proof {
                        let out = base + ys_seq;
                        let jj = base.len() + j;
                        assert(out[jj] == Err::<Q, E>(e));
                        assert(out.take(jj) =~= oks::<Q, E>(values@));
                        assert(all_ok(out.take(jj)));
                        assert(produces(*xap, input_seq.take(k + 1), out) && out[jj] == Err::<Q, E>(e));
                        assert(fails_with(*xap, input_seq, e));
                    }
                    return Err(e);
                },
            }
        }
        proof {
            assert(ys_seq.take(ys_seq.len() as int) =~= ys_seq);
            let old_per = per;
            per = per.push(ys_seq);
            assert(per.drop_last() =~= old_per);
            let t = input_seq.take(k + 1);
            assert forall|i: int| 0 <= i < t.len() implies xap.yields(#[trigger] t[i], per[i]) by {
                if i < k {
                    assert(t[i] == input_seq.take(k)[i]);
                }
            }
        }
    }
    proof {
        assert(input_seq.take(input_seq.len() as int) =~= input_seq);
        assert(outputs_of(*xap, input_seq, per));
    }
    Ok(values)
}

/// What a fallible computation that stops at the first output returns for that output
/// `f` (with the position of its input): `Ok(None)` when there is no output, the value
/// of a success, or a failure.
pub open spec fn first_result<Q, E>(f: Option<(usize, Result<Q, E>)>) -> Result<Option<Q>, E> {
    match f {
        None => Ok(None),
        Some((_, Ok(q))) => Ok(Some(q)),
        Some((_, Err(e))) => Err(e),
    }
}

/// A parallel iterator whose elements are results: the computation either succeeds on
/// every element, or ends with a failure.
///
/// The inputs are transformed by `base` into results (or values that stand for
/// results); the successes are then transformed by `ok`, and the failures pass as they
/// are.
pub struct ParResult<T, F, S, E, Q, B, Y> {
    /// The input elements.
    pub input: Vec<T>,
    /// The parameters of the computation.
    pub params: Params,
    /// The transformation of the inputs into results.
    pub base: B,
    /// The transformation of the successes.
    pub ok: Y,
    pub phantom: PhantomData<(F, S, E, Q)>,
}

impl<T, S, E, B: Xap<T, Result<S, E>>> Par<T, Result<S, E>, B> {
    /// The fallible iterator over the results of this iterator.
    pub fn into_fallible_result(self) -> (r: ParResult<T, Result<S, E>, S, E, S, B, Id>)
        ensures
            r.input == self.input,
            r.params == self.params,
            r.base == self.xap,
    {
        ParResult { input: self.input, params: self.params, base: self.xap, ok: Id, phantom: PhantomData }
    }

    /// The fallible iterator over the results of this iterator; another name of
    /// `into_fallible_result`.
    pub fn into_fallible(self) -> (r: ParResult<T, Result<S, E>, S, E, S, B, Id>)
        ensures
            r.input == self.input,
            r.params == self.params,
            r.base == self.xap,
    {
        self.into_fallible_result()
    }
}

impl<T, F: IntoResult<S, E>, S, E, Q, B: Xap<T, F>, Y: Xap<S, Q>> ParResult<T, F, S, E, Q, B, Y> {
    /// The transformation of the regular iterator: inputs to results.
    pub open spec fn regular(self) -> XLift<F, S, E, B, Y> {
        XLift { base: self.base, ok: self.ok, phantom: PhantomData }
    }

    /// Every closure of the iterator accepts every value it receives from the inputs.
    pub open spec fn ready(self) -> bool {
        accepts_all(self.regular(), self.input@)
    }

    /// `out` is a possible sequence of the results of this iterator, in input order.
    pub open spec fn outputs(self, out: Seq<Result<Q, E>>) -> bool {
        produces(self.regular(), self.input@, out)
    }

    /// A computation on this iterator stopping at the first failure can end with `e`.
    pub open spec fn fails_with(self, e: E) -> bool {
        fails_with(self.regular(), self.input@, e)
    }

    /// The regular parallel iterator over the results.
    pub fn into_regular_par(self) -> (r: Par<T, Result<Q, E>, XLift<F, S, E, B, Y>>)
        ensures
            r.input == self.input,
            r.params == self.params,
            r.xap == self.regular(),
    {
        Par::new(self.input, self.params, XLift::new(self.base, self.ok))
    }

    /// The iterator with the number of threads replaced.
    pub fn num_threads<N: Into<NumThreads>>(self, num_threads: N) -> (r: Self)
        ensures
            r.input == self.input,
            r.base == self.base,
            r.ok == self.ok,
            N::obeys_into_spec() ==> r.params.num_threads == num_threads.into_spec(),
            r.params.chunk_size == self.params.chunk_size,
            r.params.collect_ordering == self.params.collect_ordering,
    {
        let params = self.params.with_num_threads(num_threads);
        ParResult { input: self.input, params, base: self.base, ok: self.ok, phantom: PhantomData }
    }

    /// The iterator with the chunk size replaced.
    pub fn chunk_size<C: Into<ChunkSize>>(self, chunk_size: C) -> (r: Self)
        ensures
            r.input == self.input,
            r.base == self.base,
            r.ok == self.ok,
            r.params.num_threads == self.params.num_threads,
            C::obeys_into_spec() ==> r.params.chunk_size == chunk_size.into_spec(),
            r.params.collect_ordering == self.params.collect_ordering,
    {
        let params = self.params.with_chunk_size(chunk_size);
        ParResult { input: self.input, params, base: self.base, ok: self.ok, phantom: PhantomData }
    }

    /// The iterator with the collect ordering replaced.
    pub fn collect_ordering(self, collect_ordering: CollectOrdering) -> (r: Self)
        ensures
            r.input == self.input,
            r.base == self.base,
            r.ok == self.ok,
            r.params == self.params.with_collect_ordering_spec(collect_ordering),
    {
        let params = self.params.with_collect_ordering(collect_ordering);
        ParResult { input: self.input, params, base: self.base, ok: self.ok, phantom: PhantomData }
    }

    // transformations of the successes

    /// Maps each success with `map`.
    pub fn map<Q2, H: Fn(Q) -> Q2>(self, map: H) -> (r: ParResult<T, F, S, E, Q2, B, XMap<Q, Y, H>>)
        ensures
            r.input == self.input,
            r.params == self.params,
            r.base == self.base,
            r.ok.inner == self.ok,
            r.ok.map == map,
            self.ready() && (forall|q: Q| call_requires(map, (q,))) ==> r.ready(),
            forall|s: S|
                #[trigger] r.ok.accepts(s) <==> (self.ok.accepts(s) && forall|ws: Seq<Q>, k: int|
                    #![trigger self.ok.yields(s, ws), ws[k]]
                    self.ok.yields(s, ws) && 0 <= k < ws.len() ==> call_requires(map, (ws[k],))),
    {
        ParResult {
            input: self.input,
            params: self.params,
            base: self.base,
            ok: XMap::new(self.ok, map),
            phantom: PhantomData,
        }
    }

    /// Keeps the successes for which `filter` returns true; failures are kept.
    pub fn filter<H: Fn(&Q) -> bool>(self, filter: H) -> (r: ParResult<T, F, S, E, Q, B, XFilter<Q, Y, H>>)
        ensures
            r.input == self.input,
            r.params == self.params,
            r.base == self.base,
            r.ok.inner == self.ok,
            r.ok.filter == filter,
            self.ready() && (forall|q: Q| call_requires(filter, (&q,))) ==> r.ready(),
            forall|s: S|
                #[trigger] r.ok.accepts(s) <==> (self.ok.accepts(s) && forall|ws: Seq<Q>, k: int|
                    #![trigger self.ok.yields(s, ws), ws[k]]
                    self.ok.yields(s, ws) && 0 <= k < ws.len() ==> call_requires(filter, (&ws[k],))),
    {
        ParResult {
            input: self.input,
            params: self.params,
            base: self.base,
            ok: XFilter::new(self.ok, filter),
            phantom: PhantomData,
        }
    }

    /// Maps each success with `filter_map` and keeps the values that are present.
    pub fn filter_map<Q2, FO: Fallible<Q2>, H: Fn(Q) -> FO>(self, filter_map: H) -> (r: ParResult<
        T,
        F,
        S,
        E,
        Q2,
        B,
        XFilterMap<Q, FO, Y, H>,
    >)
        ensures
            r.input == self.input,
            r.params == self.params,
            r.base == self.base,
            r.ok.inner == self.ok,
            r.ok.filter_map == filter_map,
            self.ready() && (forall|q: Q| call_requires(filter_map, (q,))) ==> r.ready(),
            forall|s: S|
                #[trigger] r.ok.accepts(s) <==> (self.ok.accepts(s) && forall|ws: Seq<Q>, k: int|
                    #![trigger self.ok.yields(s, ws), ws[k]]
                    self.ok.yields(s, ws) && 0 <= k < ws.len() ==> call_requires(filter_map, (ws[k],))),
    {
        ParResult {
            input: self.input,
            params: self.params,
            base: self.base,
            ok: XFilterMap::new(self.ok, filter_map),
            phantom: PhantomData,
        }
    }

    /// Maps each success to a vector with `flat_map` and yields its elements as
    /// successes, in order.
    pub fn flat_map<Q2, H: Fn(Q) -> Vec<Q2>>(self, flat_map: H) -> (r: ParResult<
        T,
        F,
        S,
        E,
        Q2,
        B,
        XFlatMap<Q, Y, H>,
    >)
        ensures
            r.input == self.input,
            r.params == self.params,
            r.base == self.base,
            r.ok.inner == self.ok,
            r.ok.flat_map == flat_map,
            self.ready() && (forall|q: Q| call_requires(flat_map, (q,))) ==> r.ready(),
            forall|s: S|
                #[trigger] r.ok.accepts(s) <==> (self.ok.accepts(s) && forall|ws: Seq<Q>, k: int|
                    #![trigger self.ok.yields(s, ws), ws[k]]
                    self.ok.yields(s, ws) && 0 <= k < ws.len() ==> call_requires(flat_map, (ws[k],))),
    {
        ParResult {
            input: self.input,
            params: self.params,
            base: self.base,
            ok: XFlatMap::new(self.ok, flat_map),
            phantom: PhantomData,
        }
    }

    /// Calls `operation` on each success and yields the elements unchanged.
    pub fn inspect<H: Fn(&Q)>(self, operation: H) -> (r: ParResult<T, F, S, E, Q, B, XInspect<Q, Y, H>>)
        ensures
            r.input == self.input,
            r.params == self.params,
            r.base == self.base,
            r.ok.inner == self.ok,
            r.ok.operation == operation,
            self.ready() && (forall|q: Q| call_requires(operation, (&q,))) ==> r.ready(),
            forall|s: S|
                #[trigger] r.ok.accepts(s) <==> (self.ok.accepts(s) && forall|ws: Seq<Q>, k: int|
                    #![trigger self.ok.yields(s, ws), ws[k]]
                    self.ok.yields(s, ws) && 0 <= k < ws.len() ==> call_requires(operation, (&ws[k],))),
    {
        ParResult {
            input: self.input,
            params: self.params,
            base: self.base,
            ok: XInspect::new(self.ok, operation),
            phantom: PhantomData,
        }
    }

    // computations

    /// Collects the successes in input order if there is no failure; otherwise returns
    /// the failure it stopped at.
    pub fn collect(self) -> (r: Result<Vec<Q>, E>)
        requires
            self.ready(),
        ensures
            match r {
                Ok(v) => self.outputs(oks(v@)),
                Err(e) => self.fails_with(e),
            },
    {
        let regular = self.into_regular_par();
        try_collect(&regular.xap, regular.input)
    }

    /// Appends the successes to `output`, in input order, if there is no failure;
    /// otherwise returns the failure it stopped at.
    pub fn collect_into(self, output: Vec<Q>) -> (r: Result<Vec<Q>, E>)
        requires
            self.ready(),
        ensures
            match r {
                Ok(w) => exists|v: Seq<Q>| self.outputs(oks(v)) && w@ == output@ + v,
                Err(e) => self.fails_with(e),
            },
    {
        let ghost me = self;
        match self.collect() {
            Ok(v) => {
                let ghost vs = v@;
                let mut output = output;
                let mut v = v;
                output.append(&mut v);
                proof {
                    assert(me.outputs(oks(vs)));
                }
                Ok(output)
            },
            Err(e) => Err(e),
        }
    }

    /// The number of elements if there is no failure; otherwise the failure.
    pub fn count(self) -> (r: Result<usize, E>)
        requires
            self.ready(),
        ensures
            match r {
                Ok(n) => exists|v: Seq<Q>| self.outputs(oks(v)) && n == v.len(),
                Err(e) => self.fails_with(e),
            },
    {
        let ghost me = self;
        match self.collect() {
            Ok(v) => {
                proof {
                    assert(me.outputs(oks(v@)));
                }
                Ok(v.len())
            },
            Err(e) => Err(e),
        }
    }

    /// Reduces the successes from the left with `op` if there is no failure
    /// (`Ok(None)` when there is no element); otherwise the failure.
    pub fn reduce<R: Fn(Q, Q) -> Q>(self, op: R) -> (r: Result<Option<Q>, E>)
        requires
            self.ready(),
            forall|v: Seq<Q>| self.outputs(oks(v)) ==> fold_callable(op, v),
        ensures
            match r {
                Ok(o) => exists|v: Seq<Q>| self.outputs(oks(v)) && reduces(call_step(op), v, o),
                Err(e) => self.fails_with(e),
            },
    {
        let ghost me = self;
        match self.collect() {
            Ok(v) => {
                let ghost vs = v@;
                proof {
                    assert forall|out: Seq<Q>| produces(Id, vs, out) implies fold_callable(op, out) by {
                        law_identity_outputs(vs, out);
                    }
                }
                let o = Reduce::reduce(par(v), op);
                proof {
                    let out = choose|out: Seq<Q>| produces(Id, vs, out) && reduces(call_step(op), out, o);
                    law_identity_outputs(vs, out);
                    assert(me.outputs(oks(vs)));
                }
                Ok(o)
            },
            Err(e) => Err(e),
        }
    }

    /// The sum of the successes if there is no failure (`Q::default()` when there is no
    /// element); otherwise the failure.
    pub fn sum(self) -> (r: Result<Q, E>) where Q: Default + Add<Output = Q>
        requires
            self.ready(),
            forall|v: Seq<Q>| self.outputs(oks(v)) ==> sums_fit(v),
        ensures
            match r {
                Ok(s) => exists|v: Seq<Q>|
                    self.outputs(oks(v)) && (v.len() == 0 ==> call_ensures(Q::default, (), s)) && (v.len()
                        > 0 ==> folds(add_step::<Q>(), v, s)),
                Err(e) => self.fails_with(e),
            },
    {
        let ghost me = self;
        match self.collect() {
            Ok(v) => {
                let ghost vs = v@;
                proof {
                    assert forall|out: Seq<Q>| produces(Id, vs, out) implies sums_fit(out) by {
                        law_identity_outputs(vs, out);
                    }
                }
                let s = Reduce::sum(par(v));
                proof {
                    let out = choose|out: Seq<Q>|
                        produces(Id, vs, out) && (out.len() == 0 ==> call_ensures(Q::default, (), s)) && (
                        out.len() > 0 ==> folds(add_step::<Q>(), out, s));
                    law_identity_outputs(vs, out);
                    assert(me.outputs(oks(vs)));
                }
                Ok(s)
            },
            Err(e) => Err(e),
        }
    }

    /// The minimum of the successes (the earliest one on ties) if there is no failure;
    /// otherwise the failure.
    pub fn min(self) -> (r: Result<Option<Q>, E>) where Q: Ord
        requires
            self.ready(),
        ensures
            match r {
                Ok(o) => exists|v: Seq<Q>| self.outputs(oks(v)) && reduces(min_step::<Q>(), v, o),
                Err(e) => self.fails_with(e),
            },
    {
        let ghost me = self;
        match self.collect() {
            Ok(v) => {
                let ghost vs = v@;
                let o = Reduce::min(par(v));
                proof {
                    let out = choose|out: Seq<Q>| produces(Id, vs, out) && reduces(min_step::<Q>(), out, o);
                    law_identity_outputs(vs, out);
                    assert(me.outputs(oks(vs)));
                }
                Ok(o)
            },
            Err(e) => Err(e),
        }
    }

    /// The maximum of the successes (the latest one on ties) if there is no failure;
    /// otherwise the failure.
    pub fn max(self) -> (r: Result<Option<Q>, E>) where Q: Ord
        requires
            self.ready(),
        ensures
            match r {
                Ok(o) => exists|v: Seq<Q>| self.outputs(oks(v)) && reduces(max_step::<Q>(), v, o),
                Err(e) => self.fails_with(e),
            },
    {
        let ghost me = self;
        match self.collect() {
            Ok(v) => {
                let ghost vs = v@;
                let o = Reduce::max(par(v));
                proof {
                    let out = choose|out: Seq<Q>| produces(Id, vs, out) && reduces(max_step::<Q>(), out, o);
                    law_identity_outputs(vs, out);
                    assert(me.outputs(oks(vs)));
                }
                Ok(o)
            },
            Err(e) => Err(e),
        }
    }

    /// The minimum of the successes with respect to `compare` (the earliest one on
    /// ties) if there is no failure; otherwise the failure.
    pub fn min_by<C: Fn(&Q, &Q) -> Ordering>(self, compare: C) -> (r: Result<Option<Q>, E>)
        requires
            self.ready(),
            forall|a: Q, b: Q| call_requires(compare, (&a, &b)),
        ensures
            match r {
                Ok(o) => exists|v: Seq<Q>| self.outputs(oks(v)) && reduces(min_by_step(compare), v, o),
                Err(e) => self.fails_with(e),
            },
    {
        let ghost me = self;
        match self.collect() {
            Ok(v) => {
                let ghost vs = v@;
                let o = Reduce::min_by(par(v), compare);
                proof {
                    let out = choose|out: Seq<Q>| produces(Id, vs, out) && reduces(min_by_step(compare), out, o);
                    law_identity_outputs(vs, out);
                    assert(me.outputs(oks(vs)));
                }
                Ok(o)
            },
            Err(e) => Err(e),
        }
    }

    /// The maximum of the successes with respect to `compare` (the earliest one on
    /// ties) if there is no failure; otherwise the failure.
    pub fn max_by<C: Fn(&Q, &Q) -> Ordering>(self, compare: C) -> (r: Result<Option<Q>, E>)
        requires
            self.ready(),
            forall|a: Q, b: Q| call_requires(compare, (&a, &b)),
        ensures
            match r {
                Ok(o) => exists|v: Seq<Q>| self.outputs(oks(v)) && reduces(max_by_step(compare), v, o),
                Err(e) => self.fails_with(e),
            },
    {
        let ghost me = self;
        match self.collect() {
            Ok(v) => {
                let ghost vs = v@;
                let o = Reduce::max_by(par(v), compare);
                proof {
                    let out = choose|out: Seq<Q>| produces(Id, vs, out) && reduces(max_by_step(compare), out, o);
                    law_identity_outputs(vs, out);
                    assert(me.outputs(oks(vs)));
                }
                Ok(o)
            },
            Err(e) => Err(e),
        }
    }

    /// The success with the minimum key (the earliest one on ties) if there is no
    /// failure; otherwise the failure.
    pub fn min_by_key<K: Ord, G: Fn(&Q) -> K>(self, get_key: G) -> (r: Result<Option<Q>, E>)
        requires
            self.ready(),
            forall|a: Q| call_requires(get_key, (&a,)),
        ensures
            match r {
                Ok(o) => exists|v: Seq<Q>| self.outputs(oks(v)) && reduces(min_by_key_step(get_key), v, o),
                Err(e) => self.fails_with(e),
            },
    {
        let ghost me = self;
        match self.collect() {
            Ok(v) => {
                let ghost vs = v@;
                let o = Reduce::min_by_key(par(v), get_key);
                proof {
                    let out = choose|out: Seq<Q>| produces(Id, vs, out) && reduces(min_by_key_step(get_key), out, o);
                    law_identity_outputs(vs, out);
                    assert(me.outputs(oks(vs)));
                }
                Ok(o)
            },
            Err(e) => Err(e),
        }
    }

    /// The success with the maximum key (the earliest one on ties) if there is no
    /// failure; otherwise the failure.
    pub fn max_by_key<K: Ord, G: Fn(&Q) -> K>(self, get_key: G) -> (r: Result<Option<Q>, E>)
        requires
            self.ready(),
            forall|a: Q| call_requires(get_key, (&a,)),
        ensures
            match r {
                Ok(o) => exists|v: Seq<Q>| self.outputs(oks(v)) && reduces(max_by_key_step(get_key), v, o),
                Err(e) => self.fails_with(e),
            },
    {
        let ghost me = self;
        match self.collect() {
            Ok(v) => {
                let ghost vs = v@;
                let o = Reduce::max_by_key(par(v), get_key);
                proof {
                    let out = choose|out: Seq<Q>| produces(Id, vs, out) && reduces(max_by_key_step(get_key), out, o);
                    law_identity_outputs(vs, out);
                    assert(me.outputs(oks(vs)));
                }
                Ok(o)
            },
            Err(e) => Err(e),
        }
    }

    /// Calls `operation` on each success, in input order, until the first failure,
    /// which it then returns; inputs after the failure are not transformed.
    pub fn for_each<P: Fn(Q)>(self, operation: P) -> (r: Result<(), E>)
        requires
            self.ready(),
            forall|q: Q| call_requires(operation, (q,)),
        ensures
            match r {
                Ok(_) => exists|v: Seq<Q>|
                    self.outputs(oks(v)) && forall|i: int| 0 <= i < v.len() ==> call_ensures(operation, (#[trigger] v[i],), ()),
                Err(e) => self.fails_with(e) && fails_after(
                    self.regular(),
                    self.input@,
                    e,
                    |q: Q| call_ensures(operation, (q,), ()),
                ),
            },
    {
        let regular = self.into_regular_par();
        try_for_each(&regular.xap, regular.input, operation)
    }

    /// The first element: `Ok(None)` when there is none, the first success, or the
    /// failure when the first result is one. Inputs after it are not transformed.
    pub fn first(self) -> (r: Result<Option<Q>, E>)
        requires
            self.ready(),
        ensures
            exists|f: Option<(usize, Result<Q, E>)>|
                is_first(self.regular(), self.input@, f) && r == first_result(f),
    {
        let regular = self.into_regular_par();
        let f = first_with_index(&regular.xap, regular.input);
        let ghost g = f;
        let r = match f {
            None => Ok(None),
            Some((_, Ok(q))) => Ok(Some(q)),
            Some((_, Err(e))) => Err(e),
        };
        proof {
            assert(r == first_result(g));
        }
        r
    }

    /// The first success satisfying `predicate`, or the failure when one comes first;
    /// `Ok(None)` when there is neither.
    pub fn find<P: Fn(&Q) -> bool>(self, predicate: P) -> (r: Result<Option<Q>, E>)
        requires
            self.ready(),
            forall|q: Q| call_requires(predicate, (&q,)),
        ensures
            exists|f: Option<(usize, Result<Q, E>)>|
                is_first(
                    XLift::<F, S, E, B, XFilter<Q, Y, P>> {
                        base: self.base,
                        ok: filtered(self.ok, predicate),
                        phantom: PhantomData,
                    },
                    self.input@,
                    f,
                ) && r == first_result(f),
    {
        self.filter(predicate).first()
    }

    /// Whether some success satisfies `predicate`, or the failure when one comes before
    /// such a success.
    pub fn any<P: Fn(&Q) -> bool>(self, predicate: P) -> (r: Result<bool, E>)
        requires
            self.ready(),
            forall|q: Q| call_requires(predicate, (&q,)),
        ensures
            exists|f: Option<(usize, Result<Q, E>)>|
                is_first(
                    XLift::<F, S, E, B, XFilter<Q, Y, P>> {
                        base: self.base,
                        ok: filtered(self.ok, predicate),
                        phantom: PhantomData,
                    },
                    self.input@,
                    f,
                ) && r == (match first_result(f) {
                    Ok(o) => Ok(o is Some),
                    Err(e) => Err(e),
                }),
    {
        match self.find(predicate) {
            Ok(o) => Ok(o.is_some()),
            Err(e) => Err(e),
        }
    }
    /// Whether every success satisfies `predicate`, or the failure when one comes before
    /// a success violating it.
    pub fn all<P: Fn(&Q) -> bool>(self, predicate: P) -> (r: Result<bool, E>)
        requires
            self.ready(),
            forall|q: Q| call_requires(predicate, (&q,)),
        ensures
            exists|f: Option<(usize, Result<Q, E>)>|
                is_first(
                    XLift::<F, S, E, B, XReject<Q, Y, P>> {
                        base: self.base,
                        ok: rejected(self.ok, predicate),
                        phantom: PhantomData,
                    },
                    self.input@,
                    f,
                ) && r == (match first_result(f) {
                    Ok(o) => Ok(o is None),
                    Err(e) => Err(e),
                }),
    {
        let violations: ParResult<T, F, S, E, Q, B, XReject<Q, Y, P>> = ParResult {
            input: self.input,
            params: self.params,
            base: self.base,
            ok: XReject::new(self.ok, predicate),
            phantom: PhantomData,
        };
        match violations.first() {
            Ok(o) => Ok(o.is_none()),
            Err(e) => Err(e),
        }
    }
}

/// A parallel iterator whose elements are options: the computation either finds a
/// value in every element, or ends with `None`.
///
/// It is the fallible iterator over results whose failure is the unit: `Some(x)`
/// stands for `Ok(x)` and `None` for `Err(())`.
pub struct ParOption<T, S, Q, B, Y> {
    pub inner: ParResult<T, Option<S>, S, (), Q, B, Y>,
}

impl<T, S, B: Xap<T, Option<S>>> Par<T, Option<S>, B> {
    /// The fallible iterator over the options of this iterator.
    pub fn into_fallible_option(self) -> (r: ParOption<T, S, S, B, Id>)
        ensures
            r.inner.input == self.input,
            r.inner.params == self.params,
            r.inner.base == self.xap,
    {
        ParOption {
            inner: ParResult { input: self.input, params: self.params, base: self.xap, ok: Id, phantom: PhantomData },
        }
    }

    /// The fallible iterator over the options of this iterator; another name of
    /// `into_fallible_option`.
    pub fn into_optional(self) -> (r: ParOption<T, S, S, B, Id>)
        ensures
            r.inner.input == self.input,
            r.inner.params == self.params,
            r.inner.base == self.xap,
    {
        self.into_fallible_option()
    }
}

/// `Some` of the success, `None` for the failure.
pub open spec fn option_of<X>(r: Result<X, ()>) -> Option<X> {
    match r {
        Ok(x) => Some(x),
        Err(_) => None,
    }
}

fn into_option<X>(r: Result<X, ()>) -> (o: Option<X>)
    ensures
        o == option_of(r),
{
    match r {
        Ok(x) => Some(x),
        Err(_) => None,
    }
}

impl<T, S, Q, B: Xap<T, Option<S>>, Y: Xap<S, Q>> ParOption<T, S, Q, B, Y> {
    /// Every closure of the iterator accepts every value it receives from the inputs.
    pub open spec fn ready(self) -> bool {
        self.inner.ready()
    }

    /// The iterator with the number of threads replaced.
    pub fn num_threads<N: Into<NumThreads>>(self, num_threads: N) -> (r: Self)
        ensures
            r.inner.input == self.inner.input,
            r.inner.base == self.inner.base,
            r.inner.ok == self.inner.ok,
            N::obeys_into_spec() ==> r.inner.params.num_threads == num_threads.into_spec(),
            r.inner.params.chunk_size == self.inner.params.chunk_size,
            r.inner.params.collect_ordering == self.inner.params.collect_ordering,
    {
        ParOption { inner: self.inner.num_threads(num_threads) }
    }

    /// The iterator with the chunk size replaced.
    pub fn chunk_size<C: Into<ChunkSize>>(self, chunk_size: C) -> (r: Self)
        ensures
            r.inner.input == self.inner.input,
            r.inner.base == self.inner.base,
            r.inner.ok == self.inner.ok,
            r.inner.params.num_threads == self.inner.params.num_threads,
            C::obeys_into_spec() ==> r.inner.params.chunk_size == chunk_size.into_spec(),
            r.inner.params.collect_ordering == self.inner.params.collect_ordering,
    {
        ParOption { inner: self.inner.chunk_size(chunk_size) }
    }

    /// Maps each value with `map`.
    pub fn map<Q2, H: Fn(Q) -> Q2>(self, map: H) -> (r: ParOption<T, S, Q2, B, XMap<Q, Y, H>>)
        ensures
            r.inner.input == self.inner.input,
            r.inner.params == self.inner.params,
            r.inner.base == self.inner.base,
            r.inner.ok.inner == self.inner.ok,
            r.inner.ok.map == map,
            self.ready() && (forall|q: Q| call_requires(map, (q,))) ==> r.ready(),
            forall|s: S|
                #[trigger] r.inner.ok.accepts(s) <==> (self.inner.ok.accepts(s) && forall|ws: Seq<Q>, k: int|
                    #![trigger self.inner.ok.yields(s, ws), ws[k]]
                    self.inner.ok.yields(s, ws) && 0 <= k < ws.len() ==> call_requires(map, (ws[k],))),
    {
        ParOption { inner: self.inner.map(map) }
    }

    /// Keeps the values for which `filter` returns true; a `None` is kept.
    pub fn filter<H: Fn(&Q) -> bool>(self, filter: H) -> (r: ParOption<T, S, Q, B, XFilter<Q, Y, H>>)
        ensures
            r.inner.input == self.inner.input,
            r.inner.params == self.inner.params,
            r.inner.base == self.inner.base,
            r.inner.ok.inner == self.inner.ok,
            r.inner.ok.filter == filter,
            self.ready() && (forall|q: Q| call_requires(filter, (&q,))) ==> r.ready(),
            forall|s: S|
                #[trigger] r.inner.ok.accepts(s) <==> (self.inner.ok.accepts(s) && forall|ws: Seq<Q>, k: int|
                    #![trigger self.inner.ok.yields(s, ws), ws[k]]
                    self.inner.ok.yields(s, ws) && 0 <= k < ws.len() ==> call_requires(filter, (&ws[k],))),
    {
        ParOption { inner: self.inner.filter(filter) }
    }

    /// Maps each value with `filter_map` and keeps the results that are present.
    pub fn filter_map<Q2, FO: Fallible<Q2>, H: Fn(Q) -> FO>(self, filter_map: H) -> (r: ParOption<
        T,
        S,
        Q2,
        B,
        XFilterMap<Q, FO, Y, H>,
    >)
        ensures
            r.inner.input == self.inner.input,
            r.inner.params == self.inner.params,
            r.inner.base == self.inner.base,
            r.inner.ok.inner == self.inner.ok,
            r.inner.ok.filter_map == filter_map,
            self.ready() && (forall|q: Q| call_requires(filter_map, (q,))) ==> r.ready(),
            forall|s: S|
                #[trigger] r.inner.ok.accepts(s) <==> (self.inner.ok.accepts(s) && forall|ws: Seq<Q>, k: int|
                    #![trigger self.inner.ok.yields(s, ws), ws[k]]
                    self.inner.ok.yields(s, ws) && 0 <= k < ws.len() ==> call_requires(filter_map, (ws[k],))),
    {
        ParOption { inner: self.inner.filter_map(filter_map) }
    }

    /// Maps each value to a vector with `flat_map` and yields its elements, in order.
    pub fn flat_map<Q2, H: Fn(Q) -> Vec<Q2>>(self, flat_map: H) -> (r: ParOption<T, S, Q2, B, XFlatMap<Q, Y, H>>)
        ensures
            r.inner.input == self.inner.input,
            r.inner.params == self.inner.params,
            r.inner.base == self.inner.base,
            r.inner.ok.inner == self.inner.ok,
            r.inner.ok.flat_map == flat_map,
            self.ready() && (forall|q: Q| call_requires(flat_map, (q,))) ==> r.ready(),
            forall|s: S|
                #[trigger] r.inner.ok.accepts(s) <==> (self.inner.ok.accepts(s) && forall|ws: Seq<Q>, k: int|
                    #![trigger self.inner.ok.yields(s, ws), ws[k]]
                    self.inner.ok.yields(s, ws) && 0 <= k < ws.len() ==> call_requires(flat_map, (ws[k],))),
    {
        ParOption { inner: self.inner.flat_map(flat_map) }
    }

    /// Calls `operation` on each value and yields the elements unchanged.
    pub fn inspect<H: Fn(&Q)>(self, operation: H) -> (r: ParOption<T, S, Q, B, XInspect<Q, Y, H>>)
        ensures
            r.inner.input == self.inner.input,
            r.inner.params == self.inner.params,
            r.inner.base == self.inner.base,
            r.inner.ok.inner == self.inner.ok,
            r.inner.ok.operation == operation,
            self.ready() && (forall|q: Q| call_requires(operation, (&q,))) ==> r.ready(),
            forall|s: S|
                #[trigger] r.inner.ok.accepts(s) <==> (self.inner.ok.accepts(s) && forall|ws: Seq<Q>, k: int|
                    #![trigger self.inner.ok.yields(s, ws), ws[k]]
                    self.inner.ok.yields(s, ws) && 0 <= k < ws.len() ==> call_requires(operation, (&ws[k],))),
    {
        ParOption { inner: self.inner.inspect(operation) }
    }

    /// Collects the values in input order if no element is `None`; otherwise `None`.
    pub fn collect(self) -> (r: Option<Vec<Q>>)
        requires
            self.ready(),
        ensures
            match r {
                Some(v) => self.inner.outputs(oks(v@)),
                None => self.inner.fails_with(()),
            },
    {
        into_option(self.inner.collect())
    }

    /// Appends the values to `output`, in input order, if no element is `None`;
    /// otherwise `None`.
    pub fn collect_into(self, output: Vec<Q>) -> (r: Option<Vec<Q>>)
        requires
            self.ready(),
        ensures
            match r {
                Some(w) => exists|v: Seq<Q>| self.inner.outputs(oks(v)) && w@ == output@ + v,
                None => self.inner.fails_with(()),
            },
    {
        into_option(self.inner.collect_into(output))
    }

    /// The number of values if no element is `None`; otherwise `None`.
    pub fn count(self) -> (r: Option<usize>)
        requires
            self.ready(),
        ensures
            match r {
                Some(n) => exists|v: Seq<Q>| self.inner.outputs(oks(v)) && n == v.len(),
                None => self.inner.fails_with(()),
            },
    {
        into_option(self.inner.count())
    }

    /// Reduces the values from the left with `op` if no element is `None`
    /// (`Some(None)` when there is no element); otherwise `None`.
    pub fn reduce<R: Fn(Q, Q) -> Q>(self, op: R) -> (r: Option<Option<Q>>)
        requires
            self.ready(),
            forall|v: Seq<Q>| self.inner.outputs(oks(v)) ==> fold_callable(op, v),
        ensures
            match r {
                Some(o) => exists|v: Seq<Q>| self.inner.outputs(oks(v)) && reduces(call_step(op), v, o),
                None => self.inner.fails_with(()),
            },
    {
        into_option(self.inner.reduce(op))
    }

    /// The sum of the values if no element is `None` (`Q::default()` when there is no
    /// element); otherwise `None`.
    pub fn sum(self) -> (r: Option<Q>) where Q: Default + Add<Output = Q>
        requires
            self.ready(),
            forall|v: Seq<Q>| self.inner.outputs(oks(v)) ==> sums_fit(v),
        ensures
            match r {
                Some(s) => exists|v: Seq<Q>|
                    self.inner.outputs(oks(v)) && (v.len() == 0 ==> call_ensures(Q::default, (), s)) && (
                    v.len() > 0 ==> folds(add_step::<Q>(), v, s)),
                None => self.inner.fails_with(()),
            },
    {
        into_option(self.inner.sum())
    }

    /// The minimum of the values (the earliest one on ties) if no element is `None`;
    /// otherwise `None`.
    pub fn min(self) -> (r: Option<Option<Q>>) where Q: Ord
        requires
            self.ready(),
        ensures
            match r {
                Some(o) => exists|v: Seq<Q>| self.inner.outputs(oks(v)) && reduces(min_step::<Q>(), v, o),
                None => self.inner.fails_with(()),
            },
    {
        into_option(self.inner.min())
    }

    /// The maximum of the values (the latest one on ties) if no element is `None`;
    /// otherwise `None`.
    pub fn max(self) -> (r: Option<Option<Q>>) where Q: Ord
        requires
            self.ready(),
        ensures
            match r {
                Some(o) => exists|v: Seq<Q>| self.inner.outputs(oks(v)) && reduces(max_step::<Q>(), v, o),
                None => self.inner.fails_with(()),
            },
    {
        into_option(self.inner.max())
    }

    /// The minimum of the values with respect to `compare` (the earliest one on ties)
    /// if no element is `None`; otherwise `None`.
    pub fn min_by<C: Fn(&Q, &Q) -> Ordering>(self, compare: C) -> (r: Option<Option<Q>>)
        requires
            self.ready(),
            forall|a: Q, b: Q| call_requires(compare, (&a, &b)),
        ensures
            match r {
                Some(o) => exists|v: Seq<Q>| self.inner.outputs(oks(v)) && reduces(min_by_step(compare), v, o),
                None => self.inner.fails_with(()),
            },
    {
        into_option(self.inner.min_by(compare))
    }

    /// The maximum of the values with respect to `compare` (the earliest one on ties)
    /// if no element is `None`; otherwise `None`.
    pub fn max_by<C: Fn(&Q, &Q) -> Ordering>(self, compare: C) -> (r: Option<Option<Q>>)
        requires
            self.ready(),
            forall|a: Q, b: Q| call_requires(compare, (&a, &b)),
        ensures
            match r {
                Some(o) => exists|v: Seq<Q>| self.inner.outputs(oks(v)) && reduces(max_by_step(compare), v, o),
                None => self.inner.fails_with(()),
            },
    {
        into_option(self.inner.max_by(compare))
    }

    /// The value with the minimum key (the earliest one on ties) if no element is
    /// `None`; otherwise `None`.
    pub fn min_by_key<K: Ord, G: Fn(&Q) -> K>(self, get_key: G) -> (r: Option<Option<Q>>)
        requires
            self.ready(),
            forall|a: Q| call_requires(get_key, (&a,)),
        ensures
            match r {
                Some(o) => exists|v: Seq<Q>| self.inner.outputs(oks(v)) && reduces(min_by_key_step(get_key), v, o),
                None => self.inner.fails_with(()),
            },
    {
        into_option(self.inner.min_by_key(get_key))
    }

    /// The value with the maximum key (the earliest one on ties) if no element is
    /// `None`; otherwise `None`.
    pub fn max_by_key<K: Ord, G: Fn(&Q) -> K>(self, get_key: G) -> (r: Option<Option<Q>>)
        requires
            self.ready(),
            forall|a: Q| call_requires(get_key, (&a,)),
        ensures
            match r {
                Some(o) => exists|v: Seq<Q>| self.inner.outputs(oks(v)) && reduces(max_by_key_step(get_key), v, o),
                None => self.inner.fails_with(()),
            },
    {
        into_option(self.inner.max_by_key(get_key))
    }

    /// Calls `operation` on each value, in input order, until the first `None`, and
    /// then returns `None`; inputs after it are not transformed.
    pub fn for_each<P: Fn(Q)>(self, operation: P) -> (r: Option<()>)
        requires
            self.ready(),
            forall|q: Q| call_requires(operation, (q,)),
        ensures
            match r {
                Some(_) => exists|v: Seq<Q>|
                    self.inner.outputs(oks(v)) && forall|i: int| 0 <= i < v.len() ==> call_ensures(operation, (#[trigger] v[i],), ()),
                None => self.inner.fails_with(()) && fails_after(
                    self.inner.regular(),
                    self.inner.input@,
                    (),
                    |q: Q| call_ensures(operation, (q,), ()),
                ),
            },
    {
        into_option(self.inner.for_each(operation))
    }

    /// The first element: `Some(None)` when there is none, `Some` of the first value,
    /// or `None` when the first element is `None`.
    pub fn first(self) -> (r: Option<Option<Q>>)
        requires
            self.ready(),
        ensures
            exists|f: Option<(usize, Result<Q, ()>)>|
                is_first(self.inner.regular(), self.inner.input@, f) && r == option_of(first_result(f)),
    {
        into_option(self.inner.first())
    }

    /// The first value satisfying `predicate`, or `None` when a `None` element comes
    /// first; `Some(None)` when there is neither.
    pub fn find<P: Fn(&Q) -> bool>(self, predicate: P) -> (r: Option<Option<Q>>)
        requires
            self.ready(),
            forall|q: Q| call_requires(predicate, (&q,)),
        ensures
            exists|f: Option<(usize, Result<Q, ()>)>|
                is_first(
                    XLift::<Option<S>, S, (), B, XFilter<Q, Y, P>> {
                        base: self.inner.base,
                        ok: filtered(self.inner.ok, predicate),
                        phantom: PhantomData,
                    },
                    self.inner.input@,
                    f,
                ) && r == option_of(first_result(f)),
    {
        into_option(self.inner.find(predicate))
    }

    /// Whether some value satisfies `predicate`, or `None` when a `None` element comes
    /// before such a value.
    pub fn any<P: Fn(&Q) -> bool>(self, predicate: P) -> (r: Option<bool>)
        requires
            self.ready(),
            forall|q: Q| call_requires(predicate, (&q,)),
        ensures
            exists|f: Option<(usize, Result<Q, ()>)>|
                is_first(
                    XLift::<Option<S>, S, (), B, XFilter<Q, Y, P>> {
                        base: self.inner.base,
                        ok: filtered(self.inner.ok, predicate),
                        phantom: PhantomData,
                    },
                    self.inner.input@,
                    f,
                ) && r == (match first_result(f) {
                    Ok(o) => Some(o is Some),
                    Err(_) => None,
                }),
    {
        into_option(self.inner.any(predicate))
    }

    /// Whether every value satisfies `predicate`, or `None` when a `None` element comes
    /// before a value violating it.
    pub fn all<P: Fn(&Q) -> bool>(self, predicate: P) -> (r: Option<bool>)
        requires
            self.ready(),
            forall|q: Q| call_requires(predicate, (&q,)),
        ensures
            exists|f: Option<(usize, Result<Q, ()>)>|
                is_first(
                    XLift::<Option<S>, S, (), B, XReject<Q, Y, P>> {
                        base: self.inner.base,
                        ok: rejected(self.inner.ok, predicate),
                        phantom: PhantomData,
                    },
                    self.inner.input@,
                    f,
                ) && r == (match first_result(f) {
                    Ok(o) => Some(o is None),
                    Err(_) => None,
                }),
    {
        into_option(self.inner.all(predicate))
    }
}

} // verus!

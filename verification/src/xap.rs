//! Element transformations ("xaps"): each input element is transformed into a
//! sequence of zero or more outputs by a chain of map, filter, filter-map,
//! flat-map and inspect steps.
use vstd::prelude::*;
use core::marker::PhantomData;
use crate::fallible::Fallible;
use crate::seqs::{flatten, keep, values_of, views_of};

verus! {

/// A transformation of each input element into zero or more outputs.
pub trait Xap<I, O>: Sized {
    /// Every closure of the transformation accepts every value it receives while
    /// transforming `x`.
    spec fn accepts(&self, x: I) -> bool;

    /// `ys` is a possible output sequence of transforming `x`.
    spec fn yields(&self, x: I, ys: Seq<O>) -> bool;

    /// Whether every input yields at most one output.
    spec fn single_spec(&self) -> bool;

    /// Transforms one input element.
    fn apply(&self, x: I) -> (ys: Vec<O>)
        requires
            self.accepts(x),
        ensures
            self.yields(x, ys@),
            self.single_spec() ==> ys.len() <= 1,
    ;

    /// Returns whether every input yields at most one output.
    fn is_single(&self) -> (r: bool)
        ensures
            r == self.single_spec(),
    ;
}

/// The transformation accepts every element of `input`.
pub open spec fn accepts_all<I, O, X: Xap<I, O>>(xap: X, input: Seq<I>) -> bool {
    forall|i: int| 0 <= i < input.len() ==> xap.accepts(#[trigger] input[i])
}

/// `per` holds, for each element of `input`, a possible output sequence of it.
pub open spec fn outputs_of<I, O, X: Xap<I, O>>(xap: X, input: Seq<I>, per: Seq<Seq<O>>) -> bool {
    &&& per.len() == input.len()
    &&& forall|i: int| 0 <= i < input.len() ==> xap.yields(#[trigger] input[i], per[i])
}

/// `out` is a possible output of transforming every element of `input` in order and
/// concatenating the results.
pub open spec fn produces<I, O, X: Xap<I, O>>(xap: X, input: Seq<I>, out: Seq<O>) -> bool {
    exists|per: Seq<Seq<O>>| #[trigger] outputs_of(xap, input, per) && out == flatten(per)
}

/// `ys` and `zs` have equal lengths and each `ys[i]` is a possible result of `h(zs[i])`.
pub open spec fn mapped<O, Q, H: Fn(O) -> Q>(h: H, zs: Seq<O>, ys: Seq<Q>) -> bool {
    &&& ys.len() == zs.len()
    &&& forall|i: int| 0 <= i < zs.len() ==> call_ensures(h, (zs[i],), #[trigger] ys[i])
}

/// Each `flags[i]` is a possible result of `h(&zs[i])`.
pub open spec fn flagged<O, H: Fn(&O) -> bool>(h: H, zs: Seq<O>, flags: Seq<bool>) -> bool {
    &&& flags.len() == zs.len()
    &&& forall|i: int| 0 <= i < zs.len() ==> call_ensures(h, (&zs[i],), #[trigger] flags[i])
}

/// The identity transformation: every element yields itself.
pub struct Id;

impl<T> Xap<T, T> for Id {
    open spec fn accepts(&self, x: T) -> bool {
        true
    }

    open spec fn yields(&self, x: T, ys: Seq<T>) -> bool {
        ys == seq![x]
    }

    open spec fn single_spec(&self) -> bool {
        true
    }

    fn apply(&self, x: T) -> (ys: Vec<T>) {
        let mut ys = Vec::new();
        ys.push(x);
        proof {
            assert(ys@ =~= seq![x]);
        }
        ys
    }

    fn is_single(&self) -> (r: bool) {
        true
    }
}

/// The outputs of `inner`, each mapped by `map`.
pub struct XMap<O, X, H> {
    pub inner: X,
    pub map: H,
    pub phantom: PhantomData<O>,
}

impl<O, X, H> XMap<O, X, H> {
    pub fn new<I, Q>(inner: X, map: H) -> (r: Self) where X: Xap<I, O>, H: Fn(O) -> Q
        ensures
            r.inner == inner,
            r.map == map,
            forall|x: I|
                #[trigger] r.accepts(x) <==> (inner.accepts(x) && forall|zs: Seq<O>, k: int|
                    #![trigger inner.yields(x, zs), zs[k]]
                    inner.yields(x, zs) && 0 <= k < zs.len() ==> call_requires(map, (zs[k],))),
            forall|x: I| inner.accepts(x) && (forall|o: O| call_requires(map, (o,))) ==> #[trigger] r.accepts(x),
    {
        XMap { inner, map, phantom: PhantomData }
    }
}

impl<I, O, Q, X: Xap<I, O>, H: Fn(O) -> Q> Xap<I, Q> for XMap<O, X, H> {
    open spec fn accepts(&self, x: I) -> bool {
        &&& self.inner.accepts(x)
        &&& forall|zs: Seq<O>, k: int|
            #![trigger self.inner.yields(x, zs), zs[k]]
            self.inner.yields(x, zs) && 0 <= k < zs.len() ==> call_requires(self.map, (zs[k],))
    }

    open spec fn yields(&self, x: I, ys: Seq<Q>) -> bool {
        exists|zs: Seq<O>| #[trigger] self.inner.yields(x, zs) && mapped(self.map, zs, ys)
    }

    open spec fn single_spec(&self) -> bool {
        self.inner.single_spec()
    }

    fn apply(&self, x: I) -> (ys: Vec<Q>) {
        let zs = self.inner.apply(x);
        proof {
            assert(self.inner.yields(x, zs@));
        }
        let ghost zs_seq = zs@;
        let mut ys: Vec<Q> = Vec::new();
        for z in it: zs.into_iter()
            invariant
                forall|k: int| 0 <= k < zs_seq.len() ==> call_requires(self.map, (#[trigger] zs_seq[k],)),
                it.seq() == zs_seq,
                ys.len() == it.index(),
                forall|i: int| 0 <= i < ys.len() ==> call_ensures(self.map, (zs_seq[i],), #[trigger] ys@[i]),
        {
            let y = (self.map)(z);
            ys.push(y);
        }
        proof {
            assert(mapped(self.map, zs_seq, ys@));
            assert(self.inner.yields(x, zs_seq));
        }
        ys
    }

    fn is_single(&self) -> (r: bool) {
        self.inner.is_single()
    }
}

/// The outputs of `inner` for which `filter` returns true.
pub struct XFilter<O, X, H> {
    pub inner: X,
    pub filter: H,
    pub phantom: PhantomData<O>,
}

impl<O, X, H> XFilter<O, X, H> {
    pub fn new<I>(inner: X, filter: H) -> (r: Self) where X: Xap<I, O>, H: Fn(&O) -> bool
        ensures
            r.inner == inner,
            r.filter == filter,
            forall|x: I|
                #[trigger] r.accepts(x) <==> (inner.accepts(x) && forall|zs: Seq<O>, k: int|
                    #![trigger inner.yields(x, zs), zs[k]]
                    inner.yields(x, zs) && 0 <= k < zs.len() ==> call_requires(filter, (&zs[k],))),
            forall|x: I| inner.accepts(x) && (forall|o: O| call_requires(filter, (&o,))) ==> #[trigger] r.accepts(x),
    {
        XFilter { inner, filter, phantom: PhantomData }
    }
}

impl<I, O, X: Xap<I, O>, H: Fn(&O) -> bool> Xap<I, O> for XFilter<O, X, H> {
    open spec fn accepts(&self, x: I) -> bool {
        &&& self.inner.accepts(x)
        &&& forall|zs: Seq<O>, k: int|
            #![trigger self.inner.yields(x, zs), zs[k]]
            self.inner.yields(x, zs) && 0 <= k < zs.len() ==> call_requires(self.filter, (&zs[k],))
    }

    open spec fn yields(&self, x: I, ys: Seq<O>) -> bool {
        exists|zs: Seq<O>, flags: Seq<bool>|
            #[trigger] self.inner.yields(x, zs) && #[trigger] flagged(self.filter, zs, flags) && ys
                == keep(zs, flags)
    }

    open spec fn single_spec(&self) -> bool {
        self.inner.single_spec()
    }

    fn apply(&self, x: I) -> (ys: Vec<O>) {
        let zs = self.inner.apply(x);
        proof {
            assert(self.inner.yields(x, zs@));
        }
        let ghost zs_seq = zs@;
        let ghost mut flags: Seq<bool> = Seq::empty();
        let mut ys: Vec<O> = Vec::new();
        for z in it: zs.into_iter()
            invariant
                forall|k: int| 0 <= k < zs_seq.len() ==> call_requires(self.filter, (&#[trigger] zs_seq[k],)),
                it.seq() == zs_seq,
                flags.len() == it.index(),
                flagged(self.filter, zs_seq.take(it.index() as int), flags),
                ys@ == keep(zs_seq.take(it.index() as int), flags),
        {
            let ghost k = it.index() as int;
            let ghost old_flags = flags;
            let ghost old_ys = ys@;
            proof {
                assert(z == zs_seq[k]);
            }
            let keep_it = (self.filter)(&z);
            proof {
                flags = flags.push(keep_it);
            }
            if keep_it {
                ys.push(z);
            }
            proof {
                let t = zs_seq.take(k + 1);
                assert(t.drop_last() =~= zs_seq.take(k));
                assert(flags.drop_last() =~= old_flags);
                assert(t.last() == zs_seq[k]);
                assert(keep(t, flags) == (if keep_it {
                    old_ys.push(zs_seq[k])
                } else {
                    old_ys
                }));
                assert forall|i: int| 0 <= i < t.len() implies call_ensures(
                    self.filter,
                    (&t[i],),
                    #[trigger] flags[i],
                ) by {
                    if i < k {
                        assert(t[i] == zs_seq.take(k)[i]);
                    }
                }
            }
        }
        proof {
            assert(zs_seq.take(zs_seq.len() as int) =~= zs_seq);
            assert(self.inner.yields(x, zs_seq));
            assert(flagged(self.filter, zs_seq, flags));
            lemma_keep_len(zs_seq, flags);
        }
        ys
    }

    fn is_single(&self) -> (r: bool) {
        self.inner.is_single()
    }
}

/// The outputs of `inner` for which `filter` returns true.
pub open spec fn filtered<O, X, H>(inner: X, filter: H) -> XFilter<O, X, H> {
    XFilter { inner, filter, phantom: PhantomData }
}

/// Keeping elements never lengthens a sequence.
pub proof fn lemma_keep_len<A>(s: Seq<A>, flags: Seq<bool>)
    ensures
        keep(s, flags).len() <= s.len(),
    decreases s.len(),
{
    if s.len() > 0 {
        lemma_keep_len(s.drop_last(), flags.drop_last());
    }
}

/// The successful values of `filter_map` applied to the outputs of `inner`.
pub struct XFilterMap<O, FO, X, H> {
    pub inner: X,
    pub filter_map: H,
    pub phantom: PhantomData<(O, FO)>,
}

impl<O, FO, X, H> XFilterMap<O, FO, X, H> {
    pub fn new<I, Q>(inner: X, filter_map: H) -> (r: Self) where X: Xap<I, O>, FO: Fallible<Q>, H: Fn(O) -> FO
        ensures
            r.inner == inner,
            r.filter_map == filter_map,
            forall|x: I|
                #[trigger] r.accepts(x) <==> (inner.accepts(x) && forall|zs: Seq<O>, k: int|
                    #![trigger inner.yields(x, zs), zs[k]]
                    inner.yields(x, zs) && 0 <= k < zs.len() ==> call_requires(filter_map, (zs[k],))),
            forall|x: I| inner.accepts(x) && (forall|o: O| call_requires(filter_map, (o,))) ==> #[trigger] r.accepts(x),
    {
        XFilterMap { inner, filter_map, phantom: PhantomData }
    }
}

impl<I, O, Q, FO: Fallible<Q>, X: Xap<I, O>, H: Fn(O) -> FO> Xap<I, Q> for XFilterMap<O, FO, X, H> {
    open spec fn accepts(&self, x: I) -> bool {
        &&& self.inner.accepts(x)
        &&& forall|zs: Seq<O>, k: int|
            #![trigger self.inner.yields(x, zs), zs[k]]
            self.inner.yields(x, zs) && 0 <= k < zs.len() ==> call_requires(self.filter_map, (zs[k],))
    }

    open spec fn yields(&self, x: I, ys: Seq<Q>) -> bool {
        exists|zs: Seq<O>, fos: Seq<FO>|
            #[trigger] self.inner.yields(x, zs) && #[trigger] mapped(self.filter_map, zs, fos) && ys
                == values_of(fos)
    }

    open spec fn single_spec(&self) -> bool {
        self.inner.single_spec()
    }

    fn apply(&self, x: I) -> (ys: Vec<Q>) {
        let zs = self.inner.apply(x);
        proof {
            assert(self.inner.yields(x, zs@));
        }
        let ghost zs_seq = zs@;
        let ghost mut fos: Seq<FO> = Seq::empty();
        let mut ys: Vec<Q> = Vec::new();
        for z in it: zs.into_iter()
            invariant
                forall|k: int| 0 <= k < zs_seq.len() ==> call_requires(self.filter_map, (#[trigger] zs_seq[k],)),
                it.seq() == zs_seq,
                fos.len() == it.index(),
                mapped(self.filter_map, zs_seq.take(it.index() as int), fos),
                ys@ == values_of(fos),
        {
            let ghost k = it.index() as int;
            let ghost old_fos = fos;
            let ghost old_ys = ys@;
            proof {
                assert(z == zs_seq[k]);
            }
            let fo = (self.filter_map)(z);
            proof {
                fos = fos.push(fo);
            }
            if fo.has_value() {
                ys.push(fo.value());
            }
            proof {
                let t = zs_seq.take(k + 1);
                assert(fos.drop_last() =~= old_fos);
                assert(values_of(fos) == (if fo.has_value_spec() {
                    old_ys.push(fo.value_spec())
                } else {
                    old_ys
                }));
                assert forall|i: int| 0 <= i < t.len() implies call_ensures(
                    self.filter_map,
                    (t[i],),
                    #[trigger] fos[i],
                ) by {
                    if i < k {
                        assert(t[i] == zs_seq.take(k)[i]);
                    }
                }
            }
        }
        proof {
            assert(zs_seq.take(zs_seq.len() as int) =~= zs_seq);
            assert(self.inner.yields(x, zs_seq));
            assert(mapped(self.filter_map, zs_seq, fos));
            lemma_values_of_len(fos);
        }
        ys
    }

    fn is_single(&self) -> (r: bool) {
        self.inner.is_single()
    }
}

/// Taking the successful values never lengthens a sequence.
pub proof fn lemma_values_of_len<T, F: Fallible<T>>(s: Seq<F>)
    ensures
        values_of(s).len() <= s.len(),
    decreases s.len(),
{
    if s.len() > 0 {
        lemma_values_of_len(s.drop_last());
    }
}

/// The outputs of `flat_map` applied to the outputs of `inner`, concatenated in order.
pub struct XFlatMap<O, X, H> {
    pub inner: X,
    pub flat_map: H,
    pub phantom: PhantomData<O>,
}

impl<O, X, H> XFlatMap<O, X, H> {
    pub fn new<I, Q>(inner: X, flat_map: H) -> (r: Self) where X: Xap<I, O>, H: Fn(O) -> Vec<Q>
        ensures
            r.inner == inner,
            r.flat_map == flat_map,
            forall|x: I|
                #[trigger] r.accepts(x) <==> (inner.accepts(x) && forall|zs: Seq<O>, k: int|
                    #![trigger inner.yields(x, zs), zs[k]]
                    inner.yields(x, zs) && 0 <= k < zs.len() ==> call_requires(flat_map, (zs[k],))),
            forall|x: I| inner.accepts(x) && (forall|o: O| call_requires(flat_map, (o,))) ==> #[trigger] r.accepts(x),
    {
        XFlatMap { inner, flat_map, phantom: PhantomData }
    }
}

impl<I, O, Q, X: Xap<I, O>, H: Fn(O) -> Vec<Q>> Xap<I, Q> for XFlatMap<O, X, H> {
    open spec fn accepts(&self, x: I) -> bool {
        &&& self.inner.accepts(x)
        &&& forall|zs: Seq<O>, k: int|
            #![trigger self.inner.yields(x, zs), zs[k]]
            self.inner.yields(x, zs) && 0 <= k < zs.len() ==> call_requires(self.flat_map, (zs[k],))
    }

    open spec fn yields(&self, x: I, ys: Seq<Q>) -> bool {
        exists|zs: Seq<O>, vs: Seq<Vec<Q>>|
            #[trigger] self.inner.yields(x, zs) && #[trigger] mapped(self.flat_map, zs, vs) && ys
                == flatten(views_of(vs))
    }

    open spec fn single_spec(&self) -> bool {
        false
    }

    fn apply(&self, x: I) -> (ys: Vec<Q>) {
        let zs = self.inner.apply(x);
        proof {
            assert(self.inner.yields(x, zs@));
        }
        let ghost zs_seq = zs@;
        let ghost mut vs: Seq<Vec<Q>> = Seq::empty();
        let mut ys: Vec<Q> = Vec::new();
        for z in it: zs.into_iter()
            invariant
                forall|k: int| 0 <= k < zs_seq.len() ==> call_requires(self.flat_map, (#[trigger] zs_seq[k],)),
                it.seq() == zs_seq,
                vs.len() == it.index(),
                mapped(self.flat_map, zs_seq.take(it.index() as int), vs),
                ys@ == flatten(views_of(vs)),
        {
            let ghost k = it.index() as int;
            let ghost old_vs = vs;
            let ghost old_ys = ys@;
            proof {
                assert(z == zs_seq[k]);
            }
            let mut v = (self.flat_map)(z);
            proof {
                vs = vs.push(v);
                assert(views_of(vs).drop_last() =~= views_of(old_vs));
                assert(views_of(vs).last() == v@);
            }
            ys.append(&mut v);
            proof {
                let t = zs_seq.take(k + 1);
                assert forall|i: int| 0 <= i < t.len() implies call_ensures(
                    self.flat_map,
                    (t[i],),
                    #[trigger] vs[i],
                ) by {
                    if i < k {
                        assert(t[i] == zs_seq.take(k)[i]);
                    }
                }
            }
        }
        proof {
            assert(zs_seq.take(zs_seq.len() as int) =~= zs_seq);
            assert(self.inner.yields(x, zs_seq));
            assert(mapped(self.flat_map, zs_seq, vs));
        }
        ys
    }

    fn is_single(&self) -> (r: bool) {
        false
    }
}

/// `operation` has been called on each element of `ys`.
pub open spec fn inspected<O, H: Fn(&O)>(operation: H, ys: Seq<O>) -> bool {
    forall|i: int| 0 <= i < ys.len() ==> call_ensures(operation, (&#[trigger] ys[i],), ())
}

/// The outputs of `inner`, unchanged; `operation` is called on each of them.
pub struct XInspect<O, X, H> {
    pub inner: X,
    pub operation: H,
    pub phantom: PhantomData<O>,
}

impl<O, X, H> XInspect<O, X, H> {
    pub fn new<I>(inner: X, operation: H) -> (r: Self) where X: Xap<I, O>, H: Fn(&O)
        ensures
            r.inner == inner,
            r.operation == operation,
            forall|x: I|
                #[trigger] r.accepts(x) <==> (inner.accepts(x) && forall|zs: Seq<O>, k: int|
                    #![trigger inner.yields(x, zs), zs[k]]
                    inner.yields(x, zs) && 0 <= k < zs.len() ==> call_requires(operation, (&zs[k],))),
            forall|x: I| inner.accepts(x) && (forall|o: O| call_requires(operation, (&o,))) ==> #[trigger] r.accepts(x),
    {
        XInspect { inner, operation, phantom: PhantomData }
    }
}

impl<I, O, X: Xap<I, O>, H: Fn(&O)> Xap<I, O> for XInspect<O, X, H> {
    open spec fn accepts(&self, x: I) -> bool {
        &&& self.inner.accepts(x)
        &&& forall|zs: Seq<O>, k: int|
            #![trigger self.inner.yields(x, zs), zs[k]]
            self.inner.yields(x, zs) && 0 <= k < zs.len() ==> call_requires(self.operation, (&zs[k],))
    }

    open spec fn yields(&self, x: I, ys: Seq<O>) -> bool {
        &&& self.inner.yields(x, ys)
        &&& inspected(self.operation, ys)
    }

    open spec fn single_spec(&self) -> bool {
        self.inner.single_spec()
    }

    fn apply(&self, x: I) -> (ys: Vec<O>) {
        let zs = self.inner.apply(x);
        proof {
            assert(self.inner.yields(x, zs@));
        }
        let mut i: usize = 0;
        while i < zs.len()
            invariant
                forall|k: int| 0 <= k < zs@.len() ==> call_requires(self.operation, (&#[trigger] zs@[k],)),
                i <= zs.len(),
                forall|j: int| 0 <= j < i ==> call_ensures(self.operation, (&#[trigger] zs@[j],), ()),
            decreases zs.len() - i,
        {
            (self.operation)(&zs[i]);
            i = i + 1;
        }
        zs
    }

    fn is_single(&self) -> (r: bool) {
        self.inner.is_single()
    }
}

/// The negations of `flags`.
pub open spec fn negated(flags: Seq<bool>) -> Seq<bool> {
    flags.map_values(|b: bool| !b)
}

/// The outputs of `inner` for which `reject` returns false.
pub struct XReject<O, X, H> {
    pub inner: X,
    pub reject: H,
    pub phantom: PhantomData<O>,
}

impl<O, X, H> XReject<O, X, H> {
    pub fn new<I>(inner: X, reject: H) -> (r: Self) where X: Xap<I, O>, H: Fn(&O) -> bool
        ensures
            r.inner == inner,
            r.reject == reject,
            forall|x: I|
                #[trigger] r.accepts(x) <==> (inner.accepts(x) && forall|zs: Seq<O>, k: int|
                    #![trigger inner.yields(x, zs), zs[k]]
                    inner.yields(x, zs) && 0 <= k < zs.len() ==> call_requires(reject, (&zs[k],))),
            forall|x: I| inner.accepts(x) && (forall|o: O| call_requires(reject, (&o,))) ==> #[trigger] r.accepts(x),
    {
        XReject { inner, reject, phantom: PhantomData }
    }
}

impl<I, O, X: Xap<I, O>, H: Fn(&O) -> bool> Xap<I, O> for XReject<O, X, H> {
    open spec fn accepts(&self, x: I) -> bool {
        &&& self.inner.accepts(x)
        &&& forall|zs: Seq<O>, k: int|
            #![trigger self.inner.yields(x, zs), zs[k]]
            self.inner.yields(x, zs) && 0 <= k < zs.len() ==> call_requires(self.reject, (&zs[k],))
    }

    open spec fn yields(&self, x: I, ys: Seq<O>) -> bool {
        exists|zs: Seq<O>, flags: Seq<bool>|
            #[trigger] self.inner.yields(x, zs) && #[trigger] flagged(self.reject, zs, flags) && ys
                == keep(zs, negated(flags))
    }

    open spec fn single_spec(&self) -> bool {
        self.inner.single_spec()
    }

    fn apply(&self, x: I) -> (ys: Vec<O>) {
        let zs = self.inner.apply(x);
        proof {
            assert(self.inner.yields(x, zs@));
        }
        let ghost zs_seq = zs@;
        let ghost mut flags: Seq<bool> = Seq::empty();
        let mut ys: Vec<O> = Vec::new();
        for z in it: zs.into_iter()
            invariant
                forall|k: int| 0 <= k < zs_seq.len() ==> call_requires(self.reject, (&#[trigger] zs_seq[k],)),
                it.seq() == zs_seq,
                flags.len() == it.index(),
                flagged(self.reject, zs_seq.take(it.index() as int), flags),
                ys@ == keep(zs_seq.take(it.index() as int), negated(flags)),
        {
            let ghost k = it.index() as int;
            let ghost old_flags = flags;
            let ghost old_ys = ys@;
            proof {
                assert(z == zs_seq[k]);
            }
            let rejected = (self.reject)(&z);
            proof {
                flags = flags.push(rejected);
            }
            if !rejected {
                ys.push(z);
            }
            proof {
                let t = zs_seq.take(k + 1);
                assert(t.drop_last() =~= zs_seq.take(k));
                assert(negated(flags).drop_last() =~= negated(old_flags));
                assert(t.last() == zs_seq[k]);
                assert(negated(flags)[k] == !rejected);
                assert(keep(t, negated(flags)) == (if !rejected {
                    old_ys.push(zs_seq[k])
                } else {
                    old_ys
                }));
                assert forall|i: int| 0 <= i < t.len() implies call_ensures(
                    self.reject,
                    (&t[i],),
                    #[trigger] flags[i],
                ) by {
                    if i < k {
                        assert(t[i] == zs_seq.take(k)[i]);
                    }
                }
            }
        }
        proof {
            assert(zs_seq.take(zs_seq.len() as int) =~= zs_seq);
            assert(self.inner.yields(x, zs_seq));
            assert(flagged(self.reject, zs_seq, flags));
            lemma_keep_len(zs_seq, negated(flags));
        }
        ys
    }

    fn is_single(&self) -> (r: bool) {
        self.inner.is_single()
    }
}

/// The outputs of `inner` for which `reject` returns false.
pub open spec fn rejected<O, X, H>(inner: X, reject: H) -> XReject<O, X, H> {
    XReject { inner, reject, phantom: PhantomData }
}

/// The outputs of `inner`, references, each replaced by a copy of what it refers to.
pub struct XCopied<X> {
    pub inner: X,
}

impl<'a, I, T: Copy + 'a, X: Xap<I, &'a T>> Xap<I, T> for XCopied<X> {
    open spec fn accepts(&self, x: I) -> bool {
        self.inner.accepts(x)
    }

    open spec fn yields(&self, x: I, ys: Seq<T>) -> bool {
        exists|zs: Seq<&'a T>| #[trigger] self.inner.yields(x, zs) && ys == zs.map_values(|z: &'a T| *z)
    }

    open spec fn single_spec(&self) -> bool {
        self.inner.single_spec()
    }

    fn apply(&self, x: I) -> (ys: Vec<T>) {
        let zs = self.inner.apply(x);
        let mut ys: Vec<T> = Vec::new();
        let mut i: usize = 0;
        while i < zs.len()
            invariant
                i <= zs.len(),
                ys@ == zs@.take(i as int).map_values(|z: &'a T| *z),
            decreases zs.len() - i,
        {
            ys.push(*zs[i]);
            proof {
                assert(zs@.take(i + 1).map_values(|z: &'a T| *z) =~= zs@.take(i as int).map_values(
                    |z: &'a T| *z,
                ).push(*zs@[i as int]));
            }
            i = i + 1;
        }
        proof {
            assert(zs@.take(zs@.len() as int) =~= zs@);
        }
        ys
    }

    fn is_single(&self) -> (r: bool) {
        self.inner.is_single()
    }
}

/// The outputs of `inner`, references, each replaced by a clone of what it refers to.
pub struct XCloned<X> {
    pub inner: X,
}

impl<'a, I, T: Clone + 'a, X: Xap<I, &'a T>> Xap<I, T> for XCloned<X> {
    open spec fn accepts(&self, x: I) -> bool {
        self.inner.accepts(x)
    }

    open spec fn yields(&self, x: I, ys: Seq<T>) -> bool {
        exists|zs: Seq<&'a T>|
            #[trigger] self.inner.yields(x, zs) && ys.len() == zs.len() && forall|i: int|
                0 <= i < zs.len() ==> cloned::<T>(*zs[i], #[trigger] ys[i])
    }

    open spec fn single_spec(&self) -> bool {
        self.inner.single_spec()
    }

    fn apply(&self, x: I) -> (ys: Vec<T>) {
        let zs = self.inner.apply(x);
        let mut ys: Vec<T> = Vec::new();
        let mut i: usize = 0;
        while i < zs.len()
            invariant
                i <= zs.len(),
                ys.len() == i,
                forall|j: int| 0 <= j < i ==> cloned::<T>(*zs@[j], #[trigger] ys@[j]),
            decreases zs.len() - i,
        {
            let y = zs[i].clone();
            ys.push(y);
            i = i + 1;
        }
        ys
    }

    fn is_single(&self) -> (r: bool) {
        self.inner.is_single()
    }
}

} // verus!

//! Reductions of the outputs of a parallel iterator: a generic `reduce` and the
//! reductions derived from it (fold, sum, minimum and maximum).
use vstd::prelude::*;
use core::cmp::Ordering;
use core::ops::Add;
use vstd::std_specs::cmp::OrdSpec;
use vstd::std_specs::ops::AddSpec;
use crate::runner::{call_step, fold_callable, fold_steps, folds, lemma_folds_weaken, reduces};

verus! {

/// `c` is `a + b` for types whose addition follows its specification.
pub open spec fn add_step<T: Add<Output = T>>() -> spec_fn(T, T, T) -> bool {
    |a: T, b: T, c: T| T::obeys_add_spec() ==> c == a.add_spec(b)
}

/// Summing `s` from the left never overflows: after any possible sum of a proper
/// non-empty prefix, the next element can be added to it.
pub open spec fn sums_fit<T: Add<Output = T>>(s: Seq<T>) -> bool {
    forall|m: int, accs: Seq<T>|
        0 < m < s.len() && #[trigger] fold_steps(add_step::<T>(), s.take(m), accs) ==> accs.last().add_req(
            s[m],
        )
}

/// `c` is the smaller of `a` and `b`, `a` on ties.
pub open spec fn min_step<T: Ord>() -> spec_fn(T, T, T) -> bool {
    |a: T, b: T, c: T|
        T::obeys_cmp_spec() ==> c == (if b.cmp_spec(&a) == Ordering::Less {
            b
        } else {
            a
        })
}

/// `c` is the larger of `a` and `b`, `b` on ties.
pub open spec fn max_step<T: Ord>() -> spec_fn(T, T, T) -> bool {
    |a: T, b: T, c: T|
        T::obeys_cmp_spec() ==> c == (if b.cmp_spec(&a) == Ordering::Less {
            a
        } else {
            b
        })
}

/// `c` is `b` when `compare(&a, &b)` is `Greater`, and `a` otherwise.
pub open spec fn min_by_step<T, F: Fn(&T, &T) -> Ordering>(compare: F) -> spec_fn(T, T, T) -> bool {
    |a: T, b: T, c: T|
        exists|o: Ordering|
            call_ensures(compare, (&a, &b), o) && c == (if o == Ordering::Greater {
                b
            } else {
                a
            })
}

/// `c` is `b` when `compare(&a, &b)` is `Less`, and `a` otherwise.
pub open spec fn max_by_step<T, F: Fn(&T, &T) -> Ordering>(compare: F) -> spec_fn(T, T, T) -> bool {
    |a: T, b: T, c: T|
        exists|o: Ordering|
            call_ensures(compare, (&a, &b), o) && c == (if o == Ordering::Less {
                b
            } else {
                a
            })
}

/// `c` is `b` when the key of `a` is greater than the key of `b`, and `a` otherwise.
pub open spec fn min_by_key_step<T, B: Ord, F: Fn(&T) -> B>(get_key: F) -> spec_fn(T, T, T) -> bool {
    |a: T, b: T, c: T|
        exists|ka: B, kb: B|
            call_ensures(get_key, (&a,), ka) && call_ensures(get_key, (&b,), kb) && (
            B::obeys_cmp_spec() ==> c == (if ka.cmp_spec(&kb) == Ordering::Greater {
                b
            } else {
                a
            }))
}

/// `c` is `b` when the key of `a` is less than the key of `b`, and `a` otherwise.
pub open spec fn max_by_key_step<T, B: Ord, F: Fn(&T) -> B>(get_key: F) -> spec_fn(T, T, T) -> bool {
    |a: T, b: T, c: T|
        exists|ka: B, kb: B|
            call_ensures(get_key, (&a,), ka) && call_ensures(get_key, (&b,), kb) && (
            B::obeys_cmp_spec() ==> c == (if ka.cmp_spec(&kb) == Ordering::Less {
                b
            } else {
                a
            }))
}

/// Reduction operations over the outputs of an iterator.
///
/// Implementors provide `reduce`; the other reductions are derived from it.
pub trait Reduce<T>: Sized {
    /// The iterator can run: its closures accept every value they receive.
    spec fn reduce_ready(&self) -> bool;

    /// `out` is a possible sequence of the outputs of the iterator, in order.
    spec fn reduce_outputs(&self, out: Seq<T>) -> bool;

    /// Reduces the outputs to a single one by repeatedly applying `op`; `None` when
    /// there is no output.
    fn reduce<R: Fn(T, T) -> T>(self, op: R) -> (r: Option<T>)
        requires
            self.reduce_ready(),
            forall|out: Seq<T>| self.reduce_outputs(out) ==> fold_callable(op, out),
        ensures
            exists|out: Seq<T>| self.reduce_outputs(out) && reduces(call_step(op), out, r),
    ;

    /// Folds the outputs with `fold`; returns `identity()` when there is no output.
    fn fold<Identity: Fn() -> T, F: Fn(T, T) -> T>(self, identity: Identity, fold: F) -> (r: T)
        requires
            self.reduce_ready(),
            forall|out: Seq<T>| self.reduce_outputs(out) ==> fold_callable(fold, out),
            call_requires(identity, ()),
        ensures
            exists|out: Seq<T>|
                self.reduce_outputs(out) && (out.len() == 0 ==> call_ensures(identity, (), r)) && (
                out.len() > 0 ==> folds(call_step(fold), out, r)),
    {
        let ghost me = self;
        let reduced = self.reduce(fold);
        let ghost out = choose|out: Seq<T>| me.reduce_outputs(out) && reduces(call_step(fold), out, reduced);
        let r = match reduced {
            Some(v) => v,
            None => identity(),
        };
        proof {
            assert(me.reduce_outputs(out));
        }
        r
    }

    /// The sum of the outputs; `T::default()` when there is none.
    fn sum(self) -> (r: T) where T: Default + Add<Output = T>
        requires
            self.reduce_ready(),
            forall|out: Seq<T>| self.reduce_outputs(out) ==> sums_fit(out),
        ensures
            exists|out: Seq<T>|
                self.reduce_outputs(out) && (out.len() == 0 ==> call_ensures(T::default, (), r)) && (
                out.len() > 0 ==> folds(add_step::<T>(), out, r)),
    {
        let ghost me = self;
        let plus = |x: T, y: T| -> (z: T)
            requires
                x.add_req(y),
            ensures
                (add_step::<T>())(x, y, z),
        { x + y };
        proof {
            assert forall|out: Seq<T>| me.reduce_outputs(out) implies fold_callable(plus, out) by {
                assert forall|m: int, accs: Seq<T>|
                    0 < m < out.len() && #[trigger] fold_steps(call_step(plus), out.take(m), accs) implies call_requires(
                    plus,
                    (accs.last(), out[m]),
                ) by {
                    let t = out.take(m);
                    assert forall|i: int| 0 < i < t.len() implies #[trigger] (add_step::<T>())(
                        accs[i - 1],
                        t[i],
                        accs[i],
                    ) by {
                        let step = call_step(plus);
                        assert(step(accs[i - 1], t[i], accs[i]));
                    }
                    assert(fold_steps(add_step::<T>(), t, accs));
                    assert(sums_fit(out));
                    assert(accs.last().add_req(out[m]));
                }
            }
        }
        let reduced = self.reduce(plus);
        let ghost out = choose|out: Seq<T>| me.reduce_outputs(out) && reduces(call_step(plus), out, reduced);
        match reduced {
            Some(v) => {
                proof {
                    lemma_folds_weaken(call_step(plus), add_step::<T>(), out, v);
                    assert(me.reduce_outputs(out));
                }
                v
            },
            None => {
                let d = T::default();
                proof {
                    assert(me.reduce_outputs(out));
                }
                d
            },
        }
    }

    /// The minimum of the outputs; the earliest one on ties; `None` when there is none.
    fn min(self) -> (r: Option<T>) where T: Ord
        requires
            self.reduce_ready(),
        ensures
            exists|out: Seq<T>| self.reduce_outputs(out) && reduces(min_step::<T>(), out, r),
    {
        let ghost me = self;
        let op = |x: T, y: T| -> (z: T)
            ensures
                (min_step::<T>())(x, y, z),
        { x.min(y) };
        let r = self.reduce(op);
        proof {
            let out = choose|out: Seq<T>| me.reduce_outputs(out) && reduces(call_step(op), out, r);
            if r is Some {
                lemma_folds_weaken(call_step(op), min_step::<T>(), out, r->0);
            }
            assert(me.reduce_outputs(out));
        }
        r
    }

    /// The maximum of the outputs; the latest one on ties; `None` when there is none.
    fn max(self) -> (r: Option<T>) where T: Ord
        requires
            self.reduce_ready(),
        ensures
            exists|out: Seq<T>| self.reduce_outputs(out) && reduces(max_step::<T>(), out, r),
    {
        let ghost me = self;
        let op = |x: T, y: T| -> (z: T)
            ensures
                (max_step::<T>())(x, y, z),
        { x.max(y) };
        let r = self.reduce(op);
        proof {
            let out = choose|out: Seq<T>| me.reduce_outputs(out) && reduces(call_step(op), out, r);
            if r is Some {
                lemma_folds_weaken(call_step(op), max_step::<T>(), out, r->0);
            }
            assert(me.reduce_outputs(out));
        }
        r
    }

    /// The minimum of the outputs with respect to `compare`; the earliest one on ties.
    fn min_by<F: Fn(&T, &T) -> Ordering>(self, compare: F) -> (r: Option<T>)
        requires
            self.reduce_ready(),
            forall|a: T, b: T| call_requires(compare, (&a, &b)),
        ensures
            exists|out: Seq<T>| self.reduce_outputs(out) && reduces(min_by_step(compare), out, r),
    {
        let ghost me = self;
        let op = |x: T, y: T| -> (z: T)
            requires
                call_requires(&compare, (&x, &y)),
            ensures
                exists|o: Ordering|
                    call_ensures(&compare, (&x, &y), o) && z == (if o == Ordering::Greater {
                        y
                    } else {
                        x
                    }),
        {
            match compare(&x, &y) {
                Ordering::Less => x,
                Ordering::Equal => x,
                Ordering::Greater => y,
            }
        };
        let r = self.reduce(op);
        proof {
            let out = choose|out: Seq<T>| me.reduce_outputs(out) && reduces(call_step(op), out, r);
            if r is Some {
                lemma_folds_weaken(call_step(op), min_by_step(compare), out, r->0);
            }
            assert(me.reduce_outputs(out));
        }
        r
    }

    /// The maximum of the outputs with respect to `compare`; the earliest one on ties.
    fn max_by<F: Fn(&T, &T) -> Ordering>(self, compare: F) -> (r: Option<T>)
        requires
            self.reduce_ready(),
            forall|a: T, b: T| call_requires(compare, (&a, &b)),
        ensures
            exists|out: Seq<T>| self.reduce_outputs(out) && reduces(max_by_step(compare), out, r),
    {
        let ghost me = self;
        let op = |x: T, y: T| -> (z: T)
            requires
                call_requires(&compare, (&x, &y)),
            ensures
                exists|o: Ordering|
                    call_ensures(&compare, (&x, &y), o) && z == (if o == Ordering::Less {
                        y
                    } else {
                        x
                    }),
        {
            match compare(&x, &y) {
                Ordering::Greater => x,
                Ordering::Equal => x,
                Ordering::Less => y,
            }
        };
        let r = self.reduce(op);
        proof {
            let out = choose|out: Seq<T>| me.reduce_outputs(out) && reduces(call_step(op), out, r);
            if r is Some {
                lemma_folds_weaken(call_step(op), max_by_step(compare), out, r->0);
            }
            assert(me.reduce_outputs(out));
        }
        r
    }

    /// The output with the minimum key; the earliest one on ties.
    fn min_by_key<B: Ord, F: Fn(&T) -> B>(self, get_key: F) -> (r: Option<T>)
        requires
            self.reduce_ready(),
            forall|a: T| call_requires(get_key, (&a,)),
        ensures
            exists|out: Seq<T>| self.reduce_outputs(out) && reduces(min_by_key_step(get_key), out, r),
    {
        let ghost me = self;
        let op = |x: T, y: T| -> (z: T)
            requires
                call_requires(&get_key, (&x,)),
                call_requires(&get_key, (&y,)),
            ensures
                exists|ka: B, kb: B|
                    call_ensures(&get_key, (&x,), ka) && call_ensures(&get_key, (&y,), kb) && (
                    B::obeys_cmp_spec() ==> z == (if ka.cmp_spec(&kb) == Ordering::Greater {
                        y
                    } else {
                        x
                    })),
        {
            let kx = get_key(&x);
            let ky = get_key(&y);
            let c = kx.cmp(&ky);
            proof {
                assert(call_ensures(&get_key, (&x,), kx) && call_ensures(&get_key, (&y,), ky));
                assert(B::obeys_cmp_spec() ==> c == kx.cmp_spec(&ky));
            }
            match c {
                Ordering::Less => x,
                Ordering::Equal => x,
                Ordering::Greater => y,
            }
        };
        let r = self.reduce(op);
        proof {
            let out = choose|out: Seq<T>| me.reduce_outputs(out) && reduces(call_step(op), out, r);
            if r is Some {
                lemma_folds_weaken(call_step(op), min_by_key_step(get_key), out, r->0);
            }
            assert(me.reduce_outputs(out));
        }
        r
    }

    /// The output with the maximum key; the earliest one on ties.
    fn max_by_key<B: Ord, F: Fn(&T) -> B>(self, get_key: F) -> (r: Option<T>)
        requires
            self.reduce_ready(),
            forall|a: T| call_requires(get_key, (&a,)),
        ensures
            exists|out: Seq<T>| self.reduce_outputs(out) && reduces(max_by_key_step(get_key), out, r),
    {
        let ghost me = self;
        let op = |x: T, y: T| -> (z: T)
            requires
                call_requires(&get_key, (&x,)),
                call_requires(&get_key, (&y,)),
            ensures
                exists|ka: B, kb: B|
                    call_ensures(&get_key, (&x,), ka) && call_ensures(&get_key, (&y,), kb) && (
                    B::obeys_cmp_spec() ==> z == (if ka.cmp_spec(&kb) == Ordering::Less {
                        y
                    } else {
                        x
                    })),
        {
            let kx = get_key(&x);
            let ky = get_key(&y);
            let c = kx.cmp(&ky);
            proof {
                assert(call_ensures(&get_key, (&x,), kx) && call_ensures(&get_key, (&y,), ky));
                assert(B::obeys_cmp_spec() ==> c == kx.cmp_spec(&ky));
            }
            match c {
                Ordering::Greater => x,
                Ordering::Equal => x,
                Ordering::Less => y,
            }
        };
        let r = self.reduce(op);
        proof {
            let out = choose|out: Seq<T>| me.reduce_outputs(out) && reduces(call_step(op), out, r);
            if r is Some {
                lemma_folds_weaken(call_step(op), max_by_key_step(get_key), out, r->0);
            }
            assert(me.reduce_outputs(out));
        }
        r
    }
}

} // verus!

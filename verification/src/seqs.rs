//! Sequence operations used to state what pipelines compute.
use vstd::prelude::*;
use crate::fallible::Fallible;

verus! {

/// Concatenation of the sequences of `ss`, in order.
pub open spec fn flatten<A>(ss: Seq<Seq<A>>) -> Seq<A>
    decreases ss.len(),
{
    if ss.len() == 0 {
        Seq::empty()
    } else {
        flatten(ss.drop_last()) + ss.last()
    }
}

/// The elements of `s` whose flag is set, in order.
pub open spec fn keep<A>(s: Seq<A>, flags: Seq<bool>) -> Seq<A>
    decreases s.len(),
{
    if s.len() == 0 {
        Seq::empty()
    } else {
        let rest = keep(s.drop_last(), flags.drop_last());
        if flags[s.len() - 1] {
            rest.push(s.last())
        } else {
            rest
        }
    }
}

/// The successful values of the fallibles of `s`, in order.
pub open spec fn values_of<T, F: Fallible<T>>(s: Seq<F>) -> Seq<T>
    decreases s.len(),
{
    if s.len() == 0 {
        Seq::empty()
    } else {
        let rest = values_of(s.drop_last());
        if s.last().has_value_spec() {
            rest.push(s.last().value_spec())
        } else {
            rest
        }
    }
}

/// The views of the vectors of `s`.
pub open spec fn views_of<A>(s: Seq<Vec<A>>) -> Seq<Seq<A>> {
    s.map_values(|v: Vec<A>| v@)
}

/// Flattening distributes over concatenation.
pub proof fn lemma_flatten_append<A>(a: Seq<Seq<A>>, b: Seq<Seq<A>>)
    ensures
        flatten(a + b) == flatten(a) + flatten(b),
    decreases b.len(),
{
    if b.len() == 0 {
        assert(a + b =~= a);
        assert(flatten(b) =~= Seq::<A>::empty());
        assert(flatten(a) + flatten(b) =~= flatten(a));
    } else {
        lemma_flatten_append(a, b.drop_last());
        assert((a + b).drop_last() =~= a + b.drop_last());
        assert((a + b).last() == b.last());
        assert(flatten(a) + flatten(b) =~= flatten(a) + flatten(b.drop_last()) + b.last());
    }
}

/// Flattening sequences that are all empty gives the empty sequence.
pub proof fn lemma_flatten_all_empty<A>(ss: Seq<Seq<A>>)
    requires
        forall|i: int| 0 <= i < ss.len() ==> (#[trigger] ss[i]).len() == 0,
    ensures
        flatten(ss) == Seq::<A>::empty(),
    decreases ss.len(),
{
    if ss.len() > 0 {
        lemma_flatten_all_empty(ss.drop_last());
        assert(ss[ss.len() - 1].len() == 0);
        assert(flatten(ss) =~= Seq::<A>::empty());
    }
}

/// The length of a flattening is at least the length of each part.
pub proof fn lemma_flatten_len<A>(ss: Seq<Seq<A>>, i: int)
    requires
        0 <= i < ss.len(),
    ensures
        ss[i].len() <= flatten(ss).len(),
    decreases ss.len(),
{
    if i < ss.len() - 1 {
        lemma_flatten_len(ss.drop_last(), i);
    }
}

} // verus!

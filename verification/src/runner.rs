//! Computations over a pipeline: collecting, counting, searching and reducing.
//!
//! Collection comes in two forms. The sequential form transforms the inputs one
//! after the other. The chunked form transforms the inputs chunk by chunk, in the
//! order given by a schedule, gathering the outputs into a bag as they arrive and
//! recording where the outputs of each input went; the bag is then merged back into
//! input order.
use vstd::prelude::*;
use crate::merge::{
    is_used_range, merge_bag_and_pos_len, merge_bag_and_positions, merged_positions,
    merged_ranges, ranges_disjoint, slot_values, valid_positions, valid_ranges,
};
use crate::seqs::{flatten, lemma_flatten_all_empty, values_of};
use crate::xap::{accepts_all, outputs_of, produces, Xap};

verus! {

/// Collects the outputs of transforming `input` in order, appending them to `output`.
pub fn collect_seq<T, O, X: Xap<T, O>>(xap: &X, input: Vec<T>, output: &mut Vec<O>)
    requires
        accepts_all(*xap, input@),
    ensures
        exists|out: Seq<O>| produces(*xap, input@, out) && final(output)@ == old(output)@ + out,
{
    let ghost input_seq = input@;
    let ghost out0 = output@;
    let ghost mut per: Seq<Seq<O>> = Seq::empty();
    for x in it: input.into_iter()
        invariant
            accepts_all(*xap, input_seq),
            it.seq() == input_seq,
            per.len() == it.index(),
            outputs_of(*xap, input_seq.take(it.index() as int), per),
            output@ == out0 + flatten(per),
    {
        let ghost k = it.index() as int;
        proof {
            assert(x == input_seq[k]);
        }
        let mut ys = xap.apply(x);
        proof {
            let old_per = per;
            per = per.push(ys@);
            assert(per.drop_last() =~= old_per);
            let t = input_seq.take(k + 1);
            assert forall|i: int| 0 <= i < t.len() implies xap.yields(#[trigger] t[i], per[i]) by {
                if i < k {
                    assert(t[i] == input_seq.take(k)[i]);
                }
            }
        }
        output.append(&mut ys);
        proof {
            assert(output@ =~= out0 + flatten(per));
        }
    }
    proof {
        assert(input_seq.take(input_seq.len() as int) =~= input_seq);
        assert(outputs_of(*xap, input_seq, per));
    }
}

/// What the chunked collection keeps true while it processes inputs: an input whose
/// slot is still filled has not been transformed and records no range; the outputs of
/// a transformed input sit in the bag at its recorded range.
pub open spec fn pos_len_inv<T, O, X: Xap<T, O>>(
    xap: X,
    input: Seq<T>,
    slots: Seq<Option<T>>,
    pos_len: Seq<(usize, usize)>,
    bag: Seq<Option<O>>,
    per: Seq<Seq<O>>,
) -> bool {
    &&& slots.len() == input.len()
    &&& pos_len.len() == input.len()
    &&& per.len() == input.len()
    &&& forall|i: int|
        0 <= i < input.len() && (#[trigger] slots[i]) is Some ==> slots[i] == Some(input[i])
            && !is_used_range(pos_len[i])
    &&& forall|i: int|
        0 <= i < input.len() && (#[trigger] slots[i]) is None ==> {
            &&& xap.yields(input[i], per[i])
            &&& pos_len[i].1 == per[i].len()
            &&& per[i].len() > 0 ==> {
                &&& is_used_range(pos_len[i])
                &&& pos_len[i].0 + pos_len[i].1 <= bag.len()
                &&& slot_values(bag.subrange(pos_len[i].0 as int, pos_len[i].0 + pos_len[i].1))
                    == per[i]
            }
        }
    &&& forall|k: int| 0 <= k < bag.len() ==> (#[trigger] bag[k]) is Some
    &&& forall|i: int, j: int|
        0 <= i < j < input.len() && is_used_range(#[trigger] pos_len[i]) && is_used_range(
            #[trigger] pos_len[j],
        ) ==> ranges_disjoint(pos_len[i], pos_len[j])
    &&& forall|i: int|
        0 <= i < input.len() && is_used_range(#[trigger] pos_len[i]) ==> pos_len[i].0
            + pos_len[i].1 <= bag.len()
}

/// Takes the value out of slot `k`, leaving it empty.
fn take_input<T>(slots: &mut Vec<Option<T>>, k: usize) -> (r: Option<T>)
    requires
        k < old(slots).len(),
    ensures
        r == old(slots)@[k as int],
        final(slots)@ == old(slots)@.update(k as int, None),
{
    let mut tmp: Option<T> = None;
    std::mem::swap(&mut slots[k], &mut tmp);
    tmp
}

/// Transforms input `i` if it has not been transformed yet, appending its outputs to
/// the bag and recording their range.
fn process_pos_len<T, O, X: Xap<T, O>>(
    xap: &X,
    Ghost(input): Ghost<Seq<T>>,
    slots: &mut Vec<Option<T>>,
    pos_len: &mut Vec<(usize, usize)>,
    bag: &mut Vec<Option<O>>,
    Ghost(per): Ghost<Seq<Seq<O>>>,
    i: usize,
) -> (new_per: Ghost<Seq<Seq<O>>>)
    requires
        accepts_all(*xap, input),
        i < input.len(),
        pos_len_inv(*xap, input, old(slots)@, old(pos_len)@, old(bag)@, per),
    ensures
        pos_len_inv(*xap, input, final(slots)@, final(pos_len)@, final(bag)@, new_per@),
        final(slots)@[i as int] is None,
        forall|j: int|
            0 <= j < input.len() && j != i ==> final(slots)@[j] == old(slots)@[j],
{
    let slot = take_input(slots, i);
    match slot {
        None => {
            proof {
                assert(slots@ =~= old(slots)@);
            }
            Ghost(per)
        },
        Some(x) => {
            let ghost bag0 = bag@;
            let ys = xap.apply(x);
            let b = bag.len();
            let l = ys.len();
            let ghost ys_seq = ys@;
            for y in it: ys.into_iter()
                invariant
                    it.seq() == ys_seq,
                    bag@.len() == b + it.index(),
                    bag@.subrange(0, b as int) == bag0,
                    slot_values(bag@.subrange(b as int, bag@.len() as int)) == ys_seq.take(
                        it.index() as int,
                    ),
                    forall|k: int| 0 <= k < bag@.len() ==> (#[trigger] bag@[k]) is Some,
                    b == bag0.len(),
                    forall|k: int| 0 <= k < bag0.len() ==> (#[trigger] bag0[k]) is Some,
            {
                let ghost k = it.index() as int;
                let ghost old_bag = bag@;
                bag.push(Some(y));
                proof {
                    assert(bag@.subrange(0, b as int) =~= old_bag.subrange(0, b as int));
                    assert(slot_values(bag@.subrange(b as int, bag@.len() as int)) =~= slot_values(
                        old_bag.subrange(b as int, old_bag.len() as int),
                    ).push(y));
                    assert(ys_seq.take(k + 1) =~= ys_seq.take(k).push(ys_seq[k]));
                }
            }
            let _ = bag.len();
            pos_len.set(i, (b, l));
            let ghost new_per = per.update(i as int, ys_seq);
            proof {
                assert(ys_seq.take(ys_seq.len() as int) =~= ys_seq);
                let s2 = slots@;
                let p2 = pos_len@;
                let bg = bag@;
                assert(bg.len() == b + l);
                assert forall|j: int|
                    0 <= j < input.len() && (#[trigger] s2[j]) is None implies {
                        &&& xap.yields(input[j], new_per[j])
                        &&& p2[j].1 == new_per[j].len()
                        &&& new_per[j].len() > 0 ==> {
                            &&& is_used_range(p2[j])
                            &&& p2[j].0 + p2[j].1 <= bg.len()
                            &&& slot_values(bg.subrange(p2[j].0 as int, p2[j].0 + p2[j].1))
                                == new_per[j]
                        }
                    } by {
                    if j == i {
                        assert(bg.subrange(b as int, b + l) =~= bg.subrange(
                            b as int,
                            bg.len() as int,
                        ));
                    } else {
                        assert(old(slots)@[j] is None);
                        if per[j].len() > 0 {
                            let e = old(pos_len)@[j];
                            assert(bg.subrange(e.0 as int, e.0 + e.1) =~= bag0.subrange(
                                e.0 as int,
                                e.0 + e.1,
                            ));
                        }
                    }
                }
                assert forall|i1: int, j1: int|
                    0 <= i1 < j1 < input.len() && is_used_range(#[trigger] p2[i1]) && is_used_range(
                        #[trigger] p2[j1],
                    ) implies ranges_disjoint(p2[i1], p2[j1]) by {
                    if i1 == i {
                        assert(is_used_range(old(pos_len)@[j1]));
                    } else if j1 == i {
                        assert(is_used_range(old(pos_len)@[i1]));
                    }
                }
                assert forall|j: int|
                    0 <= j < input.len() && (#[trigger] s2[j]) is Some implies s2[j] == Some(
                        input[j],
                    ) && !is_used_range(p2[j]) by {
                    assert(j != i);
                }
            }
            Ghost(new_per)
        },
    }
}

/// The outputs recorded by the ranges are the outputs of the inputs, in input order.
proof fn lemma_merged_ranges<T, O, X: Xap<T, O>>(
    xap: X,
    input: Seq<T>,
    slots: Seq<Option<T>>,
    pos_len: Seq<(usize, usize)>,
    bag: Seq<Option<O>>,
    per: Seq<Seq<O>>,
    m: int,
)
    requires
        pos_len_inv(xap, input, slots, pos_len, bag, per),
        forall|i: int| 0 <= i < input.len() ==> (#[trigger] slots[i]) is None,
        0 <= m <= input.len(),
    ensures
        merged_ranges(bag, pos_len.take(m)) == flatten(per.take(m)),
    decreases m,
{
    if m > 0 {
        lemma_merged_ranges(xap, input, slots, pos_len, bag, per, m - 1);
        assert(pos_len.take(m).drop_last() =~= pos_len.take(m - 1));
        assert(per.take(m).drop_last() =~= per.take(m - 1));
        assert(slots[m - 1] is None);
        let e = pos_len[m - 1];
        if !is_used_range(e) {
            assert(per[m - 1].len() == 0);
            assert(per[m - 1] =~= Seq::<O>::empty());
        }
        assert(merged_ranges(bag, pos_len.take(m)) =~= flatten(per.take(m)));
    }
}

/// The filled slots holding the inputs, in order.
fn into_slots<T>(input: Vec<T>) -> (slots: Vec<Option<T>>)
    ensures
        slots@.len() == input@.len(),
        forall|i: int| 0 <= i < input@.len() ==> (#[trigger] slots@[i]) == Some(input@[i]),
{
    let ghost input_seq = input@;
    let mut slots: Vec<Option<T>> = Vec::new();
    for x in it: input.into_iter()
        invariant
            it.seq() == input_seq,
            slots@.len() == it.index(),
            forall|i: int| 0 <= i < slots@.len() ==> (#[trigger] slots@[i]) == Some(input_seq[i]),
    {
        proof {
            assert(x == input_seq[it.index() as int]);
        }
        slots.push(Some(x));
    }
    slots
}

/// Collects the outputs of transforming `input`, appending them to `output` in input
/// order. The inputs are transformed chunk by chunk: first the chunks listed in
/// `schedule`, in that order, then any input left untransformed. Chunk `c` holds the
/// inputs from `c * chunk_len` up to, not including, `(c + 1) * chunk_len`.
pub fn collect_chunked<T, O, X: Xap<T, O>>(
    xap: &X,
    input: Vec<T>,
    chunk_len: usize,
    schedule: &Vec<usize>,
    output: &mut Vec<O>,
)
    requires
        accepts_all(*xap, input@),
    ensures
        exists|out: Seq<O>| produces(*xap, input@, out) && final(output)@ == old(output)@ + out,
{
    if xap.is_single() {
        collect_chunked_single(xap, input, chunk_len, schedule, output)
    } else {
        collect_chunked_multi(xap, input, chunk_len, schedule, output)
    }
}

/// The range of inputs of chunk `c`, from `c * chunk_len` up to, not including,
/// `(c + 1) * chunk_len`, clipped to `n`: `(begin, end)` with `begin <= end <= n`.
pub open spec fn chunk_range_spec(c: usize, chunk_len: usize, n: usize) -> (int, int) {
    let begin = c * chunk_len;
    if begin >= n {
        (n as int, n as int)
    } else if begin + chunk_len > n {
        (begin, n as int)
    } else {
        (begin, begin + chunk_len)
    }
}

/// The range of inputs of chunk `c`, clipped to `n`; empty when it lies beyond `n`.
fn chunk_range(c: usize, chunk_len: usize, n: usize) -> (r: (usize, usize))
    ensures
        r.0 <= r.1 <= n,
        (r.0 as int, r.1 as int) == chunk_range_spec(c, chunk_len, n),
{
    match c.checked_mul(chunk_len) {
        None => (n, n),
        Some(begin) => {
            if begin >= n {
                (n, n)
            } else {
                let end = if chunk_len > n - begin {
                    n
                } else {
                    begin + chunk_len
                };
                (begin, end)
            }
        },
    }
}

fn collect_chunked_multi<T, O, X: Xap<T, O>>(
    xap: &X,
    input: Vec<T>,
    chunk_len: usize,
    schedule: &Vec<usize>,
    output: &mut Vec<O>,
)
    requires
        accepts_all(*xap, input@),
    ensures
        exists|out: Seq<O>| produces(*xap, input@, out) && final(output)@ == old(output)@ + out,
{
    let ghost input_seq = input@;
    let n = input.len();
    let mut slots = into_slots(input);
    let mut pos_len: Vec<(usize, usize)> = Vec::new();
    let mut i: usize = 0;
    while i < n
        invariant
            pos_len@.len() == i,
            i <= n,
            forall|j: int| 0 <= j < i ==> #[trigger] pos_len@[j] == (usize::MAX, 0usize),
        decreases n - i,
    {
        pos_len.push((usize::MAX, 0));
        i = i + 1;
    }
    let mut bag: Vec<Option<O>> = Vec::new();
    let ghost mut per: Seq<Seq<O>> = Seq::new(n as nat, |i: int| Seq::<O>::empty());
    proof {
        assert(pos_len_inv(*xap, input_seq, slots@, pos_len@, bag@, per));
    }
    let ns = schedule.len();
    let mut s: usize = 0;
    while s < ns
        invariant
            accepts_all(*xap, input_seq),
            n == input_seq.len(),
            ns == schedule@.len(),
            s <= ns,
            pos_len_inv(*xap, input_seq, slots@, pos_len@, bag@, per),
        decreases ns - s,
    {
        let (begin, end) = chunk_range(schedule[s], chunk_len, n);
        let mut i = begin;
        while i < end
            invariant
                accepts_all(*xap, input_seq),
                n == input_seq.len(),
                end <= n,
                begin <= i <= end,
                pos_len_inv(*xap, input_seq, slots@, pos_len@, bag@, per),
            decreases end - i,
        {
            let Ghost(p) = process_pos_len(xap, Ghost(input_seq), &mut slots, &mut pos_len, &mut bag, Ghost(per), i);
            proof {
                per = p;
            }
            i = i + 1;
        }
        s = s + 1;
    }
    let mut i: usize = 0;
    while i < n
        invariant
            accepts_all(*xap, input_seq),
            n == input_seq.len(),
            i <= n,
            pos_len_inv(*xap, input_seq, slots@, pos_len@, bag@, per),
            forall|j: int| 0 <= j < i ==> (#[trigger] slots@[j]) is None,
        decreases n - i,
    {
        let Ghost(p) = process_pos_len(xap, Ghost(input_seq), &mut slots, &mut pos_len, &mut bag, Ghost(per), i);
        proof {
            per = p;
        }
        i = i + 1;
    }
    proof {
        let bg = bag@;
        let pl = pos_len@;
        assert forall|i: int, k: int|
            0 <= i < pl.len() && is_used_range(#[trigger] pl[i]) && pl[i].0 <= k < pl[i].0
                + pl[i].1 implies (#[trigger] bg[k]) is Some by {
        }
        assert(valid_ranges(bg, pl));
        lemma_merged_ranges(*xap, input_seq, slots@, pl, bg, per, n as int);
        assert(pl.take(n as int) =~= pl);
        assert(per.take(n as int) =~= per);
        assert forall|i: int| 0 <= i < input_seq.len() implies xap.yields(
            #[trigger] input_seq[i],
            per[i],
        ) by {
            assert(slots@[i] is None);
        }
        assert(outputs_of(*xap, input_seq, per));
    }
    merge_bag_and_pos_len(bag, &pos_len, output);
}

/// What the chunked collection of a transformation with at most one output per input
/// keeps true: a transformed input records the bag position of its output, or
/// `usize::MAX` when it has none.
pub open spec fn positions_inv<T, O, X: Xap<T, O>>(
    xap: X,
    input: Seq<T>,
    slots: Seq<Option<T>>,
    positions: Seq<usize>,
    bag: Seq<Option<O>>,
    per: Seq<Seq<O>>,
) -> bool {
    &&& slots.len() == input.len()
    &&& positions.len() == input.len()
    &&& per.len() == input.len()
    &&& forall|i: int|
        0 <= i < input.len() && (#[trigger] slots[i]) is Some ==> slots[i] == Some(input[i])
            && positions[i] == usize::MAX
    &&& forall|i: int|
        0 <= i < input.len() && (#[trigger] slots[i]) is None ==> {
            &&& xap.yields(input[i], per[i])
            &&& per[i].len() <= 1
            &&& (per[i].len() == 1 <==> positions[i] < usize::MAX)
            &&& positions[i] < usize::MAX ==> positions[i] < bag.len() && bag[positions[i] as int]
                == Some(per[i][0])
        }
    &&& forall|k: int| 0 <= k < bag.len() ==> (#[trigger] bag[k]) is Some
    &&& forall|i: int, j: int|
        0 <= i < j < input.len() && #[trigger] positions[i] < usize::MAX && #[trigger] positions[j]
            < usize::MAX ==> positions[i] != positions[j]
    &&& forall|i: int|
        0 <= i < input.len() && #[trigger] positions[i] < usize::MAX ==> positions[i] < bag.len()
}

/// Transforms input `i` if it has not been transformed yet, pushing its output, if
/// any, to the bag and recording its position.
fn process_position<T, O, X: Xap<T, O>>(
    xap: &X,
    Ghost(input): Ghost<Seq<T>>,
    slots: &mut Vec<Option<T>>,
    positions: &mut Vec<usize>,
    bag: &mut Vec<Option<O>>,
    Ghost(per): Ghost<Seq<Seq<O>>>,
    i: usize,
) -> (new_per: Ghost<Seq<Seq<O>>>)
    requires
        accepts_all(*xap, input),
        xap.single_spec(),
        i < input.len(),
        positions_inv(*xap, input, old(slots)@, old(positions)@, old(bag)@, per),
    ensures
        positions_inv(*xap, input, final(slots)@, final(positions)@, final(bag)@, new_per@),
        final(slots)@[i as int] is None,
        forall|j: int|
            0 <= j < input.len() && j != i ==> final(slots)@[j] == old(slots)@[j],
{
    let slot = take_input(slots, i);
    match slot {
        None => {
            proof {
                assert(slots@ =~= old(slots)@);
            }
            Ghost(per)
        },
        Some(x) => {
            let mut ys = xap.apply(x);
            let ghost ys_seq = ys@;
            let ghost new_per = per.update(i as int, ys_seq);
            match ys.pop() {
                None => {
                    proof {
                        let s2 = slots@;
                        assert forall|j: int|
                            0 <= j < input.len() && (#[trigger] s2[j]) is Some implies s2[j] == Some(
                                input[j],
                            ) && positions@[j] == usize::MAX by {
                            assert(j != i);
                        }
                        assert forall|j: int|
                            0 <= j < input.len() && (#[trigger] s2[j]) is None implies {
                                &&& xap.yields(input[j], new_per[j])
                                &&& new_per[j].len() <= 1
                                &&& (new_per[j].len() == 1 <==> positions@[j] < usize::MAX)
                                &&& positions@[j] < usize::MAX ==> positions@[j] < bag@.len()
                                    && bag@[positions@[j] as int] == Some(new_per[j][0])
                            } by {
                            if j != i {
                                assert(old(slots)@[j] is None);
                            } else {
                                assert(old(slots)@[j] is Some);
                            }
                        }
                    }
                    Ghost(new_per)
                },
                Some(y) => {
                    let b = bag.len();
                    bag.push(Some(y));
                    let _ = bag.len();
                    positions.set(i, b);
                    proof {
                        let s2 = slots@;
                        let p2 = positions@;
                        let bg = bag@;
                        assert(ys_seq.len() == 1);
                        assert(ys_seq[0] == y);
                        assert forall|j: int|
                            0 <= j < input.len() && (#[trigger] s2[j]) is Some implies s2[j] == Some(
                                input[j],
                            ) && p2[j] == usize::MAX by {
                            assert(j != i);
                        }
                        assert forall|j: int|
                            0 <= j < input.len() && (#[trigger] s2[j]) is None implies {
                                &&& xap.yields(input[j], new_per[j])
                                &&& new_per[j].len() <= 1
                                &&& (new_per[j].len() == 1 <==> p2[j] < usize::MAX)
                                &&& p2[j] < usize::MAX ==> p2[j] < bg.len() && bg[p2[j] as int]
                                    == Some(new_per[j][0])
                            } by {
                            if j != i {
                                assert(old(slots)@[j] is None);
                            }
                        }
                        assert forall|i1: int, j1: int|
                            0 <= i1 < j1 < input.len() && #[trigger] p2[i1] < usize::MAX
                                && #[trigger] p2[j1] < usize::MAX implies p2[i1] != p2[j1] by {
                            if i1 == i {
                                assert(old(positions)@[j1] < usize::MAX);
                            } else if j1 == i {
                                assert(old(positions)@[i1] < usize::MAX);
                            }
                        }
                        assert forall|k: int| 0 <= k < bg.len() implies (#[trigger] bg[k]) is Some by {
                            if k < b {
                                assert(bg[k] == old(bag)@[k]);
                            }
                        }
                    }
                    Ghost(new_per)
                },
            }
        },
    }
}

/// The outputs at the recorded positions are the outputs of the inputs, in input order.
proof fn lemma_merged_positions<T, O, X: Xap<T, O>>(
    xap: X,
    input: Seq<T>,
    slots: Seq<Option<T>>,
    positions: Seq<usize>,
    bag: Seq<Option<O>>,
    per: Seq<Seq<O>>,
    m: int,
)
    requires
        positions_inv(xap, input, slots, positions, bag, per),
        forall|i: int| 0 <= i < input.len() ==> (#[trigger] slots[i]) is None,
        0 <= m <= input.len(),
    ensures
        merged_positions(bag, positions.take(m)) == flatten(per.take(m)),
    decreases m,
{
    if m > 0 {
        lemma_merged_positions(xap, input, slots, positions, bag, per, m - 1);
        assert(positions.take(m).drop_last() =~= positions.take(m - 1));
        assert(per.take(m).drop_last() =~= per.take(m - 1));
        assert(slots[m - 1] is None);
        if positions[m - 1] < usize::MAX {
            assert(per[m - 1] =~= seq![per[m - 1][0]]);
        } else {
            assert(per[m - 1] =~= Seq::<O>::empty());
        }
        assert(merged_positions(bag, positions.take(m)) =~= flatten(per.take(m)));
    }
}

fn collect_chunked_single<T, O, X: Xap<T, O>>(
    xap: &X,
    input: Vec<T>,
    chunk_len: usize,
    schedule: &Vec<usize>,
    output: &mut Vec<O>,
)
    requires
        accepts_all(*xap, input@),
        xap.single_spec(),
    ensures
        exists|out: Seq<O>| produces(*xap, input@, out) && final(output)@ == old(output)@ + out,
{
    let ghost input_seq = input@;
    let n = input.len();
    let mut slots = into_slots(input);
    let mut positions: Vec<usize> = Vec::new();
    let mut i: usize = 0;
    while i < n
        invariant
            positions@.len() == i,
            i <= n,
            forall|j: int| 0 <= j < i ==> #[trigger] positions@[j] == usize::MAX,
        decreases n - i,
    {
        positions.push(usize::MAX);
        i = i + 1;
    }
    let mut bag: Vec<Option<O>> = Vec::new();
    let ghost mut per: Seq<Seq<O>> = Seq::new(n as nat, |i: int| Seq::<O>::empty());
    proof {
        assert(positions_inv(*xap, input_seq, slots@, positions@, bag@, per));
    }
    let ns = schedule.len();
    let mut s: usize = 0;
    while s < ns
        invariant
            accepts_all(*xap, input_seq),
            xap.single_spec(),
            n == input_seq.len(),
            ns == schedule@.len(),
            s <= ns,
            positions_inv(*xap, input_seq, slots@, positions@, bag@, per),
        decreases ns - s,
    {
        let (begin, end) = chunk_range(schedule[s], chunk_len, n);
        let mut i = begin;
        while i < end
            invariant
                accepts_all(*xap, input_seq),
                xap.single_spec(),
                n == input_seq.len(),
                end <= n,
                begin <= i <= end,
                positions_inv(*xap, input_seq, slots@, positions@, bag@, per),
            decreases end - i,
        {
            let Ghost(p) = process_position(xap, Ghost(input_seq), &mut slots, &mut positions, &mut bag, Ghost(per), i);
            proof {
                per = p;
            }
            i = i + 1;
        }
        s = s + 1;
    }
    let mut i: usize = 0;
    while i < n
        invariant
            accepts_all(*xap, input_seq),
            xap.single_spec(),
            n == input_seq.len(),
            i <= n,
            positions_inv(*xap, input_seq, slots@, positions@, bag@, per),
            forall|j: int| 0 <= j < i ==> (#[trigger] slots@[j]) is None,
        decreases n - i,
    {
        let Ghost(p) = process_position(xap, Ghost(input_seq), &mut slots, &mut positions, &mut bag, Ghost(per), i);
        proof {
            per = p;
        }
        i = i + 1;
    }
    proof {
        let bg = bag@;
        let ps = positions@;
        assert(valid_positions(bg, ps));
        lemma_merged_positions(*xap, input_seq, slots@, ps, bg, per, n as int);
        assert(ps.take(n as int) =~= ps);
        assert(per.take(n as int) =~= per);
        assert forall|i: int| 0 <= i < input_seq.len() implies xap.yields(
            #[trigger] input_seq[i],
            per[i],
        ) by {
            assert(slots@[i] is None);
        }
        assert(outputs_of(*xap, input_seq, per));
    }
    merge_bag_and_positions(bag, &positions, output);
}

/// `n`, or `usize::MAX` when `n` does not fit in a `usize`.
pub open spec fn capped(n: nat) -> usize {
    if n <= usize::MAX {
        n as usize
    } else {
        usize::MAX
    }
}

/// Counts the outputs of transforming `input`; a count beyond `usize::MAX` is reported
/// as `usize::MAX`.
pub fn count<T, O, X: Xap<T, O>>(xap: &X, input: Vec<T>) -> (r: usize)
    requires
        accepts_all(*xap, input@),
    ensures
        exists|out: Seq<O>|
            produces(*xap, input@, out) && r == capped(out.len()) && (out.len() <= usize::MAX ==> r
                == out.len()),
{
    let ghost input_seq = input@;
    let ghost mut per: Seq<Seq<O>> = Seq::empty();
    let mut total: usize = 0;
    for x in it: input.into_iter()
        invariant
            accepts_all(*xap, input_seq),
            it.seq() == input_seq,
            per.len() == it.index(),
            outputs_of(*xap, input_seq.take(it.index() as int), per),
            total == capped(flatten(per).len()),
    {
        let ghost k = it.index() as int;
        proof {
            assert(x == input_seq[k]);
        }
        let ys = xap.apply(x);
        let l = ys.len();
        total = if total > usize::MAX - l {
            usize::MAX
        } else {
            total + l
        };
        proof {
            let old_per = per;
            per = per.push(ys@);
            assert(per.drop_last() =~= old_per);
            let t = input_seq.take(k + 1);
            assert forall|i: int| 0 <= i < t.len() implies xap.yields(#[trigger] t[i], per[i]) by {
                if i < k {
                    assert(t[i] == input_seq.take(k)[i]);
                }
            }
        }
    }
    proof {
        assert(input_seq.take(input_seq.len() as int) =~= input_seq);
        assert(outputs_of(*xap, input_seq, per));
        assert(produces(*xap, input_seq, flatten(per)));
    }
    total
}

/// `r` is the first output of transforming `input`, together with the position of the
/// input it came from; `None` when there is no output at all.
pub open spec fn is_first<T, O, X: Xap<T, O>>(xap: X, input: Seq<T>, r: Option<(usize, O)>) -> bool {
    match r {
        None => produces(xap, input, Seq::empty()),
        Some((i, v)) => {
            &&& i < input.len()
            &&& produces(xap, input.take(i as int), Seq::empty())
            &&& exists|ys: Seq<O>| #[trigger] xap.yields(input[i as int], ys) && ys.len() > 0 && ys[0] == v
        },
    }
}

/// Transforms the inputs in order until one yields an output; returns that output and
/// the position of its input. Inputs after it are not transformed.
pub fn first_with_index<T, O, X: Xap<T, O>>(xap: &X, input: Vec<T>) -> (r: Option<(usize, O)>)
    requires
        accepts_all(*xap, input@),
    ensures
        is_first(*xap, input@, r),
{
    let ghost input_seq = input@;
    let ghost mut per: Seq<Seq<O>> = Seq::empty();
    let n = input.len();
    let mut i: usize = 0;
    for x in it: input.into_iter()
        invariant
            accepts_all(*xap, input_seq),
            it.seq() == input_seq,
            n == input_seq.len(),
            per.len() == it.index(),
            i == it.index(),
            outputs_of(*xap, input_seq.take(it.index() as int), per),
            flatten(per) == Seq::<O>::empty(),
    {
        let ghost k = it.index() as int;
        proof {
            assert(x == input_seq[k]);
        }
        let mut ys = xap.apply(x);
        if ys.len() > 0 {
            let ghost ys_seq = ys@;
            let v = ys.remove(0);
            proof {
                assert(xap.yields(input_seq[k], ys_seq));
                assert(input_seq.take(k) =~= input_seq.take(it.index() as int));
            }
            return Some((i, v));
        }
        proof {
            let old_per = per;
            per = per.push(ys@);
            assert(per.drop_last() =~= old_per);
            assert(flatten(per) =~= Seq::<O>::empty());
            let t = input_seq.take(k + 1);
            assert forall|j: int| 0 <= j < t.len() implies xap.yields(#[trigger] t[j], per[j]) by {
                if j < k {
                    assert(t[j] == input_seq.take(k)[j]);
                }
            }
        }
        i = i + 1;
    }
    proof {
        assert(input_seq.take(input_seq.len() as int) =~= input_seq);
        assert(outputs_of(*xap, input_seq, per));
    }
    None
}

/// `accs` are the successive accumulators of folding `s` from the left with `step`,
/// starting from the first element.
pub open spec fn fold_steps<O>(step: spec_fn(O, O, O) -> bool, s: Seq<O>, accs: Seq<O>) -> bool {
    &&& s.len() > 0
    &&& accs.len() == s.len()
    &&& accs[0] == s[0]
    &&& forall|i: int| 0 < i < s.len() ==> #[trigger] step(accs[i - 1], s[i], accs[i])
}

/// `r` is a possible result of folding `s` from the left with `step`, starting from
/// the first element.
pub open spec fn folds<O>(step: spec_fn(O, O, O) -> bool, s: Seq<O>, r: O) -> bool {
    exists|accs: Seq<O>| #[trigger] fold_steps(step, s, accs) && r == accs.last()
}

/// `None` for an empty `s`; otherwise a possible left fold of `s` with `step`.
pub open spec fn reduces<O>(step: spec_fn(O, O, O) -> bool, s: Seq<O>, r: Option<O>) -> bool {
    match r {
        None => s.len() == 0,
        Some(v) => folds(step, s, v),
    }
}

/// The step relation of a reducing closure: `c` is a possible result of `f(a, b)`.
pub open spec fn call_step<O, F: Fn(O, O) -> O>(f: F) -> spec_fn(O, O, O) -> bool {
    |a: O, b: O, c: O| call_ensures(f, (a, b), c)
}

/// Reducing with a step relation contained in another reduces with the other too.
pub proof fn lemma_folds_weaken<O>(
    step1: spec_fn(O, O, O) -> bool,
    step2: spec_fn(O, O, O) -> bool,
    s: Seq<O>,
    r: O,
)
    requires
        folds(step1, s, r),
        forall|a: O, b: O, c: O| #[trigger] step1(a, b, c) ==> step2(a, b, c),
    ensures
        folds(step2, s, r),
{
    let accs = choose|accs: Seq<O>| #[trigger] fold_steps(step1, s, accs) && r == accs.last();
    assert forall|i: int| 0 < i < s.len() implies #[trigger] step2(accs[i - 1], s[i], accs[i]) by {
        assert(step1(accs[i - 1], s[i], accs[i]));
    }
    assert(fold_steps(step2, s, accs));
}

/// Folds `s` extended by `y` given a fold of `s`.
pub proof fn lemma_reduces_push<O>(step: spec_fn(O, O, O) -> bool, s: Seq<O>, acc: Option<O>, y: O, r: Option<O>)
    requires
        reduces(step, s, acc),
        match acc {
            None => r == Some(y),
            Some(a) => r matches Some(c) && step(a, y, c),
        },
    ensures
        reduces(step, s.push(y), r),
{
    match acc {
        None => {
            assert(s.push(y) =~= seq![y]);
            assert(fold_steps(step, s.push(y), seq![y]));
        },
        Some(a) => {
            let accs = choose|accs: Seq<O>| #[trigger] fold_steps(step, s, accs) && a == accs.last();
            let accs2 = accs.push(r->0);
            let s2 = s.push(y);
            assert forall|i: int| 0 < i < s2.len() implies #[trigger] step(accs2[i - 1], s2[i], accs2[i]) by {
                if i < s.len() {
                    assert(step(accs[i - 1], s[i], accs[i]));
                }
            }
            assert(fold_steps(step, s2, accs2));
        },
    }
}

/// Folding `s` from the left with `op` never calls `op` outside its precondition:
/// after any possible fold of a proper non-empty prefix, `op` accepts the accumulator
/// and the next element.
pub open spec fn fold_callable<O, F: Fn(O, O) -> O>(op: F, s: Seq<O>) -> bool {
    forall|m: int, accs: Seq<O>|
        0 < m < s.len() && #[trigger] fold_steps(call_step(op), s.take(m), accs) ==> call_requires(
            op,
            (accs.last(), s[m]),
        )
}

/// Reduces `v` from the left with `op`; `None` when `v` is empty.
pub fn fold_vec<O, F: Fn(O, O) -> O>(v: Vec<O>, op: F) -> (r: Option<O>)
    requires
        fold_callable(op, v@),
    ensures
        reduces(call_step(op), v@, r),
{
    let ghost s = v@;
    let mut acc: Option<O> = None;
    proof {
        assert(s.take(0) =~= Seq::<O>::empty());
    }
    for y in it: v.into_iter()
        invariant
            it.seq() == s,
            fold_callable(op, s),
            reduces(call_step(op), s.take(it.index() as int), acc),
    {
        let ghost j = it.index() as int;
        let ghost acc0 = acc;
        proof {
            assert(y == s[j]);
        }
        acc = match acc {
            None => Some(y),
            Some(a) => {
                proof {
                    let accs = choose|accs: Seq<O>| #[trigger] fold_steps(call_step(op), s.take(j), accs) && a == accs.last();
                    assert(fold_steps(call_step(op), s.take(j), accs));
                }
                Some(op(a, y))
            },
        };
        proof {
            lemma_reduces_push(call_step(op), s.take(j), acc0, y, acc);
            assert(s.take(j).push(y) =~= s.take(j + 1));
        }
    }
    proof {
        assert(s.take(s.len() as int) =~= s);
    }
    acc
}

/// Combines the reductions of consecutive chunks, in chunk order: the values present
/// in `parts` are reduced from the left with `op`; `None` when there is none.
pub fn fold_chunk_results<O, F: Fn(O, O) -> O>(parts: Vec<Option<O>>, op: F) -> (r: Option<O>)
    requires
        forall|a: O, b: O| call_requires(op, (a, b)),
    ensures
        reduces(call_step(op), values_of(parts@), r),
{
    let ghost ps = parts@;
    let mut acc: Option<O> = None;
    proof {
        assert(ps.take(0) =~= Seq::<Option<O>>::empty());
    }
    for p in it: parts.into_iter()
        invariant
            it.seq() == ps,
            forall|a: O, b: O| call_requires(op, (a, b)),
            reduces(call_step(op), values_of(ps.take(it.index() as int)), acc),
    {
        let ghost j = it.index() as int;
        let ghost acc0 = acc;
        proof {
            assert(p == ps[j]);
            assert(ps.take(j + 1).drop_last() =~= ps.take(j));
        }
        match p {
            None => {},
            Some(y) => {
                acc = match acc {
                    None => Some(y),
                    Some(a) => Some(op(a, y)),
                };
                proof {
                    lemma_reduces_push(call_step(op), values_of(ps.take(j)), acc0, y, acc);
                }
            },
        }
    }
    proof {
        assert(ps.take(ps.len() as int) =~= ps);
    }
    acc
}

} // verus!

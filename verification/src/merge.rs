//! Merging outputs that were collected in arbitrary order back into input order.
//!
//! Outputs are gathered into a bag of slots in whatever order they are computed,
//! while a second vector records, for each input position, where its outputs went.
//! Merging takes the outputs out of the bag following the recorded positions.
use vstd::prelude::*;

verus! {

/// The values held by the slots of `s`.
pub open spec fn slot_values<T>(s: Seq<Option<T>>) -> Seq<T> {
    s.map_values(|o: Option<T>| o->0)
}

/// An entry `(begin, len)` that refers to a non-empty range of the bag.
pub open spec fn is_used_range(e: (usize, usize)) -> bool {
    e.0 < usize::MAX && e.1 > 0
}

/// The two ranges do not overlap.
pub open spec fn ranges_disjoint(a: (usize, usize), b: (usize, usize)) -> bool {
    a.0 + a.1 <= b.0 || b.0 + b.1 <= a.0
}

/// Every used range lies inside the bag, holds only filled slots, and no two used
/// ranges overlap.
pub open spec fn valid_ranges<T>(bag: Seq<Option<T>>, pos_len: Seq<(usize, usize)>) -> bool {
    &&& forall|i: int|
        0 <= i < pos_len.len() && is_used_range(#[trigger] pos_len[i]) ==> pos_len[i].0
            + pos_len[i].1 <= bag.len()
    &&& forall|i: int, k: int|
        0 <= i < pos_len.len() && is_used_range(#[trigger] pos_len[i]) && pos_len[i].0 <= k
            < pos_len[i].0 + pos_len[i].1 ==> (#[trigger] bag[k]) is Some
    &&& forall|i: int, j: int|
        0 <= i < j < pos_len.len() && is_used_range(#[trigger] pos_len[i]) && is_used_range(
            #[trigger] pos_len[j],
        ) ==> ranges_disjoint(pos_len[i], pos_len[j])
}

/// The values of the used ranges of `pos_len`, concatenated in the order of `pos_len`.
pub open spec fn merged_ranges<T>(bag: Seq<Option<T>>, pos_len: Seq<(usize, usize)>) -> Seq<T>
    decreases pos_len.len(),
{
    if pos_len.len() == 0 {
        Seq::empty()
    } else {
        let e = pos_len.last();
        merged_ranges(bag, pos_len.drop_last()) + if is_used_range(e) {
            slot_values(bag.subrange(e.0 as int, e.0 + e.1))
        } else {
            Seq::empty()
        }
    }
}

/// Takes the value out of slot `k`, leaving it empty.
fn take_slot<T>(bag: &mut Vec<Option<T>>, k: usize) -> (r: Option<T>)
    requires
        k < old(bag).len(),
    ensures
        r == old(bag)@[k as int],
        final(bag)@ == old(bag)@.update(k as int, None),
{
    let mut tmp: Option<T> = None;
    std::mem::swap(&mut bag[k], &mut tmp);
    tmp
}

/// Appends to `output` the values of the used ranges of `pos_len`, in the order of
/// `pos_len`; an entry is used when its begin is below `usize::MAX` and its length is
/// positive.
pub fn merge_bag_and_pos_len<T>(bag: Vec<Option<T>>, pos_len: &Vec<(usize, usize)>, output: &mut Vec<T>)
    requires
        valid_ranges(bag@, pos_len@),
    ensures
        final(output)@ == old(output)@ + merged_ranges(bag@, pos_len@),
{
    let ghost bag0 = bag@;
    let ghost out0 = output@;
    let mut bag = bag;
    let blen = bag.len();
    let n = pos_len.len();
    let mut i: usize = 0;
    while i < n
        invariant
            n == pos_len@.len(),
            i <= n,
            valid_ranges(bag0, pos_len@),
            bag@.len() == bag0.len(),
            blen == bag0.len(),
            forall|m: int, k: int|
                i <= m < n && is_used_range(#[trigger] pos_len@[m]) && pos_len@[m].0 <= k
                    < pos_len@[m].0 + pos_len@[m].1 ==> #[trigger] bag@[k] == bag0[k],
            output@ == out0 + merged_ranges(bag0, pos_len@.take(i as int)),
        decreases n - i,
    {
        let e = pos_len[i];
        let ghost out_i = output@;
        proof {
            assert(pos_len@.take(i + 1).drop_last() =~= pos_len@.take(i as int));
            assert(pos_len@.take(i + 1).last() == e);
        }
        if e.0 < usize::MAX && e.1 > 0 {
            let (begin, len) = e;
            let mut j: usize = 0;
            while j < len
                invariant
                    n == pos_len@.len(),
                    i < n,
                    e == pos_len@[i as int],
                    begin == e.0,
                    len == e.1,
                    is_used_range(e),
                    j <= len,
                    valid_ranges(bag0, pos_len@),
                    bag@.len() == bag0.len(),
                    blen == bag0.len(),
                    forall|m: int, k: int|
                        i < m < n && is_used_range(#[trigger] pos_len@[m]) && pos_len@[m].0 <= k
                            < pos_len@[m].0 + pos_len@[m].1 ==> #[trigger] bag@[k] == bag0[k],
                    forall|k: int| begin + j <= k < begin + len ==> #[trigger] bag@[k] == bag0[k],
                    output@ == out_i + slot_values(bag0.subrange(begin as int, begin + j)),
                decreases len - j,
            {
                let ghost k = begin + j;
                proof {
                    assert(is_used_range(pos_len@[i as int]));
                    assert(e.0 + e.1 <= bag0.len());
                    assert(bag0[k] is Some);
                    assert forall|m: int|
                        i < m < n && is_used_range(#[trigger] pos_len@[m]) implies (k
                            < pos_len@[m].0 || pos_len@[m].0 + pos_len@[m].1 <= k) by {
                        assert(ranges_disjoint(pos_len@[i as int], pos_len@[m]));
                    }
                }
                let v = take_slot(&mut bag, begin + j);
                output.push(v.unwrap());
                j = j + 1;
                proof {
                    assert(slot_values(bag0.subrange(begin as int, begin + j)) =~= slot_values(
                        bag0.subrange(begin as int, begin + j - 1),
                    ).push(bag0[k]->0));
                }
            }
        }
        i = i + 1;
        proof {
            assert forall|m: int, k: int|
                i <= m < n && is_used_range(#[trigger] pos_len@[m]) && pos_len@[m].0 <= k
                    < pos_len@[m].0 + pos_len@[m].1 implies #[trigger] bag@[k] == bag0[k] by {
            }
        }
    }
    proof {
        assert(pos_len@.take(n as int) =~= pos_len@);
    }
}

/// Every used position lies inside the bag, refers to a filled slot, and no position
/// is used twice.
pub open spec fn valid_positions<T>(bag: Seq<Option<T>>, positions: Seq<usize>) -> bool {
    &&& forall|i: int|
        0 <= i < positions.len() && #[trigger] positions[i] < usize::MAX ==> positions[i]
            < bag.len() && bag[positions[i] as int] is Some
    &&& forall|i: int, j: int|
        0 <= i < j < positions.len() && #[trigger] positions[i] < usize::MAX && #[trigger] positions[j]
            < usize::MAX ==> positions[i] != positions[j]
}

/// The values at the used positions (those below `usize::MAX`), in the order of `positions`.
pub open spec fn merged_positions<T>(bag: Seq<Option<T>>, positions: Seq<usize>) -> Seq<T>
    decreases positions.len(),
{
    if positions.len() == 0 {
        Seq::empty()
    } else {
        let p = positions.last();
        let rest = merged_positions(bag, positions.drop_last());
        if p < usize::MAX {
            rest.push(bag[p as int]->0)
        } else {
            rest
        }
    }
}

/// Appends to `output` the values of the bag at the used positions, in the order of
/// `positions`; a position is used when it is below `usize::MAX`.
pub fn merge_bag_and_positions<T>(bag: Vec<Option<T>>, positions: &Vec<usize>, output: &mut Vec<T>)
    requires
        valid_positions(bag@, positions@),
    ensures
        final(output)@ == old(output)@ + merged_positions(bag@, positions@),
{
    let ghost bag0 = bag@;
    let ghost out0 = output@;
    let mut bag = bag;
    let n = positions.len();
    let mut i: usize = 0;
    while i < n
        invariant
            n == positions@.len(),
            i <= n,
            valid_positions(bag0, positions@),
            bag@.len() == bag0.len(),
            forall|m: int|
                i <= m < n && #[trigger] positions@[m] < usize::MAX ==> bag@[positions@[m] as int]
                    == bag0[positions@[m] as int],
            output@ == out0 + merged_positions(bag0, positions@.take(i as int)),
        decreases n - i,
    {
        let p = positions[i];
        proof {
            assert(positions@.take(i + 1).drop_last() =~= positions@.take(i as int));
            assert(positions@.take(i + 1).last() == p);
        }
        if p < usize::MAX {
            let v = take_slot(&mut bag, p);
            output.push(v.unwrap());
            proof {
                assert forall|m: int|
                    i < m < n && #[trigger] positions@[m] < usize::MAX implies bag@[positions@[m] as int]
                        == bag0[positions@[m] as int] by {
                    assert(positions@[i as int] != positions@[m]);
                }
            }
        }
        i = i + 1;
    }
    proof {
        assert(positions@.take(n as int) =~= positions@);
    }
}

} // verus!

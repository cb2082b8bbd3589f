//! Choosing the returns of a sample.
//!
//! A sample is named by its picks: the places, in the listing of all
//! returns, of the returns that belong to it, in ascending order.

use vstd::prelude::*;

verus! {

/// The places below `len` at which `wanted` holds, in ascending order.
pub open spec fn select(len: nat, wanted: spec_fn(int) -> bool) -> Seq<usize>
    decreases len,
{
    if len == 0 {
        Seq::empty()
    } else {
        let earlier = select((len - 1) as nat, wanted);
        if wanted(len - 1) {
            earlier.push((len - 1) as usize)
        } else {
            earlier
        }
    }
}

/// The picks at which `wanted` holds, in the order of `picks`.
pub open spec fn keep(picks: Seq<usize>, wanted: spec_fn(int) -> bool) -> Seq<usize>
    decreases picks.len(),
{
    if picks.len() == 0 {
        picks
    } else {
        let earlier = keep(picks.drop_last(), wanted);
        if wanted(picks.last() as int) {
            earlier.push(picks.last())
        } else {
            earlier
        }
    }
}

/// The values that stand at the picked places.
pub open spec fn gather(values: Seq<u64>, picks: Seq<usize>) -> Seq<u64> {
    Seq::new(picks.len(), |t: int| values[picks[t] as int])
}

/// `picks` is strictly ascending.
pub open spec fn strictly_ascending(picks: Seq<usize>) -> bool {
    forall|a: int, b: int| 0 <= a < b < picks.len() ==> picks[a] < picks[b]
}

/// One more place adds one pick, or none.
pub proof fn lemma_select_step(len: nat, wanted: spec_fn(int) -> bool)
    ensures
        select(len + 1, wanted) == if wanted(len as int) {
            select(len, wanted).push(len as usize)
        } else {
            select(len, wanted)
        },
{
}

/// `select` picks exactly the wanted places: every pick is a wanted place
/// below `len`, every wanted place below `len` is picked, and the picks are
/// strictly ascending, so none is picked twice.
pub proof fn lemma_select(len: nat, wanted: spec_fn(int) -> bool)
    requires
        len <= usize::MAX,
    ensures
        select(len, wanted).len() <= len,
        forall|t: int|
            0 <= t < select(len, wanted).len() ==> (#[trigger] select(len, wanted)[t]) < len
                && wanted(select(len, wanted)[t] as int),
        forall|k: int|
            0 <= k < len && wanted(k) ==> #[trigger] select(len, wanted).contains(k as usize),
        strictly_ascending(select(len, wanted)),
    decreases len,
{
    if len > 0 {
        let earlier = select((len - 1) as nat, wanted);
        lemma_select((len - 1) as nat, wanted);
        let picks = select(len, wanted);
        assert forall|k: int| 0 <= k < len && wanted(k) implies #[trigger] picks.contains(
            k as usize,
        ) by {
            if k == len - 1 {
                assert(picks[picks.len() - 1] == k as usize);
            } else {
                assert(earlier.contains(k as usize));
                let t = choose|t: int| 0 <= t < earlier.len() && earlier[t] == k as usize;
                assert(picks[t] == k as usize);
            }
        }
    }
}

/// Nothing is picked where nothing is wanted.
pub proof fn lemma_select_none(len: nat, wanted: spec_fn(int) -> bool)
    requires
        forall|k: int| 0 <= k < len ==> !#[trigger] wanted(k),
    ensures
        select(len, wanted) == Seq::<usize>::empty(),
    decreases len,
{
    if len > 0 {
        lemma_select_none((len - 1) as nat, wanted);
    }
}

/// Places at which nothing is wanted add no pick.
pub proof fn lemma_select_skip(lo: nat, hi: nat, wanted: spec_fn(int) -> bool)
    requires
        lo <= hi,
        forall|k: int| lo <= k < hi ==> !#[trigger] wanted(k),
    ensures
        select(hi, wanted) == select(lo, wanted),
    decreases hi,
{
    if lo < hi {
        lemma_select_skip(lo, (hi - 1) as nat, wanted);
    }
}

/// One more pick is kept, or dropped.
pub proof fn lemma_keep_step(picks: Seq<usize>, pick: usize, wanted: spec_fn(int) -> bool)
    ensures
        keep(picks.push(pick), wanted) == if wanted(pick as int) {
            keep(picks, wanted).push(pick)
        } else {
            keep(picks, wanted)
        },
{
    assert(picks.push(pick).drop_last() =~= picks);
}

/// Keeping, among the places wanted by `first`, those wanted by `second`
/// picks the places wanted by both.
pub proof fn lemma_keep_of_select(
    len: nat,
    first: spec_fn(int) -> bool,
    second: spec_fn(int) -> bool,
    both: spec_fn(int) -> bool,
)
    requires
        len <= usize::MAX,
        forall|k: int| 0 <= k < len ==> #[trigger] both(k) == (first(k) && second(k)),
    ensures
        keep(select(len, first), second) == select(len, both),
    decreases len,
{
    if len > 0 {
        let shorter: nat = (len - 1) as nat;
        lemma_keep_of_select(shorter, first, second, both);
        assert(both(len - 1) == (first(len - 1) && second(len - 1)));
        if first(len - 1) {
            lemma_keep_step(select(shorter, first), shorter as usize, second);
        }
    }
}

/// Copies out the values at the picked places.
pub fn gather_values(values: &[u64], picks: &Vec<usize>) -> (sample: Vec<u64>)
    requires
        forall|t: int| 0 <= t < picks.len() ==> picks[t] < values.len(),
    ensures
        sample@ == gather(values@, picks@),
{
    let mut sample: Vec<u64> = Vec::new();
    let mut t: usize = 0;
    while t < picks.len()
        invariant
            t <= picks.len(),
            forall|u: int| 0 <= u < picks.len() ==> picks[u] < values.len(),
            sample@ == gather(values@, picks@.take(t as int)),
        decreases picks.len() - t,
    {
        sample.push(values[picks[t]]);
        t = t + 1;
        assert(sample@ =~= gather(values@, picks@.take(t as int)));
    }
    assert(picks@.take(t as int) =~= picks@);
    sample
}

} // verus!

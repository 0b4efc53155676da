//! The order in which the entries of one directory are shown.

use crate::args::SortArgs;
use crate::entry::{dotted, Slot};
use crate::filter::{keeps, retains, shown, Filter};
use crate::order::{
    compare, lemma_compare_chains, lemma_compare_flips, lex, quantity, sortable, Rank, Sorter,
};
use vstd::prelude::*;

verus! {

/// Whether the slot at position `x` is shown before the one at position `y`.
///
/// Without a sorter the slots keep the order of enumeration. With one, the
/// sorter decides, and two slots that rank equal keep the order of
/// enumeration.
pub open spec fn before(slots: Seq<Slot>, sorter: Option<Sorter>, x: int, y: int) -> bool {
    match sorter {
        None => x < y,
        Some(s) => {
            let rank = compare(s, slots[x], slots[y]);
            rank == Rank::Less || (rank == Rank::Equal && x < y)
        },
    }
}

/// Of two different positions exactly one is before the other, and no
/// position is before itself.
pub proof fn lemma_before_decides(slots: Seq<Slot>, sorter: Option<Sorter>, x: int, y: int)
    ensures
        x != y ==> before(slots, sorter, x, y) || before(slots, sorter, y, x),
        !(before(slots, sorter, x, y) && before(slots, sorter, y, x)),
{
    if let Some(s) = sorter {
        lemma_compare_flips(s, slots[x], slots[y]);
    }
}

/// What is before something that is before a third is before the third.
pub proof fn lemma_before_chains(slots: Seq<Slot>, sorter: Option<Sorter>, x: int, y: int, z: int)
    requires
        before(slots, sorter, x, y),
        before(slots, sorter, y, z),
    ensures
        before(slots, sorter, x, z),
{
    if let Some(s) = sorter {
        lemma_compare_chains(s, slots[x], slots[y], slots[z]);
    }
}

/// Each position in `order` is before all that follow it.
pub open spec fn ordered(slots: Seq<Slot>, sorter: Option<Sorter>, order: Seq<usize>) -> bool {
    forall|i: int, j: int|
        #![trigger order[i], order[j]]
        0 <= i < j < order.len() ==> before(slots, sorter, order[i] as int, order[j] as int)
}

/// `order` is how the slots of one directory are shown: it holds the
/// positions of the slots that the filter keeps, all of them, each before
/// all that follow it.
pub open spec fn arranges(
    slots: Seq<Slot>,
    filter: Option<Filter>,
    sorter: Option<Sorter>,
    order: Seq<usize>,
) -> bool {
    &&& forall|k: int|
        0 <= k < order.len() ==> (#[trigger] order[k]) < slots.len() && keeps(
            filter,
            slots[order[k] as int],
        )
    &&& forall|x: usize|
        x < slots.len() && keeps(filter, slots[x as int]) ==> #[trigger] order.contains(x)
    &&& ordered(slots, sorter, order)
}

/// Two ordered sequences of positions that hold the same positions are the
/// same sequence.
pub proof fn lemma_ordered_unique(
    slots: Seq<Slot>,
    sorter: Option<Sorter>,
    a: Seq<usize>,
    b: Seq<usize>,
)
    requires
        ordered(slots, sorter, a),
        ordered(slots, sorter, b),
        forall|k: int| 0 <= k < a.len() ==> b.contains(#[trigger] a[k]),
        forall|k: int| 0 <= k < b.len() ==> a.contains(#[trigger] b[k]),
    ensures
        a == b,
    decreases a.len(),
{
    if a.len() == 0 {
        if b.len() > 0 {
            assert(a.contains(b[0]));
        }
        assert(a =~= b);
    } else {
        assert(b.contains(a[0]));
        let j = choose|j: int| 0 <= j < b.len() && b[j] == a[0];
        assert(a.contains(b[0]));
        let i = choose|i: int| 0 <= i < a.len() && a[i] == b[0];
        lemma_before_decides(slots, sorter, a[0] as int, b[0] as int);
        assert(a[0] == b[0]) by {
            if i > 0 && j > 0 {
                assert(before(slots, sorter, a[0] as int, a[i] as int));
                assert(before(slots, sorter, b[0] as int, b[j] as int));
            }
        }
        let ta = a.skip(1);
        let tb = b.skip(1);
        assert forall|k: int| 0 <= k < ta.len() implies tb.contains(#[trigger] ta[k]) by {
            assert(ta[k] == a[k + 1]);
            assert(b.contains(a[k + 1]));
            let m = choose|m: int| 0 <= m < b.len() && b[m] == a[k + 1];
            lemma_before_decides(slots, sorter, a[0] as int, a[0] as int);
            assert(before(slots, sorter, a[0] as int, a[k + 1] as int));
            assert(m != 0);
            assert(tb[m - 1] == b[m]);
        }
        assert forall|k: int| 0 <= k < tb.len() implies ta.contains(#[trigger] tb[k]) by {
            assert(tb[k] == b[k + 1]);
            assert(a.contains(b[k + 1]));
            let m = choose|m: int| 0 <= m < a.len() && a[m] == b[k + 1];
            lemma_before_decides(slots, sorter, b[0] as int, b[0] as int);
            assert(before(slots, sorter, b[0] as int, b[k + 1] as int));
            assert(m != 0);
            assert(ta[m - 1] == a[m]);
        }
        assert(ordered(slots, sorter, ta)) by {
            assert forall|p: int, q: int| 0 <= p < q < ta.len() implies before(
                slots,
                sorter,
                #[trigger] ta[p] as int,
                #[trigger] ta[q] as int,
            ) by {
                assert(ta[p] == a[p + 1] && ta[q] == a[q + 1]);
            }
        }
        assert(ordered(slots, sorter, tb)) by {
            assert forall|p: int, q: int| 0 <= p < q < tb.len() implies before(
                slots,
                sorter,
                #[trigger] tb[p] as int,
                #[trigger] tb[q] as int,
            ) by {
                assert(tb[p] == b[p + 1] && tb[q] == b[q + 1]);
            }
        }
        lemma_ordered_unique(slots, sorter, ta, tb);
        assert(a =~= seq![a[0]] + ta);
        assert(b =~= seq![b[0]] + tb);
    }
}

/// The slots of one directory are shown in one way only.
pub proof fn lemma_arrangement_unique(
    slots: Seq<Slot>,
    filter: Option<Filter>,
    sorter: Option<Sorter>,
    a: Seq<usize>,
    b: Seq<usize>,
)
    requires
        arranges(slots, filter, sorter, a),
        arranges(slots, filter, sorter, b),
    ensures
        a == b,
{
    assert forall|k: int| 0 <= k < a.len() implies b.contains(#[trigger] a[k]) by {
        assert(keeps(filter, slots[a[k] as int]));
    }
    assert forall|k: int| 0 <= k < b.len() implies a.contains(#[trigger] b[k]) by {
        assert(keeps(filter, slots[b[k] as int]));
    }
    lemma_ordered_unique(slots, sorter, a, b);
}

/// The order in which the slots of one directory are shown.
pub open spec fn arrangement(
    slots: Seq<Slot>,
    filter: Option<Filter>,
    sorter: Option<Sorter>,
) -> Seq<usize> {
    choose|order: Seq<usize>| arranges(slots, filter, sorter, order)
}

/// The positions of the slots that are shown, in the order of enumeration.
fn select(slots: &Vec<Slot>, filter: &Option<Filter>) -> (picks: Vec<usize>)
    ensures
        arranges(slots@, *filter, None, picks@),
        picks.len() == shown(slots@, *filter),
{
    let mut picks: Vec<usize> = Vec::new();
    let mut x: usize = 0;
    assert(slots@.take(0) =~= Seq::<Slot>::empty());
    while x < slots.len()
        invariant
            x <= slots.len(),
            picks.len() == shown(slots@.take(x as int), *filter),
            forall|k: int|
                0 <= k < picks.len() ==> (#[trigger] picks[k]) < x && keeps(
                    *filter,
                    slots[picks[k] as int],
                ),
            forall|y: int|
                0 <= y < x && keeps(*filter, #[trigger] slots[y]) ==> picks@.contains(y as usize),
            forall|i: int, j: int|
                #![trigger picks[i], picks[j]]
                0 <= i < j < picks.len() ==> picks[i] < picks[j],
        decreases slots.len() - x,
    {
        let ghost before_push = picks@;
        assert(slots@.take(x + 1).drop_last() =~= slots@.take(x as int));
        if retains(filter, &slots[x]) {
            picks.push(x);
            assert(picks@[before_push.len() as int] == x);
        }
        assert forall|y: int| 0 <= y < x + 1 && keeps(*filter, #[trigger] slots[y]) implies picks@.contains(
            y as usize,
        ) by {
            if y < x {
                let k = choose|k: int| 0 <= k < before_push.len() && before_push[k] == y as usize;
                assert(picks@[k] == y as usize);
            }
        }
        x += 1;
    }
    assert(slots@.take(slots.len() as int) =~= slots@);
    picks
}

/// Decides whether the slot at `x` is shown before the slot at `y`.
fn precedes(slots: &Vec<Slot>, sorter: &Sorter, x: usize, y: usize) -> (b: bool)
    requires
        x < slots.len(),
        y < slots.len(),
    ensures
        b == before(slots@, Some(*sorter), x as int, y as int),
{
    match sorter.compare(&slots[x], &slots[y]) {
        Rank::Less => true,
        Rank::Equal => x < y,
        Rank::Greater => false,
    }
}

/// Every element of `order` is a position below `n`.
spec fn within(order: Seq<usize>, n: int) -> bool {
    forall|k: int| 0 <= k < order.len() ==> (#[trigger] order[k]) < n
}

/// Merges two ordered runs of positions into one.
fn merge(slots: &Vec<Slot>, sorter: &Sorter, left: &Vec<usize>, right: &Vec<usize>) -> (out: Vec<
    usize,
>)
    requires
        ordered(slots@, Some(*sorter), left@),
        ordered(slots@, Some(*sorter), right@),
        within(left@, slots.len() as int),
        within(right@, slots.len() as int),
        forall|i: int, j: int|
            #![trigger left[i], right[j]]
            0 <= i < left.len() && 0 <= j < right.len() ==> left[i] != right[j],
    ensures
        ordered(slots@, Some(*sorter), out@),
        out.len() == left.len() + right.len(),
        forall|k: int|
            0 <= k < out.len() ==> left@.contains(#[trigger] out[k]) || right@.contains(out[k]),
        forall|k: int| 0 <= k < left.len() ==> out@.contains(#[trigger] left[k]),
        forall|k: int| 0 <= k < right.len() ==> out@.contains(#[trigger] right[k]),
{
    let ghost order = Some(*sorter);
    let mut out: Vec<usize> = Vec::new();
    let mut i: usize = 0;
    let mut j: usize = 0;
    while i < left.len() || j < right.len()
        invariant
            i <= left.len(),
            j <= right.len(),
            out.len() == i + j,
            order == Some(*sorter),
            ordered(slots@, order, left@),
            ordered(slots@, order, right@),
            within(left@, slots.len() as int),
            within(right@, slots.len() as int),
            forall|i: int, j: int|
                #![trigger left[i], right[j]]
                0 <= i < left.len() && 0 <= j < right.len() ==> left[i] != right[j],
            ordered(slots@, order, out@),
            forall|k: int, p: int|
                #![trigger out[k], left[p]]
                0 <= k < out.len() && i <= p < left.len() ==> before(
                    slots@,
                    order,
                    out[k] as int,
                    left[p] as int,
                ),
            forall|k: int, q: int|
                #![trigger out[k], right[q]]
                0 <= k < out.len() && j <= q < right.len() ==> before(
                    slots@,
                    order,
                    out[k] as int,
                    right[q] as int,
                ),
            forall|k: int|
                0 <= k < out.len() ==> left@.contains(#[trigger] out[k]) || right@.contains(out[k]),
            forall|k: int| 0 <= k < i ==> out@.contains(#[trigger] left[k]),
            forall|k: int| 0 <= k < j ==> out@.contains(#[trigger] right[k]),
        decreases left.len() - i + right.len() - j,
    {
        let ghost prior = out@;
        let from_left = if j == right.len() {
            true
        } else if i == left.len() {
            false
        } else {
            precedes(slots, sorter, left[i], right[j])
        };
        if from_left {
            let x: usize = left[i];
            out.push(x);
            assert forall|k: int, q: int|
                #![trigger out[k], right[q]]
                0 <= k < out.len() && j <= q < right.len() implies before(
                slots@,
                order,
                out[k] as int,
                right[q] as int,
            ) by {
                if k == prior.len() && q > j {
                    assert(before(slots@, order, right[j as int] as int, right[q] as int));
                    lemma_before_chains(slots@, order, x as int, right[j as int] as int, right[q] as int);
                }
            }
            i += 1;
        } else {
            let x: usize = right[j];
            out.push(x);
            proof {
                if i < left.len() {
                    lemma_before_decides(slots@, order, left[i as int] as int, x as int);
                }
            }
            assert forall|k: int, p: int|
                #![trigger out[k], left[p]]
                0 <= k < out.len() && i <= p < left.len() implies before(
                slots@,
                order,
                out[k] as int,
                left[p] as int,
            ) by {
                if k == prior.len() && p > i {
                    assert(before(slots@, order, left[i as int] as int, left[p] as int));
                    lemma_before_chains(slots@, order, x as int, left[i as int] as int, left[p] as int);
                }
            }
            j += 1;
        }
        assert forall|k: int| 0 <= k < prior.len() implies out@[k] == prior[k] by {}
        assert(out@[prior.len() as int] == out@.last());
        assert forall|k: int| 0 <= k < i implies out@.contains(#[trigger] left[k]) by {
            if prior.contains(left[k]) {
                let w = choose|w: int| 0 <= w < prior.len() && prior[w] == left[k];
                assert(out@[w] == left[k]);
            }
        }
        assert forall|k: int| 0 <= k < j implies out@.contains(#[trigger] right[k]) by {
            if prior.contains(right[k]) {
                let w = choose|w: int| 0 <= w < prior.len() && prior[w] == right[k];
                assert(out@[w] == right[k]);
            }
        }
    }
    out
}

/// Whether `x` stands in `picks` at a place from `lo` up to, not including, `hi`.
spec fn drawn(picks: Seq<usize>, lo: int, hi: int, x: usize) -> bool {
    exists|p: int| lo <= p < hi && #[trigger] picks[p] == x
}

/// Puts the positions `picks[lo..hi]` in the order of the sorter.
fn sort_run(slots: &Vec<Slot>, sorter: &Sorter, picks: &Vec<usize>, lo: usize, hi: usize) -> (out:
    Vec<usize>)
    requires
        lo <= hi <= picks.len(),
        within(picks@, slots.len() as int),
        forall|i: int, j: int|
            #![trigger picks[i], picks[j]]
            0 <= i < j < picks.len() ==> picks[i] != picks[j],
    ensures
        ordered(slots@, Some(*sorter), out@),
        out.len() == hi - lo,
        forall|k: int| 0 <= k < out.len() ==> drawn(picks@, lo as int, hi as int, #[trigger] out[k]),
        forall|p: int| lo <= p < hi ==> out@.contains(#[trigger] picks[p]),
    decreases hi - lo,
{
    if hi - lo == 0 {
        Vec::new()
    } else if hi - lo == 1 {
        let mut out: Vec<usize> = Vec::new();
        out.push(picks[lo]);
        assert(out@[0] == picks[lo as int]);
        out
    } else {
        let mid: usize = lo + (hi - lo) / 2;
        let left = sort_run(slots, sorter, picks, lo, mid);
        let right = sort_run(slots, sorter, picks, mid, hi);
        assert forall|i: int, j: int|
            #![trigger left[i], right[j]]
            0 <= i < left.len() && 0 <= j < right.len() implies left[i] != right[j] by {
            assert(drawn(picks@, lo as int, mid as int, left[i]));
            assert(drawn(picks@, mid as int, hi as int, right[j]));
        }
        assert(within(left@, slots.len() as int)) by {
            assert forall|k: int| 0 <= k < left.len() implies (#[trigger] left[k]) < slots.len() by {
                assert(drawn(picks@, lo as int, mid as int, left[k]));
            }
        }
        assert(within(right@, slots.len() as int)) by {
            assert forall|k: int| 0 <= k < right.len() implies (#[trigger] right[k]) < slots.len() by {
                assert(drawn(picks@, mid as int, hi as int, right[k]));
            }
        }
        let out = merge(slots, sorter, &left, &right);
        assert forall|k: int| 0 <= k < out.len() implies drawn(
            picks@,
            lo as int,
            hi as int,
            #[trigger] out[k],
        ) by {
            if left@.contains(out[k]) {
                let w = choose|w: int| 0 <= w < left.len() && left[w] == out[k];
                assert(drawn(picks@, lo as int, mid as int, left[w]));
            } else {
                let w = choose|w: int| 0 <= w < right.len() && right[w] == out[k];
                assert(drawn(picks@, mid as int, hi as int, right[w]));
            }
        }
        assert forall|p: int| lo <= p < hi implies out@.contains(#[trigger] picks[p]) by {
            if p < mid {
                assert(left@.contains(picks[p]));
                let w = choose|w: int| 0 <= w < left.len() && left[w] == picks[p];
                assert(out@.contains(left[w]));
            } else {
                assert(right@.contains(picks[p]));
                let w = choose|w: int| 0 <= w < right.len() && right[w] == picks[p];
                assert(out@.contains(right[w]));
            }
        }
        out
    }
}

/// Works out how the slots of one directory are shown: drops what the
/// filter does not keep, and sorts the rest where a sorter is given. The
/// sort is stable.
pub fn arrange(slots: &Vec<Slot>, filter: &Option<Filter>, sorter: &Option<Sorter>) -> (order: Vec<
    usize,
>)
    ensures
        arranges(slots@, *filter, *sorter, order@),
        order@ == arrangement(slots@, *filter, *sorter),
        order.len() == shown(slots@, *filter),
{
    let picks = select(slots, filter);
    let order = match sorter {
        None => picks,
        Some(s) => {
            let n: usize = picks.len();
            let sorted = sort_run(slots, s, &picks, 0, n);
            assert forall|k: int| 0 <= k < sorted.len() implies (#[trigger] sorted[k]) < slots.len()
                && keeps(*filter, slots[sorted[k] as int]) by {
                assert(drawn(picks@, 0, n as int, sorted[k]));
            }
            assert forall|x: usize|
                x < slots.len() && keeps(*filter, slots[x as int]) implies #[trigger] sorted@.contains(
                x,
            ) by {
                assert(picks@.contains(x));
                let w = choose|w: int| 0 <= w < picks.len() && picks[w] == x;
                assert(sorted@.contains(picks[w]));
            }
            sorted
        },
    };
    proof {
        lemma_arrangement_unique(
            slots@,
            *filter,
            *sorter,
            order@,
            arrangement(slots@, *filter, *sorter),
        );
    }
    order
}

/// Where the position `x` goes into an ordered sequence: in front of the
/// first position that is shown after it.
spec fn place(slots: Seq<Slot>, sorter: Option<Sorter>, order: Seq<usize>, x: int) -> int
    decreases order.len(),
{
    if order.len() == 0 || before(slots, sorter, x, order[0] as int) {
        0
    } else {
        1 + place(slots, sorter, order.skip(1), x)
    }
}

/// All that stands in front of the place of `x` is shown before `x`, and all
/// from there on is shown after it.
proof fn lemma_place_divides(slots: Seq<Slot>, sorter: Option<Sorter>, order: Seq<usize>, x: int)
    requires
        ordered(slots, sorter, order),
        forall|k: int| 0 <= k < order.len() ==> (#[trigger] order[k]) != x,
    ensures
        0 <= place(slots, sorter, order, x) <= order.len(),
        forall|k: int|
            0 <= k < place(slots, sorter, order, x) ==> before(
                slots,
                sorter,
                (#[trigger] order[k]) as int,
                x,
            ),
        forall|k: int|
            place(slots, sorter, order, x) <= k < order.len() ==> before(
                slots,
                sorter,
                x,
                (#[trigger] order[k]) as int,
            ),
    decreases order.len(),
{
    if order.len() == 0 {
    } else if before(slots, sorter, x, order[0] as int) {
        assert forall|k: int| 0 <= k < order.len() implies before(
            slots,
            sorter,
            x,
            (#[trigger] order[k]) as int,
        ) by {
            if k > 0 {
                assert(before(slots, sorter, order[0] as int, order[k] as int));
                lemma_before_chains(slots, sorter, x, order[0] as int, order[k] as int);
            }
        }
    } else {
        let rest = order.skip(1);
        assert(ordered(slots, sorter, rest)) by {
            assert forall|i: int, j: int| 0 <= i < j < rest.len() implies before(
                slots,
                sorter,
                #[trigger] rest[i] as int,
                #[trigger] rest[j] as int,
            ) by {
                assert(rest[i] == order[i + 1] && rest[j] == order[j + 1]);
            }
        }
        assert forall|k: int| 0 <= k < rest.len() implies (#[trigger] rest[k]) != x by {
            assert(rest[k] == order[k + 1]);
        }
        lemma_place_divides(slots, sorter, rest, x);
        let p = place(slots, sorter, order, x);
        assert forall|k: int| 0 <= k < p implies before(
            slots,
            sorter,
            (#[trigger] order[k]) as int,
            x,
        ) by {
            if k == 0 {
                lemma_before_decides(slots, sorter, x, order[0] as int);
            } else {
                assert(rest[k - 1] == order[k]);
            }
        }
        assert forall|k: int| p <= k < order.len() implies before(
            slots,
            sorter,
            x,
            (#[trigger] order[k]) as int,
        ) by {
            assert(rest[k - 1] == order[k]);
        }
    }
}

/// `order` is how the first `n` slots would be shown by themselves.
spec fn arranges_first(
    slots: Seq<Slot>,
    filter: Option<Filter>,
    sorter: Option<Sorter>,
    order: Seq<usize>,
    n: int,
) -> bool {
    &&& forall|k: int|
        0 <= k < order.len() ==> (#[trigger] order[k]) < n && keeps(filter, slots[order[k] as int])
    &&& forall|x: usize| x < n && keeps(filter, slots[x as int]) ==> #[trigger] order.contains(x)
    &&& ordered(slots, sorter, order)
}

/// What the positions in `order` weigh together.
pub open spec fn total(order: Seq<usize>, weight: spec_fn(int) -> nat) -> nat
    decreases order.len(),
{
    if order.len() == 0 {
        0
    } else {
        weight(order[0] as int) + total(order.skip(1), weight)
    }
}

/// What those of the first `n` slots that the filter keeps weigh together.
pub open spec fn tally(
    slots: Seq<Slot>,
    filter: Option<Filter>,
    weight: spec_fn(int) -> nat,
    n: int,
) -> nat
    decreases n,
{
    if n <= 0 {
        0
    } else {
        tally(slots, filter, weight, n - 1) + if keeps(filter, slots[n - 1]) {
            weight(n - 1)
        } else {
            0
        }
    }
}

/// A position that goes into a sequence adds its weight to the total.
proof fn lemma_total_insert(order: Seq<usize>, p: int, x: usize, weight: spec_fn(int) -> nat)
    requires
        0 <= p <= order.len(),
    ensures
        total(order.take(p).push(x) + order.skip(p), weight) == total(order, weight) + weight(
            x as int,
        ),
    decreases p,
{
    let grown = order.take(p).push(x) + order.skip(p);
    if p == 0 {
        assert(grown[0] == x);
        assert(grown.skip(1) =~= order);
    } else {
        let rest = order.skip(1);
        assert(grown[0] == order[0]);
        assert(grown.skip(1) =~= rest.take(p - 1).push(x) + rest.skip(p - 1));
        lemma_total_insert(rest, p - 1, x, weight);
    }
}

/// Builds the order in which the first `n` slots are shown, one slot at a
/// time.
proof fn lemma_arrange_first(
    slots: Seq<Slot>,
    filter: Option<Filter>,
    sorter: Option<Sorter>,
    n: int,
    weight: spec_fn(int) -> nat,
) -> (order: Seq<usize>)
    requires
        0 <= n <= slots.len() <= usize::MAX,
    ensures
        arranges_first(slots, filter, sorter, order, n),
        order.len() == shown(slots.take(n), filter),
        total(order, weight) == tally(slots, filter, weight, n),
    decreases n,
{
    if n == 0 {
        assert(slots.take(0) =~= Seq::<Slot>::empty());
        Seq::empty()
    } else {
        let prev = lemma_arrange_first(slots, filter, sorter, n - 1, weight);
        assert(slots.take(n).drop_last() =~= slots.take(n - 1));
        assert(slots.take(n).last() == slots[n - 1]);
        if !keeps(filter, slots[n - 1]) {
            prev
        } else {
            let x = n - 1;
            lemma_place_divides(slots, sorter, prev, x);
            let p = place(slots, sorter, prev, x);
            let order = prev.take(p).push(x as usize) + prev.skip(p);
            lemma_total_insert(prev, p, x as usize, weight);
            assert forall|i: int, j: int| 0 <= i < j < order.len() implies before(
                slots,
                sorter,
                #[trigger] order[i] as int,
                #[trigger] order[j] as int,
            ) by {
                if i < p {
                    assert(order[i] == prev[i]);
                } else if i > p {
                    assert(order[i] == prev[i - 1]);
                }
                if j < p {
                    assert(order[j] == prev[j]);
                } else if j > p {
                    assert(order[j] == prev[j - 1]);
                }
            }
            assert forall|k: int| 0 <= k < order.len() implies (#[trigger] order[k]) < n && keeps(
                filter,
                slots[order[k] as int],
            ) by {
                if k < p {
                    assert(order[k] == prev[k]);
                } else if k > p {
                    assert(order[k] == prev[k - 1]);
                }
            }
            assert forall|y: usize| y < n && keeps(filter, slots[y as int]) implies #[trigger] order.contains(
                y,
            ) by {
                if y == x {
                    assert(order[p] == y);
                } else {
                    assert(prev.contains(y));
                    let w = choose|w: int| 0 <= w < prev.len() && prev[w] == y;
                    if w < p {
                        assert(order[w] == prev[w]);
                    } else {
                        assert(order[w + 1] == prev[w]);
                    }
                }
            }
            order
        }
    }
}

/// Every enumeration has its arrangement, and that shows as many slots as the
/// filter keeps.
pub proof fn lemma_arrangement_exists(
    slots: Seq<Slot>,
    filter: Option<Filter>,
    sorter: Option<Sorter>,
)
    requires
        slots.len() <= usize::MAX,
    ensures
        arranges(slots, filter, sorter, arrangement(slots, filter, sorter)),
        arrangement(slots, filter, sorter).len() == shown(slots, filter),
{
    let order = lemma_arrange_first(slots, filter, sorter, slots.len() as int, |x: int| 1nat);
    assert(slots.take(slots.len() as int) =~= slots);
    assert(arranges(slots, filter, sorter, order));
    lemma_arrangement_unique(slots, filter, sorter, order, arrangement(slots, filter, sorter));
}

/// However the slots of a directory are shown, what is shown weighs what
/// the slots that the filter keeps weigh: each of them is shown once.
pub proof fn lemma_arrangement_total(
    slots: Seq<Slot>,
    filter: Option<Filter>,
    sorter: Option<Sorter>,
    order: Seq<usize>,
    weight: spec_fn(int) -> nat,
)
    requires
        slots.len() <= usize::MAX,
        arranges(slots, filter, sorter, order),
    ensures
        total(order, weight) == tally(slots, filter, weight, slots.len() as int),
{
    let built = lemma_arrange_first(slots, filter, sorter, slots.len() as int, weight);
    assert(slots.take(slots.len() as int) =~= slots);
    assert(arranges(slots, filter, sorter, built));
    lemma_arrangement_unique(slots, filter, sorter, order, built);
}

/// However the slots of a directory are shown, as many are shown as the
/// filter keeps.
pub proof fn lemma_arrangement_len(
    slots: Seq<Slot>,
    filter: Option<Filter>,
    sorter: Option<Sorter>,
    order: Seq<usize>,
)
    requires
        slots.len() <= usize::MAX,
        arranges(slots, filter, sorter, order),
    ensures
        order.len() == shown(slots, filter),
{
    lemma_arrangement_exists(slots, filter, sorter);
    lemma_arrangement_unique(slots, filter, sorter, order, arrangement(slots, filter, sorter));
}

/// Without options, what is shown of a directory is what has no dot in front: no
/// entry shown has a name that starts with a dot, every entry whose name
/// does not is shown, once, and so is every enumeration error.
pub proof fn lemma_default_shows_what_is_not_hidden(
    slots: Seq<Slot>,
    sorter: Option<Sorter>,
    order: Seq<usize>,
)
    requires
        arranges(slots, Some(Filter::Visible), sorter, order),
    ensures
        forall|k: int|
            0 <= k < order.len() ==> (slots[(#[trigger] order[k]) as int] matches Ok(entry)
                ==> !dotted(entry.name@)),
        forall|x: usize|
            x < slots.len() ==> (#[trigger] order.contains(x) <==> !(slots[x as int] matches Ok(entry)
                && dotted(entry.name@))),
        forall|i: int, j: int|
            #![trigger order[i], order[j]]
            0 <= i < j < order.len() ==> order[i] != order[j],
{
    assert forall|x: usize| x < slots.len() implies (#[trigger] order.contains(x) <==> !(slots[x as int] matches Ok(
        entry,
    ) && dotted(entry.name@))) by {
        if order.contains(x) {
            let k = choose|k: int| 0 <= k < order.len() && order[k] == x;
            assert(keeps(Some(Filter::Visible), slots[order[k] as int]));
        }
    }
    assert forall|i: int, j: int|
        #![trigger order[i], order[j]]
        0 <= i < j < order.len() implies order[i] != order[j] by {
        lemma_before_decides(slots, sorter, order[i] as int, order[i] as int);
    }
}

/// With directories only, every entry shown is a directory that is not
/// hidden.
pub proof fn lemma_directories_only_shows_directories(
    slots: Seq<Slot>,
    sorter: Option<Sorter>,
    order: Seq<usize>,
)
    requires
        arranges(slots, Some(Filter::Directories), sorter, order),
    ensures
        forall|k: int|
            0 <= k < order.len() ==> (slots[(#[trigger] order[k]) as int] matches Ok(entry)
                ==> entry.is_dir == Ok::<bool, String>(true) && !dotted(entry.name@)),
{
}

/// Without a filter every slot is shown, the hidden entries too.
pub proof fn lemma_all_shows_every_slot(slots: Seq<Slot>, sorter: Option<Sorter>, order: Seq<usize>)
    requires
        arranges(slots, None, sorter, order),
    ensures
        forall|x: usize| x < slots.len() ==> #[trigger] order.contains(x),
{
    assert forall|x: usize| x < slots.len() implies #[trigger] order.contains(x) by {
        assert(keeps(None, slots[x as int]));
    }
}

/// What a sorter does to what is shown of a directory. Of two slots, the
/// one shown first never ranks after the other. By name that is the order
/// of the bytes of the names, upwards, or downwards when reversed; by a
/// number it is the order of the numbers. A slot that the key cannot be
/// read from is shown after all that it can be read from, reversed or not.
pub proof fn lemma_sorter_orders(
    slots: Seq<Slot>,
    filter: Option<Filter>,
    sorter: Sorter,
    order: Seq<usize>,
    i: int,
    j: int,
)
    requires
        arranges(slots, filter, Some(sorter), order),
        0 <= i < j < order.len(),
    ensures
        compare(sorter, slots[order[i] as int], slots[order[j] as int]) != Rank::Greater,
        sortable(slots[order[j] as int], sorter.key) ==> sortable(
            slots[order[i] as int],
            sorter.key,
        ),
        sortable(slots[order[j] as int], sorter.key) ==> {
            let a = slots[order[i] as int].unwrap();
            let b = slots[order[j] as int].unwrap();
            if sorter.key == SortArgs::Filename {
                let rank = lex(a.name@, b.name@);
                if sorter.reverse {
                    rank != Rank::Less
                } else {
                    rank != Rank::Greater
                }
            } else {
                let p = quantity(a, sorter.key).unwrap();
                let q = quantity(b, sorter.key).unwrap();
                if sorter.reverse {
                    p >= q
                } else {
                    p <= q
                }
            }
        },
{
    assert(before(slots, Some(sorter), order[i] as int, order[j] as int));
}

/// Without a sorter the slots are shown in the order of enumeration.
pub proof fn lemma_no_sorter_keeps_enumeration_order(
    slots: Seq<Slot>,
    filter: Option<Filter>,
    order: Seq<usize>,
    i: int,
    j: int,
)
    requires
        arranges(slots, filter, None, order),
        0 <= i < j < order.len(),
    ensures
        order[i] < order[j],
{
    assert(before(slots, None, order[i] as int, order[j] as int));
}

/// A sort is stable: two slots that rank equal are shown in the order of
/// enumeration.
pub proof fn lemma_sort_is_stable(
    slots: Seq<Slot>,
    filter: Option<Filter>,
    sorter: Sorter,
    order: Seq<usize>,
    i: int,
    j: int,
)
    requires
        arranges(slots, filter, Some(sorter), order),
        0 <= i < j < order.len(),
        compare(sorter, slots[order[i] as int], slots[order[j] as int]) == Rank::Equal,
    ensures
        order[i] < order[j],
{
    assert(before(slots, Some(sorter), order[i] as int, order[j] as int));
}

} // verus!

//! Stable ordering of boxes `(min_x, min_y, max_x, max_y)` by their top edge,
//! then by their left edge.
use vstd::prelude::*;

verus! {

/// A box as mathematical integers.
pub open spec fn box_view(t: (usize, usize, usize, usize)) -> (int, int, int, int) {
    (t.0 as int, t.1 as int, t.2 as int, t.3 as int)
}

pub open spec fn boxes_view(v: Seq<(usize, usize, usize, usize)>) -> Seq<(int, int, int, int)> {
    v.map_values(|t: (usize, usize, usize, usize)| box_view(t))
}

/// `a` comes no later than `b`: higher top edge first, then further left.
pub open spec fn position_le(a: (int, int, int, int), b: (int, int, int, int)) -> bool {
    a.1 < b.1 || (a.1 == b.1 && a.0 <= b.0)
}

pub open spec fn sorted_by_position(s: Seq<(int, int, int, int)>) -> bool {
    forall|i: int, j: int| 0 <= i < j < s.len() ==> position_le(#[trigger] s[i], #[trigger] s[j])
}

/// The boxes of `s` whose top-left corner is `(px, py)`, in their order in `s`.
pub open spec fn with_position(s: Seq<(int, int, int, int)>, px: int, py: int) -> Seq<(int, int, int, int)> {
    s.filter(|b: (int, int, int, int)| b.0 == px && b.1 == py)
}

/// `out` orders the boxes of `input` by position and keeps the order of
/// boxes that share a position (a stable sort).
pub open spec fn stable_position_sort_of(
    out: Seq<(int, int, int, int)>,
    input: Seq<(int, int, int, int)>,
) -> bool {
    &&& out.len() == input.len()
    &&& sorted_by_position(out)
    &&& forall|px: int, py: int| #[trigger] with_position(out, px, py) == with_position(input, px, py)
}

proof fn lemma_filter_none(s: Seq<(int, int, int, int)>, pred: spec_fn((int, int, int, int)) -> bool)
    requires
        forall|i: int| 0 <= i < s.len() ==> !pred(#[trigger] s[i]),
    ensures
        s.filter(pred) == Seq::<(int, int, int, int)>::empty(),
    decreases s.len(),
{
    reveal(Seq::filter);
    if s.len() > 0 {
        assert forall|i: int| 0 <= i < s.drop_last().len() implies !pred(#[trigger] s.drop_last()[i]) by {
            assert(s.drop_last()[i] == s[i]);
        }
        lemma_filter_none(s.drop_last(), pred);
        assert(!pred(s[s.len() - 1]));
    } else {
        assert(s.filter(pred) =~= Seq::<(int, int, int, int)>::empty());
    }
}

proof fn lemma_filter_single(e: (int, int, int, int), pred: spec_fn((int, int, int, int)) -> bool)
    ensures
        seq![e].filter(pred) == if pred(e) {
            seq![e]
        } else {
            Seq::<(int, int, int, int)>::empty()
        },
{
    reveal_with_fuel(Seq::<_>::filter, 2);
    assert(seq![e].drop_last() =~= Seq::<(int, int, int, int)>::empty());
}

/// Inserting `e` between the boxes at or before its position and those after
/// it keeps the sort stable.
proof fn lemma_insert_stable(
    o: Seq<(int, int, int, int)>,
    input: Seq<(int, int, int, int)>,
    j: int,
    e: (int, int, int, int),
)
    requires
        stable_position_sort_of(o, input),
        0 <= j <= o.len(),
        forall|t: int| 0 <= t < j ==> position_le(#[trigger] o[t], e),
        forall|t: int| j <= t < o.len() ==> !position_le(#[trigger] o[t], e),
    ensures
        stable_position_sort_of(o.insert(j, e), input.push(e)),
{
    let o2 = o.insert(j, e);
    let a = o.take(j);
    let b = o.skip(j);
    assert(o =~= a + b);
    assert(o2 =~= a + seq![e] + b);
    assert(input.push(e) =~= input + seq![e]);
    assert forall|px: int, py: int| #[trigger] with_position(o2, px, py) == with_position(input.push(e), px, py) by {
        let pred = |bx: (int, int, int, int)| bx.0 == px && bx.1 == py;
        Seq::filter_distributes_over_add(a, b, pred);
        Seq::filter_distributes_over_add(a + seq![e], b, pred);
        Seq::filter_distributes_over_add(a, seq![e], pred);
        Seq::filter_distributes_over_add(input, seq![e], pred);
        lemma_filter_single(e, pred);
        assert(with_position(o, px, py) == with_position(input, px, py));
        if pred(e) {
            assert forall|i: int| 0 <= i < b.len() implies !pred(#[trigger] b[i]) by {
                assert(!position_le(o[j + i], e));
            }
            lemma_filter_none(b, pred);
            assert(b.filter(pred) + seq![e] =~= seq![e]);
        }
        assert(a.filter(pred) + Seq::<(int, int, int, int)>::empty() =~= a.filter(pred));
        assert(Seq::<(int, int, int, int)>::empty() + b.filter(pred) =~= b.filter(pred));
    }
    assert forall|i: int, k: int| 0 <= i < k < o2.len() implies position_le(
        #[trigger] o2[i],
        #[trigger] o2[k],
    ) by {
        if i < j && k < j {
            assert(position_le(o[i], o[k]));
        } else if i < j && k == j {
        } else if i < j {
            assert(position_le(o[i], o[k - 1]));
        } else if i == j {
            assert(!position_le(o[k - 1], e));
        } else {
            assert(position_le(o[i - 1], o[k - 1]));
        }
    }
}

/// A stable sort of `input` holds only boxes of `input`.
pub proof fn lemma_sorted_from_input(
    out: Seq<(int, int, int, int)>,
    input: Seq<(int, int, int, int)>,
    i: int,
)
    requires
        stable_position_sort_of(out, input),
        0 <= i < out.len(),
    ensures
        input.contains(out[i]),
{
    let b = out[i];
    let pred = |bx: (int, int, int, int)| bx.0 == b.0 && bx.1 == b.1;
    out.lemma_filter_contains(pred, i);
    assert(with_position(out, b.0, b.1) == with_position(input, b.0, b.1));
    input.lemma_filter_contains_rev(pred, b);
}

/// A stable sort of `input` holds every box of `input`.
pub proof fn lemma_sorted_keeps_input(
    out: Seq<(int, int, int, int)>,
    input: Seq<(int, int, int, int)>,
    j: int,
)
    requires
        stable_position_sort_of(out, input),
        0 <= j < input.len(),
    ensures
        out.contains(input[j]),
{
    let b = input[j];
    let pred = |bx: (int, int, int, int)| bx.0 == b.0 && bx.1 == b.1;
    input.lemma_filter_contains(pred, j);
    assert(with_position(out, b.0, b.1) == with_position(input, b.0, b.1));
    out.lemma_filter_contains_rev(pred, b);
}

/// Orders boxes by top edge, then left edge, keeping the order of boxes at
/// the same position.
pub fn sort_by_position(v: &Vec<(usize, usize, usize, usize)>) -> (r: Vec<(usize, usize, usize, usize)>)
    ensures
        stable_position_sort_of(boxes_view(r@), boxes_view(v@)),
{
    let mut out: Vec<(usize, usize, usize, usize)> = Vec::with_capacity(v.len());
    let mut i: usize = 0;
    proof {
        assert(boxes_view(out@) =~= boxes_view(v@.take(0)));
    }
    while i < v.len()
        invariant
            i <= v@.len(),
            stable_position_sort_of(boxes_view(out@), boxes_view(v@.take(i as int))),
        decreases v@.len() - i,
    {
        let e = v[i];
        let ghost o = boxes_view(out@);
        let ghost ev = box_view(e);
        let mut j: usize = 0;
        while j < out.len() && (out[j].1 < e.1 || (out[j].1 == e.1 && out[j].0 <= e.0))
            invariant
                j <= out@.len(),
                o == boxes_view(out@),
                ev == box_view(e),
                forall|t: int| 0 <= t < j ==> position_le(#[trigger] o[t], ev),
            decreases out@.len() - j,
        {
            j = j + 1;
        }
        proof {
            assert forall|t: int| j <= t < o.len() implies !position_le(#[trigger] o[t], ev) by {
                assert(!position_le(o[j as int], ev));
                if t > j {
                    assert(position_le(o[j as int], o[t]));
                }
            }
            lemma_insert_stable(o, boxes_view(v@.take(i as int)), j as int, ev);
        }
        out.insert(j, e);
        proof {
            assert(boxes_view(out@) =~= o.insert(j as int, ev));
            assert(boxes_view(v@.take(i + 1)) =~= boxes_view(v@.take(i as int)).push(ev));
        }
        i = i + 1;
    }
    proof {
        assert(v@.take(v@.len() as int) =~= v@);
    }
    out
}

} // verus!

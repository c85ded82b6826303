//! Ordering of the paths of a folder in the order of strings: character by
//! character by code point, a prefix before the longer strings.
use vstd::prelude::*;
use vstd::relations::{sorted_by, total_ordering};
use crate::text::chars_of;
use crate::viewer::strings_view;

verus! {

/// `a` comes no later than `b` in the order of strings (characters compare
/// by code point).
pub open spec fn text_le(a: Seq<char>, b: Seq<char>) -> bool
    decreases a.len(),
{
    if a.len() == 0 {
        true
    } else if b.len() == 0 {
        false
    } else if a[0] != b[0] {
        a[0] < b[0]
    } else {
        text_le(a.drop_first(), b.drop_first())
    }
}

/// The order of strings as a relation.
pub open spec fn text_order() -> spec_fn(Seq<char>, Seq<char>) -> bool {
    |a: Seq<char>, b: Seq<char>| text_le(a, b)
}

proof fn lemma_text_le_reflexive(a: Seq<char>)
    ensures
        text_le(a, a),
    decreases a.len(),
{
    if a.len() > 0 {
        lemma_text_le_reflexive(a.drop_first());
    }
}

proof fn lemma_text_le_antisymmetric(a: Seq<char>, b: Seq<char>)
    requires
        text_le(a, b),
        text_le(b, a),
    ensures
        a == b,
    decreases a.len(),
{
    if a.len() > 0 && b.len() > 0 {
        if a[0] == b[0] {
            lemma_text_le_antisymmetric(a.drop_first(), b.drop_first());
            assert(a =~= seq![a[0]] + a.drop_first());
            assert(b =~= seq![b[0]] + b.drop_first());
        }
    } else {
        assert(a.len() == 0 && b.len() == 0);
        assert(a =~= b);
    }
}

proof fn lemma_text_le_transitive(a: Seq<char>, b: Seq<char>, c: Seq<char>)
    requires
        text_le(a, b),
        text_le(b, c),
    ensures
        text_le(a, c),
    decreases a.len(),
{
    if a.len() > 0 && b.len() > 0 && c.len() > 0 {
        if a[0] == b[0] && b[0] == c[0] {
            lemma_text_le_transitive(a.drop_first(), b.drop_first(), c.drop_first());
        }
    }
}

proof fn lemma_text_le_total(a: Seq<char>, b: Seq<char>)
    ensures
        text_le(a, b) || text_le(b, a),
    decreases a.len(),
{
    if a.len() > 0 && b.len() > 0 && a[0] == b[0] {
        lemma_text_le_total(a.drop_first(), b.drop_first());
    }
}

/// The order of strings is a total order.
pub proof fn lemma_text_order_total()
    ensures
        total_ordering(text_order()),
{
    let r = text_order();
    assert forall|a: Seq<char>| #[trigger] r(a, a) by {
        lemma_text_le_reflexive(a);
    }
    assert forall|a: Seq<char>, b: Seq<char>| #[trigger] r(a, b) && #[trigger] r(b, a) implies a
        == b by {
        lemma_text_le_antisymmetric(a, b);
    }
    assert forall|a: Seq<char>, b: Seq<char>, c: Seq<char>| #[trigger] r(a, b) && #[trigger] r(
        b,
        c,
    ) implies r(a, c) by {
        lemma_text_le_transitive(a, b, c);
    }
    assert forall|a: Seq<char>, b: Seq<char>| #[trigger] r(a, b) || #[trigger] r(b, a) by {
        lemma_text_le_total(a, b);
    }
}

/// Whether `a` comes no later than `b` in the order of strings.
fn text_le_exec(a: &String, b: &String) -> (r: bool)
    ensures
        r == text_le(a@, b@),
{
    let x = chars_of(a.as_str());
    let y = chars_of(b.as_str());
    let mut i: usize = 0;
    proof {
        assert(x@.skip(0) =~= x@);
        assert(y@.skip(0) =~= y@);
    }
    while i < x.len() && i < y.len()
        invariant
            i <= x@.len(),
            i <= y@.len(),
            text_le(x@.skip(i as int), y@.skip(i as int)) == text_le(a@, b@),
        decreases x@.len() - i,
    {
        let ghost xs = x@.skip(i as int);
        let ghost ys = y@.skip(i as int);
        assert(xs[0] == x@[i as int]);
        assert(ys[0] == y@[i as int]);
        if x[i] != y[i] {
            return x[i] < y[i];
        }
        assert(xs.drop_first() =~= x@.skip(i + 1));
        assert(ys.drop_first() =~= y@.skip(i + 1));
        i = i + 1;
    }
    if i == x.len() {
        assert(x@.skip(i as int).len() == 0);
        true
    } else {
        assert(y@.skip(i as int).len() == 0);
        false
    }
}

/// The paths in the order of strings.
pub fn sorted_paths(paths: Vec<String>) -> (r: Vec<String>)
    ensures
        strings_view(r@) == strings_view(paths@).sort_by(text_order()),
{
    broadcast use vstd::seq_lib::group_to_multiset_ensures;

    let ghost order = text_order();
    proof {
        lemma_text_order_total();
    }
    let mut sorted: Vec<String> = Vec::new();
    let mut k: usize = 0;
    proof {
        assert(strings_view(paths@).take(0) =~= Seq::<Seq<char>>::empty());
        assert(strings_view(sorted@) =~= Seq::<Seq<char>>::empty());
    }
    while k < paths.len()
        invariant
            k <= paths@.len(),
            order == text_order(),
            total_ordering(order),
            sorted_by(strings_view(sorted@), order),
            strings_view(sorted@).to_multiset() == strings_view(paths@).take(k as int).to_multiset(),
        decreases paths@.len() - k,
    {
        let x = paths[k].clone();
        let ghost before = strings_view(sorted@);
        let mut p: usize = 0;
        while p < sorted.len() && !text_le_exec(&x, &sorted[p])
            invariant
                p <= sorted@.len(),
                before == strings_view(sorted@),
                forall|j: int| 0 <= j < p ==> !text_le(x@, #[trigger] before[j]),
            decreases sorted@.len() - p,
        {
            p = p + 1;
        }
        sorted.insert(p, x);
        proof {
            let after = strings_view(sorted@);
            assert(after =~= before.insert(p as int, x@));
            assert forall|i: int, j: int| 0 <= i < j < after.len() implies #[trigger] order(
                after[i],
                after[j],
            ) by {
                if j < p {
                    assert(after[i] == before[i] && after[j] == before[j]);
                } else if j == p {
                    assert(after[i] == before[i]);
                    lemma_text_le_total(x@, before[i]);
                } else if i < p {
                    assert(after[i] == before[i] && after[j] == before[j - 1]);
                    if p < before.len() {
                        assert(text_le(x@, before[p as int]));
                        assert(order(before[i], before[j - 1]));
                    }
                } else if i == p {
                    assert(after[j] == before[j - 1]);
                    assert(text_le(x@, before[p as int]));
                    if p < j - 1 {
                        assert(order(before[p as int], before[j - 1]));
                        lemma_text_le_transitive(x@, before[p as int], before[j - 1]);
                    }
                } else {
                    assert(after[i] == before[i - 1] && after[j] == before[j - 1]);
                }
            }
            assert(strings_view(paths@).take(k + 1) =~= strings_view(paths@).take(k as int).push(
                x@,
            ));
            vstd::seq_lib::to_multiset_insert(before, p as int, x@);
            vstd::seq_lib::to_multiset_build(strings_view(paths@).take(k as int), x@);
        }
        k = k + 1;
    }
    proof {
        let all = strings_view(paths@);
        assert(all.take(paths@.len() as int) =~= all);
        all.lemma_sort_by_ensures(order);
        vstd::seq_lib::lemma_sorted_unique(strings_view(sorted@), all.sort_by(order), order);
    }
    sorted
}

} // verus!

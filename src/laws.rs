use vstd::prelude::*;

use crate::counting::lemma_count_elements;
use crate::element::Element;
use crate::flatten::{
    flatten, groups_wf, lemma_flatten_ascending, lemma_flatten_index, lemma_flatten_member, pair_lt, pairs_ascending,
    tag, GroupView,
};
use crate::sorted_groups::{key_is_function, pairs_of, SortedGroups};

verus! {

/// Two strictly ascending sequences of pairs with the same members are the same sequence.
proof fn lemma_ascending_unique(x: Seq<(i32, Element)>, y: Seq<(i32, Element)>)
    requires
        pairs_ascending(x),
        pairs_ascending(y),
        forall|p: (i32, Element)| x.contains(p) <==> y.contains(p),
    ensures
        x == y,
    decreases x.len(),
{
    if x.len() == 0 {
        if y.len() > 0 {
            assert(y.contains(y[0]));
        }
        assert(x =~= y);
    } else {
        assert(x.contains(x[0]));
        let j = choose|j: int| 0 <= j < y.len() && y[j] == x[0];
        assert(y.contains(y[0]));
        let i = choose|i: int| 0 <= i < x.len() && x[i] == y[0];
        if j > 0 {
            assert(pair_lt(y[0], y[j]));
            assert(i > 0);
            assert(pair_lt(x[0], x[i]));
        }
        assert(x[0] == y[0]);
        let x1 = x.drop_first();
        let y1 = y.drop_first();
        assert forall|p: (i32, Element)| x1.contains(p) <==> y1.contains(p) by {
            if x1.contains(p) {
                let a = choose|a: int| 0 <= a < x1.len() && x1[a] == p;
                assert(pair_lt(x[0], x[a + 1]));
                assert(y.contains(p));
                let b = choose|b: int| 0 <= b < y.len() && y[b] == p;
                assert(b != 0);
                assert(y1[b - 1] == p);
            }
            if y1.contains(p) {
                let a = choose|a: int| 0 <= a < y1.len() && y1[a] == p;
                assert(pair_lt(y[0], y[a + 1]));
                assert(x.contains(p));
                let b = choose|b: int| 0 <= b < x.len() && x[b] == p;
                assert(b != 0);
                assert(x1[b - 1] == p);
            }
        }
        lemma_ascending_unique(x1, y1);
        assert(x =~= seq![x[0]] + x1);
        assert(y =~= seq![y[0]] + y1);
    }
}

/// Well-formed groups are determined by their flattened pairs.
proof fn lemma_groups_unique(g1: Seq<GroupView>, g2: Seq<GroupView>)
    requires
        groups_wf(g1),
        groups_wf(g2),
        flatten(g1) == flatten(g2),
    ensures
        g1 == g2,
    decreases g1.len(),
{
    let s = flatten(g1);
    if g1.len() == 0 || g2.len() == 0 {
        if g1.len() > 0 {
            assert(g1[0].1.len() > 0);
            lemma_flatten_index(g1, 0, 0);
        }
        if g2.len() > 0 {
            assert(g2[0].1.len() > 0);
            lemma_flatten_index(g2, 0, 0);
        }
        assert(g1 =~= g2);
    } else {
        let f1 = g1.drop_last();
        let f2 = g2.drop_last();
        let l1 = g1.last();
        let l2 = g2.last();
        let n = s.len() as int;
        let m1 = flatten(f1).len() as int;
        let m2 = flatten(f2).len() as int;
        assert(l1.1.len() > 0 && l2.1.len() > 0) by {
            assert(g1[g1.len() - 1].1.len() > 0);
            assert(g2[g2.len() - 1].1.len() > 0);
        }
        assert(s[n - 1] == tag(l1)[l1.1.len() - 1]);
        assert(s[n - 1] == tag(l2)[l2.1.len() - 1]);
        let k = l1.0;
        assert(l2.0 == k);
        // Pairs of the front groups have keys below the last key.
        assert forall|idx: int| 0 <= idx < m1 implies s[idx].0 < k by {
            lemma_flatten_member(f1, idx);
            let (o, i) = choose|o: int, i: int|
                0 <= o < f1.len() && 0 <= i < f1[o].1.len() && flatten(f1)[idx] == (
                f1[o].0,
                f1[o].1[i],
                );
            assert(g1[o].0 < g1[g1.len() - 1].0);
        }
        assert forall|idx: int| 0 <= idx < m2 implies s[idx].0 < k by {
            lemma_flatten_member(f2, idx);
            let (o, i) = choose|o: int, i: int|
                0 <= o < f2.len() && 0 <= i < f2[o].1.len() && flatten(f2)[idx] == (
                f2[o].0,
                f2[o].1[i],
                );
            assert(g2[o].0 < g2[g2.len() - 1].0);
            assert(flatten(g2)[idx] == flatten(f2)[idx]);
        }
        if m1 < m2 {
            assert(s[m1] == tag(l1)[0]);
        } else if m2 < m1 {
            assert(flatten(g2)[m2] == tag(l2)[0]);
        }
        assert(m1 == m2);
        assert(tag(l1) =~= tag(l2)) by {
            assert forall|j: int| 0 <= j < tag(l1).len() implies tag(l1)[j] == tag(l2)[j] by {
                assert(s[m1 + j] == tag(l1)[j]);
                assert(flatten(g2)[m2 + j] == tag(l2)[j]);
            }
        }
        assert(l1.1 =~= l2.1) by {
            assert forall|j: int| 0 <= j < l1.1.len() implies l1.1[j] == l2.1[j] by {
                assert(tag(l1)[j] == tag(l2)[j]);
            }
        }
        assert(flatten(f1) =~= s.take(m1));
        assert(flatten(f2) =~= flatten(g2).take(m2));
        assert(groups_wf(f1)) by {
            assert forall|i: int| 0 <= i < f1.len() implies #[trigger] f1[i] == g1[i] by {}
        }
        assert(groups_wf(f2)) by {
            assert forall|i: int| 0 <= i < f2.len() implies #[trigger] f2[i] == g2[i] by {}
        }
        lemma_groups_unique(f1, f2);
        assert(g1 =~= f1.push(l1));
        assert(g2 =~= f2.push(l2));
    }
}

/// Adding an element twice to the input of a construction counts it once: the
/// container built from `input` followed by `e` and `e` again holds one more element
/// than the one built from `input` when `e` is new to it, and as many otherwise.
pub proof fn lemma_duplicate_counted_once<F: Fn(&Element) -> i32>(
    a: &SortedGroups,
    b: &SortedGroups,
    input: Seq<Element>,
    e: Element,
    key_of: F,
)
    requires
        key_is_function(key_of),
        groups_wf(a.groups()),
        groups_wf(b.groups()),
        pairs_of(a.entries(), input, key_of),
        pairs_of(b.entries(), input.push(e).push(e), key_of),
    ensures
        b.entries().len() == a.entries().len() + if input.contains(e) {
            0int
        } else {
            1int
        },
{
    lemma_count_elements(a.groups(), input, key_of);
    lemma_count_elements(b.groups(), input.push(e).push(e), key_of);
    input.lemma_push_to_set_commute(e);
    input.push(e).lemma_push_to_set_commute(e);
    assert(input.push(e).push(e).to_set() =~= input.to_set().insert(e));
    vstd::seq_lib::seq_to_set_is_finite(input);
    if input.contains(e) {
        assert(input.to_set().insert(e) =~= input.to_set());
    }
}

/// The order of the input does not matter: containers built with one key function from
/// two inputs that are permutations of each other are equal, hold as many elements and
/// have as many groups.
pub proof fn lemma_order_independent<F: Fn(&Element) -> i32>(
    a: &SortedGroups,
    b: &SortedGroups,
    s: Seq<Element>,
    t: Seq<Element>,
    key_of: F,
)
    requires
        key_is_function(key_of),
        groups_wf(a.groups()),
        groups_wf(b.groups()),
        pairs_of(a.entries(), s, key_of),
        pairs_of(b.entries(), t, key_of),
        s.to_multiset() == t.to_multiset(),
    ensures
        a.groups() == b.groups(),
        a.entries().len() == b.entries().len(),
        a.groups().len() == b.groups().len(),
{
    let x = a.entries();
    let y = b.entries();
    lemma_flatten_ascending(a.groups());
    lemma_flatten_ascending(b.groups());
    assert forall|e: Element| s.contains(e) <==> t.contains(e) by {
        vstd::seq_lib::to_multiset_contains(s, e);
        vstd::seq_lib::to_multiset_contains(t, e);
    }
    assert forall|p: (i32, Element)| x.contains(p) <==> y.contains(p) by {
        let (k, e) = p;
        if x.contains((k, e)) {
            assert(t.contains(e));
            let k2 = choose|k2: i32| #[trigger] y.contains((k2, e));
            assert(key_of.ensures((&e,), k2));
        }
        if y.contains((k, e)) {
            assert(s.contains(e));
            let k2 = choose|k2: i32| #[trigger] x.contains((k2, e));
            assert(key_of.ensures((&e,), k2));
        }
    }
    lemma_ascending_unique(x, y);
    lemma_groups_unique(a.groups(), b.groups());
}

/// A container built from no element holds no element and no group.
pub proof fn lemma_built_from_nothing<F: Fn(&Element) -> i32>(a: &SortedGroups, key_of: F)
    requires
        groups_wf(a.groups()),
        pairs_of(a.entries(), Seq::empty(), key_of),
    ensures
        a.entries().len() == 0,
        a.groups().len() == 0,
{
    if a.entries().len() > 0 {
        assert(a.entries().contains((a.entries()[0].0, a.entries()[0].1)));
    }
    if a.groups().len() > 0 {
        assert(a.groups()[0].1.len() > 0);
        lemma_flatten_index(a.groups(), 0, 0);
    }
}

} // verus!

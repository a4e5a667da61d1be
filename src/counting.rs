use vstd::prelude::*;

use crate::element::Element;
use crate::flatten::{
    flatten, groups_wf, lemma_flatten_ascending, lemma_flatten_index, lemma_flatten_member,
    pair_lt, GroupView,
};
use crate::sorted_groups::{key_is_function, pairs_of};

verus! {

/// The keys that `key_of` gives to the elements of `input`.
pub open spec fn distinct_keys<F: Fn(&Element) -> i32>(input: Seq<Element>, key_of: F) -> Set<i32> {
    Set::new(|k: i32| exists|e: Element| input.contains(e) && #[trigger] key_of.ensures((&e,), k))
}

/// Well-formed groups holding `input` under `key_of` hold one pair for each distinct element.
pub proof fn lemma_count_elements<F: Fn(&Element) -> i32>(
    gs: Seq<GroupView>,
    input: Seq<Element>,
    key_of: F,
)
    requires
        groups_wf(gs),
        key_is_function(key_of),
        pairs_of(flatten(gs), input, key_of),
    ensures
        flatten(gs).len() == input.to_set().len(),
{
    let s = flatten(gs);
    lemma_flatten_ascending(gs);
    let es = s.map_values(|p: (i32, Element)| p.1);
    assert forall|i: int, j: int| 0 <= i < es.len() && 0 <= j < es.len() && i != j implies es[i]
        != es[j] by {
        if es[i] == es[j] {
            assert(s.contains(s[i]) && s.contains(s[j]));
            assert(s.contains((s[i].0, s[i].1)) && s.contains((s[j].0, s[j].1)));
            assert(key_of.ensures((&s[i].1,), s[i].0));
            assert(key_of.ensures((&s[j].1,), s[j].0));
            if i < j {
                assert(pair_lt(s[i], s[j]));
            } else {
                assert(pair_lt(s[j], s[i]));
            }
        }
    }
    assert(es.no_duplicates());
    es.unique_seq_to_set();
    assert forall|e: Element| es.to_set().contains(e) <==> input.to_set().contains(e) by {
        if es.contains(e) {
            let i = choose|i: int| 0 <= i < es.len() && es[i] == e;
            assert(s.contains(s[i]));
            assert(s.contains((s[i].0, s[i].1)));
        }
        if input.contains(e) {
            let k = choose|k: i32| #[trigger] s.contains((k, e));
            let i = choose|i: int| 0 <= i < s.len() && s[i] == (k, e);
            assert(es[i] == e);
        }
    }
    assert(es.to_set() =~= input.to_set());
}

/// Well-formed groups holding `input` under `key_of` have one group for each distinct key.
pub proof fn lemma_count_groups<F: Fn(&Element) -> i32>(
    gs: Seq<GroupView>,
    input: Seq<Element>,
    key_of: F,
)
    requires
        groups_wf(gs),
        key_is_function(key_of),
        pairs_of(flatten(gs), input, key_of),
    ensures
        distinct_keys(input, key_of).finite(),
        gs.len() == distinct_keys(input, key_of).len(),
{
    let s = flatten(gs);
    let ks = gs.map_values(|g: GroupView| g.0);
    assert(ks.no_duplicates()) by {
        assert forall|i: int, j: int| 0 <= i < ks.len() && 0 <= j < ks.len() && i != j implies ks[i]
            != ks[j] by {
            if i < j {
                assert(gs[i].0 < gs[j].0);
            } else {
                assert(gs[j].0 < gs[i].0);
            }
        }
    }
    ks.unique_seq_to_set();
    assert forall|k: i32| ks.to_set().contains(k) <==> distinct_keys(input, key_of).contains(k) by {
        if ks.contains(k) {
            let o = choose|o: int| 0 <= o < ks.len() && ks[o] == k;
            lemma_flatten_index(gs, o, 0);
            let e = gs[o].1[0];
            assert(s.contains(s[crate::flatten::offset(gs, o)]));
            assert(s.contains((k, e)));
            assert(input.contains(e) && key_of.ensures((&e,), k));
        }
        if distinct_keys(input, key_of).contains(k) {
            let e = choose|e: Element| input.contains(e) && #[trigger] key_of.ensures((&e,), k);
            let k2 = choose|k2: i32| #[trigger] s.contains((k2, e));
            assert(key_of.ensures((&e,), k2));
            let idx = choose|idx: int| 0 <= idx < s.len() && s[idx] == (k2, e);
            lemma_flatten_member(gs, idx);
            let (o, i) = choose|o: int, i: int|
                0 <= o < gs.len() && 0 <= i < gs[o].1.len() && s[idx] == (gs[o].0, gs[o].1[i]);
            assert(ks[o] == k);
        }
    }
    assert(ks.to_set() =~= distinct_keys(input, key_of));
}

} // verus!

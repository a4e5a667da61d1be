use vstd::prelude::*;

use crate::element::{elem_lt, Element};

verus! {

/// A group as seen in specifications: its key and its elements in order.
pub type GroupView = (i32, Seq<Element>);

/// The `(key, element)` pairs of one group, in the group's order.
pub open spec fn tag(g: GroupView) -> Seq<(i32, Element)> {
    g.1.map_values(|e: Element| (g.0, e))
}

/// The pairs of all groups, group after group.
pub open spec fn flatten(gs: Seq<GroupView>) -> Seq<(i32, Element)>
    decreases gs.len(),
{
    if gs.len() == 0 {
        Seq::empty()
    } else {
        flatten(gs.drop_last()) + tag(gs.last())
    }
}

/// Strict order on pairs: by key, then by element.
pub open spec fn pair_lt(p: (i32, Element), q: (i32, Element)) -> bool {
    p.0 < q.0 || (p.0 == q.0 && elem_lt(p.1, q.1))
}

/// The pairs are in strictly ascending order.
pub open spec fn pairs_ascending(s: Seq<(i32, Element)>) -> bool {
    forall|i: int, j: int| 0 <= i < j < s.len() ==> pair_lt(#[trigger] s[i], #[trigger] s[j])
}

/// The elements are in strictly ascending order.
pub open spec fn elems_ascending(s: Seq<Element>) -> bool {
    forall|i: int, j: int| 0 <= i < j < s.len() ==> elem_lt(#[trigger] s[i], #[trigger] s[j])
}

/// Keys strictly ascending, no empty group, elements of each group strictly ascending.
pub open spec fn groups_wf(gs: Seq<GroupView>) -> bool {
    &&& forall|i: int, j: int| 0 <= i < j < gs.len() ==> #[trigger] gs[i].0 < #[trigger] gs[j].0
    &&& forall|i: int| 0 <= i < gs.len() ==> #[trigger] gs[i].1.len() > 0
    &&& forall|i: int| 0 <= i < gs.len() ==> elems_ascending(#[trigger] gs[i].1)
}

/// Position in the flattened sequence where group `o` begins.
pub open spec fn offset(gs: Seq<GroupView>, o: int) -> int {
    flatten(gs.take(o)).len() as int
}

pub proof fn lemma_flatten_append(a: Seq<GroupView>, b: Seq<GroupView>)
    ensures
        flatten(a + b) == flatten(a) + flatten(b),
    decreases b.len(),
{
    if b.len() == 0 {
        assert(a + b =~= a);
        assert(flatten(a) + flatten(b) =~= flatten(a));
    } else {
        lemma_flatten_append(a, b.drop_last());
        assert((a + b).drop_last() =~= a + b.drop_last());
        assert((a + b).last() == b.last());
        assert(flatten(a + b) =~= flatten(a) + flatten(b));
    }
}

pub proof fn lemma_flatten_single(g: GroupView)
    ensures
        flatten(seq![g]) == tag(g),
{
    assert(seq![g].drop_last() =~= Seq::<GroupView>::empty());
    assert(seq![g].last() == g);
    assert(flatten(Seq::<GroupView>::empty()) =~= Seq::empty());
    assert(flatten(seq![g]) =~= tag(g));
}

/// Splits the flattened sequence around group `o`.
pub proof fn lemma_flatten_split(gs: Seq<GroupView>, o: int)
    requires
        0 <= o < gs.len(),
    ensures
        flatten(gs) == flatten(gs.take(o)) + tag(gs[o]) + flatten(gs.skip(o + 1)),
{
    assert(gs =~= gs.take(o) + seq![gs[o]] + gs.skip(o + 1));
    lemma_flatten_append(gs.take(o) + seq![gs[o]], gs.skip(o + 1));
    lemma_flatten_append(gs.take(o), seq![gs[o]]);
    lemma_flatten_single(gs[o]);
}

/// The pair at position `offset(gs, o) + i` is element `i` of group `o`.
pub proof fn lemma_flatten_index(gs: Seq<GroupView>, o: int, i: int)
    requires
        0 <= o < gs.len(),
        0 <= i < gs[o].1.len(),
    ensures
        offset(gs, o) + i < flatten(gs).len(),
        flatten(gs)[offset(gs, o) + i] == (gs[o].0, gs[o].1[i]),
{
    lemma_flatten_split(gs, o);
}

/// Where group `o + 1` begins.
pub proof fn lemma_offset_next(gs: Seq<GroupView>, o: int)
    requires
        0 <= o < gs.len(),
    ensures
        offset(gs, o + 1) == offset(gs, o) + gs[o].1.len(),
{
    assert(gs.take(o + 1) =~= gs.take(o) + seq![gs[o]]);
    lemma_flatten_append(gs.take(o), seq![gs[o]]);
    lemma_flatten_single(gs[o]);
}

/// Every pair of the flattened sequence is an element of some group, under that group's key.
pub proof fn lemma_flatten_member(gs: Seq<GroupView>, idx: int)
    requires
        0 <= idx < flatten(gs).len(),
    ensures
        exists|o: int, i: int|
            0 <= o < gs.len() && 0 <= i < gs[o].1.len() && flatten(gs)[idx] == (
            gs[o].0,
            gs[o].1[i],
            ),
    decreases gs.len(),
{
    let front = gs.drop_last();
    let n = flatten(front).len() as int;
    if idx < n {
        lemma_flatten_member(front, idx);
        let (o, i) = choose|o: int, i: int|
            0 <= o < front.len() && 0 <= i < front[o].1.len() && flatten(front)[idx] == (
            front[o].0,
            front[o].1[i],
            );
        assert(flatten(gs)[idx] == (gs[o].0, gs[o].1[i]));
    } else {
        let o = gs.len() - 1;
        let i = idx - n;
        assert(flatten(gs)[idx] == (gs[o].0, gs[o].1[i]));
    }
}

/// Flattening well-formed groups gives pairs in strictly ascending order.
pub proof fn lemma_flatten_ascending(gs: Seq<GroupView>)
    requires
        groups_wf(gs),
    ensures
        pairs_ascending(flatten(gs)),
    decreases gs.len(),
{
    if gs.len() > 0 {
        let front = gs.drop_last();
        let last = gs.last();
        lemma_flatten_ascending(front);
        let s = flatten(gs);
        let n = flatten(front).len() as int;
        assert(elems_ascending(gs[gs.len() - 1].1));
        assert forall|i: int, j: int| 0 <= i < j < s.len() implies pair_lt(
            #[trigger] s[i],
            #[trigger] s[j],
        ) by {
            if j < n {
                assert(s[i] == flatten(front)[i] && s[j] == flatten(front)[j]);
            } else if i < n {
                lemma_flatten_member(front, i);
                assert(s[i] == flatten(front)[i]);
                assert(s[j] == tag(last)[j - n]);
            } else {
                assert(s[i] == tag(last)[i - n] && s[j] == tag(last)[j - n]);
            }
        }
    }
}

} // verus!

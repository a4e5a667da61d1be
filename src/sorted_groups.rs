use vstd::prelude::*;

use crate::counting::{distinct_keys, lemma_count_elements, lemma_count_groups};
use crate::element::{elem_lt, Element};
use crate::iter::SortedGroupsIter;
use crate::flatten::{
    elems_ascending, flatten, groups_wf, lemma_flatten_append, lemma_flatten_ascending,
    lemma_flatten_index, lemma_flatten_member, lemma_flatten_single, lemma_flatten_split, offset,
    pairs_ascending, tag, GroupView,
};

verus! {

/// The specification view of stored groups.
pub open spec fn view_groups(v: Seq<(i32, Vec<Element>)>) -> Seq<GroupView> {
    v.map_values(|g: (i32, Vec<Element>)| (g.0, g.1@))
}

/// Inserting `x` into a sequence adds `x` to what it contains, and nothing else.
proof fn lemma_insert_contains<A>(s: Seq<A>, i: int, x: A)
    requires
        0 <= i <= s.len(),
    ensures
        forall|q: A| #[trigger] s.insert(i, x).contains(q) <==> s.contains(q) || q == x,
{
    let t = s.insert(i, x);
    assert forall|q: A| #[trigger] t.contains(q) <==> s.contains(q) || q == x by {
        if t.contains(q) {
            let j = choose|j: int| 0 <= j < t.len() && t[j] == q;
            if j < i {
                assert(s[j] == q);
            } else if j > i {
                assert(s[j - 1] == q);
            }
        }
        if s.contains(q) {
            let j = choose|j: int| 0 <= j < s.len() && s[j] == q;
            if j < i {
                assert(t[j] == q);
            } else {
                assert(t[j + 1] == q);
            }
        }
        if q == x {
            assert(t[i] == q);
        }
    }
}

/// Index of the first group whose key is not below `key`.
fn group_slot(groups: &Vec<(i32, Vec<Element>)>, key: i32) -> (o: usize)
    requires
        forall|i: int, j: int|
            0 <= i < j < groups@.len() ==> #[trigger] groups@[i].0 < #[trigger] groups@[j].0,
    ensures
        o <= groups@.len(),
        forall|i: int| 0 <= i < o ==> #[trigger] groups@[i].0 < key,
        forall|i: int| o <= i < groups@.len() ==> #[trigger] groups@[i].0 >= key,
{
    let mut lo: usize = 0;
    let mut hi: usize = groups.len();
    while lo < hi
        invariant
            lo <= hi <= groups@.len(),
            forall|i: int, j: int|
                0 <= i < j < groups@.len() ==> #[trigger] groups@[i].0 < #[trigger] groups@[j].0,
            forall|i: int| 0 <= i < lo ==> #[trigger] groups@[i].0 < key,
            forall|i: int| hi <= i < groups@.len() ==> #[trigger] groups@[i].0 >= key,
        decreases hi - lo,
    {
        let mid = lo + (hi - lo) / 2;
        if groups[mid].0 < key {
            assert(forall|i: int| 0 <= i < mid ==> #[trigger] groups@[i].0 < groups@[mid as int].0);
            lo = mid + 1;
        } else {
            assert(forall|i: int|
                mid < i < groups@.len() ==> groups@[mid as int].0 < #[trigger] groups@[i].0);
            hi = mid;
        }
    }
    lo
}

/// Index of the first element that does not come before `e`.
fn elem_slot(elems: &Vec<Element>, e: &Element) -> (p: usize)
    requires
        elems_ascending(elems@),
    ensures
        p <= elems@.len(),
        forall|i: int| 0 <= i < p ==> elem_lt(#[trigger] elems@[i], *e),
        forall|i: int| p <= i < elems@.len() ==> !elem_lt(#[trigger] elems@[i], *e),
{
    let mut lo: usize = 0;
    let mut hi: usize = elems.len();
    while lo < hi
        invariant
            lo <= hi <= elems@.len(),
            elems_ascending(elems@),
            forall|i: int| 0 <= i < lo ==> elem_lt(#[trigger] elems@[i], *e),
            forall|i: int| hi <= i < elems@.len() ==> !elem_lt(#[trigger] elems@[i], *e),
        decreases hi - lo,
    {
        let mid = lo + (hi - lo) / 2;
        if elems[mid].less_than(e) {
            assert(forall|i: int| 0 <= i < mid ==> elem_lt(#[trigger] elems@[i], elems@[mid as int]));
            lo = mid + 1;
        } else {
            assert(forall|i: int|
                mid < i < elems@.len() ==> elem_lt(elems@[mid as int], #[trigger] elems@[i]));
            hi = mid;
        }
    }
    lo
}

/// Sorted-group insertion outcome: `after` holds what `before` held plus `(key, e)`,
/// and `added` tells whether the pair was new.
spec fn inserted(
    before: Seq<GroupView>,
    after: Seq<GroupView>,
    key: i32,
    e: Element,
    added: bool,
) -> bool {
    &&& groups_wf(after)
    &&& added == !flatten(before).contains((key, e))
    &&& flatten(after).len() == flatten(before).len() + if added {
        1int
    } else {
        0int
    }
    &&& forall|q: (i32, Element)| #[trigger]
        flatten(after).contains(q) <==> flatten(before).contains(q) || q == (key, e)
}

/// Inserts `e` under `key` into sorted groups; returns whether it was absent.
fn insert_into(groups: &mut Vec<(i32, Vec<Element>)>, key: i32, e: Element) -> (added: bool)
    requires
        groups_wf(view_groups(old(groups)@)),
    ensures
        inserted(view_groups(old(groups)@), view_groups(final(groups)@), key, e, added),
{
    let ghost gs = view_groups(groups@);
    assert(forall|i: int| 0 <= i < gs.len() ==> #[trigger] gs[i] == (groups@[i].0, groups@[i].1@));
    assert forall|i: int, j: int| 0 <= i < j < groups@.len() implies #[trigger] groups@[i].0
        < #[trigger] groups@[j].0 by {
        assert(gs[i].0 < gs[j].0);
    }
    let o = group_slot(groups, key);
    if o < groups.len() && groups[o].0 == key {
        add_to_group(groups, o, key, e)
    } else {
        add_group(groups, o, key, e);
        true
    }
}

/// Inserts `e` into group `o`, whose key is `key`.
fn add_to_group(groups: &mut Vec<(i32, Vec<Element>)>, o: usize, key: i32, e: Element) -> (added: bool)
    requires
        groups_wf(view_groups(old(groups)@)),
        o < old(groups)@.len(),
        old(groups)@[o as int].0 == key,
    ensures
        inserted(view_groups(old(groups)@), view_groups(final(groups)@), key, e, added),
{
    let ghost gs = view_groups(groups@);
    let ghost g = gs[o as int];
    assert(g.1 == groups@[o as int].1@);
    assert(elems_ascending(g.1));
    let p = elem_slot(&groups[o].1, &e);
    if p < groups[o].1.len() && groups[o].1[p] == e {
        proof {
            lemma_flatten_index(gs, o as int, p as int);
        }
        return false;
    }
    proof {
        lemma_flatten_split(gs, o as int);
    }
    assert(!flatten(gs).contains((key, e))) by {
        if flatten(gs).contains((key, e)) {
            let idx = choose|idx: int| 0 <= idx < flatten(gs).len() && flatten(gs)[idx] == (key, e);
            let n = offset(gs, o as int);
            let a = flatten(gs.take(o as int));
            if idx < n {
                lemma_flatten_member(gs.take(o as int), idx);
                assert(a[idx] == (key, e));
            } else if idx < n + g.1.len() {
                let j = idx - n;
                assert(tag(g)[j] == (key, e));
                assert(g.1[j] == e);
            } else {
                let c = gs.skip(o as int + 1);
                let j = idx - n - g.1.len();
                assert(flatten(c)[j] == (key, e));
                lemma_flatten_member(c, j);
            }
        }
    }
    groups[o].1.insert(p, e);
    let ghost gs2 = view_groups(groups@);
    let ghost g2 = gs2[o as int];
    assert(g2.1 =~= g.1.insert(p as int, e));
    assert(gs2 =~= gs.update(o as int, g2));
    assert(gs2.take(o as int) =~= gs.take(o as int));
    assert(gs2.skip(o as int + 1) =~= gs.skip(o as int + 1));
    proof {
        lemma_flatten_split(gs2, o as int);
        assert(tag(g2) =~= tag(g).insert(p as int, (key, e)));
        let n = offset(gs, o as int);
        assert(flatten(gs2) =~= flatten(gs).insert(n + p, (key, e)));
        lemma_insert_contains(flatten(gs), n + p, (key, e));
        assert(elems_ascending(g2.1));
        assert forall|i: int| 0 <= i < gs2.len() implies elems_ascending(#[trigger] gs2[i].1) by {
            if i != o {
                assert(gs2[i] == gs[i]);
            }
        }
    }
    true
}

/// Inserts a new group `(key, [e])` at position `o`, where it keeps the keys ascending.
fn add_group(groups: &mut Vec<(i32, Vec<Element>)>, o: usize, key: i32, e: Element)
    requires
        groups_wf(view_groups(old(groups)@)),
        o <= old(groups)@.len(),
        forall|i: int| 0 <= i < o ==> #[trigger] old(groups)@[i].0 < key,
        forall|i: int| o <= i < old(groups)@.len() ==> #[trigger] old(groups)@[i].0 > key,
    ensures
        inserted(view_groups(old(groups)@), view_groups(final(groups)@), key, e, true),
{
    let ghost gs = view_groups(groups@);
    assert(forall|i: int| 0 <= i < gs.len() ==> #[trigger] gs[i] == (groups@[i].0, groups@[i].1@));
    let single = vec![e];
    assert(single@ =~= seq![e]);
    groups.insert(o, (key, single));
    let ghost gs2 = view_groups(groups@);
    let ghost g2: GroupView = (key, seq![e]);
    assert(gs2 =~= gs.insert(o as int, g2));
    proof {
        assert(gs =~= gs.take(o as int) + gs.skip(o as int));
        assert(gs2 =~= gs.take(o as int) + seq![g2] + gs.skip(o as int));
        lemma_flatten_append(gs.take(o as int), gs.skip(o as int));
        lemma_flatten_append(gs.take(o as int) + seq![g2], gs.skip(o as int));
        lemma_flatten_append(gs.take(o as int), seq![g2]);
        lemma_flatten_single(g2);
        let n = offset(gs, o as int);
        assert(tag(g2) =~= seq![(key, e)]);
        assert(flatten(gs2) =~= flatten(gs).insert(n, (key, e)));
        lemma_insert_contains(flatten(gs), n, (key, e));
        assert(!flatten(gs).contains((key, e))) by {
            if flatten(gs).contains((key, e)) {
                let idx = choose|idx: int| 0 <= idx < flatten(gs).len() && flatten(gs)[idx] == (key, e);
                lemma_flatten_member(gs, idx);
            }
        }
        assert forall|i: int| 0 <= i < gs2.len() implies elems_ascending(#[trigger] gs2[i].1) by {
            if i < o {
                assert(gs2[i] == gs[i]);
            } else if i > o {
                assert(gs2[i] == gs[i - 1]);
            }
        }
        assert forall|i: int, j: int| 0 <= i < j < gs2.len() implies #[trigger] gs2[i].0
            < #[trigger] gs2[j].0 by {
            if j < o {
                assert(gs2[i] == gs[i] && gs2[j] == gs[j]);
            } else if j == o {
                assert(gs2[i] == gs[i]);
            } else if i < o {
                assert(gs2[i] == gs[i] && gs2[j] == gs[j - 1]);
            } else if i == o {
                assert(gs2[j] == gs[j - 1]);
            } else {
                assert(gs2[i] == gs[i - 1] && gs2[j] == gs[j - 1]);
            }
        }
    }
}

/// `key_of` can be called on every element and gives one key for each.
pub open spec fn key_is_function<F: Fn(&Element) -> i32>(key_of: F) -> bool {
    &&& forall|e: &Element| #[trigger] key_of.requires((e,))
    &&& forall|e: &Element, k1: i32, k2: i32|
        #[trigger] key_of.ensures((e,), k1) && #[trigger] key_of.ensures((e,), k2) ==> k1 == k2
}

/// `pairs` holds each element of `input` under the key that `key_of` gives it, and
/// nothing else.
pub open spec fn pairs_of<F: Fn(&Element) -> i32>(
    pairs: Seq<(i32, Element)>,
    input: Seq<Element>,
    key_of: F,
) -> bool {
    &&& forall|k: i32, e: Element| #[trigger]
        pairs.contains((k, e)) ==> input.contains(e) && key_of.ensures((&e,), k)
    &&& forall|e: Element| #[trigger]
        input.contains(e) ==> exists|k: i32| #[trigger] pairs.contains((k, e))
}

/// Elements partitioned into groups by a key, groups in ascending key order and
/// the elements of each group in ascending order, without duplicates.
#[derive(Debug)]
pub struct SortedGroups {
    groups: Vec<(i32, Vec<Element>)>,
    count: usize,
}

impl SortedGroups {
    #[verifier::type_invariant]
    spec fn inv(&self) -> bool {
        &&& groups_wf(view_groups(self.groups@))
        &&& self.count == flatten(view_groups(self.groups@)).len()
    }

    /// The groups: each key with its elements, in ascending key order.
    pub closed spec fn groups(&self) -> Seq<GroupView> {
        view_groups(self.groups@)
    }

    /// All `(key, element)` pairs, group after group.
    pub open spec fn entries(&self) -> Seq<(i32, Element)> {
        flatten(self.groups())
    }

    /// Builds a container from `elements`, each filed under the key `key_of` gives it.
    /// Equal elements are kept once.
    pub fn new<F: Fn(&Element) -> i32>(elements: Vec<Element>, key_of: F) -> (r: Self)
        requires
            key_is_function(key_of),
        ensures
            groups_wf(r.groups()),
            pairs_ascending(r.entries()),
            pairs_of(r.entries(), elements@, key_of),
            r.entries().len() == elements@.to_set().len(),
            r.groups().len() == distinct_keys(elements@, key_of).len(),
    {
        let mut groups: Vec<(i32, Vec<Element>)> = Vec::new();
        let mut count: usize = 0;
        let mut i: usize = 0;
        assert(flatten(view_groups(groups@)) =~= Seq::empty());
        while i < elements.len()
            invariant
                i <= elements@.len(),
                key_is_function(key_of),
                groups_wf(view_groups(groups@)),
                count == flatten(view_groups(groups@)).len(),
                count <= i,
                pairs_of(flatten(view_groups(groups@)), elements@.take(i as int), key_of),
            decreases elements@.len() - i,
        {
            let e = elements[i];
            let k = key_of(&e);
            let ghost before = flatten(view_groups(groups@));
            let added = insert_into(&mut groups, k, e);
            if added {
                count = count + 1;
            }
            let ghost after = flatten(view_groups(groups@));
            assert(elements@.take(i + 1) =~= elements@.take(i as int).push(e));
            assert forall|kk: i32, ee: Element| #[trigger] after.contains((kk, ee)) implies
                elements@.take(i + 1).contains(ee) && key_of.ensures((&ee,), kk) by {
                if before.contains((kk, ee)) {
                    assert(elements@.take(i as int).contains(ee));
                } else {
                    assert(elements@.take(i + 1)[i as int] == ee);
                }
            }
            assert forall|ee: Element| #[trigger] elements@.take(i + 1).contains(ee) implies exists|
                kk: i32,
            | #[trigger] after.contains((kk, ee)) by {
                if ee == e {
                    assert(after.contains((k, e)));
                } else {
                    let j = choose|j: int|
                        0 <= j < i + 1 && #[trigger] elements@.take(i + 1)[j] == ee;
                    assert(elements@.take(i as int)[j] == ee);
                    assert(elements@.take(i as int).contains(ee));
                    let kk = choose|kk: i32| #[trigger] before.contains((kk, ee));
                    assert(after.contains((kk, ee)));
                }
            }
            i = i + 1;
        }
        assert(elements@.take(i as int) =~= elements@);
        proof {
            lemma_flatten_ascending(view_groups(groups@));
            lemma_count_elements(view_groups(groups@), elements@, key_of);
            lemma_count_groups(view_groups(groups@), elements@, key_of);
        }
        SortedGroups { groups, count }
    }

    /// The number of elements, over all groups.
    pub fn len(&self) -> (r: usize)
        ensures
            r == self.entries().len(),
    {
        proof {
            use_type_invariant(self);
        }
        self.count
    }

    /// Whether the container holds no element.
    pub fn is_empty(&self) -> (r: bool)
        ensures
            r == (self.entries().len() == 0),
    {
        self.len() == 0
    }

    /// The number of groups.
    pub fn groups_len(&self) -> (r: usize)
        ensures
            r == self.groups().len(),
    {
        self.groups.len()
    }

    /// A cursor over all `(key, element)` pairs: ascending keys, and within a key
    /// ascending elements.
    pub fn iter(&self) -> (r: SortedGroupsIter<'_>)
        ensures
            r.items() == self.entries(),
            r.pos() == 0,
            pairs_ascending(r.items()),
    {
        proof {
            use_type_invariant(self);
            lemma_flatten_ascending(self.groups());
        }
        SortedGroupsIter::start(&self.groups)
    }

    /// The pair at position `index` of the order `iter` walks, if there is one.
    /// Takes time linear in `index`.
    pub fn get(&self, index: usize) -> (r: Option<(&i32, &Element)>)
        ensures
            index < self.entries().len() ==> r == Some(
                (&self.entries()[index as int].0, &self.entries()[index as int].1),
            ),
            index >= self.entries().len() ==> r.is_none(),
    {
        let mut it = self.iter();
        let mut j: usize = 0;
        while j < index
            invariant
                j <= index,
                it.items() == self.entries(),
                it.pos() == j,
            decreases index - j,
        {
            if it.next().is_none() {
                return None;
            }
            j = j + 1;
        }
        it.next()
    }

    /// The groups, each key with its elements, in ascending key order.
    pub fn iter_groups(&self) -> (r: &[(i32, Vec<Element>)])
        ensures
            view_groups(r@) == self.groups(),
    {
        self.groups.as_slice()
    }
}

/// Whether two element sequences are the same.
fn same_elements(a: &Vec<Element>, b: &Vec<Element>) -> (r: bool)
    ensures
        r == (a@ == b@),
{
    if a.len() != b.len() {
        return false;
    }
    let mut i: usize = 0;
    while i < a.len()
        invariant
            i <= a@.len(),
            a@.len() == b@.len(),
            forall|j: int| 0 <= j < i ==> a@[j] == b@[j],
        decreases a@.len() - i,
    {
        if a[i] != b[i] {
            return false;
        }
        i = i + 1;
    }
    assert(a@ =~= b@);
    true
}

impl PartialEq for SortedGroups {
    /// Two containers are equal when they hold the same groups, with the same elements.
    fn eq(&self, other: &SortedGroups) -> (r: bool) {
        let n = self.groups.len();
        if n != other.groups.len() {
            return false;
        }
        let mut i: usize = 0;
        while i < n
            invariant
                n == self.groups@.len() == other.groups@.len(),
                i <= n,
                forall|j: int| 0 <= j < i ==> #[trigger] self.groups()[j] == other.groups()[j],
            decreases n - i,
        {
            if self.groups[i].0 != other.groups[i].0 || !same_elements(
                &self.groups[i].1,
                &other.groups[i].1,
            ) {
                assert(self.groups()[i as int] != other.groups()[i as int]);
                return false;
            }
            assert(self.groups()[i as int] == other.groups()[i as int]);
            i = i + 1;
        }
        assert(self.groups() =~= other.groups());
        true
    }
}

impl vstd::std_specs::cmp::PartialEqSpecImpl for SortedGroups {
    open spec fn obeys_eq_spec() -> bool {
        true
    }

    open spec fn eq_spec(&self, other: &SortedGroups) -> bool {
        self.groups() == other.groups()
    }
}

} // verus!

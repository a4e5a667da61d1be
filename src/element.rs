use vstd::prelude::*;

verus! {

/// An element stored in a container: a group number and a value.
///
/// Elements are ordered by `group` first, then by `value`.
#[derive(Clone, Copy, Debug, PartialEq, Eq, Structural)]
pub struct Element {
    pub group: i32,
    pub value: i32,
}

/// Strict order on elements: by `group`, then by `value`.
pub open spec fn elem_lt(a: Element, b: Element) -> bool {
    a.group < b.group || (a.group == b.group && a.value < b.value)
}

impl Element {
    /// Whether `self` comes strictly before `other`.
    pub fn less_than(&self, other: &Element) -> (r: bool)
        ensures
            r == elem_lt(*self, *other),
    {
        self.group < other.group || (self.group == other.group && self.value < other.value)
    }
}

} // verus!

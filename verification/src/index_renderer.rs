//! Showing the items of a list that a selection offers by their position.

use vstd::prelude::*;
use vstd::string::*;
use crate::text::views;

verus! {

/// Renders a position in a list of paths as the path that stands there.
pub struct IndexPathRenderer<'a> {
    items: &'a [String],
}

impl<'a> View for IndexPathRenderer<'a> {
    type V = Seq<Seq<char>>;

    closed spec fn view(&self) -> Seq<Seq<char>> {
        views(self.items@)
    }
}

impl<'a> IndexPathRenderer<'a> {
    /// A renderer over `items`.
    pub fn new(items: &'a [String]) -> (renderer: Self)
        ensures
            renderer@ == views(items@),
    {
        Self { items }
    }

    /// The text shown for the item at `idx`: the path itself.
    pub fn render(&self, idx: &usize) -> (shown: String)
        requires
            *idx < self@.len(),
        ensures
            shown@ == self@[*idx as int],
    {
        self.items[*idx].clone()
    }
}

} // verus!

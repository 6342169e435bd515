//! Bookmarks: the markers, one for each source, from which the outline of the
//! joined document is made.

use crate::model::{BookmarkView, Id};
use vstd::prelude::*;

verus! {

/// A marker for one source: what its entry in the outline will show, and the
/// page that it leads to.
pub struct Bookmark {
    pub title: String,
    /// Red, green and blue, each in whole units.
    pub color: (u8, u8, u8),
    pub level: u32,
    pub target: Id,
}

impl View for Bookmark {
    type V = BookmarkView;

    open spec fn view(&self) -> BookmarkView {
        BookmarkView {
            title: self.title@,
            color: self.color,
            level: self.level,
            target: self.target,
            children: Seq::empty(),
        }
    }
}

/// The values of a list of bookmarks.
pub open spec fn bookmarks_view(bookmarks: Seq<Bookmark>) -> Seq<BookmarkView> {
    bookmarks.map_values(|b: Bookmark| b@)
}

} // verus!

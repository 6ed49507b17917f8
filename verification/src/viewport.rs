//! The viewport state machine: cursor and scroll state over the
//! currently filtered id list, reacting to navigation, resize and
//! re-filter events.
//!
//! Every transition is specified exactly. After any cursor or page move
//! the visible-window invariant is restored; a resize only replaces the
//! page size and may leave the window transiently inconsistent until
//! the next move, as the interactive surface has always behaved.

use vstd::prelude::*;

use crate::book::{BookId, BookView, Status};
use crate::query::{query_matches, Query};
use crate::Library;

verus! {

/// An input event of the interactive view.
#[derive(Clone, Copy, Debug, PartialEq, Eq, Structural)]
pub enum Message {
    /// Stop the render/input loop.
    Quit,
    /// The terminal was resized; the payload is the new page size.
    Resize(usize),
    CursorUp,
    CursorDown,
    PageUp,
    PageDown,
    /// Re-filter the id list to the books still wanted.
    ApplyFilter,
}

/// The identities of a sequence of book records, in order.
pub open spec fn ids_of(s: Seq<BookView>) -> Seq<u128> {
    s.map_values(|b: BookView| b.id)
}

/// The plain values of a sequence of identities.
pub open spec fn id_values(v: Seq<BookId>) -> Seq<u128> {
    v.map_values(|i: BookId| i@)
}

/// Cursor and scroll offset after a cursor-up event: scroll up by one
/// when the cursor sits at the top of the window but not at the very
/// first element, then move the cursor up, stopping at zero.
pub open spec fn spec_cursor_up(cursor: int, scroll: int) -> (int, int) {
    (
        if cursor > 0 {
            cursor - 1
        } else {
            0
        },
        if cursor == scroll && cursor > 0 {
            scroll - 1
        } else {
            scroll
        },
    )
}

/// Cursor and scroll offset after a cursor-down event: scroll down by
/// one when the cursor sits at the bottom of the window but not on the
/// very last element, then move the cursor down, stopping at the end.
pub open spec fn spec_cursor_down(cursor: int, scroll: int, num: int, len: int) -> (int, int) {
    let window_last = if scroll + num > 0 {
        scroll + num - 1
    } else {
        0
    };
    let last = if len > 0 {
        len - 1
    } else {
        0
    };
    (
        if cursor + 1 <= last {
            cursor + 1
        } else {
            last
        },
        if cursor == window_last && cursor != last {
            scroll + 1
        } else {
            scroll
        },
    )
}

/// Cursor and scroll offset after a page-up event: both retreat by one
/// page, stopping at zero.
pub open spec fn spec_page_up(cursor: int, scroll: int, num: int) -> (int, int) {
    (
        if cursor >= num {
            cursor - num
        } else {
            0
        },
        if scroll >= num {
            scroll - num
        } else {
            0
        },
    )
}

/// Cursor and scroll offset after a page-down event: the scroll offset
/// advances one page but never past the top of the last full page; the
/// cursor advances one page, stopping at the end.
pub open spec fn spec_page_down(cursor: int, scroll: int, num: int, len: int) -> (int, int) {
    let top_last = if len >= num {
        len - num
    } else {
        0
    };
    let last = if len > 0 {
        len - 1
    } else {
        0
    };
    (
        if cursor + num <= last {
            cursor + num
        } else {
            last
        },
        if scroll + num <= top_last {
            scroll + num
        } else {
            top_last
        },
    )
}

/// The scrollable, filterable view state over a library.
#[derive(Debug)]
pub struct Viewport {
    /// Whether the render/input loop should keep running.
    pub is_running: bool,
    /// Index into the filtered id list.
    pub cursor: usize,
    /// First visible index of the filtered id list.
    pub scroll_offset: usize,
    /// Page size: how many rows are visible at once.
    pub num_visible: usize,
    /// The filtered id list the cursor ranges over.
    pub filtered: Vec<BookId>,
}

impl Viewport {
    /// The visible-window consistency: the cursor lies inside the
    /// window and, whenever anything is listed, inside the list.
    pub open spec fn window_inv(self) -> bool {
        &&& (self.filtered@.len() == 0 ==> self.cursor == 0)
        &&& (self.filtered@.len() > 0 ==> (self.cursor as int) < self.filtered@.len())
        &&& self.scroll_offset <= self.cursor
        &&& (self.cursor as int) < self.scroll_offset + self.num_visible
    }

    /// The initial state: every book listed in library order, cursor
    /// and scroll at the top, the loop running.
    pub fn new(lib: &Library, num_visible: usize) -> (r: Viewport)
        ensures
            r.is_running,
            r.cursor == 0,
            r.scroll_offset == 0,
            r.num_visible == num_visible,
            id_values(r.filtered@) == ids_of(lib@),
            num_visible >= 1 ==> r.window_inv(),
    {
        let books = lib.all();
        let mut filtered: Vec<BookId> = Vec::new();
        let mut i: usize = 0;
        proof {
            assert(id_values(filtered@) =~= ids_of(lib@).take(0));
        }
        while i < books.len()
            invariant
                i <= books.len(),
                books.deep_view() == lib@,
                id_values(filtered@) == ids_of(lib@).take(i as int),
            decreases books.len() - i,
        {
            let bid = books[i].id();
            let ghost before = filtered@;
            filtered.push(bid);
            proof {
                assert(books[i as int]@ == lib@[i as int]);
                assert(filtered@ == before.push(bid));
                assert(before.len() == i) by {
                    assert(id_values(before).len() == ids_of(lib@).take(i as int).len());
                }
                assert(id_values(filtered@) =~= ids_of(lib@).take(i + 1)) by {
                    assert(forall|k: int|
                        0 <= k < i ==> id_values(filtered@)[k] == #[trigger] id_values(before)[k]);
                    assert(id_values(filtered@)[i as int] == bid@);
                    assert(ids_of(lib@).take(i + 1)[i as int] == lib@[i as int].id);
                }
            }
            i = i + 1;
        }
        proof {
            assert(ids_of(lib@).take(books.deep_view().len() as int) =~= ids_of(lib@));
        }
        Viewport { is_running: true, cursor: 0, scroll_offset: 0, num_visible, filtered }
    }

    /// One cursor-up event.
    pub fn move_cursor_up(&mut self)
        ensures
            (final(self).cursor as int, final(self).scroll_offset as int) == spec_cursor_up(
                old(self).cursor as int,
                old(self).scroll_offset as int,
            ),
            final(self).num_visible == old(self).num_visible,
            final(self).filtered == old(self).filtered,
            final(self).is_running == old(self).is_running,
            old(self).window_inv() && old(self).num_visible >= 1 ==> final(self).window_inv(),
    {
        let is_first_visible = self.cursor == self.scroll_offset;
        let is_first_overall = self.cursor == 0;
        if is_first_visible && !is_first_overall {
            self.scroll_offset = self.scroll_offset - 1;
        }
        if self.cursor > 0 {
            self.cursor = self.cursor - 1;
        }
    }

    /// One cursor-down event.
    pub fn move_cursor_down(&mut self)
        requires
            old(self).scroll_offset + old(self).num_visible < usize::MAX,
            old(self).cursor < usize::MAX,
        ensures
            (final(self).cursor as int, final(self).scroll_offset as int) == spec_cursor_down(
                old(self).cursor as int,
                old(self).scroll_offset as int,
                old(self).num_visible as int,
                old(self).filtered@.len() as int,
            ),
            final(self).num_visible == old(self).num_visible,
            final(self).filtered == old(self).filtered,
            final(self).is_running == old(self).is_running,
            old(self).window_inv() && old(self).num_visible >= 1 ==> final(self).window_inv(),
    {
        let window_end = self.scroll_offset + self.num_visible;
        let is_last_visible = self.cursor == (if window_end > 0 {
            window_end - 1
        } else {
            0
        });
        let last = if self.filtered.len() > 0 {
            self.filtered.len() - 1
        } else {
            0
        };
        let is_last_overall = self.cursor == last;
        if is_last_visible && !is_last_overall {
            self.scroll_offset = self.scroll_offset + 1;
        }
        self.cursor = if self.cursor + 1 <= last {
            self.cursor + 1
        } else {
            last
        };
    }

    /// One page-up event.
    pub fn move_page_up(&mut self)
        ensures
            (final(self).cursor as int, final(self).scroll_offset as int) == spec_page_up(
                old(self).cursor as int,
                old(self).scroll_offset as int,
                old(self).num_visible as int,
            ),
            final(self).num_visible == old(self).num_visible,
            final(self).filtered == old(self).filtered,
            final(self).is_running == old(self).is_running,
            old(self).window_inv() && old(self).num_visible >= 1 ==> final(self).window_inv(),
    {
        self.scroll_offset = if self.scroll_offset >= self.num_visible {
            self.scroll_offset - self.num_visible
        } else {
            0
        };
        self.cursor = if self.cursor >= self.num_visible {
            self.cursor - self.num_visible
        } else {
            0
        };
    }

    /// One page-down event.
    pub fn move_page_down(&mut self)
        requires
            old(self).scroll_offset + old(self).num_visible <= usize::MAX,
            old(self).cursor + old(self).num_visible <= usize::MAX,
        ensures
            (final(self).cursor as int, final(self).scroll_offset as int) == spec_page_down(
                old(self).cursor as int,
                old(self).scroll_offset as int,
                old(self).num_visible as int,
                old(self).filtered@.len() as int,
            ),
            final(self).num_visible == old(self).num_visible,
            final(self).filtered == old(self).filtered,
            final(self).is_running == old(self).is_running,
            old(self).window_inv() && old(self).num_visible >= 1 ==> final(self).window_inv(),
    {
        let top_next_page = self.scroll_offset + self.num_visible;
        let top_last_full_page = if self.filtered.len() >= self.num_visible {
            self.filtered.len() - self.num_visible
        } else {
            0
        };
        self.scroll_offset = if top_next_page <= top_last_full_page {
            top_next_page
        } else {
            top_last_full_page
        };
        let next_page_cursor = self.cursor + self.num_visible;
        let last = if self.filtered.len() > 0 {
            self.filtered.len() - 1
        } else {
            0
        };
        self.cursor = if next_page_cursor <= last {
            next_page_cursor
        } else {
            last
        };
    }

    /// Re-filters the id list to the books still wanted, and puts the
    /// cursor and scroll back at the top.
    pub fn apply_filter(&mut self, lib: &Library)
        ensures
            final(self).cursor == 0,
            final(self).scroll_offset == 0,
            final(self).num_visible == old(self).num_visible,
            final(self).is_running == old(self).is_running,
            id_values(final(self).filtered@) == ids_of(
                lib@.filter(|b: BookView| query_matches(b, want_filter())),
            ),
            old(self).num_visible >= 1 ==> final(self).window_inv(),
    {
        let q = Query { title: None, author: None, isbn: None, status: Some(Status::Want),
            tags: None };
        let hits = lib.search(&q);
        let ghost hitviews = lib@.filter(|b: BookView| query_matches(b, want_filter()));
        proof {
            assert(q@ == want_filter());
        }
        let mut filtered: Vec<BookId> = Vec::new();
        let mut i: usize = 0;
        proof {
            assert(id_values(filtered@) =~= ids_of(hitviews).take(0));
        }
        while i < hits.len()
            invariant
                i <= hits.len(),
                hits.deep_view() == hitviews,
                id_values(filtered@) == ids_of(hitviews).take(i as int),
            decreases hits.len() - i,
        {
            let bid = hits[i].id();
            let ghost before = filtered@;
            filtered.push(bid);
            proof {
                assert(hits[i as int]@ == hitviews[i as int]);
                assert(filtered@ == before.push(bid));
                assert(before.len() == i) by {
                    assert(id_values(before).len() == ids_of(hitviews).take(i as int).len());
                }
                assert(id_values(filtered@) =~= ids_of(hitviews).take(i + 1)) by {
                    assert(forall|k: int|
                        0 <= k < i ==> id_values(filtered@)[k] == #[trigger] id_values(before)[k]);
                    assert(id_values(filtered@)[i as int] == bid@);
                    assert(ids_of(hitviews).take(i + 1)[i as int] == hitviews[i as int].id);
                }
            }
            i = i + 1;
        }
        proof {
            assert(ids_of(hitviews).take(hits.deep_view().len() as int) =~= ids_of(hitviews));
        }
        self.filtered = filtered;
        self.cursor = 0;
        self.scroll_offset = 0;
    }

    /// Dispatches one event to its transition.
    pub fn update(&mut self, lib: &Library, msg: &Message)
        requires
            *msg is CursorDown ==> old(self).scroll_offset + old(self).num_visible < usize::MAX
                && old(self).cursor < usize::MAX,
            *msg is PageDown ==> old(self).scroll_offset + old(self).num_visible <= usize::MAX
                && old(self).cursor + old(self).num_visible <= usize::MAX,
        ensures
            match *msg {
                Message::Quit => *final(self) == (Viewport { is_running: false, ..*old(self) }),
                Message::Resize(rows) => *final(self) == (Viewport {
                    num_visible: rows,
                    ..*old(self)
                }),
                Message::CursorUp => (final(self).cursor as int, final(self).scroll_offset as int)
                    == spec_cursor_up(old(self).cursor as int, old(self).scroll_offset as int)
                    && final(self).num_visible == old(self).num_visible && final(self).filtered
                    == old(self).filtered && final(self).is_running == old(self).is_running,
                Message::CursorDown => (final(self).cursor as int,
                    final(self).scroll_offset as int) == spec_cursor_down(
                    old(self).cursor as int,
                    old(self).scroll_offset as int,
                    old(self).num_visible as int,
                    old(self).filtered@.len() as int,
                ) && final(self).num_visible == old(self).num_visible && final(self).filtered
                    == old(self).filtered && final(self).is_running == old(self).is_running,
                Message::PageUp => (final(self).cursor as int, final(self).scroll_offset as int)
                    == spec_page_up(
                    old(self).cursor as int,
                    old(self).scroll_offset as int,
                    old(self).num_visible as int,
                ) && final(self).num_visible == old(self).num_visible && final(self).filtered
                    == old(self).filtered && final(self).is_running == old(self).is_running,
                Message::PageDown => (final(self).cursor as int, final(self).scroll_offset as int)
                    == spec_page_down(
                    old(self).cursor as int,
                    old(self).scroll_offset as int,
                    old(self).num_visible as int,
                    old(self).filtered@.len() as int,
                ) && final(self).num_visible == old(self).num_visible && final(self).filtered
                    == old(self).filtered && final(self).is_running == old(self).is_running,
                Message::ApplyFilter => final(self).cursor == 0 && final(self).scroll_offset == 0
                    && final(self).num_visible == old(self).num_visible && final(self).is_running
                    == old(self).is_running && id_values(final(self).filtered@) == ids_of(
                    lib@.filter(|b: BookView| query_matches(b, want_filter())),
                ),
            },
    {
        match msg {
            Message::Quit => {
                self.is_running = false;
            },
            Message::Resize(rows) => {
                self.num_visible = *rows;
            },
            Message::CursorUp => self.move_cursor_up(),
            Message::CursorDown => self.move_cursor_down(),
            Message::PageUp => self.move_page_up(),
            Message::PageDown => self.move_page_down(),
            Message::ApplyFilter => self.apply_filter(lib),
        }
    }
}

/// The fixed filter of the interactive surface: the books still wanted.
pub open spec fn want_filter() -> crate::query::QueryView {
    crate::query::QueryView {
        title: None,
        author: None,
        isbn: None,
        status: Some(Status::Want),
        tags: None,
    }
}

} // verus!

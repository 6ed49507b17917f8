//! A personal reading-list library: an ordered collection of book records
//! with identity-based mutation, an AND-composed query engine, a snapshot
//! codec for persistence, and a viewport state machine for a scrollable,
//! filterable terminal view.

pub mod book;
pub mod codec;
pub mod query;
pub mod text;
pub mod viewport;

pub use crate::book::{Book, Status};
pub use crate::query::Query;

use vstd::assert_by_contradiction;
use vstd::prelude::*;

use crate::book::{BookId, BookView};
use crate::query::{query_empty, query_matches, QueryView};

verus! {

/// A failed library operation: the target was not found, or a query hit
/// more than one book where exactly one was needed.
#[derive(Clone, Copy, Debug, PartialEq, Eq, Structural)]
pub enum LibError {
    /// No book matched the given identity or query.
    NotFound,
    /// A query hit several books where a single target was required; the
    /// caller must refine the query or pick one hit explicitly.
    AmbiguousMatch,
}

impl LibError {
    /// A user-facing description of the failure.
    pub fn message(&self) -> (r: &'static str)
        ensures
            *self is NotFound ==> r@ == "No books found."@,
            *self is AmbiguousMatch ==> r@ == "Found multiple books. Please be more specific."@,
    {
        match self {
            LibError::NotFound => "No books found.",
            LibError::AmbiguousMatch => "Found multiple books. Please be more specific.",
        }
    }
}

/// Some book in `s` has identity `id`.
pub open spec fn has_id(s: Seq<BookView>, id: u128) -> bool {
    exists|i: int| 0 <= i < s.len() && s[i].id == id
}

/// The index of the book with identity `id`; meaningful when `has_id`
/// holds and the identities in `s` are unique.
pub open spec fn id_index(s: Seq<BookView>, id: u128) -> int {
    choose|i: int| 0 <= i < s.len() && s[i].id == id
}

/// Well-formedness of a whole collection: every entry is well formed and
/// carries a unique, non-nil identity.
pub open spec fn lib_wf(s: Seq<BookView>) -> bool {
    &&& forall|i: int| 0 <= i < s.len() ==> (#[trigger] s[i]).wf() && s[i].id != 0
    &&& forall|i: int, j: int| 0 <= i < j < s.len() ==> s[i].id != s[j].id
}

/// The owned, ordered collection of book records. Insertion order is
/// preserved and is the display order; every held record has a unique
/// non-nil identity.
#[derive(Debug)]
pub struct Library {
    books: Vec<Book>,
}

impl View for Library {
    type V = Seq<BookView>;

    closed spec fn view(&self) -> Seq<BookView> {
        self.books.deep_view()
    }
}

impl Library {
    #[verifier::type_invariant]
    pub open spec fn type_inv(self) -> bool {
        lib_wf(self@)
    }

    /// An empty library.
    pub fn new() -> (r: Self)
        ensures
            r@ == Seq::<BookView>::empty(),
    {
        let r = Library { books: Vec::new() };
        proof {
            assert(r@ =~= Seq::<BookView>::empty());
        }
        r
    }

    pub(crate) fn from_books(books: Vec<Book>) -> (r: Self)
        requires
            lib_wf(books.deep_view()),
        ensures
            r@ == books.deep_view(),
    {
        Library { books }
    }

    /// Every book in the library, in insertion order.
    pub fn all(&self) -> (r: &Vec<Book>)
        ensures
            r.deep_view() == self@,
    {
        &self.books
    }

    /// The index of the book with identity `id`, or `None` if absent.
    fn index_of_id(&self, id: u128) -> (r: Option<usize>)
        ensures
            match r {
                Some(i) => i < self@.len() && self@[i as int].id == id,
                None => !has_id(self@, id),
            },
    {
        let mut i: usize = 0;
        while i < self.books.len()
            invariant
                i <= self@.len(),
                self@.len() == self.books.len(),
                forall|k: int| 0 <= k < i ==> self@[k].id != id,
            decreases self.books.len() - i,
        {
            if self.books[i].id().value() == id {
                return Some(i);
            }
            i = i + 1;
        }
        None
    }

    /// Relies on `uuid::Uuid::new_v4` for a random candidate identity.
    /// The 128-bit value of a version-4 UUID is never zero, because the
    /// version and variant bits are always set; nothing else is assumed
    /// of it.
    #[verifier::external_body]
    fn random_id_candidate() -> (r: u128)
        ensures
            r != 0,
    {
        uuid::Uuid::new_v4().as_u128()
    }

    /// A non-nil identity not used by any held book: the random candidate
    /// when it is free, else the smallest free positive value.
    fn fresh_id_value(&self) -> (r: u128)
        ensures
            r != 0,
            !has_id(self@, r),
    {
        let cand = Self::random_id_candidate();
        if self.index_of_id(cand).is_none() {
            return cand;
        }
        let n = self.books.len();
        let mut m: u128 = 1;
        while m <= (n as u128) + 1
            invariant
                n == self@.len(),
                1 <= m <= (n as u128) + 2,
                forall|x: u128| 1 <= x < m ==> has_id(self@, x),
            decreases (n as u128) + 2 - m,
        {
            if self.index_of_id(m).is_none() {
                return m;
            }
            m = m + 1;
        }
        proof {
            use_type_invariant(self);
            lemma_free_id_exists(self@, n);
            let x = choose|x: u128| 1 <= x <= (n as u128) + 1 && !has_id(self@, x);
            assert(has_id(self@, x));
        }
        vstd::pervasive::unreached()
    }

    /// Appends a book. A book whose identity is nil or already in use is
    /// assigned a fresh identity unique in this library; a book arriving
    /// with a free non-nil identity keeps it. The new entry's identity
    /// never equals any pre-existing identity.
    pub fn add(&mut self, book: Book)
        ensures
            final(self)@.len() == old(self)@.len() + 1,
            final(self)@ == old(self)@.push(final(self)@.last()),
            final(self)@.last() == (BookView { id: final(self)@.last().id, ..book@ }),
            final(self)@.last().id != 0,
            !has_id(old(self)@, final(self)@.last().id),
            book@.id != 0 && !has_id(old(self)@, book@.id) ==> final(self)@.last().id == book@.id,
    {
        proof {
            use_type_invariant(&*self);
            use_type_invariant(&book);
        }
        let mut book = book;
        let keep = if book.id().is_nil() {
            false
        } else {
            self.index_of_id(book.id().value()).is_none()
        };
        if !keep {
            let fresh = self.fresh_id_value();
            book.set_id(BookId::from_value(fresh));
        }
        proof {
            use_type_invariant(&book);
        }
        let ghost pushed = book@;
        let mut books: Vec<Book> = Vec::new();
        core::mem::swap(&mut books, &mut self.books);
        books.push(book);
        proof {
            assert(books.deep_view() =~= old(self)@.push(pushed));
        }
        self.books = books;
        proof {
            assert(self@ == old(self)@.push(pushed));
            assert(self@.last() == pushed);
            assert(pushed == (BookView { id: pushed.id, ..book@ }));
        }
    }

    /// Every book matching the query, in library order. A query with no
    /// predicate set returns no books, even on a non-empty library.
    pub fn search(&self, q: &Query) -> (r: Vec<Book>)
        ensures
            r.deep_view() == self@.filter(|b: BookView| query_matches(b, q@)),
            query_empty(q@) ==> r.deep_view() == Seq::<BookView>::empty(),
    {
        let ghost pred = |b: BookView| query_matches(b, q@);
        let mut r: Vec<Book> = Vec::new();
        let mut i: usize = 0;
        proof {
            assert(self@.take(0).filter(pred) =~= Seq::<BookView>::empty());
            assert(r.deep_view() =~= Seq::<BookView>::empty());
        }
        while i < self.books.len()
            invariant
                i <= self@.len(),
                self@.len() == self.books.len(),
                self@ == self.books.deep_view(),
                r.deep_view() == self@.take(i as int).filter(pred),
                pred == (|b: BookView| query_matches(b, q@)),
            decreases self.books.len() - i,
        {
            let ghost prefix = self@.take(i as int);
            proof {
                assert(self@.take(i + 1) =~= prefix.push(self@[i as int]));
                prefix.lemma_filter_push(self@[i as int], pred);
                assert(self@[i as int] == self.books[i as int]@);
            }
            if crate::query::book_matches(&self.books[i], q) {
                let hit = self.books[i].clone();
                r.push(hit);
                proof {
                    assert(r.deep_view() =~= self@.take(i + 1).filter(pred));
                }
            } else {
                proof {
                    assert(r.deep_view() =~= self@.take(i + 1).filter(pred));
                }
            }
            i = i + 1;
        }
        proof {
            assert(self@.take(self@.len() as int) =~= self@);
            if query_empty(q@) {
                self@.lemma_all_neg_filter_empty(pred);
                assert(r.deep_view() =~= Seq::<BookView>::empty());
            }
        }
        r
    }

    /// Resolves a query to the identity of exactly one matching book:
    /// zero hits fails with `NotFound`, several hits fail with
    /// `AmbiguousMatch` so the caller can refine or select.
    pub fn resolve(&self, q: &Query) -> (r: Result<BookId, LibError>)
        ensures
            ({
                let hits = self@.filter(|b: BookView| query_matches(b, q@));
                match r {
                    Ok(id) => hits.len() == 1 && id@ == hits[0].id && has_id(self@, id@),
                    Err(e) => match e {
                        LibError::NotFound => hits.len() == 0,
                        LibError::AmbiguousMatch => hits.len() > 1,
                    },
                }
            }),
    {
        let ghost pred = |b: BookView| query_matches(b, q@);
        let hits = self.search(q);
        if hits.len() == 0 {
            Err(LibError::NotFound)
        } else if hits.len() > 1 {
            Err(LibError::AmbiguousMatch)
        } else {
            proof {
                assert(hits[0]@ == hits.deep_view()[0]);
                self@.lemma_filter_contains_rev(pred, hits.deep_view()[0]);
                let k = choose|k: int| 0 <= k < self@.len() && self@[k] == hits.deep_view()[0];
                assert(self@[k].id == hits.deep_view()[0].id);
            }
            Ok(hits[0].id())
        }
    }

    /// Deletes the book with the given identity, preserving the relative
    /// order of the rest; fails with `NotFound` when no book has it.
    pub fn remove(&mut self, id: BookId) -> (r: Result<(), LibError>)
        ensures
            match r {
                Ok(()) => has_id(old(self)@, id@) && final(self)@ == old(self)@.remove(
                    id_index(old(self)@, id@),
                ),
                Err(e) => e == LibError::NotFound && !has_id(old(self)@, id@) && final(self)@
                    == old(self)@,
            },
    {
        proof {
            use_type_invariant(&*self);
        }
        match self.index_of_id(id.value()) {
            None => Err(LibError::NotFound),
            Some(i) => {
                let mut books: Vec<Book> = Vec::new();
                core::mem::swap(&mut books, &mut self.books);
                books.remove(i);
                proof {
                    assert(books.deep_view() =~= old(self)@.remove(i as int));
                }
                self.books = books;
                proof {
                    assert(id_index(old(self)@, id@) == i) by {
                        let j = id_index(old(self)@, id@);
                        assert(0 <= j < old(self)@.len() && old(self)@[j].id == id@);
                    }
                }
                Ok(())
            },
        }
    }

    /// Replaces the status of the book with the given identity, in
    /// place; identity and every other field are unchanged. Fails with
    /// `NotFound` when no book has that identity.
    pub fn update_status(&mut self, id: BookId, new_status: Status) -> (r: Result<(), LibError>)
        ensures
            match r {
                Ok(()) => has_id(old(self)@, id@) && ({
                    let i = id_index(old(self)@, id@);
                    final(self)@ == old(self)@.update(
                        i,
                        BookView { status: new_status, ..old(self)@[i] },
                    )
                }),
                Err(e) => e == LibError::NotFound && !has_id(old(self)@, id@) && final(self)@
                    == old(self)@,
            },
    {
        proof {
            use_type_invariant(&*self);
        }
        match self.index_of_id(id.value()) {
            None => Err(LibError::NotFound),
            Some(i) => {
                let mut books: Vec<Book> = Vec::new();
                core::mem::swap(&mut books, &mut self.books);
                let mut b = books.remove(i);
                b.set_status(new_status);
                books.insert(i, b);
                proof {
                    assert(books.deep_view() =~= old(self)@.update(
                        i as int,
                        BookView { status: new_status, ..old(self)@[i as int] },
                    ));
                }
                self.books = books;
                proof {
                    assert(id_index(old(self)@, id@) == i) by {
                        let j = id_index(old(self)@, id@);
                        assert(0 <= j < old(self)@.len() && old(self)@[j].id == id@);
                    }
                }
                Ok(())
            },
        }
    }

    /// Adds the given labels to the tag set of the book with the given
    /// identity. Re-adding a label that is already present is a no-op;
    /// labels repeated in the list collapse. Fails with `NotFound` when
    /// no book has that identity.
    pub fn tag(&mut self, id: BookId, labels: &Vec<String>) -> (r: Result<(), LibError>)
        ensures
            match r {
                Ok(()) => has_id(old(self)@, id@) && ({
                    let i = id_index(old(self)@, id@);
                    final(self)@ == old(self)@.update(
                        i,
                        BookView {
                            tags: crate::book::add_tags(old(self)@[i].tags, labels.deep_view()),
                            ..old(self)@[i]
                        },
                    )
                }),
                Err(e) => e == LibError::NotFound && !has_id(old(self)@, id@) && final(self)@
                    == old(self)@,
            },
    {
        proof {
            use_type_invariant(&*self);
        }
        match self.index_of_id(id.value()) {
            None => Err(LibError::NotFound),
            Some(i) => {
                let mut books: Vec<Book> = Vec::new();
                core::mem::swap(&mut books, &mut self.books);
                let mut b = books.remove(i);
                let ghost orig = b@;
                let mut k: usize = 0;
                proof {
                    assert(labels.deep_view().take(0) =~= Seq::<Seq<char>>::empty());
                }
                while k < labels.len()
                    invariant
                        k <= labels.len(),
                        b@ == (BookView {
                            tags: crate::book::add_tags(orig.tags, labels.deep_view().take(
                                k as int,
                            )),
                            ..orig
                        }),
                    decreases labels.len() - k,
                {
                    let ghost prefix = labels.deep_view().take(k as int);
                    proof {
                        assert(labels.deep_view().take(k + 1) =~= prefix.push(
                            labels.deep_view()[k as int],
                        ));
                        crate::book::lemma_add_tags_snoc(
                            orig.tags,
                            prefix,
                            labels.deep_view()[k as int],
                        );
                    }
                    if !b.has_tag(labels[k].as_str()) {
                        b.push_tag(labels[k].clone());
                    }
                    proof {
                        assert(b@ =~= (BookView {
                            tags: crate::book::add_tags(orig.tags, labels.deep_view().take(k + 1)),
                            ..orig
                        }));
                    }
                    k = k + 1;
                }
                proof {
                    assert(labels.deep_view().take(labels.deep_view().len() as int)
                        =~= labels.deep_view());
                }
                books.insert(i, b);
                proof {
                    assert(books.deep_view() =~= old(self)@.update(
                        i as int,
                        BookView {
                            tags: crate::book::add_tags(old(self)@[i as int].tags,
                                labels.deep_view()),
                            ..old(self)@[i as int]
                        },
                    ));
                    crate::book::lemma_add_tags_unique(old(self)@[i as int].tags,
                        labels.deep_view());
                }
                self.books = books;
                proof {
                    assert(id_index(old(self)@, id@) == i) by {
                        let j = id_index(old(self)@, id@);
                        assert(0 <= j < old(self)@.len() && old(self)@[j].id == id@);
                    }
                }
                Ok(())
            },
        }
    }

    /// Removes any of the given labels present from the tag set of the
    /// book with the given identity; removing an absent label is a
    /// no-op, not an error. Fails with `NotFound` when no book has that
    /// identity.
    pub fn untag(&mut self, id: BookId, labels: &Vec<String>) -> (r: Result<(), LibError>)
        ensures
            match r {
                Ok(()) => has_id(old(self)@, id@) && ({
                    let i = id_index(old(self)@, id@);
                    final(self)@ == old(self)@.update(
                        i,
                        BookView {
                            tags: old(self)@[i].tags.filter(
                                |t: Seq<char>| !labels.deep_view().contains(t),
                            ),
                            ..old(self)@[i]
                        },
                    )
                }),
                Err(e) => e == LibError::NotFound && !has_id(old(self)@, id@) && final(self)@
                    == old(self)@,
            },
    {
        proof {
            use_type_invariant(&*self);
        }
        match self.index_of_id(id.value()) {
            None => Err(LibError::NotFound),
            Some(i) => {
                let mut books: Vec<Book> = Vec::new();
                core::mem::swap(&mut books, &mut self.books);
                let mut b = books.remove(i);
                b.remove_tags(labels);
                books.insert(i, b);
                proof {
                    assert(books.deep_view() =~= old(self)@.update(
                        i as int,
                        BookView {
                            tags: old(self)@[i as int].tags.filter(
                                |t: Seq<char>| !labels.deep_view().contains(t),
                            ),
                            ..old(self)@[i as int]
                        },
                    ));
                    crate::book::lemma_filter_preserves_unique(
                        old(self)@[i as int].tags,
                        |t: Seq<char>| !labels.deep_view().contains(t),
                    );
                }
                self.books = books;
                proof {
                    assert(id_index(old(self)@, id@) == i) by {
                        let j = id_index(old(self)@, id@);
                        assert(0 <= j < old(self)@.len() && old(self)@[j].id == id@);
                    }
                }
                Ok(())
            },
        }
    }
}

impl PartialEq for Library {
    /// Equality is model equality: the same records, in the same order.
    fn eq(&self, other: &Library) -> (r: bool)
    {
        if self.books.len() != other.books.len() {
            assert(self@.len() != other@.len());
            return false;
        }
        let mut i: usize = 0;
        while i < self.books.len()
            invariant
                self@.len() == other@.len(),
                self@.len() == self.books.len(),
                i <= self.books.len(),
                forall|k: int| 0 <= k < i ==> self@[k] == other@[k],
            decreases self.books.len() - i,
        {
            if !(self.books[i] == other.books[i]) {
                assert(self@[i as int] != other@[i as int]);
                return false;
            }
            i = i + 1;
        }
        proof {
            assert(self@ =~= other@);
        }
        true
    }
}

impl vstd::std_specs::cmp::PartialEqSpecImpl for Library {
    open spec fn obeys_eq_spec() -> bool {
        true
    }

    open spec fn eq_spec(&self, other: &Library) -> bool {
        self@ == other@
    }
}

impl Eq for Library {

}

/// The status selection of an add or update command: at most one of the
/// three flags is expected to be set.
#[derive(Clone, Copy, Debug, PartialEq, Eq, Structural)]
pub struct StatusFlag {
    pub want: bool,
    pub reading: bool,
    pub read: bool,
}

impl StatusFlag {
    /// The selected status; `Reading` wins over `Read`, and no flag at
    /// all means the default `Want`.
    pub fn to_status(&self) -> (r: Status)
        ensures
            r == (if self.reading {
                Status::Reading
            } else if self.read {
                Status::Read
            } else {
                Status::Want
            }),
    {
        match (self.reading, self.read) {
            (true, _) => Status::Reading,
            (_, true) => Status::Read,
            _ => Status::Want,
        }
    }

    /// Whether any flag was given.
    pub fn is_set(&self) -> (r: bool)
        ensures
            r == (self.want || self.reading || self.read),
    {
        self.want || self.reading || self.read
    }
}

/// Any book in the collection whose title contains the queried fragment
/// is among the hits of a query that sets only the title predicate. In
/// particular, an entry just appended by `add` (whose ensures puts its
/// record at the end of the collection) is found by searching any
/// substring of its title.
pub proof fn lemma_title_search_finds(s: Seq<BookView>, q: QueryView, b: BookView)
    requires
        s.contains(b),
        q.title matches Some(t) && crate::text::contains_seq(b.title, t),
        q.author is None,
        q.isbn is None,
        q.status is None,
        q.tags is None,
    ensures
        s.filter(|bv: BookView| query_matches(bv, q)).contains(b),
{
    let pred = |bv: BookView| query_matches(bv, q);
    assert(pred(b));
    let i = choose|i: int| 0 <= i < s.len() && s[i] == b;
    s.lemma_filter_contains(pred, i);
}

/// A collection of `n` unique identities cannot cover all of the `n + 1`
/// values `1 ..= n + 1`, so one of those values is free.
proof fn lemma_free_id_exists(s: Seq<BookView>, n: usize)
    requires
        s.len() == n,
        forall|i: int, j: int| 0 <= i < j < s.len() ==> s[i].id != s[j].id,
    ensures
        exists|x: u128| 1 <= x <= (n as u128) + 1 && !has_id(s, x),
{
    assert_by_contradiction!(exists|x: u128| 1 <= x <= (n as u128) + 1 && !has_id(s, x), {
        let f = |m: int| choose|i: int| 0 <= i < n as int && s[i].id as int == m;
        let a = vstd::set_lib::set_int_range(1, n as int + 2);
        vstd::set_lib::lemma_int_range(1, n as int + 2);
        assert forall|m: int| a.contains(m) implies 0 <= #[trigger] f(m) < n as int
            && s[f(m)].id as int == m by {
            let x = m as u128;
            assert(1 <= x <= (n as u128) + 1);
            assert(has_id(s, x));
            let w = choose|i: int| 0 <= i < s.len() && s[i].id == x;
            assert(0 <= w < n as int && s[w].id as int == m);
            assert(exists|i: int| 0 <= i < n as int && s[i].id as int == m);
        }
        assert(vstd::relations::injective_on(f, a)) by {
            assert forall|m1: int, m2: int|
                a.contains(m1) && a.contains(m2) && #[trigger] f(m1) == #[trigger] f(m2)
                implies m1 == m2 by {
                assert(s[f(m1)].id as int == m1 && s[f(m2)].id as int == m2);
            }
        }
        let y = a.map(f);
        vstd::set_lib::lemma_map_size(a, y, f);
        let idxs = vstd::set_lib::set_int_range(0, n as int);
        vstd::set_lib::lemma_int_range(0, n as int);
        assert(y.subset_of(idxs)) by {
            assert forall|b: int| y.contains(b) implies idxs.contains(b) by {
                let m = choose|m: int| a.contains(m) && f(m) == b;
                assert(0 <= f(m) < n as int);
            }
        }
        vstd::set_lib::lemma_len_subset(y, idxs);
    });
}

} // verus!


//! The query type: an immutable, AND-composed filter specification over
//! book records, and its evaluation against one record.

use vstd::prelude::*;

use crate::book::{Book, BookView, Status};
use crate::text::{contains_seq, contains_sub};

verus! {

/// Mathematical model of a `Query`: each predicate either absent or its
/// plain value.
#[verifier::ext_equal]
pub struct QueryView {
    pub title: Option<Seq<char>>,
    pub author: Option<Seq<char>>,
    pub isbn: Option<Seq<char>>,
    pub status: Option<Status>,
    pub tags: Option<Seq<Seq<char>>>,
}

/// No predicate is set. Such a query matches nothing, by design: callers
/// wanting every entry iterate `all` instead.
pub open spec fn query_empty(q: QueryView) -> bool {
    q.title is None && q.author is None && q.isbn is None && q.status is None && q.tags is None
}

/// Whether book `b` satisfies query `q`: every predicate that is set must
/// hold, and a query with no predicate set matches no book at all.
///
/// The title, author and book-number predicates are case-sensitive
/// substring tests; the author one runs against the rendered display
/// string, and the book-number one against the canonical digit string (a
/// book without a number never matches a set book-number predicate). The
/// status predicate is exact equality, and the tags predicate requires
/// every listed tag to be present on the book.
pub open spec fn query_matches(b: BookView, q: QueryView) -> bool {
    &&& !query_empty(q)
    &&& (q.title matches Some(t) ==> contains_seq(b.title, t))
    &&& (q.author matches Some(a) ==> contains_seq(b.author.display(), a))
    &&& (q.isbn matches Some(d) ==> (b.isbn matches Some(i) && contains_seq(i, d)))
    &&& (q.status matches Some(s) ==> b.status == s)
    &&& (q.tags matches Some(ts) ==> forall|k: int|
        0 <= k < ts.len() ==> b.tags.contains(#[trigger] ts[k]))
}

/// An immutable set of optional predicates, combined with logical AND.
#[derive(Debug)]
pub struct Query {
    pub title: Option<String>,
    pub author: Option<String>,
    pub isbn: Option<String>,
    pub status: Option<Status>,
    pub tags: Option<Vec<String>>,
}

impl View for Query {
    type V = QueryView;

    open spec fn view(&self) -> QueryView {
        QueryView {
            title: match self.title {
                Some(ref t) => Some(t@),
                None => None,
            },
            author: match self.author {
                Some(ref a) => Some(a@),
                None => None,
            },
            isbn: match self.isbn {
                Some(ref d) => Some(d@),
                None => None,
            },
            status: self.status,
            tags: match self.tags {
                Some(ref ts) => Some(ts.deep_view()),
                None => None,
            },
        }
    }
}

impl Default for Query {
    /// The query with no predicate set; it matches nothing.
    fn default() -> (r: Self)
        ensures
            query_empty(r@),
    {
        Query { title: None, author: None, isbn: None, status: None, tags: None }
    }
}

impl Query {
    /// Whether no predicate is set.
    pub fn is_empty(&self) -> (r: bool)
        ensures
            r == query_empty(self@),
    {
        self.title.is_none() && self.author.is_none() && self.isbn.is_none()
            && self.status.is_none() && self.tags.is_none()
    }
}

/// Whether the book carries every tag in `ts`.
fn has_all_tags(b: &Book, ts: &Vec<String>) -> (r: bool)
    ensures
        r == (forall|k: int| 0 <= k < ts.deep_view().len() ==> b@.tags.contains(
            #[trigger] ts.deep_view()[k],
        )),
{
    let mut k: usize = 0;
    while k < ts.len()
        invariant
            k <= ts.len(),
            forall|m: int| 0 <= m < k ==> b@.tags.contains(#[trigger] ts.deep_view()[m]),
        decreases ts.len() - k,
    {
        if !b.has_tag(ts[k].as_str()) {
            assert(!b@.tags.contains(ts.deep_view()[k as int]));
            return false;
        }
        k = k + 1;
    }
    true
}

/// Evaluates the query against one book, exactly as `query_matches` says.
pub fn book_matches(b: &Book, q: &Query) -> (r: bool)
    ensures
        r == query_matches(b@, q@),
{
    if q.is_empty() {
        return false;
    }
    let title_ok = match &q.title {
        Some(t) => contains_sub(b.title().as_str(), t.as_str()),
        None => true,
    };
    let author_ok = match &q.author {
        Some(a) => {
            let display = b.author().display();
            contains_sub(display.as_str(), a.as_str())
        },
        None => true,
    };
    let isbn_ok = match &q.isbn {
        Some(d) => match b.isbn() {
            Some(i) => contains_sub(i.digits().as_str(), d.as_str()),
            None => false,
        },
        None => true,
    };
    let status_ok = match q.status {
        Some(s) => s == b.status(),
        None => true,
    };
    let tags_ok = match &q.tags {
        Some(ts) => has_all_tags(b, ts),
        None => true,
    };
    title_ok && author_ok && isbn_ok && status_ok && tags_ok
}

} // verus!

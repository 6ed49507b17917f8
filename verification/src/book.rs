//! Record types for one book entry: reading status, validated book number,
//! contributor name, stable identity, and the entry itself.

use vstd::prelude::*;
use vstd::string::StrSliceExecFns;
use vstd::string::StringExecFns;

verus! {

/// Reading status of a book; a new book defaults to `Want`.
#[derive(Clone, Copy, Debug, PartialEq, Eq, Structural)]
pub enum Status {
    Want,
    Reading,
    Read,
}

impl Default for Status {
    fn default() -> (r: Self)
        ensures
            r == Status::Want,
    {
        Status::Want
    }
}

/// Rejected input: a malformed book number or a contributor name with no
/// content. Reported immediately; nothing is partially applied.
#[derive(Clone, Copy, Debug, PartialEq, Eq, Structural)]
pub enum ValidationError {
    /// The contributor's first name was empty.
    EmptyName,
    /// The book number had a wrong length, prefix, or character.
    BadIdentifier,
}

impl ValidationError {
    /// A user-facing description of the rejected input.
    pub fn message(&self) -> (r: &'static str)
        ensures
            *self is EmptyName ==> r@ == "Contributor name must not be empty."@,
            *self is BadIdentifier ==> r@ == "Invalid book number."@,
    {
        match self {
            ValidationError::EmptyName => "Contributor name must not be empty.",
            ValidationError::BadIdentifier => "Invalid book number.",
        }
    }
}

/// Mathematical model of a `Contributor`: the two name parts.
#[verifier::ext_equal]
pub struct ContributorView {
    pub first: Seq<char>,
    pub surname: Seq<char>,
}

impl ContributorView {
    /// A contributor is well formed when the first name is nonempty.
    pub open spec fn wf(self) -> bool {
        self.first.len() > 0
    }

    /// The rendered display string: "first surname", or just the first
    /// name if the surname is empty.
    pub open spec fn display(self) -> Seq<char> {
        if self.surname.len() == 0 {
            self.first
        } else {
            self.first + seq![' '] + self.surname
        }
    }
}

/// A contributor's name, structured as a first name plus an optional
/// surname. The first name is never empty.
#[derive(Debug)]
pub struct Contributor {
    first: String,
    surname: String,
}

impl View for Contributor {
    type V = ContributorView;

    closed spec fn view(&self) -> ContributorView {
        ContributorView { first: self.first@, surname: self.surname@ }
    }
}

impl Contributor {
    #[verifier::type_invariant]
    pub open spec fn type_inv(self) -> bool {
        self@.wf()
    }

    /// Builds a contributor, rejecting a name with zero tokens (an empty
    /// first name).
    pub fn new(first: String, surname: String) -> (r: Result<Contributor, ValidationError>)
        ensures
            match r {
                Ok(c) => c@ == (ContributorView { first: first@, surname: surname@ })
                    && first@.len() > 0,
                Err(e) => e == ValidationError::EmptyName && first@.len() == 0,
            },
    {
        if first.as_str().unicode_len() == 0 {
            Err(ValidationError::EmptyName)
        } else {
            Ok(Contributor { first, surname })
        }
    }

    /// The first name; never empty.
    pub fn first(&self) -> (r: &String)
        ensures
            r@ == self@.first,
    {
        &self.first
    }

    /// The surname; may be empty.
    pub fn surname(&self) -> (r: &String)
        ensures
            r@ == self@.surname,
    {
        &self.surname
    }

    /// The rendered display string, "first surname" (or only the first
    /// name when there is no surname). Queries match against this string.
    pub fn display(&self) -> (r: String)
        ensures
            r@ == self@.display(),
    {
        if self.surname.as_str().unicode_len() == 0 {
            self.first.clone()
        } else {
            proof {
                reveal_strlit(" ");
            }
            let mut s = self.first.clone();
            s.append(" ");
            s.append(self.surname.as_str());
            assert(" "@ =~= seq![' ']);
            assert(s@ =~= self@.display());
            s
        }
    }
}

impl Clone for Contributor {
    /// A clone is equal to the original.
    fn clone(&self) -> (r: Self)
        ensures
            r == *self,
    {
        proof {
            use_type_invariant(self);
        }
        Contributor { first: self.first.clone(), surname: self.surname.clone() }
    }
}

/// A decimal digit.
pub open spec fn is_digit(c: char) -> bool {
    '0' <= c && c <= '9'
}

/// A valid book number: either the 10-character form (digits, the last of
/// which may be the letter `X`), or the 13-character form, all digits,
/// starting with the recognized prefix 978 or 979.
pub open spec fn valid_identifier(s: Seq<char>) -> bool {
    ||| (s.len() == 10 && (forall|i: int| 0 <= i < 9 ==> is_digit(#[trigger] s[i])) && (is_digit(
        s[9],
    ) || s[9] == 'X'))
    ||| (s.len() == 13 && (forall|i: int| 0 <= i < 13 ==> is_digit(#[trigger] s[i])) && s[0] == '9'
        && s[1] == '7' && (s[2] == '8' || s[2] == '9'))
}

/// A validated book number. The stored string is already the canonical
/// digit string (only digits, plus a possible trailing `X` check digit).
#[derive(Debug)]
pub struct Identifier {
    digits: String,
}

impl Clone for Identifier {
    /// A clone is equal to the original.
    fn clone(&self) -> (r: Self)
        ensures
            r == *self,
    {
        proof {
            use_type_invariant(self);
        }
        Identifier { digits: self.digits.clone() }
    }
}

impl View for Identifier {
    type V = Seq<char>;

    closed spec fn view(&self) -> Seq<char> {
        self.digits@
    }
}

impl Identifier {
    #[verifier::type_invariant]
    pub open spec fn type_inv(self) -> bool {
        valid_identifier(self@)
    }

    /// Validates and stores a book number, rejecting wrong lengths,
    /// unrecognized 13-form prefixes, and non-digit characters.
    pub fn new(s: &str) -> (r: Result<Identifier, ValidationError>)
        ensures
            match r {
                Ok(id) => id@ == s@ && valid_identifier(s@),
                Err(e) => e == ValidationError::BadIdentifier && !valid_identifier(s@),
            },
    {
        let len = s.unicode_len();
        if len == 10 {
            let mut i: usize = 0;
            while i < 9
                invariant
                    len == s@.len() == 10,
                    i <= 9,
                    forall|k: int| 0 <= k < i ==> is_digit(#[trigger] s@[k]),
                decreases 9 - i,
            {
                let c = s.get_char(i);
                if !('0' <= c && c <= '9') {
                    return Err(ValidationError::BadIdentifier);
                }
                i = i + 1;
            }
            let last = s.get_char(9);
            if ('0' <= last && last <= '9') || last == 'X' {
                Ok(Identifier { digits: s.to_owned() })
            } else {
                Err(ValidationError::BadIdentifier)
            }
        } else if len == 13 {
            let mut i: usize = 0;
            while i < 13
                invariant
                    len == s@.len() == 13,
                    i <= 13,
                    forall|k: int| 0 <= k < i ==> is_digit(#[trigger] s@[k]),
                decreases 13 - i,
            {
                let c = s.get_char(i);
                if !('0' <= c && c <= '9') {
                    return Err(ValidationError::BadIdentifier);
                }
                i = i + 1;
            }
            if s.get_char(0) == '9' && s.get_char(1) == '7' && (s.get_char(2) == '8' || s.get_char(
                2,
            ) == '9') {
                Ok(Identifier { digits: s.to_owned() })
            } else {
                Err(ValidationError::BadIdentifier)
            }
        } else {
            Err(ValidationError::BadIdentifier)
        }
    }

    /// The canonical digit string. Queries on a book number match against
    /// a substring of this.
    pub fn digits(&self) -> (r: &String)
        ensures
            r@ == self@,
    {
        &self.digits
    }
}

/// The stable identity of a book in a library. The nil value marks a book
/// not yet inserted; insertion assigns a unique non-nil identity.
#[derive(Clone, Copy, Debug, PartialEq, Eq, Hash, Structural)]
pub struct BookId {
    value: u128,
}

impl View for BookId {
    type V = u128;

    closed spec fn view(&self) -> u128 {
        self.value
    }
}

impl BookId {
    /// The nil identity, held only transiently before insertion.
    pub fn nil() -> (r: BookId)
        ensures
            r@ == 0,
    {
        BookId { value: 0 }
    }

    pub(crate) fn from_value(value: u128) -> (r: BookId)
        ensures
            r@ == value,
    {
        BookId { value }
    }

    pub(crate) fn value(&self) -> (r: u128)
        ensures
            r == self@,
    {
        self.value
    }

    /// Whether this is the nil identity.
    pub fn is_nil(&self) -> (r: bool)
        ensures
            r == (self@ == 0),
    {
        self.value == 0
    }
}

/// No two tags are the same label.
pub open spec fn tags_unique(tags: Seq<Seq<char>>) -> bool {
    forall|i: int, j: int| 0 <= i < j < tags.len() ==> tags[i] != tags[j]
}

/// Adding one tag: a no-op when the label is already present, else an
/// append at the end.
pub open spec fn add_one_tag(ts: Seq<Seq<char>>, t: Seq<char>) -> Seq<Seq<char>> {
    if ts.contains(t) {
        ts
    } else {
        ts.push(t)
    }
}

/// Adding a list of tags, left to right; labels already present (or
/// repeated in the list) collapse.
pub open spec fn add_tags(ts: Seq<Seq<char>>, ls: Seq<Seq<char>>) -> Seq<Seq<char>>
    decreases ls.len(),
{
    if ls.len() == 0 {
        ts
    } else {
        add_tags(add_one_tag(ts, ls[0]), ls.drop_first())
    }
}

/// Adding the tags of `ls` and then one more label `t` is adding
/// `ls.push(t)` at once.
pub proof fn lemma_add_tags_snoc(ts: Seq<Seq<char>>, ls: Seq<Seq<char>>, t: Seq<char>)
    ensures
        add_tags(ts, ls.push(t)) == add_one_tag(add_tags(ts, ls), t),
    decreases ls.len(),
{
    if ls.len() == 0 {
        assert(ls.push(t)[0] == t);
        assert(ls.push(t).drop_first() =~= Seq::<Seq<char>>::empty());
        assert(add_tags(ts, ls.push(t)) == add_tags(
            add_one_tag(ts, t),
            Seq::<Seq<char>>::empty(),
        ));
        assert(add_tags(add_one_tag(ts, t), Seq::<Seq<char>>::empty()) == add_one_tag(ts, t));
        assert(add_tags(ts, ls) == ts);
    } else {
        assert(ls.push(t)[0] == ls[0]);
        assert(ls.push(t).drop_first() =~= ls.drop_first().push(t));
        lemma_add_tags_snoc(add_one_tag(ts, ls[0]), ls.drop_first(), t);
        assert(add_tags(ts, ls.push(t)) == add_tags(
            add_one_tag(ts, ls[0]),
            ls.drop_first().push(t),
        ));
        assert(add_tags(ts, ls) == add_tags(add_one_tag(ts, ls[0]), ls.drop_first()));
    }
}

/// The original tags stay, in place, at the front of the result.
pub proof fn lemma_add_tags_prefix(ts: Seq<Seq<char>>, ls: Seq<Seq<char>>)
    ensures
        ts.len() <= add_tags(ts, ls).len(),
        forall|i: int| 0 <= i < ts.len() ==> add_tags(ts, ls)[i] == ts[i],
    decreases ls.len(),
{
    if ls.len() > 0 {
        let ts1 = add_one_tag(ts, ls[0]);
        lemma_add_tags_prefix(ts1, ls.drop_first());
        assert(add_tags(ts, ls) == add_tags(ts1, ls.drop_first()));
        assert forall|i: int| 0 <= i < ts.len() implies add_tags(ts, ls)[i] == ts[i] by {
            assert(ts1[i] == ts[i]);
            assert(add_tags(ts1, ls.drop_first())[i] == ts1[i]);
        }
    }
}

/// Every added label is present afterwards.
pub proof fn lemma_add_tags_all_present(ts: Seq<Seq<char>>, ls: Seq<Seq<char>>)
    ensures
        forall|k: int| 0 <= k < ls.len() ==> add_tags(ts, ls).contains(#[trigger] ls[k]),
    decreases ls.len(),
{
    if ls.len() > 0 {
        let ts1 = add_one_tag(ts, ls[0]);
        lemma_add_tags_all_present(ts1, ls.drop_first());
        lemma_add_tags_prefix(ts1, ls.drop_first());
        assert(ts1.contains(ls[0])) by {
            if ts.contains(ls[0]) {
            } else {
                assert(ts1[ts.len() as int] == ls[0]);
            }
        }
        assert forall|k: int| 0 <= k < ls.len() implies add_tags(ts, ls).contains(
            #[trigger] ls[k],
        ) by {
            if k == 0 {
                let w = choose|i: int| 0 <= i < ts1.len() && ts1[i] == ls[0];
                assert(add_tags(ts1, ls.drop_first())[w] == ls[0]);
            } else {
                assert(ls.drop_first()[k - 1] == ls[k]);
            }
        }
    }
}

/// Adding labels that are all already present changes nothing.
pub proof fn lemma_add_tags_noop(ts: Seq<Seq<char>>, ls: Seq<Seq<char>>)
    requires
        forall|k: int| 0 <= k < ls.len() ==> ts.contains(#[trigger] ls[k]),
    ensures
        add_tags(ts, ls) == ts,
    decreases ls.len(),
{
    if ls.len() > 0 {
        assert(ts.contains(ls[0]));
        assert(forall|k: int|
            0 <= k < ls.drop_first().len() ==> ts.contains(#[trigger] ls.drop_first()[k]));
        lemma_add_tags_noop(ts, ls.drop_first());
    }
}

/// Applying the same tag list twice yields the same tag set as applying
/// it once: re-adding an existing tag is a no-op.
pub proof fn lemma_tag_idempotent(ts: Seq<Seq<char>>, ls: Seq<Seq<char>>)
    ensures
        add_tags(add_tags(ts, ls), ls) == add_tags(ts, ls),
{
    lemma_add_tags_all_present(ts, ls);
    lemma_add_tags_noop(add_tags(ts, ls), ls);
}

/// Adding tags cannot introduce a repeated label.
pub proof fn lemma_add_tags_unique(ts: Seq<Seq<char>>, ls: Seq<Seq<char>>)
    requires
        tags_unique(ts),
    ensures
        tags_unique(add_tags(ts, ls)),
    decreases ls.len(),
{
    if ls.len() > 0 {
        let ts1 = add_one_tag(ts, ls[0]);
        assert(tags_unique(ts1)) by {
            if !ts.contains(ls[0]) {
                assert forall|i: int, j: int| 0 <= i < j < ts1.len() implies ts1[i]
                    != ts1[j] by {
                    if j < ts1.len() - 1 {
                        assert(ts1[i] == ts[i] && ts1[j] == ts[j]);
                    } else {
                        assert(ts1[i] == ts[i]);
                        assert(!(exists|k: int| 0 <= k < ts.len() && ts[k] == ls[0]));
                    }
                }
            }
        }
        lemma_add_tags_unique(ts1, ls.drop_first());
    }
}

/// Removing labels that are all absent is a no-op.
pub proof fn lemma_untag_absent_noop(ts: Seq<Seq<char>>, ls: Seq<Seq<char>>)
    requires
        forall|k: int| 0 <= k < ls.len() ==> !ts.contains(#[trigger] ls[k]),
    ensures
        ts.filter(|t: Seq<char>| !ls.contains(t)) == ts,
    decreases ts.len(),
{
    reveal(Seq::filter);
    if ts.len() > 0 {
        let rest = ts.drop_last();
        assert(forall|k: int| 0 <= k < rest.len() ==> rest[k] == ts[k]);
        assert forall|k: int| 0 <= k < ls.len() implies !rest.contains(#[trigger] ls[k]) by {
            if rest.contains(ls[k]) {
                let w = choose|i: int| 0 <= i < rest.len() && rest[i] == ls[k];
                assert(ts[w] == ls[k]);
            }
        }
        lemma_untag_absent_noop(rest, ls);
        assert(!ls.contains(ts.last())) by {
            if ls.contains(ts.last()) {
                let w = choose|i: int| 0 <= i < ls.len() && ls[i] == ts.last();
                assert(ts[ts.len() - 1] == ls[w]);
                assert(ts.contains(ls[w]));
            }
        }
        assert(ts.filter(|t: Seq<char>| !ls.contains(t)) =~= ts);
    } else {
        assert(ts.filter(|t: Seq<char>| !ls.contains(t)) =~= ts);
    }
}

/// Keeping only some tags cannot introduce a repeated label.
pub proof fn lemma_filter_preserves_unique(s: Seq<Seq<char>>, p: spec_fn(Seq<char>) -> bool)
    requires
        tags_unique(s),
    ensures
        tags_unique(s.filter(p)),
    decreases s.len(),
{
    reveal(Seq::filter);
    if s.len() > 0 {
        let rest = s.drop_last();
        assert(tags_unique(rest)) by {
            assert(forall|i: int, j: int|
                0 <= i < j < rest.len() ==> rest[i] == s[i] && rest[j] == s[j]);
        }
        lemma_filter_preserves_unique(rest, p);
        if p(s.last()) {
            let out = rest.filter(p).push(s.last());
            assert forall|i: int, j: int| 0 <= i < j < out.len() implies out[i] != out[j] by {
                if j < out.len() - 1 {
                    assert(out[i] == rest.filter(p)[i] && out[j] == rest.filter(p)[j]);
                } else {
                    assert(out[i] == rest.filter(p)[i]);
                    rest.lemma_filter_contains_rev(p, out[i]);
                    let k = choose|k: int| 0 <= k < rest.len() && rest[k] == out[i];
                    assert(s[k] == rest[k] && s[s.len() - 1] == s.last());
                }
            }
        }
    }
}

/// Mathematical model of a `Book`.
#[verifier::ext_equal]
pub struct BookView {
    pub id: u128,
    pub title: Seq<char>,
    pub author: ContributorView,
    pub isbn: Option<Seq<char>>,
    pub status: Status,
    pub tags: Seq<Seq<char>>,
}

impl BookView {
    /// Structural well-formedness of one entry: a well-formed author, a
    /// valid book number when one is present, and no repeated tag.
    pub open spec fn wf(self) -> bool {
        &&& self.author.wf()
        &&& (self.isbn matches Some(d) ==> valid_identifier(d))
        &&& tags_unique(self.tags)
    }

    /// The one-line rendering of an entry: "title, author".
    pub open spec fn display_line(self) -> Seq<char> {
        self.title + seq![',', ' '] + self.author.display()
    }
}

/// The model of an optional book number.
pub open spec fn isbn_view(isbn: Option<Identifier>) -> Option<Seq<char>> {
    match isbn {
        Some(id) => Some(id@),
        None => None,
    }
}

/// One book record. Identity and tags are managed through the owning
/// library; the remaining fields are read through accessors.
#[derive(Debug)]
pub struct Book {
    title: String,
    author: Contributor,
    isbn: Option<Identifier>,
    status: Status,
    id: BookId,
    tags: Vec<String>,
}

impl DeepView for Book {
    type V = BookView;

    open spec fn deep_view(&self) -> BookView {
        self.view()
    }
}

impl View for Book {
    type V = BookView;

    closed spec fn view(&self) -> BookView {
        BookView {
            id: self.id@,
            title: self.title@,
            author: self.author@,
            isbn: isbn_view(self.isbn),
            status: self.status,
            tags: self.tags.deep_view(),
        }
    }
}

impl Book {
    #[verifier::type_invariant]
    pub open spec fn type_inv(self) -> bool {
        self@.wf()
    }

    /// The title, free text.
    pub fn title(&self) -> (r: &String)
        ensures
            r@ == self@.title,
    {
        &self.title
    }

    /// The contributor of this record.
    pub fn author(&self) -> (r: &Contributor)
        ensures
            r@ == self@.author,
    {
        &self.author
    }

    /// The validated book number, when one is present.
    pub fn isbn(&self) -> (r: &Option<Identifier>)
        ensures
            isbn_view(*r) == self@.isbn,
    {
        &self.isbn
    }

    /// The reading status.
    pub fn status(&self) -> (r: Status)
        ensures
            r == self@.status,
    {
        self.status
    }

    /// Replaces the reading status in place; identity, tags and the text
    /// fields are untouched.
    pub fn set_status(&mut self, status: Status)
        ensures
            final(self)@ == (BookView { status, ..old(self)@ }),
    {
        proof {
            use_type_invariant(&*self);
        }
        self.status = status;
    }

    /// A fresh record with the nil identity and no tags.
    pub fn new(title: String, author: Contributor, isbn: Option<Identifier>, status: Status) -> (b:
        Book)
        ensures
            b@ == (BookView {
                id: 0,
                title: title@,
                author: author@,
                isbn: isbn_view(isbn),
                status,
                tags: Seq::empty(),
            }),
    {
        proof {
            use_type_invariant(&author);
            match &isbn {
                Some(i) => use_type_invariant(i),
                None => {},
            }
        }
        let b = Book { title, author, isbn, status, id: BookId::nil(), tags: Vec::new() };
        proof {
            assert(b@.tags =~= Seq::<Seq<char>>::empty());
            assert(b@ =~= (BookView {
                id: 0,
                title: b.title@,
                author: b.author@,
                isbn: isbn_view(b.isbn),
                status: b.status,
                tags: Seq::empty(),
            }));
        }
        b
    }

    pub(crate) fn with_parts(
        title: String,
        author: Contributor,
        isbn: Option<Identifier>,
        status: Status,
        id: BookId,
        tags: Vec<String>,
    ) -> (b: Book)
        requires
            tags_unique(tags.deep_view()),
        ensures
            b@ == (BookView {
                id: id@,
                title: title@,
                author: author@,
                isbn: isbn_view(isbn),
                status,
                tags: tags.deep_view(),
            }),
    {
        proof {
            use_type_invariant(&author);
            match &isbn {
                Some(i) => use_type_invariant(i),
                None => {},
            }
        }
        Book { title, author, isbn, status, id, tags }
    }

    /// The stable identity of this record.
    pub fn id(&self) -> (r: BookId)
        ensures
            r@ == self@.id,
    {
        self.id
    }

    pub(crate) fn set_id(&mut self, id: BookId)
        ensures
            final(self)@ == (BookView { id: id@, ..old(self)@ }),
    {
        proof {
            use_type_invariant(&*self);
        }
        self.id = id;
    }

    /// The tag labels of this record, unique and in insertion order.
    pub fn tags(&self) -> (r: &Vec<String>)
        ensures
            r.deep_view() == self@.tags,
    {
        &self.tags
    }

    /// Whether this record carries the tag `t`.
    pub fn has_tag(&self, t: &str) -> (r: bool)
        ensures
            r == self@.tags.contains(t@),
    {
        let mut i: usize = 0;
        while i < self.tags.len()
            invariant
                i <= self.tags.len(),
                forall|k: int| 0 <= k < i ==> self@.tags[k] != t@,
            decreases self.tags.len() - i,
        {
            if crate::text::str_eq(self.tags[i].as_str(), t) {
                assert(self@.tags[i as int] == t@);
                return true;
            }
            i = i + 1;
        }
        assert(forall|k: int| 0 <= k < self@.tags.len() ==> self@.tags[k] != t@);
        false
    }

    pub(crate) fn push_tag(&mut self, t: String)
        requires
            !old(self)@.tags.contains(t@),
        ensures
            final(self)@ == (BookView { tags: old(self)@.tags.push(t@), ..old(self)@ }),
    {
        proof {
            use_type_invariant(&*self);
        }
        let mut tags: Vec<String> = Vec::new();
        core::mem::swap(&mut tags, &mut self.tags);
        tags.push(t);
        proof {
            assert(tags.deep_view() =~= old(self)@.tags.push(t@));
        }
        self.tags = tags;
        proof {
            assert(self@ =~= (BookView { tags: old(self)@.tags.push(t@), ..old(self)@ }));
        }
    }

    pub(crate) fn remove_tags(&mut self, labels: &Vec<String>)
        ensures
            final(self)@ == (BookView {
                tags: old(self)@.tags.filter(
                    |t: Seq<char>| !labels.deep_view().contains(t),
                ),
                ..old(self)@
            }),
    {
        broadcast use vstd::seq_lib::group_filter_ensures;

        proof {
            use_type_invariant(&*self);
        }
        let ghost pred = |t: Seq<char>| !labels.deep_view().contains(t);
        let mut kept: Vec<String> = Vec::new();
        let mut i: usize = 0;
        proof {
            assert(old(self)@.tags.take(0).filter(pred) =~= Seq::<Seq<char>>::empty());
            assert(kept.deep_view() =~= Seq::<Seq<char>>::empty());
        }
        while i < self.tags.len()
            invariant
                i <= self.tags.len(),
                self.tags == old(self).tags,
                kept.deep_view() == old(self)@.tags.take(i as int).filter(pred),
                pred == (|t: Seq<char>| !labels.deep_view().contains(t)),
            decreases self.tags.len() - i,
        {
            let ghost prefix = old(self)@.tags.take(i as int);
            proof {
                assert(old(self)@.tags.take(i + 1) =~= prefix.push(old(self)@.tags[i as int]));
                prefix.lemma_filter_push(old(self)@.tags[i as int], pred);
            }
            if !crate::text::vec_contains_str(labels, self.tags[i].as_str()) {
                kept.push(self.tags[i].clone());
                proof {
                    assert(kept.deep_view() =~= old(self)@.tags.take(i + 1).filter(pred));
                }
            } else {
                proof {
                    assert(kept.deep_view() =~= old(self)@.tags.take(i + 1).filter(pred));
                }
            }
            i = i + 1;
        }
        proof {
            assert(old(self)@.tags.take(self.tags@.len() as int) =~= old(self)@.tags);
            lemma_filter_preserves_unique(old(self)@.tags, pred);
        }
        self.tags = kept;
        proof {
            assert(self@ =~= (BookView {
                tags: old(self)@.tags.filter(pred),
                ..old(self)@
            }));
        }
    }

    /// The one-line rendering "title, author" used for display.
    pub fn display(&self) -> (r: String)
        ensures
            r@ == self@.display_line(),
    {
        proof {
            reveal_strlit(", ");
        }
        let mut s = self.title.clone();
        s.append(", ");
        let author = self.author.display();
        s.append(author.as_str());
        proof {
            assert(", "@ =~= seq![',', ' ']);
            assert(s@ =~= self@.display_line());
        }
        s
    }
}

impl PartialEq for Book {
    /// Equality is model equality: identity, text fields, book number,
    /// status and tag list all agree.
    fn eq(&self, other: &Book) -> (r: bool)
    {
        let isbn_eq = match (&self.isbn, &other.isbn) {
            (None, None) => true,
            (Some(a), Some(b)) => crate::text::str_eq(a.digits().as_str(), b.digits().as_str()),
            _ => false,
        };
        let r = self.id == other.id && crate::text::str_eq(self.title.as_str(), other.title.as_str())
            && crate::text::str_eq(self.author.first.as_str(), other.author.first.as_str())
            && crate::text::str_eq(self.author.surname.as_str(), other.author.surname.as_str())
            && isbn_eq && self.status == other.status && crate::text::string_vecs_equal(
            &self.tags,
            &other.tags,
        );
        proof {
            if r {
                assert(self@ =~= other@);
            }
        }
        r
    }
}

impl vstd::std_specs::cmp::PartialEqSpecImpl for Book {
    open spec fn obeys_eq_spec() -> bool {
        true
    }

    open spec fn eq_spec(&self, other: &Book) -> bool {
        self@ == other@
    }
}

impl Eq for Book {

}

impl Clone for Book {
    /// A clone models the same record, identity and tags included.
    fn clone(&self) -> (r: Self)
        ensures
            r@ == self@,
    {
        proof {
            use_type_invariant(self);
        }
        let title = self.title.clone();
        let author = self.author.clone();
        let isbn = match &self.isbn {
            Some(id) => Some(id.clone()),
            None => None,
        };
        let tags = self.tags.clone();
        proof {
            assert(tags@ =~= self.tags@);
        }
        let r = Book { title, author, isbn, status: self.status, id: self.id, tags };
        proof {
            assert(r@ =~= self@);
        }
        r
    }
}

} // verus!

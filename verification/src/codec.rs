//! The snapshot codec: a whole-collection byte encoding of a library and
//! its decoder, with a proved round trip.
//!
//! The encoding is a plain data interchange format: a count followed by
//! one record per book, each field length-prefixed, strings as UTF-8,
//! integers little-endian. The decoder accepts exactly the well-formed
//! snapshots: decoding succeeds if and only if the bytes are the
//! encoding of some well-formed collection, and then returns exactly
//! that collection.

use vstd::bytes::{
    spec_u128_from_le_bytes, spec_u128_to_le_bytes, spec_u64_from_le_bytes, spec_u64_to_le_bytes,
    u128_from_le_bytes, u128_to_le_bytes, u64_from_le_bytes, u64_to_le_bytes,
};
use vstd::prelude::*;
use vstd::slice::slice_subrange;
use vstd::string::StrSliceExecFns;
use vstd::string::StringSliceAdditionalSpecFns;
use vstd::utf8::{decode_utf8, encode_utf8, valid_utf8};

use crate::book::{tags_unique, valid_identifier, Book, BookId, BookView, Contributor, Identifier,
    Status};
use crate::{lib_wf, Library};

verus! {

/// A byte stream that is not a well-formed snapshot of a library.
#[derive(Clone, Copy, Debug, PartialEq, Eq, Structural)]
pub struct DecodeError;

impl DecodeError {
    /// A user-facing description of the failure.
    pub fn message(&self) -> (r: &'static str)
        ensures
            r@ == "Malformed library snapshot."@,
    {
        "Malformed library snapshot."
    }
}

// ---------------------------------------------------------------------
// The encoding, as spec functions over the mathematical models.
// ---------------------------------------------------------------------

/// The byte standing for each reading status.
pub open spec fn status_byte(st: Status) -> u8 {
    match st {
        Status::Want => 0u8,
        Status::Reading => 1u8,
        Status::Read => 2u8,
    }
}

/// A string: the length of its UTF-8 form, then that form.
pub open spec fn enc_str(s: Seq<char>) -> Seq<u8> {
    spec_u64_to_le_bytes(encode_utf8(s).len() as u64) + encode_utf8(s)
}

/// An optional book number: a presence byte, then the digit string.
pub open spec fn enc_opt_isbn(o: Option<Seq<char>>) -> Seq<u8> {
    match o {
        None => seq![0u8],
        Some(s) => seq![1u8] + enc_str(s),
    }
}

/// A list of strings, in order.
pub open spec fn enc_str_list(ts: Seq<Seq<char>>) -> Seq<u8>
    decreases ts.len(),
{
    if ts.len() == 0 {
        Seq::empty()
    } else {
        enc_str(ts[0]) + enc_str_list(ts.drop_first())
    }
}

/// One book record: identity, title, the two name parts, the optional
/// book number, the status byte, and the counted tag list.
pub open spec fn enc_book(b: BookView) -> Seq<u8> {
    spec_u128_to_le_bytes(b.id) + enc_str(b.title) + enc_str(b.author.first) + enc_str(
        b.author.surname,
    ) + enc_opt_isbn(b.isbn) + seq![status_byte(b.status)] + spec_u64_to_le_bytes(
        b.tags.len() as u64,
    ) + enc_str_list(b.tags)
}

/// A list of book records, in order.
pub open spec fn enc_book_list(s: Seq<BookView>) -> Seq<u8>
    decreases s.len(),
{
    if s.len() == 0 {
        Seq::empty()
    } else {
        enc_book(s[0]) + enc_book_list(s.drop_first())
    }
}

/// The whole snapshot: the count of books, then each record.
pub open spec fn snapshot_bytes(s: Seq<BookView>) -> Seq<u8> {
    spec_u64_to_le_bytes(s.len() as u64) + enc_book_list(s)
}

/// The length prefixes fit their fields. True of every collection a
/// machine can hold; needed because the models are unbounded.
pub open spec fn str_encodable(s: Seq<char>) -> bool {
    encode_utf8(s).len() <= u64::MAX
}

pub open spec fn book_encodable(b: BookView) -> bool {
    &&& str_encodable(b.title)
    &&& str_encodable(b.author.first)
    &&& str_encodable(b.author.surname)
    &&& (b.isbn matches Some(d) ==> str_encodable(d))
    &&& b.tags.len() <= u64::MAX
    &&& forall|k: int| 0 <= k < b.tags.len() ==> str_encodable(#[trigger] b.tags[k])
}

pub open spec fn snapshot_encodable(s: Seq<BookView>) -> bool {
    &&& s.len() <= u64::MAX
    &&& forall|i: int| 0 <= i < s.len() ==> book_encodable(#[trigger] s[i])
}

// ---------------------------------------------------------------------
// The decoder, as spec functions: each consumes a prefix and returns
// the value with the remaining bytes, or nothing on malformed input.
// ---------------------------------------------------------------------

pub open spec fn parse_u64(b: Seq<u8>) -> Option<(u64, Seq<u8>)> {
    if b.len() >= 8 {
        Some((spec_u64_from_le_bytes(b.take(8)), b.skip(8)))
    } else {
        None
    }
}

pub open spec fn parse_u128(b: Seq<u8>) -> Option<(u128, Seq<u8>)> {
    if b.len() >= 16 {
        Some((spec_u128_from_le_bytes(b.take(16)), b.skip(16)))
    } else {
        None
    }
}

pub open spec fn parse_byte(b: Seq<u8>) -> Option<(u8, Seq<u8>)> {
    if b.len() >= 1 {
        Some((b[0], b.skip(1)))
    } else {
        None
    }
}

pub open spec fn parse_str(b: Seq<u8>) -> Option<(Seq<char>, Seq<u8>)> {
    match parse_u64(b) {
        None => None,
        Some((n, rest)) => {
            if rest.len() >= n && valid_utf8(rest.take(n as int)) {
                Some((decode_utf8(rest.take(n as int)), rest.skip(n as int)))
            } else {
                None
            }
        },
    }
}

pub open spec fn parse_status(b: Seq<u8>) -> Option<(Status, Seq<u8>)> {
    match parse_byte(b) {
        None => None,
        Some((x, rest)) => {
            if x == 0 {
                Some((Status::Want, rest))
            } else if x == 1 {
                Some((Status::Reading, rest))
            } else if x == 2 {
                Some((Status::Read, rest))
            } else {
                None
            }
        },
    }
}

pub open spec fn parse_opt_isbn(b: Seq<u8>) -> Option<(Option<Seq<char>>, Seq<u8>)> {
    match parse_byte(b) {
        None => None,
        Some((flag, rest)) => {
            if flag == 0 {
                Some((None, rest))
            } else if flag == 1 {
                match parse_str(rest) {
                    None => None,
                    Some((s, rest2)) => {
                        if valid_identifier(s) {
                            Some((Some(s), rest2))
                        } else {
                            None
                        }
                    },
                }
            } else {
                None
            }
        },
    }
}

pub open spec fn parse_str_list(b: Seq<u8>, n: int) -> Option<(Seq<Seq<char>>, Seq<u8>)>
    decreases n,
{
    if n <= 0 {
        Some((Seq::empty(), b))
    } else {
        match parse_str(b) {
            None => None,
            Some((s, rest)) => match parse_str_list(rest, n - 1) {
                None => None,
                Some((ss, rest2)) => Some((seq![s] + ss, rest2)),
            },
        }
    }
}

pub open spec fn parse_book(b: Seq<u8>) -> Option<(BookView, Seq<u8>)> {
    match parse_u128(b) {
        None => None,
        Some((id, r1)) => {
            if id == 0 {
                None
            } else {
                match parse_str(r1) {
                    None => None,
                    Some((title, r2)) => match parse_str(r2) {
                        None => None,
                        Some((first, r3)) => {
                            if first.len() == 0 {
                                None
                            } else {
                                match parse_str(r3) {
                                    None => None,
                                    Some((surname, r4)) => match parse_opt_isbn(r4) {
                                        None => None,
                                        Some((isbn, r5)) => match parse_status(r5) {
                                            None => None,
                                            Some((status, r6)) => match parse_u64(r6) {
                                                None => None,
                                                Some((ntags, r7)) => match parse_str_list(
                                                    r7,
                                                    ntags as int,
                                                ) {
                                                    None => None,
                                                    Some((tags, r8)) => {
                                                        if tags_unique(tags) {
                                                            Some((
                                                                BookView {
                                                                    id,
                                                                    title,
                                                                    author:
                                                                        crate::book::ContributorView {
                                                                        first,
                                                                        surname,
                                                                    },
                                                                    isbn,
                                                                    status,
                                                                    tags,
                                                                },
                                                                r8,
                                                            ))
                                                        } else {
                                                            None
                                                        }
                                                    },
                                                },
                                            },
                                        },
                                    },
                                }
                            }
                        },
                    },
                }
            }
        },
    }
}

pub open spec fn parse_book_list(b: Seq<u8>, n: int) -> Option<(Seq<BookView>, Seq<u8>)>
    decreases n,
{
    if n <= 0 {
        Some((Seq::empty(), b))
    } else {
        match parse_book(b) {
            None => None,
            Some((bv, rest)) => match parse_book_list(rest, n - 1) {
                None => None,
                Some((bs, rest2)) => Some((seq![bv] + bs, rest2)),
            },
        }
    }
}

/// The whole decoder: the collection, when the bytes are exactly one
/// well-formed snapshot with unique identities and nothing trailing.
pub open spec fn parse_snapshot(b: Seq<u8>) -> Option<Seq<BookView>> {
    match parse_u64(b) {
        None => None,
        Some((n, rest)) => match parse_book_list(rest, n as int) {
            None => None,
            Some((s, rest2)) => {
                if rest2.len() == 0 && (forall|i: int, j: int|
                    0 <= i < j < s.len() ==> s[i].id != s[j].id) {
                    Some(s)
                } else {
                    None
                }
            },
        },
    }
}

// ---------------------------------------------------------------------
// Round trip: decoding an encoding yields the original collection.
// Canonicity: whatever decodes was exactly the encoding of its result.
// ---------------------------------------------------------------------

proof fn lemma_seq_assoc(a: Seq<u8>, b: Seq<u8>, c: Seq<u8>)
    ensures
        (a + b) + c == a + (b + c),
{
    assert((a + b) + c =~= a + (b + c));
}

proof fn lemma_concat_split(a: Seq<u8>, b: Seq<u8>)
    ensures
        (a + b).len() == a.len() + b.len(),
        (a + b).take(a.len() as int) == a,
        (a + b).skip(a.len() as int) == b,
{
    assert((a + b).take(a.len() as int) =~= a);
    assert((a + b).skip(a.len() as int) =~= b);
}

proof fn lemma_parse_u64_enc(x: u64, rest: Seq<u8>)
    ensures
        parse_u64(spec_u64_to_le_bytes(x) + rest) == Some((x, rest)),
{
    vstd::bytes::lemma_auto_spec_u64_to_from_le_bytes();
    lemma_concat_split(spec_u64_to_le_bytes(x), rest);
}

proof fn lemma_parse_u64_canon(b: Seq<u8>, x: u64, rest: Seq<u8>)
    requires
        parse_u64(b) == Some((x, rest)),
    ensures
        b == spec_u64_to_le_bytes(x) + rest,
{
    vstd::bytes::lemma_auto_spec_u64_to_from_le_bytes();
    assert(b.take(8).len() == 8);
    assert(spec_u64_to_le_bytes(spec_u64_from_le_bytes(b.take(8))) == b.take(8));
    assert(b =~= b.take(8) + b.skip(8));
}

proof fn lemma_parse_u128_enc(x: u128, rest: Seq<u8>)
    ensures
        parse_u128(spec_u128_to_le_bytes(x) + rest) == Some((x, rest)),
{
    vstd::bytes::lemma_auto_spec_u128_to_from_le_bytes();
    lemma_concat_split(spec_u128_to_le_bytes(x), rest);
}

proof fn lemma_parse_u128_canon(b: Seq<u8>, x: u128, rest: Seq<u8>)
    requires
        parse_u128(b) == Some((x, rest)),
    ensures
        b == spec_u128_to_le_bytes(x) + rest,
{
    vstd::bytes::lemma_auto_spec_u128_to_from_le_bytes();
    assert(b.take(16).len() == 16);
    assert(spec_u128_to_le_bytes(spec_u128_from_le_bytes(b.take(16))) == b.take(16));
    assert(b =~= b.take(16) + b.skip(16));
}

proof fn lemma_parse_byte_enc(x: u8, rest: Seq<u8>)
    ensures
        parse_byte(seq![x] + rest) == Some((x, rest)),
{
    lemma_concat_split(seq![x], rest);
    assert((seq![x] + rest)[0] == x);
    assert((seq![x] + rest).skip(1) =~= rest);
}

proof fn lemma_parse_byte_canon(b: Seq<u8>, x: u8, rest: Seq<u8>)
    requires
        parse_byte(b) == Some((x, rest)),
    ensures
        b == seq![x] + rest,
{
    assert(b =~= seq![b[0]] + b.skip(1));
}

proof fn lemma_parse_str_enc(s: Seq<char>, rest: Seq<u8>)
    requires
        str_encodable(s),
    ensures
        parse_str(enc_str(s) + rest) == Some((s, rest)),
{
    let utf8 = encode_utf8(s);
    let lenb = spec_u64_to_le_bytes(utf8.len() as u64);
    assert(enc_str(s) + rest =~= lenb + (utf8 + rest));
    lemma_parse_u64_enc(utf8.len() as u64, utf8 + rest);
    lemma_concat_split(utf8, rest);
    vstd::utf8::encode_utf8_valid_utf8(s);
    vstd::utf8::encode_utf8_decode_utf8(s);
}

proof fn lemma_parse_str_canon(b: Seq<u8>, s: Seq<char>, rest: Seq<u8>)
    requires
        parse_str(b) == Some((s, rest)),
    ensures
        b == enc_str(s) + rest,
        str_encodable(s),
{
    let (n, r) = parse_u64(b)->0;
    lemma_parse_u64_canon(b, n, r);
    let chunk = r.take(n as int);
    vstd::utf8::decode_utf8_encode_utf8(chunk);
    assert(encode_utf8(s) == chunk);
    assert(r =~= chunk + r.skip(n as int));
    assert(b =~= spec_u64_to_le_bytes(n) + (chunk + rest));
    assert(chunk.len() == n);
    assert(enc_str(s) == spec_u64_to_le_bytes(n) + chunk);
    assert(b =~= enc_str(s) + rest);
}

proof fn lemma_parse_status_enc(st: Status, rest: Seq<u8>)
    ensures
        parse_status(seq![status_byte(st)] + rest) == Some((st, rest)),
{
    lemma_parse_byte_enc(status_byte(st), rest);
}

proof fn lemma_parse_status_canon(b: Seq<u8>, st: Status, rest: Seq<u8>)
    requires
        parse_status(b) == Some((st, rest)),
    ensures
        b == seq![status_byte(st)] + rest,
{
    let (x, r) = parse_byte(b)->0;
    lemma_parse_byte_canon(b, x, r);
}

proof fn lemma_parse_opt_isbn_enc(o: Option<Seq<char>>, rest: Seq<u8>)
    requires
        o matches Some(s) ==> str_encodable(s) && valid_identifier(s),
    ensures
        parse_opt_isbn(enc_opt_isbn(o) + rest) == Some((o, rest)),
{
    match o {
        None => {
            lemma_parse_byte_enc(0u8, rest);
        },
        Some(s) => {
            assert(enc_opt_isbn(o) + rest =~= seq![1u8] + (enc_str(s) + rest));
            lemma_parse_byte_enc(1u8, enc_str(s) + rest);
            lemma_parse_str_enc(s, rest);
        },
    }
}

proof fn lemma_parse_opt_isbn_canon(b: Seq<u8>, o: Option<Seq<char>>, rest: Seq<u8>)
    requires
        parse_opt_isbn(b) == Some((o, rest)),
    ensures
        b == enc_opt_isbn(o) + rest,
        o matches Some(s) ==> str_encodable(s) && valid_identifier(s),
{
    let (flag, r) = parse_byte(b)->0;
    lemma_parse_byte_canon(b, flag, r);
    if flag == 0 {
    } else {
        let (s, r2) = parse_str(r)->0;
        lemma_parse_str_canon(r, s, r2);
        assert(b =~= seq![1u8] + (enc_str(s) + rest));
        assert(enc_opt_isbn(o) + rest =~= seq![1u8] + (enc_str(s) + rest));
    }
}

proof fn lemma_parse_str_list_enc(ts: Seq<Seq<char>>, rest: Seq<u8>)
    requires
        forall|k: int| 0 <= k < ts.len() ==> str_encodable(#[trigger] ts[k]),
    ensures
        parse_str_list(enc_str_list(ts) + rest, ts.len() as int) == Some((ts, rest)),
    decreases ts.len(),
{
    if ts.len() == 0 {
        assert(enc_str_list(ts) + rest =~= rest);
        assert(parse_str_list(rest, 0) == Some((Seq::<Seq<char>>::empty(), rest)));
        assert(ts =~= Seq::<Seq<char>>::empty());
    } else {
        let tail = ts.drop_first();
        assert(enc_str_list(ts) + rest =~= enc_str(ts[0]) + (enc_str_list(tail) + rest));
        lemma_parse_str_enc(ts[0], enc_str_list(tail) + rest);
        assert(forall|k: int| 0 <= k < tail.len() ==> str_encodable(#[trigger] tail[k])) by {
            assert(forall|k: int| 0 <= k < tail.len() ==> tail[k] == ts[k + 1]);
        }
        lemma_parse_str_list_enc(tail, rest);
        assert(seq![ts[0]] + tail =~= ts);
    }
}

proof fn lemma_parse_str_list_canon(b: Seq<u8>, n: int, ts: Seq<Seq<char>>, rest: Seq<u8>)
    requires
        parse_str_list(b, n) == Some((ts, rest)),
    ensures
        b == enc_str_list(ts) + rest,
        ts.len() == (if n <= 0 { 0int } else { n }),
        forall|k: int| 0 <= k < ts.len() ==> str_encodable(#[trigger] ts[k]),
    decreases n,
{
    if n <= 0 {
        assert(ts =~= Seq::<Seq<char>>::empty());
        assert(b =~= enc_str_list(ts) + rest);
    } else {
        let (s, r) = parse_str(b)->0;
        lemma_parse_str_canon(b, s, r);
        let (ss, r2) = parse_str_list(r, n - 1)->0;
        lemma_parse_str_list_canon(r, n - 1, ss, r2);
        assert(ts == seq![s] + ss);
        assert(ts[0] == s && ts.drop_first() =~= ss);
        assert(b =~= enc_str(s) + (enc_str_list(ss) + rest));
        assert(enc_str_list(ts) == enc_str(ts[0]) + enc_str_list(ts.drop_first()));
        assert(b =~= enc_str_list(ts) + rest);
    }
}

#[verifier::rlimit(100)]
#[verifier::spinoff_prover]
proof fn lemma_parse_book_enc(b: BookView, rest: Seq<u8>)
    requires
        b.wf(),
        b.id != 0,
        book_encodable(b),
    ensures
        parse_book(enc_book(b) + rest) == Some((b, rest)),
{
    let idb = spec_u128_to_le_bytes(b.id);
    let tb = enc_str(b.title);
    let fb = enc_str(b.author.first);
    let sb = enc_str(b.author.surname);
    let ib = enc_opt_isbn(b.isbn);
    let stb = seq![status_byte(b.status)];
    let ntb = spec_u64_to_le_bytes(b.tags.len() as u64);
    let tsb = enc_str_list(b.tags);
    let t7 = tsb + rest;
    let t6 = ntb + t7;
    let t5 = stb + t6;
    let t4 = ib + t5;
    let t3 = sb + t4;
    let t2 = fb + t3;
    let t1 = tb + t2;
    assert(enc_book(b) + rest == idb + t1) by {
        lemma_seq_assoc(idb + tb + fb + sb + ib + stb + ntb, tsb, rest);
        lemma_seq_assoc(idb + tb + fb + sb + ib + stb, ntb, t7);
        lemma_seq_assoc(idb + tb + fb + sb + ib, stb, t6);
        lemma_seq_assoc(idb + tb + fb + sb, ib, t5);
        lemma_seq_assoc(idb + tb + fb, sb, t4);
        lemma_seq_assoc(idb + tb, fb, t3);
        lemma_seq_assoc(idb, tb, t2);
    }
    lemma_parse_u128_enc(b.id, t1);
    lemma_parse_str_enc(b.title, t2);
    lemma_parse_str_enc(b.author.first, t3);
    lemma_parse_str_enc(b.author.surname, t4);
    lemma_parse_opt_isbn_enc(b.isbn, t5);
    lemma_parse_status_enc(b.status, t6);
    lemma_parse_u64_enc(b.tags.len() as u64, t7);
    lemma_parse_str_list_enc(b.tags, rest);
    assert(parse_u128(enc_book(b) + rest) == Some((b.id, t1)));
    assert(parse_str(t1) == Some((b.title, t2)));
    assert(parse_str(t2) == Some((b.author.first, t3)));
    assert(parse_str(t3) == Some((b.author.surname, t4)));
    assert(parse_opt_isbn(t4) == Some((b.isbn, t5)));
    assert(parse_status(t5) == Some((b.status, t6)));
    assert(parse_u64(t6) == Some((b.tags.len() as u64, t7)));
    assert(parse_str_list(t7, b.tags.len() as int) == Some((b.tags, rest)));
}

#[verifier::rlimit(100)]
#[verifier::spinoff_prover]
proof fn lemma_parse_book_canon(b: Seq<u8>, bv: BookView, rest: Seq<u8>)
    requires
        parse_book(b) == Some((bv, rest)),
    ensures
        b == enc_book(bv) + rest,
        bv.wf(),
        bv.id != 0,
        book_encodable(bv),
{
    let (id, r1) = parse_u128(b)->0;
    lemma_parse_u128_canon(b, id, r1);
    let (title, r2) = parse_str(r1)->0;
    lemma_parse_str_canon(r1, title, r2);
    let (first, r3) = parse_str(r2)->0;
    lemma_parse_str_canon(r2, first, r3);
    let (surname, r4) = parse_str(r3)->0;
    lemma_parse_str_canon(r3, surname, r4);
    let (isbn, r5) = parse_opt_isbn(r4)->0;
    lemma_parse_opt_isbn_canon(r4, isbn, r5);
    let (status, r6) = parse_status(r5)->0;
    lemma_parse_status_canon(r5, status, r6);
    let (ntags, r7) = parse_u64(r6)->0;
    lemma_parse_u64_canon(r6, ntags, r7);
    let (tags, r8) = parse_str_list(r7, ntags as int)->0;
    lemma_parse_str_list_canon(r7, ntags as int, tags, r8);
    assert(tags.len() as u64 == ntags);
    assert(bv == (BookView {
        id,
        title,
        author: crate::book::ContributorView { first, surname },
        isbn,
        status,
        tags,
    }) && rest == r8);
    let idb = spec_u128_to_le_bytes(bv.id);
    let tb = enc_str(bv.title);
    let fb = enc_str(bv.author.first);
    let sb = enc_str(bv.author.surname);
    let ib = enc_opt_isbn(bv.isbn);
    let stb = seq![status_byte(bv.status)];
    let ntb = spec_u64_to_le_bytes(bv.tags.len() as u64);
    let tsb = enc_str_list(bv.tags);
    assert(r7 == tsb + rest);
    assert(r6 == ntb + (tsb + rest));
    assert(r5 == stb + (ntb + (tsb + rest)));
    assert(r4 == ib + (stb + (ntb + (tsb + rest))));
    assert(r3 == sb + (ib + (stb + (ntb + (tsb + rest)))));
    assert(r2 == fb + (sb + (ib + (stb + (ntb + (tsb + rest))))));
    assert(r1 == tb + (fb + (sb + (ib + (stb + (ntb + (tsb + rest)))))));
    assert(b == idb + (tb + (fb + (sb + (ib + (stb + (ntb + (tsb + rest))))))));
    assert(enc_book(bv) + rest == idb + (tb + (fb + (sb + (ib + (stb + (ntb + (tsb
        + rest)))))))) by {
        lemma_seq_assoc(idb + tb + fb + sb + ib + stb + ntb, tsb, rest);
        lemma_seq_assoc(idb + tb + fb + sb + ib + stb, ntb, tsb + rest);
        lemma_seq_assoc(idb + tb + fb + sb + ib, stb, ntb + (tsb + rest));
        lemma_seq_assoc(idb + tb + fb + sb, ib, stb + (ntb + (tsb + rest)));
        lemma_seq_assoc(idb + tb + fb, sb, ib + (stb + (ntb + (tsb + rest))));
        lemma_seq_assoc(idb + tb, fb, sb + (ib + (stb + (ntb + (tsb + rest)))));
        lemma_seq_assoc(idb, tb, fb + (sb + (ib + (stb + (ntb + (tsb + rest))))));
    }
}

#[verifier::rlimit(100)]
#[verifier::spinoff_prover]
proof fn lemma_parse_book_list_enc(s: Seq<BookView>, rest: Seq<u8>)
    requires
        forall|i: int| 0 <= i < s.len() ==> (#[trigger] s[i]).wf() && s[i].id != 0
            && book_encodable(s[i]),
    ensures
        parse_book_list(enc_book_list(s) + rest, s.len() as int) == Some((s, rest)),
    decreases s.len(),
{
    if s.len() == 0 {
        assert(enc_book_list(s) + rest =~= rest);
        assert(s =~= Seq::<BookView>::empty());
    } else {
        let tail = s.drop_first();
        assert(enc_book_list(s) + rest =~= enc_book(s[0]) + (enc_book_list(tail) + rest));
        lemma_parse_book_enc(s[0], enc_book_list(tail) + rest);
        assert(forall|i: int| 0 <= i < tail.len() ==> (#[trigger] tail[i]).wf() && tail[i].id != 0
            && book_encodable(tail[i])) by {
            assert(forall|i: int| 0 <= i < tail.len() ==> tail[i] == s[i + 1]);
        }
        lemma_parse_book_list_enc(tail, rest);
        assert(seq![s[0]] + tail =~= s);
    }
}

#[verifier::rlimit(100)]
#[verifier::spinoff_prover]
proof fn lemma_parse_book_list_canon(b: Seq<u8>, n: int, s: Seq<BookView>, rest: Seq<u8>)
    requires
        parse_book_list(b, n) == Some((s, rest)),
    ensures
        b == enc_book_list(s) + rest,
        s.len() == (if n <= 0 { 0int } else { n }),
        forall|i: int| 0 <= i < s.len() ==> (#[trigger] s[i]).wf() && s[i].id != 0
            && book_encodable(s[i]),
    decreases n,
{
    if n <= 0 {
        assert(s =~= Seq::<BookView>::empty());
        assert(b =~= enc_book_list(s) + rest);
    } else {
        let (bv, r) = parse_book(b)->0;
        lemma_parse_book_canon(b, bv, r);
        let (bs, r2) = parse_book_list(r, n - 1)->0;
        lemma_parse_book_list_canon(r, n - 1, bs, r2);
        assert(s == seq![bv] + bs);
        assert(s[0] == bv && s.drop_first() =~= bs);
        assert(b =~= enc_book(bv) + (enc_book_list(bs) + rest));
        assert(enc_book_list(s) == enc_book(s[0]) + enc_book_list(s.drop_first()));
        assert(b =~= enc_book_list(s) + rest);
    }
}

/// Decoding an encoded well-formed collection yields exactly that
/// collection: the round trip `open(save(library))` reproduces the
/// library, field for field.
pub proof fn lemma_snapshot_roundtrip(s: Seq<BookView>)
    requires
        lib_wf(s),
        snapshot_encodable(s),
    ensures
        parse_snapshot(snapshot_bytes(s)) == Some(s),
{
    lemma_parse_u64_enc(s.len() as u64, enc_book_list(s));
    assert(snapshot_bytes(s) == spec_u64_to_le_bytes(s.len() as u64) + enc_book_list(s));
    assert(enc_book_list(s) =~= enc_book_list(s) + Seq::<u8>::empty());
    lemma_parse_book_list_enc(s, Seq::empty());
}

/// Whatever decodes successfully was exactly the encoding of the
/// decoded collection, which is well formed: the decoder accepts
/// nothing but well-formed snapshots.
pub proof fn lemma_snapshot_canonical(b: Seq<u8>, s: Seq<BookView>)
    requires
        parse_snapshot(b) == Some(s),
    ensures
        b == snapshot_bytes(s),
        lib_wf(s),
        snapshot_encodable(s),
{
    let (n, rest) = parse_u64(b)->0;
    lemma_parse_u64_canon(b, n, rest);
    let (bs, rest2) = parse_book_list(rest, n as int)->0;
    lemma_parse_book_list_canon(rest, n as int, bs, rest2);
    assert(rest2 =~= Seq::<u8>::empty());
    assert(rest =~= enc_book_list(bs));
    assert(s.len() as u64 == n);
    assert(b =~= snapshot_bytes(s));
}

// ---------------------------------------------------------------------
// The executable encoder.
// ---------------------------------------------------------------------

proof fn lemma_enc_str_list_snoc(ts: Seq<Seq<char>>, t: Seq<char>)
    ensures
        enc_str_list(ts.push(t)) == enc_str_list(ts) + enc_str(t),
    decreases ts.len(),
{
    if ts.len() == 0 {
        assert(ts.push(t)[0] == t);
        assert(ts.push(t).drop_first() =~= Seq::<Seq<char>>::empty());
        assert(enc_str_list(Seq::<Seq<char>>::empty()) == Seq::<u8>::empty());
        assert(enc_str_list(ts.push(t)) == enc_str(t) + Seq::<u8>::empty());
        assert(enc_str(t) + Seq::<u8>::empty() =~= Seq::<u8>::empty() + enc_str(t));
    } else {
        assert(ts.push(t)[0] == ts[0]);
        assert(ts.push(t).drop_first() =~= ts.drop_first().push(t));
        lemma_enc_str_list_snoc(ts.drop_first(), t);
        lemma_seq_assoc(enc_str(ts[0]), enc_str_list(ts.drop_first()), enc_str(t));
    }
}

proof fn lemma_enc_book_list_snoc(s: Seq<BookView>, b: BookView)
    ensures
        enc_book_list(s.push(b)) == enc_book_list(s) + enc_book(b),
    decreases s.len(),
{
    if s.len() == 0 {
        assert(s.push(b)[0] == b);
        assert(s.push(b).drop_first() =~= Seq::<BookView>::empty());
        assert(enc_book_list(Seq::<BookView>::empty()) == Seq::<u8>::empty());
        assert(enc_book_list(s.push(b)) == enc_book(b) + Seq::<u8>::empty());
        assert(enc_book(b) + Seq::<u8>::empty() =~= Seq::<u8>::empty() + enc_book(b));
    } else {
        assert(s.push(b)[0] == s[0]);
        assert(s.push(b).drop_first() =~= s.drop_first().push(b));
        lemma_enc_book_list_snoc(s.drop_first(), b);
        lemma_seq_assoc(enc_book(s[0]), enc_book_list(s.drop_first()), enc_book(b));
    }
}

fn write_str(out: &mut Vec<u8>, s: &str)
    ensures
        final(out)@ == old(out)@ + enc_str(s@),
        str_encodable(s@),
{
    let mut bs = s.as_bytes_vec();
    let n: u64 = bs.len() as u64;
    let mut lenb = u64_to_le_bytes(n);
    out.append(&mut lenb);
    out.append(&mut bs);
    proof {
        lemma_seq_assoc(old(out)@, spec_u64_to_le_bytes(n), encode_utf8(s@));
    }
}

fn status_to_byte(st: Status) -> (r: u8)
    ensures
        r == status_byte(st),
{
    match st {
        Status::Want => 0,
        Status::Reading => 1,
        Status::Read => 2,
    }
}

fn write_book(out: &mut Vec<u8>, b: &Book)
    ensures
        final(out)@ == old(out)@ + enc_book(b@),
        book_encodable(b@),
{
    let ghost base = out@;
    let ghost idb = spec_u128_to_le_bytes(b@.id);
    let ghost tb = enc_str(b@.title);
    let ghost fb = enc_str(b@.author.first);
    let ghost sb = enc_str(b@.author.surname);
    let ghost ib = enc_opt_isbn(b@.isbn);
    let ghost stb = seq![status_byte(b@.status)];
    let ghost ntb = spec_u64_to_le_bytes(b@.tags.len() as u64);
    let ghost tsb = enc_str_list(b@.tags);

    let mut idbytes = u128_to_le_bytes(b.id().value());
    out.append(&mut idbytes);
    proof {
        assert(out@ == base + idb);
    }
    write_str(out, b.title().as_str());
    proof {
        lemma_seq_assoc(base, idb, tb);
        assert(out@ == base + (idb + tb));
    }
    write_str(out, b.author().first().as_str());
    proof {
        lemma_seq_assoc(base, idb + tb, fb);
        assert(out@ == base + (idb + tb + fb));
    }
    write_str(out, b.author().surname().as_str());
    proof {
        lemma_seq_assoc(base, idb + tb + fb, sb);
        assert(out@ == base + (idb + tb + fb + sb));
    }
    match b.isbn() {
        None => {
            out.push(0);
            proof {
                assert(out@ =~= base + (idb + tb + fb + sb) + ib);
            }
        },
        Some(ident) => {
            out.push(1);
            proof {
                use_type_invariant(ident);
            }
            write_str(out, ident.digits().as_str());
            proof {
                assert(out@ =~= base + (idb + tb + fb + sb) + ib);
            }
        },
    }
    proof {
        lemma_seq_assoc(base, idb + tb + fb + sb, ib);
        assert(out@ == base + (idb + tb + fb + sb + ib));
    }
    out.push(status_to_byte(b.status()));
    proof {
        assert(out@ =~= base + (idb + tb + fb + sb + ib) + stb);
        lemma_seq_assoc(base, idb + tb + fb + sb + ib, stb);
        assert(out@ == base + (idb + tb + fb + sb + ib + stb));
    }
    let tags = b.tags();
    let mut ntbytes = u64_to_le_bytes(tags.len() as u64);
    out.append(&mut ntbytes);
    proof {
        lemma_seq_assoc(base, idb + tb + fb + sb + ib + stb, ntb);
        assert(out@ == base + (idb + tb + fb + sb + ib + stb + ntb));
    }
    let ghost base2 = out@;
    let mut k: usize = 0;
    proof {
        assert(b@.tags.take(0) =~= Seq::<Seq<char>>::empty());
        assert(base2 + enc_str_list(b@.tags.take(0)) =~= base2);
    }
    while k < tags.len()
        invariant
            k <= tags.len(),
            tags.deep_view() == b@.tags,
            out@ == base2 + enc_str_list(b@.tags.take(k as int)),
            forall|m: int| 0 <= m < k ==> str_encodable(#[trigger] b@.tags[m]),
        decreases tags.len() - k,
    {
        let ghost prefix = b@.tags.take(k as int);
        write_str(out, tags[k].as_str());
        proof {
            assert(tags[k as int]@ == b@.tags[k as int]);
            assert(b@.tags.take(k + 1) =~= prefix.push(b@.tags[k as int]));
            lemma_enc_str_list_snoc(prefix, b@.tags[k as int]);
            lemma_seq_assoc(base2, enc_str_list(prefix), enc_str(b@.tags[k as int]));
        }
        k = k + 1;
    }
    proof {
        assert(b@.tags.take(tags.deep_view().len() as int) =~= b@.tags);
        lemma_seq_assoc(base2, Seq::<u8>::empty(), tsb);
        assert(out@ == base2 + tsb);
        assert(base2 + tsb == base + enc_book(b@)) by {
            lemma_seq_assoc(base, idb + tb + fb + sb + ib + stb + ntb, tsb);
        }
    }
}

impl Library {
    /// Serializes the whole collection to a snapshot byte stream. The
    /// result is exactly `snapshot_bytes` of the collection's model, so
    /// `open` reproduces the library field for field.
    pub fn save(&self) -> (out: Vec<u8>)
        ensures
            out@ == snapshot_bytes(self@),
            snapshot_encodable(self@),
            lib_wf(self@),
    {
        proof {
            use_type_invariant(self);
        }
        let books = self.all();
        let mut out: Vec<u8> = Vec::new();
        let ghost ctb = spec_u64_to_le_bytes(self@.len() as u64);
        let mut lenb = u64_to_le_bytes(books.len() as u64);
        out.append(&mut lenb);
        proof {
            assert(out@ =~= ctb);
            assert(self@.take(0) =~= Seq::<BookView>::empty());
            assert(ctb + enc_book_list(self@.take(0)) =~= ctb);
        }
        let mut i: usize = 0;
        while i < books.len()
            invariant
                i <= books.len(),
                books.deep_view() == self@,
                out@ == ctb + enc_book_list(self@.take(i as int)),
                ctb == spec_u64_to_le_bytes(self@.len() as u64),
                forall|m: int| 0 <= m < i ==> book_encodable(#[trigger] self@[m]),
            decreases books.len() - i,
        {
            let ghost prefix = self@.take(i as int);
            write_book(&mut out, &books[i]);
            proof {
                assert(books[i as int]@ == self@[i as int]);
                assert(self@.take(i + 1) =~= prefix.push(self@[i as int]));
                lemma_enc_book_list_snoc(prefix, self@[i as int]);
                lemma_seq_assoc(ctb, enc_book_list(prefix), enc_book(self@[i as int]));
            }
            i = i + 1;
        }
        proof {
            assert(self@.take(books.deep_view().len() as int) =~= self@);
        }
        out
    }
}

// ---------------------------------------------------------------------
// The executable decoder. Each reader advances a cursor and is proved
// against the corresponding spec parser on the byte suffix.
// ---------------------------------------------------------------------

/// Relies on `core::str::from_utf8`: it succeeds exactly on valid
/// UTF-8, and the returned string slice views the same bytes.
#[verifier::external_body]
fn bytes_to_str(v: &[u8]) -> (r: Option<&str>)
    ensures
        match r {
            Some(s) => valid_utf8(v@) && s.spec_bytes() == v@,
            None => !valid_utf8(v@),
        },
{
    core::str::from_utf8(v).ok()
}

fn read_u64(bytes: &[u8], pos: usize) -> (r: Option<(u64, usize)>)
    requires
        pos <= bytes@.len(),
    ensures
        match r {
            Some(v) => pos <= v.1 <= bytes@.len() && parse_u64(bytes@.skip(pos as int)) == Some(
                (v.0, bytes@.skip(v.1 as int)),
            ),
            None => parse_u64(bytes@.skip(pos as int)) is None,
        },
{
    if bytes.len() - pos >= 8 {
        let chunk = slice_subrange(bytes, pos, pos + 8);
        let x = u64_from_le_bytes(chunk);
        proof {
            assert(bytes@.skip(pos as int).take(8) =~= bytes@.subrange(pos as int, pos + 8));
            assert(bytes@.skip(pos as int).skip(8) =~= bytes@.skip(pos + 8));
        }
        Some((x, pos + 8))
    } else {
        None
    }
}

fn read_u128(bytes: &[u8], pos: usize) -> (r: Option<(u128, usize)>)
    requires
        pos <= bytes@.len(),
    ensures
        match r {
            Some(v) => pos <= v.1 <= bytes@.len() && parse_u128(bytes@.skip(pos as int)) == Some(
                (v.0, bytes@.skip(v.1 as int)),
            ),
            None => parse_u128(bytes@.skip(pos as int)) is None,
        },
{
    if bytes.len() - pos >= 16 {
        let chunk = slice_subrange(bytes, pos, pos + 16);
        let x = u128_from_le_bytes(chunk);
        proof {
            assert(bytes@.skip(pos as int).take(16) =~= bytes@.subrange(pos as int, pos + 16));
            assert(bytes@.skip(pos as int).skip(16) =~= bytes@.skip(pos + 16));
        }
        Some((x, pos + 16))
    } else {
        None
    }
}

fn read_byte(bytes: &[u8], pos: usize) -> (r: Option<(u8, usize)>)
    requires
        pos <= bytes@.len(),
    ensures
        match r {
            Some(v) => pos <= v.1 <= bytes@.len() && parse_byte(bytes@.skip(pos as int)) == Some(
                (v.0, bytes@.skip(v.1 as int)),
            ),
            None => parse_byte(bytes@.skip(pos as int)) is None,
        },
{
    if pos < bytes.len() {
        let x = *vstd::slice::slice_index_get(bytes, pos);
        proof {
            assert(bytes@.skip(pos as int)[0] == bytes@[pos as int]);
            assert(bytes@.skip(pos as int).skip(1) =~= bytes@.skip(pos + 1));
        }
        Some((x, pos + 1))
    } else {
        None
    }
}

fn read_str(bytes: &[u8], pos: usize) -> (r: Option<(String, usize)>)
    requires
        pos <= bytes@.len(),
    ensures
        match r {
            Some(v) => pos <= v.1 <= bytes@.len() && parse_str(bytes@.skip(pos as int)) == Some(
                (v.0@, bytes@.skip(v.1 as int)),
            ),
            None => parse_str(bytes@.skip(pos as int)) is None,
        },
{
    match read_u64(bytes, pos) {
        None => None,
        Some((n, p)) => {
            if n > (bytes.len() - p) as u64 {
                proof {
                    assert(bytes@.skip(p as int).len() < n);
                }
                None
            } else {
                let nu = n as usize;
                let chunk = slice_subrange(bytes, p, p + nu);
                proof {
                    assert(chunk@ =~= bytes@.skip(p as int).take(n as int));
                }
                match bytes_to_str(chunk) {
                    None => None,
                    Some(st) => {
                        proof {
                            vstd::utf8::encode_utf8_decode_utf8(st@);
                            assert(decode_utf8(chunk@) == st@);
                            assert(bytes@.skip(p as int).skip(n as int) =~= bytes@.skip(
                                p + nu,
                            ));
                        }
                        Some((st.to_owned(), p + nu))
                    },
                }
            }
        },
    }
}

fn read_status(bytes: &[u8], pos: usize) -> (r: Option<(Status, usize)>)
    requires
        pos <= bytes@.len(),
    ensures
        match r {
            Some(v) => pos <= v.1 <= bytes@.len() && parse_status(bytes@.skip(pos as int))
                == Some((v.0, bytes@.skip(v.1 as int))),
            None => parse_status(bytes@.skip(pos as int)) is None,
        },
{
    match read_byte(bytes, pos) {
        None => None,
        Some((x, p)) => {
            if x == 0 {
                Some((Status::Want, p))
            } else if x == 1 {
                Some((Status::Reading, p))
            } else if x == 2 {
                Some((Status::Read, p))
            } else {
                None
            }
        },
    }
}

fn read_opt_isbn(bytes: &[u8], pos: usize) -> (r: Option<(Option<Identifier>, usize)>)
    requires
        pos <= bytes@.len(),
    ensures
        match r {
            Some(v) => pos <= v.1 <= bytes@.len() && parse_opt_isbn(bytes@.skip(pos as int))
                == Some((crate::book::isbn_view(v.0), bytes@.skip(v.1 as int))),
            None => parse_opt_isbn(bytes@.skip(pos as int)) is None,
        },
{
    match read_byte(bytes, pos) {
        None => None,
        Some((flag, p)) => {
            if flag == 0 {
                Some((None, p))
            } else if flag == 1 {
                match read_str(bytes, p) {
                    None => None,
                    Some((s, p2)) => match Identifier::new(s.as_str()) {
                        Err(_) => None,
                        Ok(ident) => Some((Some(ident), p2)),
                    },
                }
            } else {
                None
            }
        },
    }
}

spec fn parse_str_list_with(acc: Seq<Seq<char>>, b: Seq<u8>, n: int) -> Option<
    (Seq<Seq<char>>, Seq<u8>),
> {
    match parse_str_list(b, n) {
        None => None,
        Some((ss, rest)) => Some((acc + ss, rest)),
    }
}

fn read_str_list(bytes: &[u8], pos: usize, n: u64) -> (r: Option<(Vec<String>, usize)>)
    requires
        pos <= bytes@.len(),
    ensures
        match r {
            Some(v) => pos <= v.1 <= bytes@.len() && parse_str_list(
                bytes@.skip(pos as int),
                n as int,
            ) == Some((v.0.deep_view(), bytes@.skip(v.1 as int))),
            None => parse_str_list(bytes@.skip(pos as int), n as int) is None,
        },
{
    let mut tags: Vec<String> = Vec::new();
    let mut cur = pos;
    let mut k: u64 = 0;
    proof {
        assert(tags.deep_view() =~= Seq::<Seq<char>>::empty());
        assert(parse_str_list_with(tags.deep_view(), bytes@.skip(pos as int), n as int)
            == parse_str_list(bytes@.skip(pos as int), n as int)) by {
            match parse_str_list(bytes@.skip(pos as int), n as int) {
                None => {},
                Some((ss, rest)) => {
                    assert(Seq::<Seq<char>>::empty() + ss =~= ss);
                },
            }
        }
    }
    while k < n
        invariant
            k <= n,
            pos <= cur <= bytes@.len(),
            parse_str_list(bytes@.skip(pos as int), n as int) == parse_str_list_with(
                tags.deep_view(),
                bytes@.skip(cur as int),
                n - k,
            ),
        decreases n - k,
    {
        let ghost acc = tags.deep_view();
        match read_str(bytes, cur) {
            None => {
                proof {
                    assert(parse_str_list(bytes@.skip(cur as int), n - k) is None);
                }
                return None;
            },
            Some((s, p2)) => {
                proof {
                    let b = bytes@.skip(cur as int);
                    let rest = bytes@.skip(p2 as int);
                    assert(parse_str_list(b, n - k) == (match parse_str_list(rest, n - k - 1) {
                        None => None,
                        Some((ss2, r2)) => Some((seq![s@] + ss2, r2)),
                    }));
                    match parse_str_list(rest, n - k - 1) {
                        None => {},
                        Some((ss2, r2)) => {
                            assert(acc + (seq![s@] + ss2) =~= (acc + seq![s@]) + ss2);
                        },
                    }
                }
                let ghost sv = s@;
                tags.push(s);
                proof {
                    assert(tags.deep_view() =~= acc + seq![sv]);
                }
                cur = p2;
                k = k + 1;
            },
        }
    }
    proof {
        assert(parse_str_list(bytes@.skip(cur as int), 0) == Some(
            (Seq::<Seq<char>>::empty(), bytes@.skip(cur as int)),
        ));
        assert(tags.deep_view() + Seq::<Seq<char>>::empty() =~= tags.deep_view());
    }
    Some((tags, cur))
}

fn tags_vec_unique(ts: &Vec<String>) -> (r: bool)
    ensures
        r == tags_unique(ts.deep_view()),
{
    let mut i: usize = 0;
    while i < ts.len()
        invariant
            i <= ts.len(),
            forall|a: int, b: int| 0 <= a < b < i ==> ts.deep_view()[a] != ts.deep_view()[b],
        decreases ts.len() - i,
    {
        let mut j: usize = 0;
        while j < i
            invariant
                j <= i < ts.len(),
                forall|a: int| 0 <= a < j ==> ts.deep_view()[a] != ts.deep_view()[i as int],
            decreases i - j,
        {
            if crate::text::str_eq(ts[j].as_str(), ts[i].as_str()) {
                assert(ts.deep_view()[j as int] == ts.deep_view()[i as int]);
                return false;
            }
            j = j + 1;
        }
        i = i + 1;
    }
    true
}

fn read_book(bytes: &[u8], pos: usize) -> (r: Option<(Book, usize)>)
    requires
        pos <= bytes@.len(),
    ensures
        match r {
            Some(v) => pos <= v.1 <= bytes@.len() && parse_book(bytes@.skip(pos as int)) == Some(
                (v.0@, bytes@.skip(v.1 as int)),
            ),
            None => parse_book(bytes@.skip(pos as int)) is None,
        },
{
    let (id, p1) = match read_u128(bytes, pos) {
        None => {
            return None;
        },
        Some(v) => v,
    };
    if id == 0 {
        return None;
    }
    let (title, p2) = match read_str(bytes, p1) {
        None => {
            return None;
        },
        Some(v) => v,
    };
    let (first, p3) = match read_str(bytes, p2) {
        None => {
            return None;
        },
        Some(v) => v,
    };
    let (surname, p4) = match read_str(bytes, p3) {
        None => {
            return None;
        },
        Some(v) => v,
    };
    let ghost first_chars = first@;
    let author = match Contributor::new(first, surname) {
        Err(_) => {
            assert(first_chars.len() == 0);
            return None;
        },
        Ok(a) => a,
    };
    let (isbn, p5) = match read_opt_isbn(bytes, p4) {
        None => {
            return None;
        },
        Some(v) => v,
    };
    let (status, p6) = match read_status(bytes, p5) {
        None => {
            return None;
        },
        Some(v) => v,
    };
    let (ntags, p7) = match read_u64(bytes, p6) {
        None => {
            return None;
        },
        Some(v) => v,
    };
    let (tags, p8) = match read_str_list(bytes, p7, ntags) {
        None => {
            return None;
        },
        Some(v) => v,
    };
    if !tags_vec_unique(&tags) {
        return None;
    }
    let book = Book::with_parts(title, author, isbn, status, BookId::from_value(id), tags);
    Some((book, p8))
}

spec fn parse_book_list_with(acc: Seq<BookView>, b: Seq<u8>, n: int) -> Option<
    (Seq<BookView>, Seq<u8>),
> {
    match parse_book_list(b, n) {
        None => None,
        Some((bs, rest)) => Some((acc + bs, rest)),
    }
}

fn read_book_list(bytes: &[u8], pos: usize, n: u64) -> (r: Option<(Vec<Book>, usize)>)
    requires
        pos <= bytes@.len(),
    ensures
        match r {
            Some(v) => pos <= v.1 <= bytes@.len() && parse_book_list(
                bytes@.skip(pos as int),
                n as int,
            ) == Some((v.0.deep_view(), bytes@.skip(v.1 as int))),
            None => parse_book_list(bytes@.skip(pos as int), n as int) is None,
        },
{
    let mut books: Vec<Book> = Vec::new();
    let mut cur = pos;
    let mut k: u64 = 0;
    proof {
        assert(books.deep_view() =~= Seq::<BookView>::empty());
        assert(parse_book_list_with(books.deep_view(), bytes@.skip(pos as int), n as int)
            == parse_book_list(bytes@.skip(pos as int), n as int)) by {
            match parse_book_list(bytes@.skip(pos as int), n as int) {
                None => {},
                Some((bs, rest)) => {
                    assert(Seq::<BookView>::empty() + bs =~= bs);
                },
            }
        }
    }
    while k < n
        invariant
            k <= n,
            pos <= cur <= bytes@.len(),
            parse_book_list(bytes@.skip(pos as int), n as int) == parse_book_list_with(
                books.deep_view(),
                bytes@.skip(cur as int),
                n - k,
            ),
        decreases n - k,
    {
        let ghost acc = books.deep_view();
        match read_book(bytes, cur) {
            None => {
                proof {
                    assert(parse_book_list(bytes@.skip(cur as int), n - k) is None);
                }
                return None;
            },
            Some((bk, p2)) => {
                let ghost bkv = bk@;
                proof {
                    let b = bytes@.skip(cur as int);
                    let rest = bytes@.skip(p2 as int);
                    assert(parse_book_list(b, n - k) == (match parse_book_list(rest, n - k - 1) {
                        None => None,
                        Some((bs2, r2)) => Some((seq![bkv] + bs2, r2)),
                    }));
                    match parse_book_list(rest, n - k - 1) {
                        None => {},
                        Some((bs2, r2)) => {
                            assert(acc + (seq![bkv] + bs2) =~= (acc + seq![bkv]) + bs2);
                        },
                    }
                }
                books.push(bk);
                proof {
                    assert(books.deep_view() =~= acc + seq![bkv]);
                }
                cur = p2;
                k = k + 1;
            },
        }
    }
    proof {
        assert(parse_book_list(bytes@.skip(cur as int), 0) == Some(
            (Seq::<BookView>::empty(), bytes@.skip(cur as int)),
        ));
        assert(books.deep_view() + Seq::<BookView>::empty() =~= books.deep_view());
    }
    Some((books, cur))
}

fn book_ids_unique(books: &Vec<Book>) -> (r: bool)
    ensures
        r == (forall|i: int, j: int|
            0 <= i < j < books.deep_view().len() ==> books.deep_view()[i].id
                != books.deep_view()[j].id),
{
    let mut i: usize = 0;
    while i < books.len()
        invariant
            i <= books.len(),
            forall|a: int, b: int|
                0 <= a < b < i ==> books.deep_view()[a].id != books.deep_view()[b].id,
        decreases books.len() - i,
    {
        let mut j: usize = 0;
        while j < i
            invariant
                j <= i < books.len(),
                forall|a: int| 0 <= a < j ==> books.deep_view()[a].id
                    != books.deep_view()[i as int].id,
            decreases i - j,
        {
            if books[j].id().value() == books[i].id().value() {
                assert(books.deep_view()[j as int].id == books.deep_view()[i as int].id);
                return false;
            }
            j = j + 1;
        }
        i = i + 1;
    }
    true
}

impl Library {
    /// Deserializes a snapshot byte stream. Succeeds exactly when the
    /// bytes are the encoding of a well-formed collection, and then
    /// returns exactly that collection; anything else is a
    /// `DecodeError`.
    pub fn open(bytes: &[u8]) -> (r: Result<Library, DecodeError>)
        ensures
            match r {
                Ok(lib) => parse_snapshot(bytes@) == Some(lib@),
                Err(_) => parse_snapshot(bytes@) is None,
            },
    {
        proof {
            assert(bytes@.skip(0) =~= bytes@);
        }
        let (n, p1) = match read_u64(bytes, 0) {
            None => {
                return Err(DecodeError);
            },
            Some(v) => v,
        };
        let (books, p2) = match read_book_list(bytes, p1, n) {
            None => {
                return Err(DecodeError);
            },
            Some(v) => v,
        };
        if p2 != bytes.len() {
            proof {
                assert(bytes@.skip(p2 as int).len() > 0);
            }
            return Err(DecodeError);
        }
        if !book_ids_unique(&books) {
            return Err(DecodeError);
        }
        proof {
            assert(bytes@.skip(p2 as int).len() == 0);
            lemma_parse_book_list_canon(
                bytes@.skip(p1 as int),
                n as int,
                books.deep_view(),
                bytes@.skip(p2 as int),
            );
        }
        let lib = Library::from_books(books);
        Ok(lib)
    }
}

} // verus!

use spine::book::{Contributor, Identifier};
use spine::{Book, Library, Query, Status};

fn burmese_days() -> Book {
    Book::new(
        "burmese days".to_string(),
        Contributor::new("george".to_string(), "orwell".to_string()).unwrap(),
        None,
        Status::Want,
    )
}

fn kim() -> Book {
    Book::new(
        "kim".to_string(),
        Contributor::new("rudyard".to_string(), "kipling".to_string()).unwrap(),
        Some(Identifier::new("9780199536467").unwrap()),
        Status::Read,
    )
}

fn eighty_days() -> Book {
    Book::new(
        "around the world in eighty days".to_string(),
        Contributor::new("jules".to_string(), "verne".to_string()).unwrap(),
        None,
        Status::Want,
    )
}

fn title_query(t: &str) -> Query {
    Query {
        title: Some(t.to_string()),
        author: None,
        isbn: None,
        status: None,
        tags: None,
    }
}

fn library_with_two_books() -> Library {
    let mut my_lib = Library::new();
    my_lib.add(burmese_days());
    my_lib.add(kim());
    my_lib
}

#[test]
fn add_adds_new_book_without_isbn() {
    let mut my_lib = Library::new();

    my_lib.add(burmese_days());

    let first = &my_lib.all()[0];
    assert_eq!(first.title().as_str(), "burmese days");
    assert_eq!(first.author().display().as_str(), "george orwell");
    assert!(first.isbn().is_none());
    assert_eq!(first.status(), Status::Want);
}

#[test]
fn remove_removes_book_from_library() {
    let mut my_lib = library_with_two_books();

    let id = my_lib.resolve(&title_query("burmese")).unwrap();
    my_lib.remove(id).unwrap();

    assert_ne!(my_lib.all()[0].title().as_str(), "burmese days");
}

#[test]
fn remove_throws_error_if_multiple_hits() {
    let mut my_lib = library_with_two_books();
    my_lib.add(eighty_days());

    let err = my_lib.resolve(&title_query("days")).unwrap_err();

    assert!(err.message().contains("Found multiple books."));
}

#[test]
fn remove_throws_error_if_no_hits() {
    let my_lib = library_with_two_books();

    let err = my_lib.resolve(&title_query("1984")).unwrap_err();

    assert!(err.message().contains("No books found."));
}

#[test]
fn update_status_changes_book_status() {
    let mut my_lib = library_with_two_books();

    let id = my_lib.resolve(&title_query("burmese")).unwrap();
    my_lib.update_status(id, Status::Reading).unwrap();

    let first = &my_lib.all()[0];
    assert_eq!(first.title().as_str(), "burmese days");
    assert_eq!(first.author().display().as_str(), "george orwell");
    assert!(first.isbn().is_none());
    assert_eq!(first.status(), Status::Reading);
}

#[test]
fn update_status_throw_error_if_no_hit() {
    let my_lib = library_with_two_books();

    let err = my_lib.resolve(&title_query("1984")).unwrap_err();

    assert!(err.message().contains("No books found."));
}

#[test]
fn search_finds_single_hit_by_title() {
    let my_lib = library_with_two_books();

    let search_hits = my_lib.search(&title_query("burmese"));

    assert_eq!(search_hits.len(), 1);
    assert_eq!(&search_hits[0], &my_lib.all()[0]);
}

#[test]
fn search_finds_multiple_hits_by_title() {
    let mut my_lib = library_with_two_books();
    my_lib.add(eighty_days());

    let search_hits = my_lib.search(&title_query("days"));

    assert_eq!(search_hits.len(), 2);
    assert_eq!(&search_hits[0], &my_lib.all()[0]);
    assert_eq!(&search_hits[1], &my_lib.all()[2]);
}

#[test]
fn search_finds_multiple_hits_by_author() {
    let mut my_lib = library_with_two_books();
    let new_book = Book::new(
        "felix holt, the radical".to_string(),
        Contributor::new("george".to_string(), "eliot".to_string()).unwrap(),
        None,
        Status::Want,
    );
    my_lib.add(new_book);

    let query = Query {
        title: None,
        author: Some("george".to_string()),
        isbn: None,
        status: None,
        tags: None,
    };
    let search_hits = my_lib.search(&query);

    assert_eq!(search_hits.len(), 2);
    assert_eq!(&search_hits[0], &my_lib.all()[0]);
    assert_eq!(&search_hits[1], &my_lib.all()[2]);
}

#[test]
fn search_finds_single_hit_by_title_and_isbn() {
    let my_lib = library_with_two_books();

    let query = Query {
        title: Some("kim".to_string()),
        author: None,
        isbn: Some("9780199536467".to_string()),
        status: None,
        tags: None,
    };
    let search_hits = my_lib.search(&query);

    assert_eq!(search_hits.len(), 1);
    assert_eq!(&search_hits[0], &my_lib.all()[1]);
}

#[test]
fn search_finds_nothing_by_title() {
    let my_lib = library_with_two_books();

    let search_hits = my_lib.search(&title_query("1984"));

    assert!(search_hits.is_empty());
}

#[test]
fn search_finds_nothing_by_nothing() {
    let my_lib = library_with_two_books();

    let search_hits = my_lib.search(&Query::default());

    assert!(search_hits.is_empty());
}

#[test]
fn save_then_open_restores_library() {
    let my_lib = library_with_two_books();

    let bytes = my_lib.save();
    let opened = Library::open(bytes.as_slice()).unwrap();

    assert_eq!(opened, my_lib, "wrong data");
}

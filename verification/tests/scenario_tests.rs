use spine::book::{Contributor, Identifier};
use spine::{Book, Library, Query, Status};

fn want_book(title: &str, first: &str, surname: &str) -> Book {
    Book::new(
        title.to_string(),
        Contributor::new(first.to_string(), surname.to_string()).unwrap(),
        None,
        Status::Want,
    )
}

fn empty_query() -> Query {
    Query {
        title: None,
        author: None,
        isbn: None,
        status: None,
        tags: None,
    }
}

fn tag_list(tags: &[&str]) -> Vec<String> {
    tags.iter().map(|t| t.to_string()).collect()
}

#[test]
fn two_entry_scenario() {
    let mut lib = Library::new();
    lib.add(want_book("burmese days", "george", "orwell"));
    lib.add(Book::new(
        "kim".to_string(),
        Contributor::new("rudyard".to_string(), "kipling".to_string()).unwrap(),
        Some(Identifier::new("9780199536467").unwrap()),
        Status::Read,
    ));
    let burmese_id = lib.all()[0].id();
    let kim_id = lib.all()[1].id();
    lib.tag(kim_id, &tag_list(&["1800s", "classic"])).unwrap();

    let mut q = empty_query();
    q.title = Some("days".to_string());
    let hits = lib.search(&q);
    assert_eq!(hits.len(), 1);
    assert_eq!(hits[0].title().as_str(), "burmese days");

    let mut q = empty_query();
    q.tags = Some(tag_list(&["classic", "1800s"]));
    let hits = lib.search(&q);
    assert_eq!(hits.len(), 1);
    assert_eq!(hits[0].title().as_str(), "kim");

    lib.update_status(kim_id, Status::Reading).unwrap();
    let mut q = empty_query();
    q.status = Some(Status::Read);
    let hits = lib.search(&q);
    assert!(hits.is_empty());

    lib.remove(burmese_id).unwrap();
    assert_eq!(lib.all().len(), 1);
    assert_eq!(lib.all()[0].title().as_str(), "kim");
}

#[test]
fn search_by_title_fragment_finds_added_book() {
    let mut lib = Library::new();
    lib.add(want_book("the remains of the day", "kazuo", "ishiguro"));
    lib.add(want_book("a pale view of hills", "kazuo", "ishiguro"));

    let mut q = empty_query();
    q.title = Some("pale view".to_string());
    let hits = lib.search(&q);

    assert!(hits.iter().any(|b| b.title().as_str() == "a pale view of hills"));
}

#[test]
fn tagging_twice_equals_tagging_once() {
    let mut lib = Library::new();
    lib.add(want_book("dubliners", "james", "joyce"));
    let id = lib.all()[0].id();

    lib.tag(id, &tag_list(&["x"])).unwrap();
    let once: Vec<String> = lib.all()[0].tags().clone();
    lib.tag(id, &tag_list(&["x"])).unwrap();
    let twice: Vec<String> = lib.all()[0].tags().clone();

    assert_eq!(once, vec!["x".to_string()]);
    assert_eq!(once, twice);
}

#[test]
fn untagging_an_absent_label_is_a_noop() {
    let mut lib = Library::new();
    lib.add(want_book("dubliners", "james", "joyce"));
    let id = lib.all()[0].id();
    lib.tag(id, &tag_list(&["fiction"])).unwrap();

    lib.untag(id, &tag_list(&["x"])).unwrap();

    assert_eq!(lib.all()[0].tags(), &vec!["fiction".to_string()]);
}

#[test]
fn repeated_labels_in_one_tag_call_collapse() {
    let mut lib = Library::new();
    lib.add(want_book("dubliners", "james", "joyce"));
    let id = lib.all()[0].id();

    lib.tag(id, &tag_list(&["x", "x", "y"])).unwrap();

    assert_eq!(lib.all()[0].tags(), &vec!["x".to_string(), "y".to_string()]);
}

#[test]
fn untag_removes_present_labels() {
    let mut lib = Library::new();
    lib.add(want_book("dubliners", "james", "joyce"));
    let id = lib.all()[0].id();
    lib.tag(id, &tag_list(&["a", "b", "c"])).unwrap();

    lib.untag(id, &tag_list(&["b", "z"])).unwrap();

    assert_eq!(lib.all()[0].tags(), &vec!["a".to_string(), "c".to_string()]);
}

#[test]
fn tag_of_unknown_id_is_not_found() {
    let mut lib = Library::new();
    lib.add(want_book("dubliners", "james", "joyce"));

    let err = lib.tag(spine::book::BookId::nil(), &tag_list(&["x"])).unwrap_err();

    assert!(err.message().contains("No books found."));
}

#[test]
fn added_books_get_distinct_ids() {
    let mut lib = Library::new();
    lib.add(want_book("a", "x", ""));
    lib.add(want_book("b", "y", ""));
    lib.add(want_book("c", "z", ""));

    let ids: Vec<_> = lib.all().iter().map(|b| b.id()).collect();
    assert!(!ids[0].is_nil() && !ids[1].is_nil() && !ids[2].is_nil());
    assert_ne!(ids[0], ids[1]);
    assert_ne!(ids[0], ids[2]);
    assert_ne!(ids[1], ids[2]);
}

#[test]
fn re_adding_a_held_book_gets_a_fresh_id() {
    let mut lib = Library::new();
    lib.add(want_book("a tale of two cities", "charles", "dickens"));
    let copy = lib.all()[0].clone();
    let old_id = copy.id();

    lib.add(copy);

    assert_ne!(lib.all()[1].id(), old_id);
    assert_eq!(lib.all()[0].id(), old_id);
}

#[test]
fn remove_of_unknown_id_leaves_library_unchanged() {
    let mut lib = Library::new();
    lib.add(want_book("a", "x", ""));

    let err = lib.remove(spine::book::BookId::nil()).unwrap_err();

    assert!(err.message().contains("No books found."));
    assert_eq!(lib.all().len(), 1);
}

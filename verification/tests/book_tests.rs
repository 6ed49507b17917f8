use spine::book::{Contributor, Identifier, ValidationError};
use spine::{Book, LibError, Status, StatusFlag};

#[test]
fn contributor_displays_first_and_surname() {
    let c = Contributor::new("george".to_string(), "orwell".to_string()).unwrap();
    assert_eq!(c.display().as_str(), "george orwell");
    assert_eq!(c.first().as_str(), "george");
    assert_eq!(c.surname().as_str(), "orwell");
}

#[test]
fn contributor_with_no_surname_displays_first_alone() {
    let c = Contributor::new("homer".to_string(), String::new()).unwrap();
    assert_eq!(c.display().as_str(), "homer");
}

#[test]
fn contributor_with_empty_first_name_is_rejected() {
    let err = Contributor::new(String::new(), "orwell".to_string()).unwrap_err();
    assert_eq!(err, ValidationError::EmptyName);
    assert!(err.message().contains("name"));
}

#[test]
fn ten_character_identifier_is_accepted() {
    let id = Identifier::new("0140283331").unwrap();
    assert_eq!(id.digits().as_str(), "0140283331");
}

#[test]
fn ten_character_identifier_may_end_in_x() {
    let id = Identifier::new("014028333X").unwrap();
    assert_eq!(id.digits().as_str(), "014028333X");
}

#[test]
fn thirteen_character_identifier_needs_known_prefix() {
    assert!(Identifier::new("9780199536467").is_ok());
    assert!(Identifier::new("9790199536467").is_ok());
    let err = Identifier::new("9770199536467").unwrap_err();
    assert_eq!(err, ValidationError::BadIdentifier);
}

#[test]
fn identifier_rejects_bad_lengths_and_characters() {
    assert!(Identifier::new("").is_err());
    assert!(Identifier::new("12345").is_err());
    assert!(Identifier::new("123456789012").is_err());
    assert!(Identifier::new("01402833X1").is_err());
    assert!(Identifier::new("978019953646a").is_err());
    assert!(Identifier::new("X140283331").is_err());
}

#[test]
fn book_displays_title_and_author() {
    let b = Book::new(
        "burmese days".to_string(),
        Contributor::new("george".to_string(), "orwell".to_string()).unwrap(),
        None,
        Status::Want,
    );
    assert_eq!(b.display().as_str(), "burmese days, george orwell");
}

#[test]
fn new_book_has_nil_id_and_no_tags() {
    let b = Book::new(
        "kim".to_string(),
        Contributor::new("rudyard".to_string(), "kipling".to_string()).unwrap(),
        None,
        Status::Read,
    );
    assert!(b.id().is_nil());
    assert!(b.tags().is_empty());
}

#[test]
fn status_defaults_to_want() {
    assert_eq!(Status::default(), Status::Want);
}

#[test]
fn status_flag_maps_to_status() {
    let none = StatusFlag { want: false, reading: false, read: false };
    let want = StatusFlag { want: true, reading: false, read: false };
    let reading = StatusFlag { want: false, reading: true, read: false };
    let read = StatusFlag { want: false, reading: false, read: true };
    assert_eq!(none.to_status(), Status::Want);
    assert_eq!(want.to_status(), Status::Want);
    assert_eq!(reading.to_status(), Status::Reading);
    assert_eq!(read.to_status(), Status::Read);
    assert!(!none.is_set());
    assert!(want.is_set());
    assert!(reading.is_set());
    assert!(read.is_set());
}

#[test]
fn error_messages_name_the_failure() {
    assert_eq!(LibError::NotFound.message(), "No books found.");
    assert_eq!(
        LibError::AmbiguousMatch.message(),
        "Found multiple books. Please be more specific."
    );
    assert!(ValidationError::BadIdentifier.message().contains("book number"));
}

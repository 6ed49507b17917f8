use spine::book::{Contributor, Identifier};
use spine::{Book, Library, Status};

fn sample_library() -> Library {
    let mut lib = Library::new();
    lib.add(Book::new(
        "burmese days".to_string(),
        Contributor::new("george".to_string(), "orwell".to_string()).unwrap(),
        None,
        Status::Want,
    ));
    lib.add(Book::new(
        "kim".to_string(),
        Contributor::new("rudyard".to_string(), "kipling".to_string()).unwrap(),
        Some(Identifier::new("9780199536467").unwrap()),
        Status::Read,
    ));
    let kim_id = lib.all()[1].id();
    lib.tag(kim_id, &vec!["1800s".to_string(), "classic".to_string()]).unwrap();
    lib
}

#[test]
fn round_trip_preserves_every_field() {
    let lib = sample_library();

    let bytes = lib.save();
    let opened = Library::open(bytes.as_slice()).unwrap();

    assert_eq!(opened, lib);
    let kim = &opened.all()[1];
    assert_eq!(kim.id(), lib.all()[1].id());
    assert_eq!(kim.title().as_str(), "kim");
    assert_eq!(kim.author().display().as_str(), "rudyard kipling");
    assert_eq!(kim.isbn().as_ref().unwrap().digits().as_str(), "9780199536467");
    assert_eq!(kim.status(), Status::Read);
    assert_eq!(kim.tags(), &vec!["1800s".to_string(), "classic".to_string()]);
}

#[test]
fn round_trip_of_empty_library() {
    let lib = Library::new();
    let bytes = lib.save();
    let opened = Library::open(bytes.as_slice()).unwrap();
    assert_eq!(opened, lib);
    assert!(opened.all().is_empty());
}

#[test]
fn round_trip_keeps_unicode_titles() {
    let mut lib = Library::new();
    lib.add(Book::new(
        "cien a\u{f1}os de soledad \u{2014} edici\u{f3}n conmemorativa".to_string(),
        Contributor::new("gabriel".to_string(), "garc\u{ed}a m\u{e1}rquez".to_string()).unwrap(),
        None,
        Status::Reading,
    ));
    let bytes = lib.save();
    let opened = Library::open(bytes.as_slice()).unwrap();
    assert_eq!(opened, lib);
}

#[test]
fn garbage_bytes_fail_to_decode() {
    let err = Library::open(b"wrong data".as_slice()).unwrap_err();
    assert!(err.message().contains("snapshot"));
}

#[test]
fn empty_bytes_fail_to_decode() {
    assert!(Library::open(&[]).is_err());
}

#[test]
fn truncated_snapshot_fails_to_decode() {
    let lib = sample_library();
    let bytes = lib.save();
    let truncated = &bytes[..bytes.len() - 1];
    assert!(Library::open(truncated).is_err());
}

#[test]
fn trailing_bytes_fail_to_decode() {
    let lib = sample_library();
    let mut bytes = lib.save();
    bytes.push(0);
    assert!(Library::open(bytes.as_slice()).is_err());
}

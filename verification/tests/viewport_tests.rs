use spine::book::Contributor;
use spine::viewport::{Message, Viewport};
use spine::{Book, Library, Status};

fn library_of(n: usize, status: Status) -> Library {
    let mut lib = Library::new();
    let mut i = 0;
    while i < n {
        lib.add(Book::new(
            format!("book {i}"),
            Contributor::new("some".to_string(), "author".to_string()).unwrap(),
            None,
            status,
        ));
        i += 1;
    }
    lib
}

#[test]
fn seven_cursor_downs_then_a_page_up() {
    let lib = library_of(10, Status::Want);
    let mut vp = Viewport::new(&lib, 3);
    assert_eq!(vp.filtered.len(), 10);
    assert_eq!((vp.cursor, vp.scroll_offset), (0, 0));

    for _ in 0..7 {
        vp.update(&lib, &Message::CursorDown);
    }
    assert_eq!(vp.cursor, 7);
    assert_eq!(vp.scroll_offset, 5);

    vp.update(&lib, &Message::PageUp);
    assert_eq!(vp.cursor, 4);
    assert_eq!(vp.scroll_offset, 2);
}

#[test]
fn cursor_up_scrolls_at_the_top_of_the_window() {
    let lib = library_of(10, Status::Want);
    let mut vp = Viewport::new(&lib, 3);
    for _ in 0..7 {
        vp.update(&lib, &Message::CursorDown);
    }
    assert_eq!((vp.cursor, vp.scroll_offset), (7, 5));

    vp.update(&lib, &Message::CursorUp);
    vp.update(&lib, &Message::CursorUp);
    assert_eq!((vp.cursor, vp.scroll_offset), (5, 5));
    vp.update(&lib, &Message::CursorUp);
    assert_eq!((vp.cursor, vp.scroll_offset), (4, 4));
}

#[test]
fn cursor_stops_at_both_ends() {
    let lib = library_of(2, Status::Want);
    let mut vp = Viewport::new(&lib, 5);

    vp.update(&lib, &Message::CursorUp);
    assert_eq!((vp.cursor, vp.scroll_offset), (0, 0));

    vp.update(&lib, &Message::CursorDown);
    vp.update(&lib, &Message::CursorDown);
    vp.update(&lib, &Message::CursorDown);
    assert_eq!((vp.cursor, vp.scroll_offset), (1, 0));
}

#[test]
fn page_down_caps_at_the_last_full_page() {
    let lib = library_of(10, Status::Want);
    let mut vp = Viewport::new(&lib, 3);

    vp.update(&lib, &Message::PageDown);
    assert_eq!((vp.cursor, vp.scroll_offset), (3, 3));
    vp.update(&lib, &Message::PageDown);
    assert_eq!((vp.cursor, vp.scroll_offset), (6, 6));
    vp.update(&lib, &Message::PageDown);
    assert_eq!((vp.cursor, vp.scroll_offset), (9, 7));
    vp.update(&lib, &Message::PageDown);
    assert_eq!((vp.cursor, vp.scroll_offset), (9, 7));
}

#[test]
fn resize_replaces_the_page_size_only() {
    let lib = library_of(10, Status::Want);
    let mut vp = Viewport::new(&lib, 3);
    vp.update(&lib, &Message::CursorDown);

    vp.update(&lib, &Message::Resize(8));

    assert_eq!(vp.num_visible, 8);
    assert_eq!((vp.cursor, vp.scroll_offset), (1, 0));
    assert!(vp.is_running);
}

#[test]
fn quit_stops_the_loop() {
    let lib = library_of(1, Status::Want);
    let mut vp = Viewport::new(&lib, 3);
    assert!(vp.is_running);

    vp.update(&lib, &Message::Quit);

    assert!(!vp.is_running);
}

#[test]
fn apply_filter_keeps_only_wanted_books_and_resets() {
    let mut lib = library_of(3, Status::Want);
    lib.add(Book::new(
        "finished one".to_string(),
        Contributor::new("some".to_string(), "author".to_string()).unwrap(),
        None,
        Status::Read,
    ));
    let mut vp = Viewport::new(&lib, 3);
    assert_eq!(vp.filtered.len(), 4);
    for _ in 0..2 {
        vp.update(&lib, &Message::CursorDown);
    }

    vp.update(&lib, &Message::ApplyFilter);

    assert_eq!((vp.cursor, vp.scroll_offset), (0, 0));
    assert_eq!(vp.filtered.len(), 3);
    let want_ids: Vec<_> = lib
        .all()
        .iter()
        .filter(|b| b.status() == Status::Want)
        .map(|b| b.id())
        .collect();
    assert_eq!(vp.filtered, want_ids);
}

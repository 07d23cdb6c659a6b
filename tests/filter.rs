use deckard::filter::{extension_of, ExtensionSet};
use deckard::image::Image;
use deckard::ui::{open_args, Error, ModalContents, OpenKind};

#[test]
fn extension_of_paths() {
    assert_eq!(extension_of("/a/b/photo.png").as_deref(), Some("png"));
    assert_eq!(extension_of("photo.tar.gz").as_deref(), Some("gz"));
    assert_eq!(extension_of("/a.dir/photo"), None);
    assert_eq!(extension_of("/a/.hidden"), None);
    assert_eq!(extension_of("/a/.hidden.jpg").as_deref(), Some("jpg"));
    assert_eq!(extension_of("/a/name.").as_deref(), Some(""));
    assert_eq!(extension_of(""), None);
}

#[test]
fn extension_set_accepts_by_extension() {
    let set = ExtensionSet::new(vec!["png".to_owned(), "jpg".to_owned()]);
    assert!(set.accepts("/x/a.png"));
    assert!(set.accepts("b.jpg"));
    assert!(!set.accepts("/x/a.PNG"));
    assert!(!set.accepts("/x/a.gif"));
    assert!(!set.accepts("/x/png"));
    assert!(!set.accepts("/x.png/readme"));
}

#[test]
fn image_new_counts_bytes() {
    let img = Image::new("/x/a.png".to_owned(), vec![1, 2, 3], Some((4, 5)));
    assert_eq!(img.path, "/x/a.png");
    assert_eq!(img.file_size, 3);
    assert_eq!(img.buffer, vec![1, 2, 3]);
    assert_eq!(img.dimm, Some((4, 5)));
}

#[test]
fn modal_and_error_keep_their_text() {
    let m = ModalContents::new("Title".to_owned(), "Body".to_owned());
    assert_eq!(m.title, "Title");
    assert_eq!(m.body, "Body");
    let e = Error::new("Bad".to_owned(), "thing".to_owned());
    assert_eq!(e.message(), "Bad: thing");
}

#[test]
fn open_args_for_each_kind() {
    assert_eq!(open_args("/x/a.png".to_owned(), OpenKind::Open), vec!["/x/a.png"]);
    assert_eq!(open_args("/x/a.png".to_owned(), OpenKind::Reveal), vec!["/x/a.png", "-R"]);
}

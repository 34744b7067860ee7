use photo_transfer::collect::{compatible_files_in_path, Entry};

fn file(path: &str) -> Entry {
    Entry::File { path: path.to_string() }
}

fn dir(path: &str, entries: Vec<Entry>) -> Entry {
    Entry::Dir { path: path.to_string(), entries }
}

#[test]
fn counts_accepted_files_at_both_depths() {
    // two accepted and one rejected at the top, two accepted in a subdirectory
    let root = dir(
        "/in",
        vec![
            file("/in/a.jpg"),
            file("/in/notes.txt"),
            dir("/in/sub", vec![file("/in/sub/c.CR2"), file("/in/sub/d.jpg")]),
            file("/in/b.cr2"),
        ],
    );
    let r = compatible_files_in_path(&root);
    assert_eq!(r.files.len(), 4);
    assert_eq!(r.files, vec!["/in/a.jpg", "/in/sub/c.CR2", "/in/sub/d.jpg", "/in/b.cr2"]);
    assert!(r.skipped.is_empty());
}

#[test]
fn subdirectory_files_come_before_the_subdirectory_itself() {
    let root = dir("/in", vec![dir("/in/album.jpg", vec![file("/in/album.jpg/x.jpg")])]);
    let r = compatible_files_in_path(&root);
    assert_eq!(r.files, vec!["/in/album.jpg/x.jpg", "/in/album.jpg"]);
}

#[test]
fn root_directory_is_not_tested() {
    let root = dir("/in.jpg", vec![file("/in.jpg/a.txt")]);
    let r = compatible_files_in_path(&root);
    assert!(r.files.is_empty());
}

#[test]
fn empty_directory_gives_nothing() {
    let r = compatible_files_in_path(&dir("/in", vec![]));
    assert!(r.files.is_empty());
    assert!(r.skipped.is_empty());
}

#[test]
fn dropped_file_is_filtered() {
    let r = compatible_files_in_path(&file("/in/a.JPG"));
    assert_eq!(r.files, vec!["/in/a.JPG"]);
    let r = compatible_files_in_path(&file("/in/c.txt"));
    assert!(r.files.is_empty());
}

#[test]
fn unreadable_directories_are_skipped_and_listed() {
    let root = dir(
        "/in",
        vec![
            file("/in/a.jpg"),
            Entry::Unreadable { path: "/in/locked".to_string() },
            dir("/in/sub", vec![Entry::Unreadable { path: "/in/sub/deep".to_string() }, file("/in/sub/b.jpg")]),
        ],
    );
    let r = compatible_files_in_path(&root);
    assert_eq!(r.files, vec!["/in/a.jpg", "/in/sub/b.jpg"]);
    assert_eq!(r.skipped, vec!["/in/locked", "/in/sub/deep"]);
    let r = compatible_files_in_path(&Entry::Unreadable { path: "/gone".to_string() });
    assert!(r.files.is_empty());
    assert_eq!(r.skipped, vec!["/gone"]);
}

#[test]
fn collecting_twice_gives_the_same_files() {
    let root = dir("/in", vec![file("/in/a.jpg"), dir("/in/s", vec![file("/in/s/b.cr2")]), file("/in/c.txt")]);
    let first = compatible_files_in_path(&root);
    let second = compatible_files_in_path(&root);
    assert_eq!(first.files, second.files);
}

#[test]
fn another_enumeration_order_gives_the_same_set() {
    let one = dir("/in", vec![file("/in/a.jpg"), file("/in/b.cr2"), file("/in/c.txt")]);
    let two = dir("/in", vec![file("/in/c.txt"), file("/in/b.cr2"), file("/in/a.jpg")]);
    let mut a = compatible_files_in_path(&one).files;
    let mut b = compatible_files_in_path(&two).files;
    assert_eq!(b, vec!["/in/b.cr2", "/in/a.jpg"]);
    a.sort();
    b.sort();
    assert_eq!(a, b);
}

#[test]
fn unreadable_dropped_directory_with_photo_name_gives_nothing() {
    let r = compatible_files_in_path(&Entry::Unreadable { path: "/in/album.jpg".to_string() });
    assert!(r.files.is_empty());
    assert_eq!(r.skipped, vec!["/in/album.jpg"]);
}

#[test]
fn reordering_at_any_depth_keeps_the_files() {
    let one = dir(
        "/in",
        vec![file("/in/a.jpg"), dir("/in/s", vec![file("/in/s/b.cr2"), file("/in/s/c.jpg"), file("/in/s/d.txt")])],
    );
    let two = dir(
        "/in",
        vec![dir("/in/s", vec![file("/in/s/d.txt"), file("/in/s/c.jpg"), file("/in/s/b.cr2")]), file("/in/a.jpg")],
    );
    let mut a = compatible_files_in_path(&one).files;
    let mut b = compatible_files_in_path(&two).files;
    assert_eq!(a, vec!["/in/a.jpg", "/in/s/b.cr2", "/in/s/c.jpg"]);
    assert_eq!(b, vec!["/in/s/c.jpg", "/in/s/b.cr2", "/in/a.jpg"]);
    a.sort();
    b.sort();
    assert_eq!(a, b);
}

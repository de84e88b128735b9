use dfx::locations::{asset_location, asset_locations, WalkedEntry};

fn file(path: &str) -> Option<WalkedEntry> {
    Some(WalkedEntry { is_file: true, path: path.to_string() })
}

fn directory(path: &str) -> Option<WalkedEntry> {
    Some(WalkedEntry { is_file: false, path: path.to_string() })
}

fn located(walked: Vec<Option<WalkedEntry>>, base: &str) -> Option<Vec<(usize, String, String)>> {
    asset_locations(&walked, base)
        .map(|found| found.into_iter().map(|l| (l.entry, l.source, l.key)).collect())
}

fn expected(entry: usize, source: &str, key: &str) -> (usize, String, String) {
    (entry, source.to_string(), key.to_string())
}

#[test]
fn files_are_located_in_the_order_of_the_walk() {
    let walked = vec![
        directory("/p/dist"),
        file("/p/dist/index.html"),
        directory("/p/dist/img"),
        file("/p/dist/img/logo.png"),
    ];
    assert_eq!(
        located(walked, "/p/dist"),
        Some(vec![
            expected(1, "/p/dist/index.html", "/index.html"),
            expected(3, "/p/dist/img/logo.png", "/img/logo.png"),
        ])
    );
}

#[test]
fn unreadable_entries_are_passed_over() {
    let walked = vec![None, file("a/x.css"), None];
    assert_eq!(located(walked, "a"), Some(vec![expected(1, "a/x.css", "/x.css")]));
}

#[test]
fn nothing_walked_is_nothing_located() {
    assert_eq!(located(vec![], "a"), Some(vec![]));
    assert_eq!(located(vec![directory("a")], "a"), Some(vec![]));
}

#[test]
fn a_file_elsewhere_has_no_location() {
    assert_eq!(located(vec![file("b/x.css")], "a"), None);
    assert_eq!(located(vec![file("ab/x.css")], "a"), None);
}

#[test]
fn a_directory_elsewhere_does_not_matter() {
    assert_eq!(located(vec![directory("b")], "a"), Some(vec![]));
}

#[test]
fn a_walked_file_itself_gets_the_bare_key() {
    assert_eq!(located(vec![file("a/x.css")], "a/x.css"), Some(vec![expected(0, "a/x.css", "/")]));
}

#[test]
fn a_trailing_slash_of_the_directory_does_not_matter() {
    assert_eq!(located(vec![file("a/x.css")], "a/"), Some(vec![expected(0, "a/x.css", "/x.css")]));
}

#[test]
fn location_from_its_parts() {
    let location = asset_location(4, "root/d/e.txt", "d/e.txt");
    assert_eq!(location.entry, 4);
    assert_eq!(location.source, "root/d/e.txt");
    assert_eq!(location.key, "/d/e.txt");
    let other = location.clone();
    assert_eq!((other.entry, other.source, other.key), (4, location.source, location.key));
}

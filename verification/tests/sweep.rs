//! What a recursive sweep visits, and the order it visits it in.

use keb::walk::{filter_for, wanted, Filter, Found, Walk};

fn found(path: &str) -> Found<String> {
    Found {
        components: path.split('/').map(|c| c.as_bytes().to_vec()).collect(),
        path: path.to_string(),
    }
}

#[test]
fn deepest_first_then_in_path_order() {
    let all = vec![found("top.txt"), found("a"), found("a/b/deep.txt"), found("a/b"), found("a/c")];
    let walk: Walk<String, ()> = Walk::from_found(all, Vec::new());
    assert_eq!(walk.paths, vec!["a/b/deep.txt", "a/b", "a/c", "a", "top.txt"]);
    assert!(walk.errors.is_empty());
}

#[test]
fn path_order_is_by_component() {
    // `a/b` sorts before `a-b` by component even though `/` follows `-` as a byte
    let walk: Walk<String, ()> = Walk::from_found(vec![found("a-b/x"), found("a/b")], Vec::new());
    assert_eq!(walk.paths, vec!["a/b", "a-b/x"]);
    let walk: Walk<String, ()> = Walk::from_found(vec![found("ab"), found("a")], Vec::new());
    assert_eq!(walk.paths, vec!["a", "ab"]);
}

#[test]
fn errors_pass_through() {
    let walk: Walk<String, &str> =
        Walk::from_found(vec![found("x")], vec![("locked".to_string(), "denied")]);
    assert_eq!(walk.errors, vec![("locked".to_string(), "denied")]);
}

#[test]
fn filters() {
    assert_eq!(filter_for(false, false), Filter::All);
    assert_eq!(filter_for(false, true), Filter::FilesOnly);
    assert_eq!(filter_for(true, false), Filter::DirsOnly);
    assert!(wanted(Filter::All, true) && wanted(Filter::All, false));
    assert!(wanted(Filter::FilesOnly, false) && !wanted(Filter::FilesOnly, true));
    assert!(wanted(Filter::DirsOnly, true) && !wanted(Filter::DirsOnly, false));
}

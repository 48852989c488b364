//! The decisions of a run: one path, the input list, the work list, options and undo.

use keb::journal::Entry;
use keb::plan::{
    decide, dropped_bytes, exit_code, home_relative, options, options_from, outcome, split_list, undo_check,
    undo_source, work_list, Decision, OptionsError, Outcome, UndoAction, UndoEvent, UndoProgress,
};
use keb::protect::Landmine;
use keb::Options;

fn opts() -> Options {
    Options::default()
}

#[test]
fn a_path_component_is_refused() {
    assert!(matches!(decide(".", true, false, &opts()), Decision::PathComponent));
    assert!(matches!(decide("..", true, false, &opts()), Decision::PathComponent));
    assert!(!matches!(decide("...", true, false, &opts()), Decision::PathComponent));
}

#[test]
fn already_kebab_needs_nothing() {
    assert!(matches!(decide("my-file.md", true, false, &opts()), Decision::AlreadyKebab));
    assert!(matches!(decide(".gitignore", false, false, &opts()), Decision::AlreadyKebab));
    // a name that is nothing but dots, within the budget, passes through unchanged
    assert!(matches!(decide("...", true, false, &opts()), Decision::AlreadyKebab));
}

#[test]
fn nothing_left_is_refused() {
    assert!(matches!(decide("🚀.md", true, false, &opts()), Decision::NoKebabForm));
    assert!(matches!(decide("___.md", true, false, &opts()), Decision::NoKebabForm));
}

#[test]
fn an_ordinary_name_is_renamed() {
    match decide("My File.md", false, false, &opts()) {
        Decision::Rename { to, warning } => {
            assert_eq!(to, "my-file.md");
            assert!(warning.is_none());
        }
        _ => panic!("expected a rename"),
    }
}

#[test]
fn a_named_protected_file_is_renamed_with_a_warning() {
    match decide("Makefile", true, false, &opts()) {
        Decision::Rename { to, warning } => {
            assert_eq!(to, "makefile");
            assert_eq!(warning, Some(Landmine::BuildTool));
        }
        _ => panic!("expected a rename"),
    }
}

#[test]
fn a_swept_protected_file_is_skipped() {
    assert!(matches!(
        decide("MyClass.java", false, false, &opts()),
        Decision::SkipProtected(Landmine::JavaSource)
    ));
    // -f renames it, and says nothing
    match decide("MyClass.java", false, true, &opts()) {
        Decision::Rename { to, warning } => {
            assert_eq!(to, "my-class.java");
            assert!(warning.is_none());
        }
        _ => panic!("expected a rename"),
    }
}

#[test]
fn dropped_bytes_are_counted() {
    // a cut three-byte sequence is one replacement character but two dropped bytes
    assert_eq!(dropped_bytes(&[b'A', 0xE2, 0x82, b'b']), 2);
    assert_eq!(dropped_bytes(&[b'c', 0xff, 0xfe]), 2);
    assert_eq!(dropped_bytes("clean ünïcødé €.md".as_bytes()), 0);
    // overlong forms and surrogates are not valid UTF-8
    assert_eq!(dropped_bytes(&[0xC0, 0x80]), 2);
    assert_eq!(dropped_bytes(&[0xED, 0xA0, 0x80]), 3);
    assert_eq!(dropped_bytes(&[0xF0, 0x9F, 0x9A, 0x80]), 0);
}

#[test]
fn reads_a_list() {
    let got = split_list(b"./One File.md\n./Two File.md\n", false);
    assert_eq!(got, vec![b"./One File.md".to_vec(), b"./Two File.md".to_vec()]);
}

#[test]
fn a_windows_list_and_blank_lines() {
    let got = split_list(b"a\r\n\r\n\nb\r", false);
    assert_eq!(got, vec![b"a".to_vec(), b"b".to_vec()]);
    // no trailing separator: the last entry still counts
    assert_eq!(split_list(b"x\ny", false), vec![b"x".to_vec(), b"y".to_vec()]);
    assert!(split_list(b"", false).is_empty());
}

#[test]
fn a_null_separated_list_keeps_newlines_and_returns() {
    let got = split_list(b"one\nname\r\0two\0\0", true);
    assert_eq!(got, vec![b"one\nname\r".to_vec(), b"two".to_vec()]);
}

#[test]
fn home_is_expanded_only_before_a_slash() {
    assert_eq!(home_relative("~/notes/a.md"), Some("notes/a.md".to_string()));
    assert_eq!(home_relative("~"), None);
    assert_eq!(home_relative("~user/a.md"), None);
    assert_eq!(home_relative("a/~/b"), None);
}

#[test]
fn the_work_list_keeps_first_occurrences() {
    let items = vec![
        (b"d/deep".to_vec(), false),
        (b"d".to_vec(), true),
        (b"d/deep".to_vec(), true),
        (b"x".to_vec(), true),
    ];
    let named = vec![b"d".to_vec(), b"d/deep".to_vec(), b"x".to_vec()];
    // the swept copy of d/deep comes first, and is still marked chosen because it
    // was named too
    assert_eq!(work_list(&items, &named), vec![(0, true), (1, true), (3, true)]);

    let swept = vec![(b"a".to_vec(), false), (b"b".to_vec(), true)];
    assert_eq!(work_list(&swept, &vec![b"b".to_vec()]), vec![(0, false), (1, true)]);
}

#[test]
fn options_refuse_what_breaks_a_path() {
    assert_eq!(options(false, Some('/'), None), Err(OptionsError::Separator('/')));
    assert_eq!(options(false, Some('.'), None), Err(OptionsError::Separator('.')));
    assert_eq!(options(false, Some('\n'), None), Err(OptionsError::Separator('\n')));
    assert_eq!(options(false, None, Some(1)), Err(OptionsError::MaxLength));
    // the separator is checked first
    assert_eq!(options(false, Some('/'), Some(1)), Err(OptionsError::Separator('/')));
    assert_eq!(
        options_from(false, Some('\\'), None, true),
        Err(OptionsError::Separator('\\'))
    );
}

#[test]
fn options_that_are_accepted() {
    let o = options(true, Some('_'), Some(12)).unwrap();
    assert_eq!(o, Options { separator: '_', ascii: true, max_length: 12 });
    assert_eq!(options(false, None, None).unwrap(), Options::default());
    assert_eq!(options(false, None, Some(2)).unwrap().max_length, 2);
}

fn entry(from: &str, to: &str, via: Option<&str>, committed: bool) -> Entry {
    Entry {
        from: from.as_bytes().to_vec(),
        to: to.as_bytes().to_vec(),
        via: via.map(|v| v.as_bytes().to_vec()),
        committed,
    }
}

#[test]
fn undo_moves_back_from_the_right_name() {
    assert_eq!(undo_source(&entry("A", "a", None, true), false), Some(b"a".to_vec()));
    // an interrupted two-step rename is recovered from its temporary name
    let half = entry("A", "a", Some(".keb-1-1"), false);
    assert_eq!(undo_source(&half, true), Some(b".keb-1-1".to_vec()));
    assert_eq!(undo_source(&half, false), None);
    assert_eq!(undo_source(&entry("A", "a", None, false), true), None);
}

#[test]
fn undo_never_clobbers() {
    assert_eq!(undo_check(false, false, false), UndoAction::Gone);
    assert_eq!(undo_check(true, true, false), UndoAction::Occupied);
    assert_eq!(undo_check(true, true, true), UndoAction::Move);
    assert_eq!(undo_check(true, false, false), UndoAction::Move);
}

#[test]
fn a_failed_undo_keeps_the_journal() {
    let mut p = UndoProgress::new();
    p.record(UndoEvent::Moved);
    p.record(UndoEvent::Skipped);
    assert!(!p.partial && p.spends_journal(false));
    assert!(!p.spends_journal(true));
    p.record(UndoEvent::Gone);
    assert!(p.partial && p.spends_journal(false));
    p.record(UndoEvent::Occupied);
    assert!(!p.spends_journal(false));
    let mut q = UndoProgress::new();
    q.record(UndoEvent::Failed);
    assert!(q.partial && q.retryable);
}

#[test]
fn running_twice_changes_nothing() {
    let to = match decide("My File.md", true, false, &opts()) {
        Decision::Rename { to, .. } => to,
        _ => panic!("expected a rename"),
    };
    assert_eq!(to, "my-file.md");
    assert!(matches!(decide(&to, true, false, &opts()), Decision::AlreadyKebab));
}

#[test]
fn a_backslash_separates_words_only_where_paths_do_not() {
    let r = options(false, Some('\\'), None);
    if std::path::is_separator('\\') {
        assert_eq!(r, Err(OptionsError::Separator('\\')));
    } else {
        assert_eq!(r.unwrap().separator, '\\');
    }
    assert_eq!(options(false, Some('_'), None).unwrap().separator, '_');
}

#[test]
fn a_failed_path_makes_the_run_partial() {
    assert_eq!(outcome(false, &vec![true, true]), Outcome::Clean);
    assert_eq!(outcome(false, &vec![true, false, true]), Outcome::Partial);
    assert_eq!(outcome(true, &vec![]), Outcome::Partial);
    assert_eq!(exit_code(Some(Outcome::Clean)), 0);
    assert_eq!(exit_code(Some(Outcome::Partial)), 1);
    assert_eq!(exit_code(None), 2);
}

/// A tree of names: each path that exists, with the file it names.
type Tree = std::collections::BTreeMap<Vec<u8>, u32>;

fn under(p: &[u8], a: &[u8]) -> bool {
    p == a || (p.len() > a.len() && &p[..a.len()] == a && p[a.len()] == b'/')
}

fn move_tree(t: &Tree, a: &[u8], b: &[u8]) -> Tree {
    t.iter()
        .map(|(p, f)| if under(p, a) { ([b, &p[a.len()..]].concat(), *f) } else { (p.clone(), *f) })
        .collect()
}

#[test]
fn undo_gives_back_the_tree_a_run_started_from() {
    let start: Tree = [
        (b"My Dir".to_vec(), 1),
        (b"My Dir/Sub Dir".to_vec(), 2),
        (b"My Dir/Sub Dir/Deep File.md".to_vec(), 3),
        (b"My File.md".to_vec(), 4),
        (b"my_file.md".to_vec(), 5),
    ]
    .into_iter()
    .collect();
    // deepest first, as a run renames
    let run = [
        entry("My Dir/Sub Dir/Deep File.md", "My Dir/Sub Dir/deep-file.md", None, true),
        entry("My Dir/Sub Dir", "My Dir/sub-dir", None, true),
        entry("My Dir", "my-dir", None, true),
        entry("My File.md", "my-file.md", None, true),
        entry("my_file.md", "my-file-2.md", None, true),
    ];
    let mut t = start.clone();
    for e in &run {
        t = move_tree(&t, &e.from, &e.to);
    }
    assert!(t.contains_key(b"my-dir/sub-dir/deep-file.md".as_slice()));
    for e in run.iter().rev() {
        let src = undo_source(e, false).unwrap();
        let same = t.get(&src).is_some() && t.get(&src) == t.get(&e.from);
        if undo_check(t.contains_key(&src), t.contains_key(&e.from), same) == UndoAction::Move {
            t = move_tree(&t, &src, &e.from);
        }
    }
    assert_eq!(t, start);
}

//! Collision resolution, claims and temporary names.

use keb::rename::{
    rename_steps, resolve_step, same_file, Claims, MoveStep, Mover, Occupant, Step, Target,
};
use keb::Options;

#[test]
fn two_names_collapsing_to_one_get_suffixed() {
    let o = Options::default();
    match resolve_step("my-file.md", "my-file.md", 2, Occupant::Other { is_dir: false }, false, &o) {
        Step::Next(c) => assert_eq!(c, "my-file-2.md"),
        _ => panic!("expected the next candidate"),
    }
    match resolve_step("my-file.md", "my-file-2.md", 3, Occupant::Nobody, false, &o) {
        Step::Done(Target::Free(c)) => assert_eq!(c, "my-file-2.md"),
        _ => panic!("expected a free name"),
    }
}

#[test]
fn the_same_file_is_no_collision() {
    let o = Options::default();
    assert!(matches!(
        resolve_step("file.md", "file.md", 2, Occupant::SameFile, false, &o),
        Step::Done(Target::Free(_))
    ));
}

#[test]
fn force_overwrites_a_file_but_never_a_directory() {
    let o = Options::default();
    assert!(matches!(
        resolve_step("my-file.md", "my-file.md", 2, Occupant::Other { is_dir: false }, true, &o),
        Step::Done(Target::Overwrite(_))
    ));
    assert!(matches!(
        resolve_step("my-file.md", "my-file.md", 2, Occupant::Other { is_dir: true }, true, &o),
        Step::Next(_)
    ));
}

#[test]
fn too_many_suffixes_block() {
    let o = Options::default();
    assert!(matches!(
        resolve_step("a.md", "a-9999.md", 10_000, Occupant::Other { is_dir: false }, false, &o),
        Step::Done(Target::Blocked(_))
    ));
}

#[test]
fn claims_decide_before_the_disk() {
    let mut c = Claims::default();
    let k = b"dir/my-file.md".to_vec();
    assert!(matches!(c.occupant(&k, false, false, false), Occupant::Nobody));
    assert!(matches!(c.occupant(&k, true, true, false), Occupant::SameFile));
    c.take(&k);
    assert!(c.taken(&k));
    // taken by this run, whatever the disk says
    assert!(matches!(c.occupant(&k, false, false, false), Occupant::Other { is_dir: false }));
    c.vacate(&k);
    assert!(c.vacated(&k));
    // moved out of the way since
    assert!(matches!(c.occupant(&k, true, false, false), Occupant::Nobody));
    assert!(!c.taken(&b"other".to_vec()));
}

#[test]
fn temporary_names_count_up() {
    let mut m = Mover::new(false, false);
    assert_eq!(m.next_temp_name(999), ".keb-999-1");
    assert_eq!(m.next_temp_name(999), ".keb-999-2");
    assert_eq!(m.counter, 2);
}

#[test]
fn without_inodes_case_decides() {
    assert!(same_file(true, true, "A/File.md", "a/file.md"));
    assert!(!same_file(true, false, "File.md", "file.md"));
    assert!(!same_file(true, true, "File.md", "Other.md"));
}

/// The caller's loop, with a list of names standing in for the disk.
fn run(name: &str, held: &[(&str, bool)], force: bool) -> Target {
    let o = keb::Options::default();
    let mut candidate = name.to_string();
    let mut n: u32 = 2;
    loop {
        let occupant = match held.iter().find(|(h, _)| *h == candidate) {
            Some((_, is_dir)) => Occupant::Other { is_dir: *is_dir },
            None => Occupant::Nobody,
        };
        match resolve_step(name, &candidate, n, occupant, force, &o) {
            Step::Done(t) => return t,
            Step::Next(next) => {
                candidate = next;
                n += 1;
            }
        }
    }
}

#[test]
fn the_lowest_free_ordinal_wins() {
    let held = [("my-file.md", false), ("my-file-2.md", false), ("my-file-4.md", false)];
    assert!(matches!(run("my-file.md", &held, false), Target::Free(c) if c == "my-file-3.md"));
    assert!(matches!(run("other.md", &held, false), Target::Free(c) if c == "other.md"));
    // with -f the first candidate is replaced, being a file
    assert!(matches!(run("my-file.md", &held, true), Target::Overwrite(c) if c == "my-file.md"));
    // a directory is passed over, never replaced
    let dirs = [("docs", true)];
    assert!(matches!(run("docs", &dirs, true), Target::Free(c) if c == "docs-2"));
}

#[test]
fn a_rename_is_journalled_around_its_moves() {
    assert!(rename_steps(true, false, true, true).is_empty());
    assert_eq!(
        rename_steps(false, false, false, false),
        vec![MoveStep::Plan, MoveStep::Git { replace: false }, MoveStep::Direct, MoveStep::Commit]
    );
    assert_eq!(
        rename_steps(false, false, true, true),
        vec![
            MoveStep::Plan,
            MoveStep::Git { replace: true },
            MoveStep::ToTemp,
            MoveStep::FromTemp,
            MoveStep::Commit
        ]
    );
    assert_eq!(
        rename_steps(false, true, true, false),
        vec![MoveStep::Plan, MoveStep::Git { replace: true }, MoveStep::Direct, MoveStep::Commit]
    );
}

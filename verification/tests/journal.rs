//! The undo journal's format.

use keb::journal::{
    commit_record, decode, drop_last_run_cut, encode, journal_path, journal_path_windows, last_run,
    parse, path_key_of, plan_record, run_record, trim_keep,
};

fn lines(v: &[&str]) -> Vec<String> {
    v.iter().map(|s| s.to_string()).collect()
}

#[test]
fn paths_round_trip() {
    for p in ["a b.md", "wei\trd\nname", "100%.md", "./A Dir/My File.md", "ünïcødé.md"] {
        assert_eq!(decode(&encode(p.as_bytes())), p.as_bytes().to_vec());
    }
}

#[test]
fn invalid_utf8_round_trips() {
    // a filename is bytes, not text
    let raw = vec![b'c', 0xff, 0xfe];
    assert_eq!(decode(&encode(&raw)), raw);
}

#[test]
fn encoded_paths_cannot_forge_a_record() {
    let sneaky = "x\tDONE\ta\tb";
    assert!(!encode(sneaky.as_bytes()).contains('\t'));
}

#[test]
fn groups_runs_and_marks_commits() {
    let lines = lines(&["RUN", "PLAN\ta\tb\t", "DONE\ta\tb", "RUN", "PLAN\tc\td\tc.tmp"]);
    let runs = parse(&lines);
    assert_eq!(runs.len(), 2);
    assert!(runs[0][0].committed);
    assert!(!runs[1][0].committed);
    assert_eq!(runs[1][0].via, Some(b"c.tmp".to_vec()));
}

#[test]
fn encoding_is_exact() {
    assert_eq!(encode(b"a b%\t\xff"), "a b%25%09%FF");
    assert_eq!(decode("%41%62%2b"), b"Ab+".to_vec());
    // not a hex pair, or too close to the end: kept as it is
    assert_eq!(decode("%zz%4"), b"%zz%4".to_vec());
    // `u8::from_str_radix` accepts a leading `+`
    assert_eq!(decode("%+9"), vec![9u8]);
}

#[test]
fn records_read_back() {
    let mut l = vec![run_record()];
    l.push(plan_record(b"My File.md", b"my-file.md", None));
    l.push(commit_record(b"My File.md", b"my-file.md"));
    l.push(plan_record(b"A\tB", b"a-b", Some(b".keb-1-1")));
    assert_eq!(l[1], "PLAN\tMy File.md\tmy-file.md\t");
    let run = last_run(&l);
    assert_eq!(run.len(), 2);
    assert_eq!(run[0].from, b"My File.md".to_vec());
    assert_eq!(run[0].to, b"my-file.md".to_vec());
    assert_eq!(run[0].via, None);
    assert!(run[0].committed);
    assert_eq!(run[1].from, b"A\tB".to_vec());
    assert_eq!(run[1].via, Some(b".keb-1-1".to_vec()));
    assert!(!run[1].committed);
}

#[test]
fn nothing_to_undo() {
    assert!(last_run(&[]).is_empty());
    // records before the first run marker are ignored
    assert!(parse(&lines(&["PLAN\ta\tb\t", "DONE\ta\tb"])).is_empty());
}

#[test]
fn dropping_and_trimming_runs() {
    let l = lines(&["RUN", "PLAN\ta\tb\t", "RUN", "PLAN\tc\td\t", "DONE\tc\td"]);
    assert_eq!(drop_last_run_cut(&l), 2);
    assert_eq!(drop_last_run_cut(&lines(&["PLAN\ta\tb\t"])), 1);
    assert_eq!(trim_keep(&l), 0);
    let mut many = Vec::new();
    for i in 0..25 {
        many.push("RUN".to_string());
        many.push(format!("PLAN\t{i}\tx\t"));
    }
    // the last 20 runs are kept: the first kept line is run 5's marker
    assert_eq!(trim_keep(&many), 10);
}

fn b(s: &str) -> Option<Vec<u8>> {
    Some(s.as_bytes().to_vec())
}

#[test]
fn the_journal_lives_in_the_state_directory() {
    assert_eq!(journal_path(b("/state"), b("/home/u")), b("/state/keb/journal.tsv"));
    assert_eq!(journal_path(b("/state/"), None), b("/state/keb/journal.tsv"));
    // a relative XDG_STATE_HOME is ignored
    assert_eq!(journal_path(b("state"), b("/home/u")), b("/home/u/.local/state/keb/journal.tsv"));
    assert_eq!(journal_path(b(""), b("/home/u/")), b("/home/u/.local/state/keb/journal.tsv"));
    assert_eq!(journal_path(None, None), None);
    assert_eq!(journal_path(b("rel"), None), None);
    assert_eq!(
        journal_path_windows(b("C:\\Users\\u\\AppData\\Local")),
        b("C:\\Users\\u\\AppData\\Local\\keb\\journal.tsv")
    );
    assert_eq!(journal_path_windows(b("C:")), b("C:keb\\journal.tsv"));
    assert_eq!(journal_path_windows(None), None);
}

#[test]
fn done_commits_the_latest_matching_plan_only() {
    let runs = parse(&lines(&[
        "RUN",
        "PLAN\ta\tb\t",
        "PLAN\tc\td\t",
        "PLAN\ta\tb\t",
        "garbage line",
        "DONE\ta\tb",
        "DONE\tx\ty",
        "PLAN\tonly-one-field",
    ]));
    assert_eq!(runs.len(), 1);
    let run = &runs[0];
    assert_eq!(run.len(), 3);
    assert!(!run[0].committed);
    assert!(!run[1].committed);
    assert!(run[2].committed);
    assert_eq!(run[2].from, b"a".to_vec());
}

#[test]
fn done_matches_its_plan_component_by_component() {
    let key = |p: &str| String::from_utf8(path_key_of(&p.as_bytes().to_vec())).unwrap();
    assert_eq!(key("a//b"), "a/b");
    assert_eq!(key("a/./b/"), "a/b");
    assert_eq!(key("./a/./b"), "./a/b");
    assert_eq!(key("/a//b/."), "/a/b");
    assert_eq!(key("a/.."), "a/..");
    let runs = parse(&lines(&["RUN", "PLAN\tdir//A.md\tdir/a.md\t", "DONE\tdir/A.md\tdir/./a.md"]));
    assert!(runs[0][0].committed);
    let runs = parse(&lines(&["RUN", "PLAN\t/dir/A.md\tdir/a.md\t", "DONE\tdir/A.md\tdir/a.md"]));
    assert!(!runs[0][0].committed);
}

//! The promises that hold of every input, on examples.

use keb::{kebab, kebab_with, kebab_word, with_ordinal, Options};

const SAMPLES: &[&str] = &[
    "My File.md",
    "XMLHttpRequest.MD",
    "Report (Final) [v2].md",
    "My.Archive.tar.gz",
    "Component.Test.tsx",
    "v1.2.3-Release.zip",
    "a1.2b..",
    "..config.md",
    "Tom & Jerry.md",
    "C++ Notes.md",
    "Learn F# Fast.md",
    "Asp.Net Core.md",
    "2024-01-02T10:30:00Z.log",
    "A.b.c",
    "x.MODULE.SCSS",
    "a.TeSt.tsx",
    "X Net.md",
    "Photo.JpEg",
    "...",
    "",
];

#[test]
fn kebab_twice_changes_nothing() {
    for s in SAMPLES {
        let once = kebab(s);
        assert_eq!(kebab(&once), once, "{s}");
    }
    for sep in ['_', ' ', '+', '~', '.'] {
        let o = Options { separator: sep, ..Options::default() };
        for s in SAMPLES {
            let once = kebab_with(s, &o);
            assert_eq!(kebab_with(&once, &o), once, "{s} with {sep:?}");
        }
    }
}

#[test]
fn a_word_twice_is_the_word() {
    for s in ["parseJSONData", "Chapter10Part2", "IPv6Address", "a&b", "C#"] {
        let once = kebab_word(s);
        assert_eq!(kebab_word(&once), once);
    }
}

#[test]
fn a_compound_extension_in_any_case_reads_back() {
    // an extension component of ASCII letters and digits is lowercased whole, so the
    // head of `.test.tsx` still binds on the next pass
    assert_eq!(kebab("a.TeSt.tsx"), "a.test.tsx");
    assert_eq!(kebab("a.test.tsx"), "a.test.tsx");
    assert_eq!(kebab("x.TaR.gZ"), "x.tar.gz");
    assert_eq!(kebab("Photo.JpEg"), "photo.jpeg");
}

#[test]
fn an_ordinal_stays_a_fixed_point() {
    let o = Options::default();
    for (s, n) in [("my-file.md", 2), ("archive.tar.gz", 3), (".gitignore", 2), ("x.test.ts", 12)] {
        let r = with_ordinal(s, n, &o);
        assert_eq!(kebab(&r), r);
    }
    assert_eq!(with_ordinal("x.test.ts", 12, &o), "x-12.test.ts");
}

#[test]
fn everything_fits_the_budget() {
    for max in 3..40 {
        let o = Options { max_length: max, ..Options::default() };
        for s in SAMPLES.iter().chain(["....", ".....", "........", "ümlaut ünïcode.tar.gz", "日本語の長いファイル名.md"].iter()) {
            let r = kebab_with(s, &o);
            assert!(r.len() <= max && r.encode_utf16().count() <= max, "{s} -> {r} ({max})");
        }
        let r = with_ordinal("aaaaaaaaaaaaaaa.md", 2, &o);
        assert!(r.len() <= max);
    }
    // a name of dots longer than the budget is refused, not passed through
    assert_eq!(kebab_with(".....", &Options { max_length: 3, ..Options::default() }), "");
    assert_eq!(kebab_with("...", &Options { max_length: 3, ..Options::default() }), "...");
    assert_eq!(with_ordinal(".....", 2, &Options { max_length: 3, ..Options::default() }), "");
}

#[test]
fn ascii_narrows_the_alphabet() {
    let o = Options { ascii: true, ..Options::default() };
    for s in ["日本語 Report Ω.md", "Привет мир.txt", "Cafe\u{301} №5.tar.gz", "🚀 x.🌀", "अध्याय ३.md"] {
        let r = kebab_with(s, &o);
        assert!(
            r.chars().all(|c| c.is_ascii_lowercase() || c.is_ascii_digit() || c == '-' || c == '.'),
            "{s} -> {r}"
        );
    }
    assert_eq!(kebab_with("日本語 Report.md", &o), "report.md");
    // an ASCII name is written in that alphabet whatever the options
    for s in SAMPLES.iter().filter(|s| s.is_ascii()) {
        let r = kebab(s);
        assert!(
            r.chars().all(|c| c.is_ascii_lowercase() || c.is_ascii_digit() || c == '-' || c == '.'),
            "{s} -> {r}"
        );
        assert!(!r.contains('/'));
    }
}

#[test]
fn a_dotted_name_reads_back_with_dots() {
    // With `.` as the separator `.net` is a word after the separator, not a token, so
    // the second pass keeps what the first pass joined.
    let o = Options { separator: '.', ..Options::default() };
    assert_eq!(kebab_with("X Net.md", &o), "x.net.md");
    assert_eq!(kebab_with("x.net.md", &o), "x.net.md");
    assert_eq!(kebab_with("X.Net", &o), "x.net");
    assert_eq!(kebab_with("x.net", &o), "x.net");
    assert_eq!(kebab_with("a.TeSt.tsx", &o), "a.test.tsx");
    assert_eq!(kebab_with("a.test.tsx", &o), "a.test.tsx");
    // with the default separator the token is still spelled out
    assert_eq!(kebab("Asp.Net Core.md"), "asp-dotnet-core.md");
}

#[test]
fn ascii_output_is_a_fixed_point_for_every_name() {
    let names = [
        "日本語 Report Ω.md",
        "Привет мир.txt",
        "Cafe\u{301} №5.tar.gz",
        "🚀 x.🌀",
        "अध्याय ३.md",
        "a.⒈2",
        "Ⅻ Chapter.TeSt.ⅯⅮ",
        "½ Done.txt",
        "x.ﬁle",
        "Straße.MD",
    ];
    for sep in ['-', '_', '.'] {
        for max in [3, 8, 16, 255] {
            for ascii in [true, false] {
                let o = Options { separator: sep, ascii, max_length: max };
                for s in names.iter().chain(SAMPLES.iter()) {
                    let once = kebab_with(s, &o);
                    assert_eq!(kebab_with(&once, &o), once, "{s} {sep:?} {ascii} {max}");
                }
            }
        }
    }
    // an extension whose word gains a dot is no extension
    assert_eq!(kebab("a.⒈2"), "a-1.2");
}

#[test]
fn the_separator_changes_nothing_else() {
    for sep in ['_', '+', '~', ' '] {
        let opts = Options { separator: sep, ..Options::default() };
        for s in SAMPLES {
            let expected: String = kebab(s).chars().map(|c| if c == '-' { sep } else { c }).collect();
            assert_eq!(kebab_with(s, &opts), expected, "{s} {sep}");
        }
    }
    for s in ["日本語 Report Ω.md", "Привет мир.txt", "Cafe\u{301} №5.tar.gz", "½ Done.TeSt.ts"] {
        let a = Options { ascii: true, ..Options::default() };
        let b = Options { ascii: true, separator: '_', ..Options::default() };
        let expected: String = kebab_with(s, &a).chars().map(|c| if c == '-' { '_' } else { c }).collect();
        assert_eq!(kebab_with(s, &b), expected, "{s}");
    }
    let snake = Options { separator: '_', ..Options::default() };
    assert_eq!(kebab("My File_v2.md"), "my-file-v2.md");
    assert_eq!(kebab_with("My File_v2.md", &snake), "my_file_v2.md");
}

#[test]
fn a_truncated_name_keeps_its_cut_under_another_separator() {
    let short = Options { max_length: 12, ..Options::default() };
    let snake = Options { separator: '_', max_length: 12, ..Options::default() };
    let a = kebab_with("The Quick Brown Fox.md", &short);
    let b = kebab_with("The Quick Brown Fox.md", &snake);
    assert_eq!(a, "the-quick.md");
    assert_eq!(b, "the_quick.md");
}

#[test]
fn an_ordinal_stays_a_fixed_point_with_dots() {
    let o = Options { separator: '.', ..Options::default() };
    for (s, n) in [("my.file.md", 2), ("archive.tar.gz", 3), (".gitignore", 2), ("x.test.ts", 12), ("...", 2)] {
        let r = with_ordinal(s, n, &o);
        assert_eq!(kebab_with(&r, &o), r, "{s}");
    }
    assert_eq!(with_ordinal("my.file.md", 2, &o), "my.file.2.md");
    let tight = Options { separator: '.', max_length: 6, ..Options::default() };
    let r = with_ordinal("abcdef.md", 7, &tight);
    assert_eq!(kebab_with(&r, &tight), r);
}

#[test]
fn kept_scripts_stay_lowercase_letters() {
    for s in ["Café Ünïcode 東京.md", "ΑΘΗΝΑ Notes.txt", "देवनागरी फ़ाइल.md", "Ärger\u{200B}Über.TXT", "İstanbul.md"] {
        let r = kebab(s);
        assert!(!r.is_empty(), "{s}");
        for c in r.chars() {
            assert!(
                c == '-' || c == '.' || c.is_ascii_lowercase() || c.is_ascii_digit()
                    || (!c.is_ascii() && !c.is_whitespace() && !c.is_control() && !c.is_uppercase()),
                "{s}: {c:?}"
            );
        }
    }
}

//! The transform, case by case.

use keb::{kebab, kebab_with, kebab_word, with_ordinal, Options};

#[test]
fn separators() {
    assert_eq!(kebab("My File.md"), "my-file.md");
    assert_eq!(kebab("my___file.md"), "my-file.md");
    assert_eq!(kebab("my   file.md"), "my-file.md");
    assert_eq!(kebab("my - file.md"), "my-file.md");
    assert_eq!(kebab("my–file.md"), "my-file.md");
    assert_eq!(kebab("my\tfile.md"), "my-file.md");
    assert_eq!(kebab("my\u{a0}file.md"), "my-file.md");
    assert_eq!(kebab("my\u{200b}file.md"), "my-file.md");
    assert_eq!(kebab("-my-file-.md"), "my-file.md");
}

#[test]
fn case_boundaries() {
    assert_eq!(kebab_word("myFileName"), "my-file-name");
    assert_eq!(kebab_word("MyFileName"), "my-file-name");
    assert_eq!(kebab_word("MY_FILE_NAME"), "my-file-name");
    assert_eq!(kebab_word("HTTPServer"), "http-server");
    assert_eq!(kebab_word("parseJSONData"), "parse-json-data");
    assert_eq!(kebab_word("XMLHttpRequest"), "xml-http-request");
}

#[test]
fn digits_never_split() {
    // digits never start a word: this is what protects hashes and versions
    assert_eq!(kebab_word("Chapter10Part2"), "chapter10-part2");
    assert_eq!(kebab_word("1080p"), "1080p");
    assert_eq!(kebab_word("sha256"), "sha256");
    assert_eq!(kebab_word("file2go"), "file2go");
    assert_eq!(kebab_word("iPhone14Pro"), "iphone14-pro");
    assert_eq!(kebab_word("eBay"), "ebay");
    // an uppercase run, lowercase and trailing digits are one token
    assert_eq!(kebab_word("IPv6Address"), "ipv6-address");
}

#[test]
fn hashes_and_versions_survive() {
    // hashes and versions, where digits meet uppercase letters
    assert_eq!(kebab("A1B2C3D4-E5F6.bin"), "a1b2c3d4-e5f6.bin");
    assert_eq!(kebab("v1.2.3-Release.zip"), "v1.2.3-release.zip");
    assert_eq!(kebab("192.168.1.1"), "192.168.1.1");
    assert_eq!(kebab("2024.01.02"), "2024.01.02");
    assert_eq!(kebab("Backup."), "backup");
    assert_eq!(kebab("..config.md"), "..config.md");
}

#[test]
fn extensions() {
    assert_eq!(kebab("My File.MD"), "my-file.md");
    assert_eq!(kebab("My.Archive.tar.gz"), "my-archive.tar.gz");
    assert_eq!(kebab("types.d.ts"), "types.d.ts");
    assert_eq!(kebab("app.min.js"), "app.min.js");
    assert_eq!(kebab("Component.Test.tsx"), "component.test.tsx");
    assert_eq!(kebab("File.Spec.js"), "file.spec.js");
    assert_eq!(kebab(".gitignore"), ".gitignore");
    assert_eq!(kebab(".env.Local"), ".env.local");
    assert_eq!(kebab("README"), "readme");
    assert_eq!(kebab("My.File.Name.md"), "my-file-name.md");
}

#[test]
fn unicode() {
    assert_eq!(kebab("Żółć Ćma.md"), "zolc-cma.md");
    assert_eq!(kebab("Café Übung.md"), "cafe-ubung.md");
    assert_eq!(kebab("Æther Straße.md"), "aether-strasse.md");
    assert_eq!(kebab("Łódź.md"), "lodz.md");
    assert_eq!(kebab("📁 Report 🚀.md"), "report.md");
    // transliterate what is deterministic, keep what is not
    assert_eq!(kebab("Привет.md"), "privet.md");
    assert_eq!(kebab("ЩУКА.md"), "shchuka.md");
    assert_eq!(kebab("Щука.md"), "shchuka.md");
    assert_eq!(kebab("Ελλάδα.md"), "ellada.md");
    assert_eq!(kebab("日本語 Report.md"), "日本語-report.md");
    // NFD input (what macOS hands back) matches NFC input
    assert_eq!(kebab("Cafe\u{301}.md"), kebab("Café.md"));
}

#[test]
fn unicode_trickery() {
    assert_eq!(kebab("Ｆｉｌｅ．ｔｘｔ"), "file-txt");
    assert_eq!(kebab("𝓗𝓮𝓵𝓵𝓸.md"), "hello.md");
    assert_eq!(kebab("File\u{ad}Name.md"), "file-name.md");
    assert_eq!(kebab("\u{feff}Report.md"), "report.md");
    assert_eq!(kebab("photo\u{202e}gpj.jpg"), "photogpj.jpg");
    // keycap: FE0F and the enclosing keycap are combining marks, leaving `1`
    assert_eq!(kebab("1\u{fe0f}\u{20e3}.png"), "1.png");
    // non-ASCII digits map to ASCII
    assert_eq!(kebab("Chapter ٣.md"), "chapter-3.md");
    assert_eq!(kebab("अध्याय ३.md"), "अध्याय-3.md");
    // zalgo is a length-blowup vector, not a crash
    let zalgo: String =
        std::iter::once('a').chain(std::iter::repeat_n('\u{301}', 300)).collect();
    assert_eq!(kebab(&zalgo), "a");
}

#[test]
fn punctuation() {
    assert_eq!(kebab("Tom & Jerry.md"), "tom-and-jerry.md");
    assert_eq!(kebab("A&B.md"), "a-and-b.md");
    assert_eq!(kebab("Don't Stop.md"), "dont-stop.md");
    assert_eq!(kebab("Report (Final) [v2].md"), "report-final-v2.md");
    assert_eq!(kebab("50% Off, $20.md"), "50-off-20.md");
    assert_eq!(kebab("@user #tag.md"), "user-tag.md");
    assert_eq!(kebab("file:name*?<>|\"x.md"), "file-name-x.md");
    assert_eq!(kebab("a/b.md"), "a-b.md");
    // where the punctuation *is* the name
    assert_eq!(kebab("C++ Notes.md"), "cpp-notes.md");
    assert_eq!(kebab("C#.md"), "csharp.md");
    assert_eq!(kebab("Learn F# Fast.md"), "learn-fsharp-fast.md");
    assert_eq!(kebab("Asp.Net Core.md"), "asp-dotnet-core.md");
    // ...but only as a whole token
    assert_eq!(kebab("x.network.md"), "x-network.md");
}

#[test]
fn refuses_when_nothing_survives() {
    // an empty result is a refusal, not `untitled`
    assert_eq!(kebab("🚀.md"), "");
    assert_eq!(kebab("___.md"), "");
    assert_eq!(kebab("🚀"), "");
}

#[test]
fn locale_invariant() {
    // never `tıtle`, whatever the system locale says
    assert_eq!(kebab_word("TITLE"), "title");
    assert_eq!(kebab_word("İstanbul"), "istanbul");
    // Greek final sigma: both forms romanize to `s`
    assert_eq!(kebab_word("ΟΔΟΣ"), kebab_word("οδός"));
    // Hangul survives NFD
    assert_eq!(kebab("한국어 Report.md"), "한국어-report.md");
}

#[test]
fn options() {
    let snake = Options { separator: '_', ..Options::default() };
    assert_eq!(kebab_with("My File.md", &snake), "my_file.md");
    assert_eq!(kebab_with("XMLHttpRequest", &snake), "xml_http_request");

    let ascii = Options { ascii: true, ..Options::default() };
    assert_eq!(kebab_with("日本語 Report.md", &ascii), "report.md");
    assert_eq!(kebab_with("Żółć.md", &ascii), "zolc.md");
}

#[test]
fn truncation() {
    // grapheme-safe, byte-aware, extension-preserving
    let opts = Options { max_length: 12, ..Options::default() };
    assert_eq!(kebab_with("AVeryLongNameIndeed.md", &opts), "a-very-lo.md");
    // the extension alone overruns the budget: refuse rather than eat it
    let tight = Options { max_length: 4, ..Options::default() };
    assert_eq!(kebab_with("Name.json", &tight), "");
    // never split a grapheme
    let opts = Options { max_length: 5, ..Options::default() };
    assert!(kebab_with("日本語語語", &opts).chars().all(|c| c != '\u{fffd}'));
}

#[test]
fn ordinals() {
    let o = Options::default();
    assert_eq!(with_ordinal("my-file.md", 2, &o), "my-file-2.md");
    assert_eq!(with_ordinal("archive.tar.gz", 2, &o), "archive-2.tar.gz");
    assert_eq!(with_ordinal(".gitignore", 2, &o), ".gitignore-2");
    // truncation and collision resolution interact: the ordinal is
    // reserved out of the budget, so the suffixed name still fits
    let tight = Options { max_length: 10, ..Options::default() };
    let suffixed = with_ordinal("aaaaaaaaaaaaaaa.md", 2, &tight);
    assert_eq!(suffixed, "aaaaa-2.md");
    assert!(suffixed.len() <= 10);
    // and the result is still a fixed point of the transform
    assert_eq!(kebab_with(&suffixed, &tight), suffixed);
}

#[test]
fn degenerate_input_does_not_panic() {
    for s in
        ["", ".", "..", "...", "-", "---", "___", "\n", "\u{202e}", "🚀", "-rf", "$(rm -rf ~)"]
    {
        let _ = kebab(s);
    }
}


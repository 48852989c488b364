//! The protect list.

use keb::protect::reason;

#[test]
fn build_significant_names() {
    assert!(reason("Makefile").is_some());
    assert!(reason("CMakeLists.txt").is_some());
    assert!(reason("MyClass.java").is_some());
    assert!(reason("Info.plist").is_some());
    // ...but `README` is not in the contract with anything
    assert!(reason("README").is_none());
    assert!(reason("My File.md").is_none());
}

#[test]
fn framework_syntax() {
    assert!(reason("[slug].tsx").is_some());
    assert!(reason("[...slug].tsx").is_some());
    assert!(reason("(marketing)").is_some());
    assert!(reason("+page.svelte").is_some());
    assert!(reason("+layout.server.ts").is_some());
    assert!(reason("__init__.py").is_some());
    assert!(reason("_index.md").is_some());
}

#[test]
fn bundles_and_companions() {
    assert!(reason("Foo.app").is_some());
    assert!(reason("Bar.framework").is_some());
    assert!(reason("._My File.md").is_some());
    assert!(reason("~$doc.docx").is_some());
    assert!(reason("Icon\r").is_some());
}

#[test]
fn windows_devices() {
    for name in ["CON", "con.txt", "NUL", "COM1", "lpt9.log", "AUX"] {
        assert!(reason(name).is_some(), "{name}");
    }
    for name in ["COM0", "COM10", "CONFIG", "console.log", "auxiliary.md"] {
        assert!(reason(name).is_none(), "{name}");
    }
}

#[test]
fn reasons_complete_the_sentence() {
    assert_eq!(reason("Makefile"), Some("a name a build tool looks up literally"));
    assert_eq!(reason("Main.java"), Some("a Java source file, whose name must match its public class"));
    assert_eq!(reason("Foo.APP"), Some("a bundle directory"));
    assert_eq!(reason("doc.icloud"), Some("an iCloud placeholder"));
    assert_eq!(reason("[id].tsx"), Some("a dynamic route segment"));
    assert_eq!(reason(".#notes.md"), Some("an Emacs lock file"));
    assert_eq!(reason("prn.log"), Some("a Windows reserved device name"));
    assert_eq!(reason("Icon\r"), Some("the macOS custom-icon file"));
    assert_eq!(reason("notes.md"), None);
}

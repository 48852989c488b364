//! The protect list: names whose correct kebab form breaks something.
//!
//! `Makefile` stops being found by `make`, `MyClass.java` stops compiling,
//! `[slug].tsx` stops routing. The transform is right about all of them and should
//! still be overruled. A file named on the command line was chosen, so it is renamed
//! with a warning; a file swept up by `-r` was not, so it is skipped.

use vstd::prelude::*;

use crate::name::eq_ignore_ascii_case;
use crate::unicode::{char_ascii_lower, chars_of, is_ascii_digit};

verus! {

/// Why a name must not be renamed.
#[derive(Debug, Clone, Copy, PartialEq, Eq)]
pub enum Landmine {
    /// A name a build tool looks up literally.
    BuildTool,
    /// The macOS custom-icon file, `Icon` followed by a carriage return.
    MacIcon,
    /// A Java source file, whose name must match its public class.
    JavaSource,
    /// A bundle directory, whose name is part of a contract with its metadata.
    Bundle,
    /// An iCloud placeholder.
    ICloud,
    /// A dynamic route segment
    DynamicRoute,
    /// A route group
    RouteGroup,
    /// A framework route file
    FrameworkRoute,
    /// A dunder name
    Dunder,
    /// A section index
    SectionIndex,
    /// An AppleDouble companion file
    AppleDouble,
    /// An Office lock file
    OfficeLock,
    /// An Emacs lock file
    EmacsLock,
    /// A Windows reserved device name.
    WindowsDevice,
}

/// Exact names that are part of a contract with a tool that looks them up by name.
pub open spec fn exact_name(k: int) -> Seq<char> {
    if k == 0 {
        seq!['M', 'a', 'k', 'e', 'f', 'i', 'l', 'e']
    } else if k == 1 {
        seq!['G', 'N', 'U', 'm', 'a', 'k', 'e', 'f', 'i', 'l', 'e']
    } else if k == 2 {
        seq!['C', 'M', 'a', 'k', 'e', 'L', 'i', 's', 't', 's', '.', 't', 'x', 't']
    } else if k == 3 {
        seq!['D', 'o', 'c', 'k', 'e', 'r', 'f', 'i', 'l', 'e']
    } else if k == 4 {
        seq!['C', 'o', 'n', 't', 'a', 'i', 'n', 'e', 'r', 'f', 'i', 'l', 'e']
    } else if k == 5 {
        seq!['G', 'e', 'm', 'f', 'i', 'l', 'e']
    } else if k == 6 {
        seq!['R', 'a', 'k', 'e', 'f', 'i', 'l', 'e']
    } else if k == 7 {
        seq!['B', 'r', 'e', 'w', 'f', 'i', 'l', 'e']
    } else if k == 8 {
        seq!['P', 'r', 'o', 'c', 'f', 'i', 'l', 'e']
    } else if k == 9 {
        seq!['V', 'a', 'g', 'r', 'a', 'n', 't', 'f', 'i', 'l', 'e']
    } else if k == 10 {
        seq!['J', 'e', 'n', 'k', 'i', 'n', 's', 'f', 'i', 'l', 'e']
    } else if k == 11 {
        seq!['J', 'u', 's', 't', 'f', 'i', 'l', 'e']
    } else if k == 12 {
        seq!['C', 'a', 'd', 'd', 'y', 'f', 'i', 'l', 'e']
    } else if k == 13 {
        seq!['L', 'I', 'C', 'E', 'N', 'S', 'E']
    } else if k == 14 {
        seq!['L', 'I', 'C', 'E', 'N', 'C', 'E']
    } else if k == 15 {
        seq!['C', 'O', 'P', 'Y', 'I', 'N', 'G']
    } else if k == 16 {
        seq!['N', 'O', 'T', 'I', 'C', 'E']
    } else if k == 17 {
        seq!['C', 'O', 'D', 'E', 'O', 'W', 'N', 'E', 'R', 'S']
    } else if k == 18 {
        seq!['I', 'n', 'f', 'o', '.', 'p', 'l', 'i', 's', 't']
    } else {
        seq!['A', 'n', 'd', 'r', 'o', 'i', 'd', 'M', 'a', 'n', 'i', 'f', 'e', 's', 't', '.', 'x', 'm', 'l']
    }
}

pub open spec fn exact_count() -> int {
    20
}

pub fn exact_name_at(k: usize) -> (r: Vec<char>)
    ensures
        r@ == exact_name(k as int),
{
    if k == 0 {
        vec!['M', 'a', 'k', 'e', 'f', 'i', 'l', 'e']
    } else if k == 1 {
        vec!['G', 'N', 'U', 'm', 'a', 'k', 'e', 'f', 'i', 'l', 'e']
    } else if k == 2 {
        vec!['C', 'M', 'a', 'k', 'e', 'L', 'i', 's', 't', 's', '.', 't', 'x', 't']
    } else if k == 3 {
        vec!['D', 'o', 'c', 'k', 'e', 'r', 'f', 'i', 'l', 'e']
    } else if k == 4 {
        vec!['C', 'o', 'n', 't', 'a', 'i', 'n', 'e', 'r', 'f', 'i', 'l', 'e']
    } else if k == 5 {
        vec!['G', 'e', 'm', 'f', 'i', 'l', 'e']
    } else if k == 6 {
        vec!['R', 'a', 'k', 'e', 'f', 'i', 'l', 'e']
    } else if k == 7 {
        vec!['B', 'r', 'e', 'w', 'f', 'i', 'l', 'e']
    } else if k == 8 {
        vec!['P', 'r', 'o', 'c', 'f', 'i', 'l', 'e']
    } else if k == 9 {
        vec!['V', 'a', 'g', 'r', 'a', 'n', 't', 'f', 'i', 'l', 'e']
    } else if k == 10 {
        vec!['J', 'e', 'n', 'k', 'i', 'n', 's', 'f', 'i', 'l', 'e']
    } else if k == 11 {
        vec!['J', 'u', 's', 't', 'f', 'i', 'l', 'e']
    } else if k == 12 {
        vec!['C', 'a', 'd', 'd', 'y', 'f', 'i', 'l', 'e']
    } else if k == 13 {
        vec!['L', 'I', 'C', 'E', 'N', 'S', 'E']
    } else if k == 14 {
        vec!['L', 'I', 'C', 'E', 'N', 'C', 'E']
    } else if k == 15 {
        vec!['C', 'O', 'P', 'Y', 'I', 'N', 'G']
    } else if k == 16 {
        vec!['N', 'O', 'T', 'I', 'C', 'E']
    } else if k == 17 {
        vec!['C', 'O', 'D', 'E', 'O', 'W', 'N', 'E', 'R', 'S']
    } else if k == 18 {
        vec!['I', 'n', 'f', 'o', '.', 'p', 'l', 'i', 's', 't']
    } else {
        vec!['A', 'n', 'd', 'r', 'o', 'i', 'd', 'M', 'a', 'n', 'i', 'f', 'e', 's', 't', '.', 'x', 'm', 'l']
    }
}

/// Directory suffixes that make the directory a bundle.
pub open spec fn bundle_suffix(k: int) -> Seq<char> {
    if k == 0 {
        seq!['.', 'a', 'p', 'p']
    } else if k == 1 {
        seq!['.', 'f', 'r', 'a', 'm', 'e', 'w', 'o', 'r', 'k']
    } else if k == 2 {
        seq!['.', 'b', 'u', 'n', 'd', 'l', 'e']
    } else if k == 3 {
        seq!['.', 'r', 't', 'f', 'd']
    } else if k == 4 {
        seq!['.', 'x', 'c', 'o', 'd', 'e', 'p', 'r', 'o', 'j']
    } else if k == 5 {
        seq!['.', 'x', 'c', 'w', 'o', 'r', 'k', 's', 'p', 'a', 'c', 'e']
    } else if k == 6 {
        seq!['.', 'p', 'l', 'a', 'y', 'g', 'r', 'o', 'u', 'n', 'd']
    } else if k == 7 {
        seq!['.', 'k', 'e', 'x', 't']
    } else if k == 8 {
        seq!['.', 'p', 'l', 'u', 'g', 'i', 'n']
    } else if k == 9 {
        seq!['.', 'l', 'p', 'r', 'o', 'j']
    } else {
        seq!['.', 'd', 'o', 'c', 's', 'e', 't']
    }
}

pub open spec fn bundle_count() -> int {
    11
}

pub fn bundle_suffix_at(k: usize) -> (r: Vec<char>)
    ensures
        r@ == bundle_suffix(k as int),
{
    if k == 0 {
        vec!['.', 'a', 'p', 'p']
    } else if k == 1 {
        vec!['.', 'f', 'r', 'a', 'm', 'e', 'w', 'o', 'r', 'k']
    } else if k == 2 {
        vec!['.', 'b', 'u', 'n', 'd', 'l', 'e']
    } else if k == 3 {
        vec!['.', 'r', 't', 'f', 'd']
    } else if k == 4 {
        vec!['.', 'x', 'c', 'o', 'd', 'e', 'p', 'r', 'o', 'j']
    } else if k == 5 {
        vec!['.', 'x', 'c', 'w', 'o', 'r', 'k', 's', 'p', 'a', 'c', 'e']
    } else if k == 6 {
        vec!['.', 'p', 'l', 'a', 'y', 'g', 'r', 'o', 'u', 'n', 'd']
    } else if k == 7 {
        vec!['.', 'k', 'e', 'x', 't']
    } else if k == 8 {
        vec!['.', 'p', 'l', 'u', 'g', 'i', 'n']
    } else if k == 9 {
        vec!['.', 'l', 'p', 'r', 'o', 'j']
    } else {
        vec!['.', 'd', 'o', 'c', 's', 'e', 't']
    }
}

/// Prefixes that mark a file as half of a pair, or as syntax rather than a name.
pub open spec fn landmine_prefix(k: int) -> Seq<char> {
    if k == 0 {
        seq!['[']
    } else if k == 1 {
        seq!['(']
    } else if k == 2 {
        seq!['+']
    } else if k == 3 {
        seq!['_', '_']
    } else if k == 4 {
        seq!['_', 'i', 'n', 'd', 'e', 'x', '.']
    } else if k == 5 {
        seq!['.', '_']
    } else if k == 6 {
        seq!['~', '$']
    } else {
        seq!['.', '#']
    }
}

pub open spec fn prefix_count() -> int {
    8
}

pub fn landmine_prefix_at(k: usize) -> (r: Vec<char>)
    ensures
        r@ == landmine_prefix(k as int),
{
    if k == 0 {
        vec!['[']
    } else if k == 1 {
        vec!['(']
    } else if k == 2 {
        vec!['+']
    } else if k == 3 {
        vec!['_', '_']
    } else if k == 4 {
        vec!['_', 'i', 'n', 'd', 'e', 'x', '.']
    } else if k == 5 {
        vec!['.', '_']
    } else if k == 6 {
        vec!['~', '$']
    } else {
        vec!['.', '#']
    }
}

/// What the `k`th prefix marks.
pub open spec fn prefix_landmine(k: int) -> Landmine {
    if k == 0 {
        Landmine::DynamicRoute
    } else if k == 1 {
        Landmine::RouteGroup
    } else if k == 2 {
        Landmine::FrameworkRoute
    } else if k == 3 {
        Landmine::Dunder
    } else if k == 4 {
        Landmine::SectionIndex
    } else if k == 5 {
        Landmine::AppleDouble
    } else if k == 6 {
        Landmine::OfficeLock
    } else {
        Landmine::EmacsLock
    }
}

pub fn prefix_landmine_at(k: usize) -> (r: Landmine)
    ensures
        r == prefix_landmine(k as int),
{
    if k == 0 {
        Landmine::DynamicRoute
    } else if k == 1 {
        Landmine::RouteGroup
    } else if k == 2 {
        Landmine::FrameworkRoute
    } else if k == 3 {
        Landmine::Dunder
    } else if k == 4 {
        Landmine::SectionIndex
    } else if k == 5 {
        Landmine::AppleDouble
    } else if k == 6 {
        Landmine::OfficeLock
    } else {
        Landmine::EmacsLock
    }
}

/// The sentence that completes "…because it is".
pub open spec fn describe_spec(k: Landmine) -> &'static str {
    match k {
        Landmine::BuildTool => "a name a build tool looks up literally",
        Landmine::MacIcon => "the macOS custom-icon file",
        Landmine::JavaSource => "a Java source file, whose name must match its public class",
        Landmine::Bundle => "a bundle directory",
        Landmine::ICloud => "an iCloud placeholder",
        Landmine::DynamicRoute => "a dynamic route segment",
        Landmine::RouteGroup => "a route group",
        Landmine::FrameworkRoute => "a framework route file",
        Landmine::Dunder => "a dunder name",
        Landmine::SectionIndex => "a section index",
        Landmine::AppleDouble => "an AppleDouble companion file",
        Landmine::OfficeLock => "an Office lock file",
        Landmine::EmacsLock => "an Emacs lock file",
        Landmine::WindowsDevice => "a Windows reserved device name",
    }
}

pub fn describe(k: Landmine) -> (r: &'static str)
    ensures
        r == describe_spec(k),
{
    match k {
        Landmine::BuildTool => "a name a build tool looks up literally",
        Landmine::MacIcon => "the macOS custom-icon file",
        Landmine::JavaSource => "a Java source file, whose name must match its public class",
        Landmine::Bundle => "a bundle directory",
        Landmine::ICloud => "an iCloud placeholder",
        Landmine::DynamicRoute => "a dynamic route segment",
        Landmine::RouteGroup => "a route group",
        Landmine::FrameworkRoute => "a framework route file",
        Landmine::Dunder => "a dunder name",
        Landmine::SectionIndex => "a section index",
        Landmine::AppleDouble => "an AppleDouble companion file",
        Landmine::OfficeLock => "an Office lock file",
        Landmine::EmacsLock => "an Emacs lock file",
        Landmine::WindowsDevice => "a Windows reserved device name",
    }
}

pub open spec fn starts_with(s: Seq<char>, p: Seq<char>) -> bool {
    s.len() >= p.len() && s.take(p.len() as int) == p
}

pub open spec fn ends_with(s: Seq<char>, p: Seq<char>) -> bool {
    s.len() >= p.len() && s.skip(s.len() - p.len()) == p
}

/// `s` ends in `p` (a lowercase ASCII suffix), ignoring ASCII case.
pub open spec fn ends_with_ignore_case(s: Seq<char>, p: Seq<char>) -> bool {
    s.len() >= p.len() && eq_ignore_ascii_case(s.skip(s.len() - p.len()), p)
}

pub fn has_prefix(s: &Vec<char>, p: &Vec<char>) -> (r: bool)
    ensures
        r == starts_with(s@, p@),
{
    if s.len() < p.len() {
        return false;
    }
    let mut i: usize = 0;
    while i < p.len()
        invariant
            p.len() <= s.len(),
            i <= p.len(),
            forall|j: int| 0 <= j < i ==> s@[j] == p@[j],
        decreases p.len() - i,
    {
        if s[i] != p[i] {
            assert(s@.take(p.len() as int)[i as int] != p@[i as int]);
            return false;
        }
        i += 1;
    }
    assert(s@.take(p.len() as int) =~= p@);
    true
}

pub fn has_suffix(s: &Vec<char>, p: &Vec<char>) -> (r: bool)
    ensures
        r == ends_with(s@, p@),
{
    if s.len() < p.len() {
        return false;
    }
    let off = s.len() - p.len();
    let mut i: usize = 0;
    while i < p.len()
        invariant
            p.len() <= s.len(),
            off == s.len() - p.len(),
            i <= p.len(),
            forall|j: int| 0 <= j < i ==> s@[off + j] == p@[j],
        decreases p.len() - i,
    {
        if s[off + i] != p[i] {
            assert(s@.skip(off as int)[i as int] != p@[i as int]);
            return false;
        }
        i += 1;
    }
    assert(s@.skip(off as int) =~= p@);
    true
}

pub fn has_suffix_ignore_case(s: &Vec<char>, p: &Vec<char>) -> (r: bool)
    ensures
        r == ends_with_ignore_case(s@, p@),
{
    if s.len() < p.len() {
        return false;
    }
    let off = s.len() - p.len();
    let mut i: usize = 0;
    while i < p.len()
        invariant
            p.len() <= s.len(),
            off == s.len() - p.len(),
            i <= p.len(),
            forall|j: int| 0 <= j < i ==> #[trigger] crate::unicode::ascii_lower(s@.skip(off as int)[j]) == p@[j],
        decreases p.len() - i,
    {
        if char_ascii_lower(s[off + i]) != p[i] {
            assert(s@.skip(off as int)[i as int] == s@[off + i]);
            return false;
        }
        assert(s@.skip(off as int)[i as int] == s@[off + i]);
        i += 1;
    }
    true
}

pub open spec fn is_exact(s: Seq<char>) -> bool {
    exists|k: int| 0 <= k < exact_count() && s == #[trigger] exact_name(k)
}

pub open spec fn is_bundle(s: Seq<char>) -> bool {
    exists|k: int| 0 <= k < bundle_count() && ends_with_ignore_case(s, #[trigger] bundle_suffix(k))
}

/// The first prefix, counting from `k`, that `s` starts with.
pub open spec fn first_prefix(s: Seq<char>, k: int) -> Option<int>
    decreases prefix_count() - k,
{
    if k < 0 || k >= prefix_count() {
        None
    } else if starts_with(s, landmine_prefix(k)) {
        Some(k)
    } else {
        first_prefix(s, k + 1)
    }
}

/// The index of the first `.` at or after `i`, or the length.
pub open spec fn first_dot(s: Seq<char>, i: int) -> int
    decreases s.len() - i,
{
    if i < 0 || i >= s.len() {
        s.len() as int
    } else if s[i] == '.' {
        i
    } else {
        first_dot(s, i + 1)
    }
}

/// `CON`, `PRN`, `AUX`, `NUL`, and `COM1`..`COM9`, `LPT1`..`LPT9`, in any case, with or
/// without an extension, are device names on Windows.
pub open spec fn reserved(s: Seq<char>) -> bool {
    let stem = s.take(first_dot(s, 0));
    if eq_ignore_ascii_case(stem, seq!['c', 'o', 'n']) || eq_ignore_ascii_case(stem, seq!['p', 'r', 'n'])
        || eq_ignore_ascii_case(stem, seq!['a', 'u', 'x']) || eq_ignore_ascii_case(
        stem,
        seq!['n', 'u', 'l'],
    ) {
        true
    } else if stem.len() == 0 || !is_ascii_digit(stem.last()) {
        false
    } else {
        stem.last() != '0' && (eq_ignore_ascii_case(stem.drop_last(), seq!['c', 'o', 'm'])
            || eq_ignore_ascii_case(stem.drop_last(), seq!['l', 'p', 't']))
    }
}

/// Why this name must not be renamed, or `None` if it may be.
pub open spec fn landmine_spec(s: Seq<char>) -> Option<Landmine> {
    if is_exact(s) {
        Some(Landmine::BuildTool)
    } else if starts_with(s, seq!['I', 'c', 'o', 'n']) && s.len() > 0 && s.last() == '\r' {
        Some(Landmine::MacIcon)
    } else if ends_with(s, seq!['.', 'j', 'a', 'v', 'a']) {
        Some(Landmine::JavaSource)
    } else if is_bundle(s) {
        Some(Landmine::Bundle)
    } else if ends_with(s, seq!['.', 'i', 'c', 'l', 'o', 'u', 'd']) {
        Some(Landmine::ICloud)
    } else {
        match first_prefix(s, 0) {
            Some(k) => Some(prefix_landmine(k)),
            None => if reserved(s) {
                Some(Landmine::WindowsDevice)
            } else {
                None
            },
        }
    }
}

/// Does `s[from..to]` equal the lowercase ASCII word `p`, ignoring case?
pub fn eq_ignore_case_range(s: &Vec<char>, from: usize, to: usize, p: &Vec<char>) -> (r: bool)
    requires
        from <= to <= s.len(),
    ensures
        r == eq_ignore_ascii_case(s@.subrange(from as int, to as int), p@),
{
    crate::name::eq_ignore_case_at(s, from, to, p)
}

pub fn is_reserved(s: &Vec<char>) -> (r: bool)
    ensures
        r == reserved(s@),
{
    let mut end: usize = 0;
    while end < s.len() && s[end] != '.'
        invariant
            end <= s.len(),
            first_dot(s@, 0) == first_dot(s@, end as int),
        decreases s.len() - end,
    {
        end += 1;
    }
    assert(s@.subrange(0, end as int) =~= s@.take(end as int));
    if eq_ignore_case_range(s, 0, end, &vec!['c', 'o', 'n']) || eq_ignore_case_range(
        s,
        0,
        end,
        &vec!['p', 'r', 'n'],
    ) || eq_ignore_case_range(s, 0, end, &vec!['a', 'u', 'x']) || eq_ignore_case_range(
        s,
        0,
        end,
        &vec!['n', 'u', 'l'],
    ) {
        return true;
    }
    if end == 0 || !('0' <= s[end - 1] && s[end - 1] <= '9') {
        return false;
    }
    assert(s@.subrange(0, end - 1) =~= s@.take(end as int).drop_last());
    s[end - 1] != '0' && (eq_ignore_case_range(s, 0, end - 1, &vec!['c', 'o', 'm'])
        || eq_ignore_case_range(s, 0, end - 1, &vec!['l', 'p', 't']))
}

pub fn landmine(s: &Vec<char>) -> (r: Option<Landmine>)
    ensures
        r == landmine_spec(s@),
{
    let mut k: usize = 0;
    while k < 20
        invariant
            k <= 20,
            forall|j: int| 0 <= j < k ==> s@ != #[trigger] exact_name(j),
        decreases 20 - k,
    {
        let name = exact_name_at(k);
        if s.len() == name.len() && has_prefix(s, &name) {
            assert(s@ =~= s@.take(name@.len() as int));
            return Some(Landmine::BuildTool);
        }
        proof {
            if s@ == name@ {
                assert(s@.take(name@.len() as int) =~= name@);
            }
        }
        k += 1;
    }
    assert(!is_exact(s@));
    if has_prefix(s, &vec!['I', 'c', 'o', 'n']) && s.len() > 0 && s[s.len() - 1] == '\r' {
        return Some(Landmine::MacIcon);
    }
    if has_suffix(s, &vec!['.', 'j', 'a', 'v', 'a']) {
        return Some(Landmine::JavaSource);
    }
    assert(!(starts_with(s@, seq!['I', 'c', 'o', 'n']) && s@.len() > 0 && s@.last() == '\r'));
    assert(!ends_with(s@, seq!['.', 'j', 'a', 'v', 'a']));
    let mut b: usize = 0;
    while b < 11
        invariant
            b <= 11,
            !is_exact(s@),
            !(starts_with(s@, seq!['I', 'c', 'o', 'n']) && s@.len() > 0 && s@.last() == '\r'),
            !ends_with(s@, seq!['.', 'j', 'a', 'v', 'a']),
            forall|j: int| 0 <= j < b ==> !ends_with_ignore_case(s@, #[trigger] bundle_suffix(j)),
        decreases 11 - b,
    {
        let suffix = bundle_suffix_at(b);
        if has_suffix_ignore_case(s, &suffix) {
            assert(ends_with_ignore_case(s@, bundle_suffix(b as int)));
            assert(is_bundle(s@));
            return Some(Landmine::Bundle);
        }
        b += 1;
    }
    assert(!is_bundle(s@));
    if has_suffix(s, &vec!['.', 'i', 'c', 'l', 'o', 'u', 'd']) {
        return Some(Landmine::ICloud);
    }
    let mut p: usize = 0;
    while p < 8
        invariant
            p <= 8,
            !is_exact(s@),
            !(starts_with(s@, seq!['I', 'c', 'o', 'n']) && s@.len() > 0 && s@.last() == '\r'),
            !ends_with(s@, seq!['.', 'j', 'a', 'v', 'a']),
            !is_bundle(s@),
            !ends_with(s@, seq!['.', 'i', 'c', 'l', 'o', 'u', 'd']),
            first_prefix(s@, 0) == first_prefix(s@, p as int),
        decreases 8 - p,
    {
        if has_prefix(s, &landmine_prefix_at(p)) {
            return Some(prefix_landmine_at(p));
        }
        p += 1;
    }
    if is_reserved(s) {
        Some(Landmine::WindowsDevice)
    } else {
        None
    }
}

/// Why this name must not be renamed, or `None` if it may be. The text completes the
/// sentence "…because it is X".
pub fn reason(name: &str) -> (r: Option<&'static str>)
    ensures
        r == match landmine_spec(name@) {
            Some(k) => Some(describe_spec(k)),
            None => None,
        },
{
    let chars = chars_of(name);
    match landmine(&chars) {
        Some(k) => Some(describe(k)),
        None => None,
    }
}


/// The tools that find their file by the name `<Tool>file`: make, Docker, Podman's
/// Containerfile, Bundler's Gemfile, rake, Homebrew's Brewfile, the Procfile of process
/// managers, Vagrant, Jenkins, just and Caddy.
pub open spec fn tool_file_stem(k: int) -> Seq<char> {
    if k == 0 {
        seq!['M', 'a', 'k', 'e']
    } else if k == 1 {
        seq!['D', 'o', 'c', 'k', 'e', 'r']
    } else if k == 2 {
        seq!['C', 'o', 'n', 't', 'a', 'i', 'n', 'e', 'r']
    } else if k == 3 {
        seq!['G', 'e', 'm']
    } else if k == 4 {
        seq!['R', 'a', 'k', 'e']
    } else if k == 5 {
        seq!['B', 'r', 'e', 'w']
    } else if k == 6 {
        seq!['P', 'r', 'o', 'c']
    } else if k == 7 {
        seq!['V', 'a', 'g', 'r', 'a', 'n', 't']
    } else if k == 8 {
        seq!['J', 'e', 'n', 'k', 'i', 'n', 's']
    } else if k == 9 {
        seq!['J', 'u', 's', 't']
    } else {
        seq!['C', 'a', 'd', 'd', 'y']
    }
}

/// The other names looked up literally: GNU make's own makefile, CMake's list file,
/// the licence and notice files in both spellings, GitHub's code owners, and the
/// Apple and Android manifests.
pub open spec fn literal_name(k: int) -> Seq<char> {
    if k == 0 {
        seq!['G', 'N', 'U', 'm', 'a', 'k', 'e', 'f', 'i', 'l', 'e']
    } else if k == 1 {
        seq!['C', 'M', 'a', 'k', 'e', 'L', 'i', 's', 't', 's', '.', 't', 'x', 't']
    } else if k == 2 {
        seq!['L', 'I', 'C', 'E', 'N', 'S', 'E']
    } else if k == 3 {
        seq!['L', 'I', 'C', 'E', 'N', 'C', 'E']
    } else if k == 4 {
        seq!['C', 'O', 'P', 'Y', 'I', 'N', 'G']
    } else if k == 5 {
        seq!['N', 'O', 'T', 'I', 'C', 'E']
    } else if k == 6 {
        seq!['C', 'O', 'D', 'E', 'O', 'W', 'N', 'E', 'R', 'S']
    } else if k == 7 {
        seq!['I', 'n', 'f', 'o', '.', 'p', 'l', 'i', 's', 't']
    } else {
        seq!['A', 'n', 'd', 'r', 'o', 'i', 'd', 'M', 'a', 'n', 'i', 'f', 'e', 's', 't', '.', 'x', 'm', 'l']
    }
}

/// Every `<Tool>file`, and every other name a tool looks up literally, is protected
/// as such, spelled exactly as the tool spells it.
pub proof fn names_tools_look_up_are_protected(k: int)
    ensures
        0 <= k < 11 ==> landmine_spec(tool_file_stem(k) + seq!['f', 'i', 'l', 'e']) == Some(Landmine::BuildTool),
        0 <= k < 9 ==> landmine_spec(literal_name(k)) == Some(Landmine::BuildTool),
{
    if k == 0 {
        assert(exact_name(0) =~= tool_file_stem(k) + seq!['f', 'i', 'l', 'e']);
    }
    if k == 1 {
        assert(exact_name(3) =~= tool_file_stem(k) + seq!['f', 'i', 'l', 'e']);
    }
    if k == 2 {
        assert(exact_name(4) =~= tool_file_stem(k) + seq!['f', 'i', 'l', 'e']);
    }
    if k == 3 {
        assert(exact_name(5) =~= tool_file_stem(k) + seq!['f', 'i', 'l', 'e']);
    }
    if k == 4 {
        assert(exact_name(6) =~= tool_file_stem(k) + seq!['f', 'i', 'l', 'e']);
    }
    if k == 5 {
        assert(exact_name(7) =~= tool_file_stem(k) + seq!['f', 'i', 'l', 'e']);
    }
    if k == 6 {
        assert(exact_name(8) =~= tool_file_stem(k) + seq!['f', 'i', 'l', 'e']);
    }
    if k == 7 {
        assert(exact_name(9) =~= tool_file_stem(k) + seq!['f', 'i', 'l', 'e']);
    }
    if k == 8 {
        assert(exact_name(10) =~= tool_file_stem(k) + seq!['f', 'i', 'l', 'e']);
    }
    if k == 9 {
        assert(exact_name(11) =~= tool_file_stem(k) + seq!['f', 'i', 'l', 'e']);
    }
    if k == 10 {
        assert(exact_name(12) =~= tool_file_stem(k) + seq!['f', 'i', 'l', 'e']);
    }
    if k == 0 {
        assert(exact_name(1) =~= literal_name(k));
    }
    if k == 1 {
        assert(exact_name(2) =~= literal_name(k));
    }
    if k == 2 {
        assert(exact_name(13) =~= literal_name(k));
    }
    if k == 3 {
        assert(exact_name(14) =~= literal_name(k));
    }
    if k == 4 {
        assert(exact_name(15) =~= literal_name(k));
    }
    if k == 5 {
        assert(exact_name(16) =~= literal_name(k));
    }
    if k == 6 {
        assert(exact_name(17) =~= literal_name(k));
    }
    if k == 7 {
        assert(exact_name(18) =~= literal_name(k));
    }
    if k == 8 {
        assert(exact_name(19) =~= literal_name(k));
    }
}

} // verus!

//! The Unicode facts the transform depends on, and the calls that supply them.
//!
//! Character classes are decided by verified code for ASCII and by the standard
//! library for everything else; normalization and grapheme segmentation come from
//! `unicode_normalization` and `unicode_segmentation`. Every call into either lives
//! here, behind a wrapper whose contract names the result.

use unicode_normalization::UnicodeNormalization;
use unicode_segmentation::UnicodeSegmentation;
use vstd::prelude::*;

verus! {

// ── ASCII, decided here ─────────────────────────────────────────────────────────

/// Seven-bit ASCII.
pub open spec fn is_ascii_char(c: char) -> bool {
    (c as u32) < 128
}

pub open spec fn is_ascii_digit(c: char) -> bool {
    '0' <= c && c <= '9'
}

pub open spec fn is_ascii_upper(c: char) -> bool {
    'A' <= c && c <= 'Z'
}

pub open spec fn is_ascii_lower(c: char) -> bool {
    'a' <= c && c <= 'z'
}

pub open spec fn is_ascii_alpha(c: char) -> bool {
    is_ascii_upper(c) || is_ascii_lower(c)
}

pub open spec fn is_ascii_alnum(c: char) -> bool {
    is_ascii_alpha(c) || is_ascii_digit(c)
}

/// `c` with an ASCII capital replaced by its small letter.
pub open spec fn ascii_lower(c: char) -> char {
    if is_ascii_upper(c) {
        ((c as u32) + 32) as char
    } else {
        c
    }
}

/// `c` with an ASCII small letter replaced by its capital.
pub open spec fn ascii_upper(c: char) -> char {
    if is_ascii_lower(c) {
        ((c as u32) - 32) as char
    } else {
        c
    }
}

pub fn char_is_ascii(c: char) -> (r: bool)
    ensures
        r == is_ascii_char(c),
{
    (c as u32) < 128
}

pub fn char_is_ascii_digit(c: char) -> (r: bool)
    ensures
        r == is_ascii_digit(c),
{
    '0' <= c && c <= '9'
}

pub fn char_is_ascii_alpha(c: char) -> (r: bool)
    ensures
        r == is_ascii_alpha(c),
{
    ('A' <= c && c <= 'Z') || ('a' <= c && c <= 'z')
}

pub fn char_is_ascii_alnum(c: char) -> (r: bool)
    ensures
        r == is_ascii_alnum(c),
{
    char_is_ascii_alpha(c) || char_is_ascii_digit(c)
}

pub fn char_ascii_lower(c: char) -> (r: char)
    ensures
        r == ascii_lower(c),
{
    if 'A' <= c && c <= 'Z' {
        ((c as u8) + 32) as char
    } else {
        c
    }
}

pub fn char_ascii_upper(c: char) -> (r: char)
    ensures
        r == ascii_upper(c),
{
    if 'a' <= c && c <= 'z' {
        ((c as u8) - 32) as char
    } else {
        c
    }
}

// ── Character properties beyond ASCII, named ────────────────────────────────────

/// What `char::is_alphanumeric` answers.
pub uninterp spec fn std_is_alphanumeric(c: char) -> bool;

/// What `char::is_lowercase` answers.
pub uninterp spec fn std_is_lowercase(c: char) -> bool;

/// What `char::is_uppercase` answers.
pub uninterp spec fn std_is_uppercase(c: char) -> bool;

/// What `char::is_numeric` answers.
pub uninterp spec fn std_is_numeric(c: char) -> bool;

/// What `char::is_control` answers.
pub uninterp spec fn std_is_control(c: char) -> bool;

/// What `char::is_whitespace` answers.
pub uninterp spec fn std_is_whitespace(c: char) -> bool;

/// The characters `char::to_lowercase` yields.
pub uninterp spec fn std_to_lowercase(c: char) -> Seq<char>;

/// The characters `char::to_uppercase` yields.
pub uninterp spec fn std_to_uppercase(c: char) -> Seq<char>;

/// `char::is_alphanumeric`, which answers by the Unicode `Alphabetic` and numeric
/// categories. The contract names the answer and claims nothing more.
#[verifier::external_body]
fn call_is_alphanumeric(c: char) -> (r: bool)
    ensures
        r == std_is_alphanumeric(c),
{
    c.is_alphanumeric()
}

/// `char::is_lowercase` (the Unicode `Lowercase` property). The answer is named.
#[verifier::external_body]
fn call_is_lowercase(c: char) -> (r: bool)
    ensures
        r == std_is_lowercase(c),
{
    c.is_lowercase()
}

/// `char::is_uppercase` (the Unicode `Uppercase` property). The answer is named.
#[verifier::external_body]
fn call_is_uppercase(c: char) -> (r: bool)
    ensures
        r == std_is_uppercase(c),
{
    c.is_uppercase()
}

/// `char::is_numeric` (general categories `Nd`, `Nl`, `No`). The answer is named.
#[verifier::external_body]
fn call_is_numeric(c: char) -> (r: bool)
    ensures
        r == std_is_numeric(c),
{
    c.is_numeric()
}

/// `char::is_control` (general category `Cc`). The answer is named.
#[verifier::external_body]
fn call_is_control(c: char) -> (r: bool)
    ensures
        r == std_is_control(c),
{
    c.is_control()
}

/// `char::is_whitespace` (the Unicode `White_Space` property). The answer is named.
#[verifier::external_body]
fn call_is_whitespace(c: char) -> (r: bool)
    ensures
        r == std_is_whitespace(c),
{
    c.is_whitespace()
}

/// `char::to_lowercase`, collected. Its documentation promises one or more characters;
/// which ones is named and not stated.
#[verifier::external_body]
fn call_to_lowercase(c: char) -> (r: Vec<char>)
    ensures
        r@ == std_to_lowercase(c),
        r@.len() >= 1,
{
    c.to_lowercase().collect()
}

/// `char::to_uppercase`, collected. Its documentation promises one or more characters;
/// which ones is named and not stated.
#[verifier::external_body]
fn call_to_uppercase(c: char) -> (r: Vec<char>)
    ensures
        r@ == std_to_uppercase(c),
        r@.len() >= 1,
{
    c.to_uppercase().collect()
}

/// Alphabetic or numeric: decided here for ASCII, by the standard library otherwise.
pub open spec fn alphanumeric(c: char) -> bool {
    if is_ascii_char(c) {
        is_ascii_alnum(c)
    } else {
        std_is_alphanumeric(c)
    }
}

pub open spec fn lowercase(c: char) -> bool {
    if is_ascii_char(c) {
        is_ascii_lower(c)
    } else {
        std_is_lowercase(c)
    }
}

pub open spec fn uppercase(c: char) -> bool {
    if is_ascii_char(c) {
        is_ascii_upper(c)
    } else {
        std_is_uppercase(c)
    }
}

pub open spec fn numeric(c: char) -> bool {
    if is_ascii_char(c) {
        is_ascii_digit(c)
    } else {
        std_is_numeric(c)
    }
}

/// A control character that is not also whitespace. For ASCII these are
/// U+0000..U+0008, U+000E..U+001F and U+007F: the `Cc` range less the five
/// whitespace controls.
pub open spec fn silent_control(c: char) -> bool {
    if is_ascii_char(c) {
        ((c as u32) < 9) || (14 <= (c as u32) && (c as u32) < 32) || (c as u32) == 127
    } else {
        std_is_control(c) && !std_is_whitespace(c)
    }
}

/// A control character (general category `Cc`): for ASCII, U+0000..U+001F and U+007F.
pub open spec fn control(c: char) -> bool {
    if is_ascii_char(c) {
        (c as u32) < 32 || (c as u32) == 127
    } else {
        std_is_control(c)
    }
}

/// The lowercase mapping: one character for ASCII, the standard library's otherwise.
pub open spec fn to_lower(c: char) -> Seq<char> {
    if is_ascii_char(c) {
        seq![ascii_lower(c)]
    } else {
        std_to_lowercase(c)
    }
}

pub open spec fn to_upper(c: char) -> Seq<char> {
    if is_ascii_char(c) {
        seq![ascii_upper(c)]
    } else {
        std_to_uppercase(c)
    }
}

/// The first character of the lowercase mapping.
pub open spec fn lower_first(c: char) -> char {
    to_lower(c)[0]
}

pub fn is_alphanumeric(c: char) -> (r: bool)
    ensures
        r == alphanumeric(c),
{
    if char_is_ascii(c) {
        char_is_ascii_alnum(c)
    } else {
        call_is_alphanumeric(c)
    }
}

pub fn is_lowercase(c: char) -> (r: bool)
    ensures
        r == lowercase(c),
{
    if char_is_ascii(c) {
        'a' <= c && c <= 'z'
    } else {
        call_is_lowercase(c)
    }
}

pub fn is_uppercase(c: char) -> (r: bool)
    ensures
        r == uppercase(c),
{
    if char_is_ascii(c) {
        'A' <= c && c <= 'Z'
    } else {
        call_is_uppercase(c)
    }
}

pub fn is_numeric(c: char) -> (r: bool)
    ensures
        r == numeric(c),
{
    if char_is_ascii(c) {
        char_is_ascii_digit(c)
    } else {
        call_is_numeric(c)
    }
}

pub fn is_silent_control(c: char) -> (r: bool)
    ensures
        r == silent_control(c),
{
    if char_is_ascii(c) {
        let u = c as u32;
        u < 9 || (14 <= u && u < 32) || u == 127
    } else {
        call_is_control(c) && !call_is_whitespace(c)
    }
}

pub fn is_control(c: char) -> (r: bool)
    ensures
        r == control(c),
{
    if char_is_ascii(c) {
        let u = c as u32;
        u < 32 || u == 127
    } else {
        call_is_control(c)
    }
}

pub fn lowercase_of(c: char) -> (r: Vec<char>)
    ensures
        r@ == to_lower(c),
        r@.len() >= 1,
{
    if char_is_ascii(c) {
        vec![char_ascii_lower(c)]
    } else {
        call_to_lowercase(c)
    }
}

pub fn uppercase_of(c: char) -> (r: Vec<char>)
    ensures
        r@ == to_upper(c),
        r@.len() >= 1,
{
    if char_is_ascii(c) {
        vec![char_ascii_upper(c)]
    } else {
        call_to_uppercase(c)
    }
}

// ── Normalization and segmentation, named ───────────────────────────────────────

/// Whether every character of `s` is ASCII.
pub open spec fn all_ascii(s: Seq<char>) -> bool {
    forall|i: int| 0 <= i < s.len() ==> is_ascii_char(#[trigger] s[i])
}

/// The NFKC form `unicode_normalization` computes.
pub uninterp spec fn nfkc_of(s: Seq<char>) -> Seq<char>;

/// The NFD form `unicode_normalization` computes.
pub uninterp spec fn nfd_of(s: Seq<char>) -> Seq<char>;

/// The NFC form `unicode_normalization` computes.
pub uninterp spec fn nfc_of(s: Seq<char>) -> Seq<char>;

/// What `unicode_normalization::char::is_combining_mark` answers.
pub uninterp spec fn combining_mark(c: char) -> bool;

/// The characters `unicode_normalization::char::decompose_canonical` emits for `c`.
pub uninterp spec fn canonical_decomposition(c: char) -> Seq<char>;

/// The extended grapheme clusters `unicode_segmentation` splits `s` into.
pub uninterp spec fn graphemes_of(s: Seq<char>) -> Seq<Seq<char>>;

/// NFKC as the transform applies it: an all-ASCII string is already in every
/// normalization form, and is its own NFKC; anything else is the crate's.
pub open spec fn nfkc_spec(s: Seq<char>) -> Seq<char> {
    if all_ascii(s) {
        s
    } else {
        nfkc_of(s)
    }
}

/// NFD as the transform applies it; an all-ASCII string is its own.
pub open spec fn nfd_spec(s: Seq<char>) -> Seq<char> {
    if all_ascii(s) {
        s
    } else {
        nfd_of(s)
    }
}

/// NFC as the transform applies it; an all-ASCII string is its own.
pub open spec fn nfc_spec(s: Seq<char>) -> Seq<char> {
    if all_ascii(s) {
        s
    } else {
        nfc_of(s)
    }
}

/// A combining mark: never an ASCII character, and otherwise what the crate says.
pub open spec fn mark(c: char) -> bool {
    !is_ascii_char(c) && combining_mark(c)
}

/// Every sequence of `g` is non-empty.
pub open spec fn all_nonempty(g: Seq<Seq<char>>) -> bool {
    forall|i: int| 0 <= i < g.len() ==> (#[trigger] g[i]).len() > 0
}

/// `s` one character to a cluster.
pub open spec fn singletons(s: Seq<char>) -> Seq<Seq<char>> {
    s.map_values(|c: char| seq![c])
}

/// No carriage return in `s` is followed by a line feed.
pub open spec fn no_crlf(s: Seq<char>) -> bool {
    forall|i: int| 0 <= i < s.len() - 1 ==> !(#[trigger] s[i] == '\r' && s[i + 1] == '\n')
}

/// The grapheme clusters of `s` as truncation walks them. In ASCII text every
/// character is a cluster of its own, but for a carriage return followed by a line
/// feed; otherwise the crate's, which are non-empty and concatenate back to `s`.
/// Should a segmentation ever break that, one character to a cluster.
pub open spec fn clusters(s: Seq<char>) -> Seq<Seq<char>> {
    let g = graphemes_of(s);
    if all_ascii(s) && no_crlf(s) {
        singletons(s)
    } else if g.flatten() == s && all_nonempty(g) {
        g
    } else {
        singletons(s)
    }
}

pub proof fn lemma_singletons(s: Seq<char>)
    ensures
        singletons(s).flatten() == s,
        all_nonempty(singletons(s)),
    decreases s.len(),
{
    if s.len() > 0 {
        lemma_singletons(s.drop_first());
        assert(singletons(s).drop_first() =~= singletons(s.drop_first()));
        assert(seq![s[0]] + s.drop_first() =~= s);
    }
}

/// The clusters are non-empty and concatenate back to `s`.
pub proof fn lemma_clusters(s: Seq<char>)
    ensures
        clusters(s).flatten() == s,
        all_nonempty(clusters(s)),
{
    lemma_singletons(s);
}

/// An optional vector of characters, by its view.
pub open spec fn opt_view(o: Option<Vec<char>>) -> Option<Seq<char>> {
    match o {
        Some(v) => Some(v@),
        None => None,
    }
}

/// The views of a sequence of character vectors.
pub open spec fn views(v: Seq<Vec<char>>) -> Seq<Seq<char>> {
    v.map_values(|g: Vec<char>| g@)
}

/// `UnicodeNormalization::nfkc`, collected. The result is named. A 7-bit character
/// never decomposes (the crate emits it as it is) and no two ASCII characters compose,
/// so an all-ASCII input comes back unchanged.
#[verifier::external_body]
pub(crate) fn nfkc(s: &Vec<char>) -> (r: Vec<char>)
    ensures
        r@ == nfkc_of(s@),
        all_ascii(s@) ==> r@ == s@,
{
    let text: String = s.iter().collect();
    text.as_str().nfkc().collect()
}

/// `UnicodeNormalization::nfd`, collected. The result is named; a 7-bit character
/// never decomposes, so an all-ASCII input comes back unchanged.
#[verifier::external_body]
pub(crate) fn nfd(s: &Vec<char>) -> (r: Vec<char>)
    ensures
        r@ == nfd_of(s@),
        all_ascii(s@) ==> r@ == s@,
{
    let text: String = s.iter().collect();
    text.as_str().nfd().collect()
}

/// `UnicodeNormalization::nfc`, collected. The result is named; a 7-bit character
/// never decomposes and no two ASCII characters compose, so an all-ASCII input comes
/// back unchanged.
#[verifier::external_body]
pub(crate) fn nfc(s: &Vec<char>) -> (r: Vec<char>)
    ensures
        r@ == nfc_of(s@),
        all_ascii(s@) ==> r@ == s@,
{
    let text: String = s.iter().collect();
    text.as_str().nfc().collect()
}

/// `unicode_normalization::char::is_combining_mark` (general category `Mark`). The
/// answer is named; no ASCII character is a mark.
#[verifier::external_body]
pub(crate) fn is_combining_mark(c: char) -> (r: bool)
    ensures
        r == combining_mark(c),
        is_ascii_char(c) ==> !r,
{
    unicode_normalization::char::is_combining_mark(c)
}

/// `unicode_normalization::char::decompose_canonical`, with every emitted character
/// collected in order. The decomposition is named. The function always emits at
/// least one character (it falls back to `c` itself), and an ASCII `c` is emitted
/// unchanged.
#[verifier::external_body]
pub(crate) fn decompose_canonical(c: char) -> (r: Vec<char>)
    ensures
        r@ == canonical_decomposition(c),
        r@.len() >= 1,
        is_ascii_char(c) ==> r@ == seq![c],
{
    let mut out = Vec::new();
    unicode_normalization::char::decompose_canonical(c, |d| push_onto(&mut out, d));
    out
}

/// Append `c` to `v`.
pub(crate) fn push_onto(v: &mut Vec<char>, c: char)
    ensures
        final(v)@ == old(v)@.push(c),
{
    v.push(c);
}

/// `UnicodeSegmentation::grapheme_indices(s, true)`, keeping each cluster's
/// characters. The clusters are named. The iterator walks the string from its
/// start, each cluster running to the next boundary strictly after it, so the
/// clusters are non-empty and concatenate back to `s`. No ASCII character extends,
/// prepends to or joins another under the extended rules of UAX #29, which the crate
/// implements; the one rule that keeps two ASCII characters together is CR × LF. So
/// ASCII text without that pair comes back one character to a cluster.
#[verifier::external_body]
pub(crate) fn graphemes(s: &Vec<char>) -> (r: Vec<Vec<char>>)
    ensures
        views(r@) == graphemes_of(s@),
        views(r@).flatten() == s@,
        forall|i: int| 0 <= i < r@.len() ==> (#[trigger] r@[i])@.len() > 0,
        all_ascii(s@) && no_crlf(s@) ==> views(r@) == singletons(s@),
{
    let text: String = s.iter().collect();
    text.as_str().grapheme_indices(true).map(|(_, g)| g.chars().collect()).collect()
}

/// `String::push`.
#[verifier::external_body]
pub(crate) fn push_char(s: &mut String, c: char)
    ensures
        final(s)@ == old(s)@.push(c),
{
    s.push(c);
}

/// The characters of `s`, in order.
pub fn chars_of(s: &str) -> (r: Vec<char>)
    ensures
        r@ == s@,
{
    let mut out: Vec<char> = Vec::new();
    for c in it: s.chars()
        invariant
            out@ == it.seq().take(it.index() as int),
            it.seq() == s@,
    {
        out.push(c);
        assert(out@ =~= it.seq().take(it.index() as int + 1));
    }
    assert(out@ =~= s@);
    out
}

/// A string holding exactly the characters of `v`.
pub fn string_of(v: &Vec<char>) -> (r: String)
    ensures
        r@ == v@,
{
    let mut out = String::new();
    let mut i: usize = 0;
    while i < v.len()
        invariant
            i <= v.len(),
            out@ == v@.take(i as int),
        decreases v.len() - i,
    {
        push_char(&mut out, v[i]);
        i += 1;
        assert(out@ =~= v@.take(i as int));
    }
    assert(v@.take(v.len() as int) =~= v@);
    out
}

} // verus!

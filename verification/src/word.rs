//! The transform of a bare word: every pipeline step from deleting invisible
//! characters to the final whitelist, without extension handling or a length budget.

use vstd::prelude::*;

use crate::fold::{
    ascii_digits, ascii_digits_spec, expand_tokens, expand_tokens_spec, fold, fold_spec,
    remove_ignorable, strip_ignorable,
};
use crate::text::{trim, trim_matches};
use crate::unicode::{
    alphanumeric, char_is_ascii, char_is_ascii_alnum, char_is_ascii_digit, chars_of,
    mark, is_alphanumeric, is_ascii_alnum, is_ascii_char, is_ascii_digit,
    is_combining_mark, is_lowercase, is_numeric, is_uppercase, lower_first, lowercase,
    lowercase_of, nfc, nfc_spec, nfd, nfd_spec, nfkc, nfkc_spec, numeric, string_of, to_lower,
    uppercase,
};
use crate::Options;

verus! {

// ── Step 5: decompose, drop the marks that sit on ASCII ─────────────────────────

/// After the first `n` characters of a decomposed string: what is kept, and whether
/// the last base character was ASCII. A mark is dropped exactly when its base is
/// ASCII — a Latin letter wearing an accent — so that the marks of a script that is
/// kept (a Devanagari virama) survive.
pub open spec fn mark_state(s: Seq<char>, n: int) -> (Seq<char>, bool)
    decreases n,
{
    if n <= 0 {
        (Seq::empty(), false)
    } else {
        let (out, ascii_base) = mark_state(s, n - 1);
        let c = s[n - 1];
        if mark(c) {
            if ascii_base {
                (out, ascii_base)
            } else {
                (out.push(c), ascii_base)
            }
        } else {
            (out.push(c), is_ascii_char(c))
        }
    }
}

pub open spec fn strip_marks(s: Seq<char>) -> Seq<char> {
    mark_state(s, s.len() as int).0
}

pub fn drop_ascii_marks(s: &Vec<char>) -> (r: Vec<char>)
    ensures
        r@ == strip_marks(s@),
{
    let mut out: Vec<char> = Vec::new();
    let mut ascii_base = false;
    let mut i: usize = 0;
    while i < s.len()
        invariant
            i <= s.len(),
            (out@, ascii_base) == mark_state(s@, i as int),
        decreases s.len() - i,
    {
        let c = s[i];
        if is_combining_mark(c) {
            if !ascii_base {
                out.push(c);
            }
        } else {
            ascii_base = char_is_ascii(c);
            out.push(c);
        }
        i += 1;
    }
    out
}

// ── Steps 7, 8 and 10: boundaries, lowercase, whitelist ─────────────────────────

/// Append a separator unless the output is empty or already ends in one.
pub open spec fn push_sep(out: Seq<char>, sep: char) -> Seq<char> {
    if out.len() > 0 && out.last() != sep {
        out.push(sep)
    } else {
        out
    }
}

/// A dot with an ASCII digit on each side is part of a number: `v1.2.3`,
/// `192.168.1.1` and `2024.01.02` keep their dots.
pub open spec fn between_digits(s: Seq<char>, i: int) -> bool {
    i > 0 && is_ascii_digit(s[i - 1]) && i + 1 < s.len() && is_ascii_digit(s[i + 1])
}

/// The first position at or after `j` that does not hold a lowercase letter.
pub open spec fn lower_run_end(s: Seq<char>, j: int) -> int
    decreases s.len() - j,
{
    if j >= s.len() || j < 0 {
        s.len() as int
    } else if lowercase(s[j]) {
        lower_run_end(s, j + 1)
    } else {
        j
    }
}

/// Is there a word boundary immediately before `s[i]`?
///
/// Only case transitions split: a digit never starts a word. An
/// uppercase letter after a lowercase one splits, except at position 1 (`iPhone`,
/// `eBay`). After an uppercase letter or a digit, an uppercase letter
/// splits only when it opens a lowercase word (`XML|Http`, `chapter10|Part`, but
/// `A1B2` stays whole); and mid-uppercase-run not when that lowercase run ends in
/// a number (`IPv6Address`). An uppercase character whose lowercase
/// mapping starts with itself is never a transition.
pub open spec fn boundary(s: Seq<char>, i: int) -> bool {
    if i <= 0 || i >= s.len() {
        false
    } else {
        let prev = s[i - 1];
        let cur = s[i];
        if !alphanumeric(prev) || !uppercase(cur) {
            false
        } else if lower_first(cur) == cur {
            false
        } else if lowercase(prev) {
            i > 1
        } else if !(i + 1 < s.len() && lowercase(s[i + 1])) {
            false
        } else if uppercase(prev) && lower_run_end(s, i + 1) < s.len() && numeric(
            s[lower_run_end(s, i + 1)],
        ) {
            false
        } else {
            true
        }
    }
}

/// Whether `c` survives the whitelist.
pub open spec fn kept(c: char, opts: Options) -> bool {
    if opts.ascii {
        is_ascii_alnum(c)
    } else {
        alphanumeric(c)
    }
}

/// One step of the whitelist: the output so far and whether its last character is a
/// letter of a kept script, which is what may carry a combining mark.
pub open spec fn emit_step(s: Seq<char>, i: int, out: Seq<char>, carrier: bool, opts: Options) -> (
    Seq<char>,
    bool,
) {
    let c = s[i];
    if mark(c) {
        if carrier {
            (out.push(c), carrier)
        } else {
            (out, carrier)
        }
    } else {
        let keep = kept(c, opts);
        let carrier2 = keep && !is_ascii_char(c);
        if keep {
            let out1 = if boundary(s, i) {
                push_sep(out, opts.separator)
            } else {
                out
            };
            (out1 + to_lower(c), carrier2)
        } else if c == '.' && between_digits(s, i) {
            (out.push('.'), carrier2)
        } else {
            (push_sep(out, opts.separator), carrier2)
        }
    }
}

pub open spec fn emit_upto(s: Seq<char>, n: int, opts: Options) -> (Seq<char>, bool)
    decreases n,
{
    if n <= 0 {
        (Seq::empty(), false)
    } else {
        let (out, carrier) = emit_upto(s, n - 1, opts);
        emit_step(s, n - 1, out, carrier, opts)
    }
}

/// Split on word boundaries, lowercase, keep what is alphanumeric, and trim the
/// separator from both ends.
pub open spec fn emit_spec(s: Seq<char>, opts: Options) -> Seq<char> {
    trim(emit_upto(s, s.len() as int, opts).0, opts.separator)
}

pub fn is_between_digits(s: &Vec<char>, i: usize) -> (r: bool)
    requires
        i < s.len(),
    ensures
        r == between_digits(s@, i as int),
{
    i > 0 && char_is_ascii_digit(s[i - 1]) && i + 1 < s.len() && char_is_ascii_digit(s[i + 1])
}

pub fn is_boundary(s: &Vec<char>, i: usize) -> (r: bool)
    requires
        i < s.len(),
    ensures
        r == boundary(s@, i as int),
{
    if i == 0 {
        return false;
    }
    let prev = s[i - 1];
    let cur = s[i];
    if !is_alphanumeric(prev) || !is_uppercase(cur) {
        return false;
    }
    let low = lowercase_of(cur);
    if low[0] == cur {
        return false;
    }
    if is_lowercase(prev) {
        return i > 1;
    }
    if !(i + 1 < s.len() && is_lowercase(s[i + 1])) {
        return false;
    }
    if is_uppercase(prev) {
        let mut end = i + 1;
        while end < s.len() && is_lowercase(s[end])
            invariant
                i + 1 <= end <= s.len(),
                lower_run_end(s@, i + 1) == lower_run_end(s@, end as int),
            decreases s.len() - end,
        {
            end += 1;
        }
        if end < s.len() && is_numeric(s[end]) {
            return false;
        }
    }
    true
}

pub fn push_separator(out: &mut Vec<char>, sep: char)
    ensures
        final(out)@ == push_sep(old(out)@, sep),
{
    if out.len() > 0 && out[out.len() - 1] != sep {
        out.push(sep);
    }
}

pub fn emit(s: &Vec<char>, opts: &Options) -> (r: Vec<char>)
    ensures
        r@ == emit_spec(s@, *opts),
{
    let mut out: Vec<char> = Vec::new();
    let mut carrier = false;
    let mut i: usize = 0;
    while i < s.len()
        invariant
            i <= s.len(),
            (out@, carrier) == emit_upto(s@, i as int, *opts),
        decreases s.len() - i,
    {
        let c = s[i];
        if is_combining_mark(c) {
            if carrier {
                out.push(c);
            }
        } else {
            let keep = if opts.ascii {
                char_is_ascii_alnum(c)
            } else {
                is_alphanumeric(c)
            };
            carrier = keep && !char_is_ascii(c);
            if keep {
                if is_boundary(s, i) {
                    push_separator(&mut out, opts.separator);
                }
                let mut low = lowercase_of(c);
                out.append(&mut low);
            } else if c == '.' && is_between_digits(s, i) {
                out.push('.');
            } else {
                push_separator(&mut out, opts.separator);
            }
        }
        i += 1;
    }
    trim_matches(&out, opts.separator)
}

// ── The whole word pipeline ─────────────────────────────────────────────────────

/// The kebab form of a bare word.
///
/// In order: delete the invisible characters; NFKC; special folds and
/// transliteration; NFD, drop the marks that sit on ASCII, NFC; map decimal digits of
/// every script to ASCII; expand `&` and the tokens whose punctuation is the name (not
/// `.net` when `.` is the separator); then split on
/// word boundaries, lowercase and whitelist.
pub open spec fn kebab_word_spec(s: Seq<char>, opts: Options) -> Seq<char> {
    emit_spec(
        expand_tokens_spec(
            ascii_digits_spec(nfc_spec(strip_marks(nfd_spec(fold_spec(nfkc_spec(strip_ignorable(s))))))),
            opts.separator != '.',
        ),
        opts,
    )
}

pub fn kebab_word_chars(s: &Vec<char>, opts: &Options) -> (r: Vec<char>)
    ensures
        r@ == kebab_word_spec(s@, *opts),
{
    let visible = remove_ignorable(s);
    let compat = nfkc(&visible);
    let folded = fold(&compat);
    let decomposed = nfd(&folded);
    let unmarked = drop_ascii_marks(&decomposed);
    let composed = nfc(&unmarked);
    let digits = ascii_digits(&composed);
    let expanded = expand_tokens(&digits, opts.separator != '.');
    emit(&expanded, opts)
}

/// Kebab-case a bare string, with no extension handling and no length budget.
pub fn kebab_word(s: &str) -> (r: String)
    ensures
        r@ == kebab_word_spec(s@, Options::spec_default()),
{
    kebab_word_with(s, &Options::default())
}

/// [`kebab_word`], with explicit options. The length budget is not applied — only
/// `kebab_with` knows where the extension ends.
pub fn kebab_word_with(s: &str, opts: &Options) -> (r: String)
    ensures
        r@ == kebab_word_spec(s@, *opts),
{
    let chars = chars_of(s);
    let out = kebab_word_chars(&chars, opts);
    string_of(&out)
}

} // verus!

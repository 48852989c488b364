//! Running the transform twice changes nothing the second time.
//!
//! The transform's own steps decide every ASCII character, so for an ASCII name the
//! law is proved outright: the output is a clean word (lowercase letters, digits,
//! single separators, dots between digits) with an extension the next pass splits off
//! where this one did, and every step is the identity on it. Under `--ascii` the first
//! pass writes ASCII whatever the name, and the same holds for every name. What is
//! required is a separator the transform reads back as one.
//!
//! Beyond ASCII, without `--ascii`, the steps rest on named Unicode results
//! (normalization, case mappings, segmentation) about which nothing is stated here,
//! and the law is not claimed.

use vstd::prelude::*;

use crate::fold::{
    ascii_digit_of, ascii_digits_spec, digit_zero, expand_from, expand_tokens_spec, fold_piece,
    fold_spec, fold_upto, ignorable, invisible, lookup_spec, matches_at_spec, special_fold_table,
    strip_ignorable, symbol, token_count, token_from, token_pat,
};
use crate::name::{
    ascii_alnum_word, dot_count, ext_word_spec, kept_ext, lower_seq,
    assemble_spec, dot_run, dots_from, ext_tail, kebab_spec, lemma_assemble_fits, lemma_dots_from,
    parts_spec, stem_cut, usable_ext, with_ordinal_spec, ordinal_tail, decimal, saturating_sub,
    compound_count, compound_ext, compound_head, ends_with_compound, eq_ignore_ascii_case, ext_spec,
    ext_state, first_compound, is_compound_head, split_ext_spec,
};
use crate::text::{all_ascii_digits, last_index_before, lemma_last_index_range};
use crate::text::{
    lemma_len_bounds, lemma_trim_end2_prefix, lemma_utf16_len_concat, lemma_utf8_len_concat,
    trim_end2, trim_start, utf16_len, utf8_len,
};
use crate::translit::translit_table;
use crate::unicode::{
    all_ascii, ascii_lower, is_ascii_alnum, is_ascii_alpha, is_ascii_char, is_ascii_digit, is_ascii_lower,
    lower_first, mark, nfc_spec, nfd_spec, nfkc_spec, to_lower,
};
use crate::word::{
    between_digits, boundary, emit_spec, emit_step, emit_upto, kebab_word_spec, kept, mark_state,
    push_sep, strip_marks,
};
use crate::Options;

verus! {

// ── The separator ───────────────────────────────────────────────────────────────

/// A separator the transform reads back as a separator: an ASCII character that is
/// not a letter or digit, not `.`, not deleted as invisible, and not one that a token
/// or symbol reads (`#` of `c#`, `&`, an apostrophe, a backtick).
pub open spec fn inert_separator(c: char) -> bool {
    &&& is_ascii_char(c)
    &&& !is_ascii_alnum(c)
    &&& c != '.'
    &&& !ignorable(c)
    &&& c != '#'
    &&& c != '&'
    &&& c != '\''
    &&& c != '`'
}

// ── Every step before the whitelist leaves ASCII alone ──────────────────────────

pub(crate) proof fn lemma_strip_ignorable_ascii(s: Seq<char>)
    requires
        all_ascii(s),
    ensures
        all_ascii(strip_ignorable(s)),
    decreases s.len(),
{
    if s.len() > 0 {
        lemma_strip_ignorable_ascii(s.drop_last());
        assert(all_ascii(s.drop_last()));
    }
}

proof fn lemma_strip_ignorable_none(s: Seq<char>)
    requires
        forall|i: int| 0 <= i < s.len() ==> !ignorable(#[trigger] s[i]),
    ensures
        strip_ignorable(s) == s,
    decreases s.len(),
{
    if s.len() > 0 {
        lemma_strip_ignorable_none(s.drop_last());
        assert(s.drop_last().push(s.last()) =~= s);
    }
}

proof fn lemma_lookup_ascii(c: char)
    requires
        is_ascii_char(c),
    ensures
        lookup_spec(c) is None,
{
    assert(special_fold_table(c) is None);
    assert(lower_first(c) == ascii_lower(c));
    assert(translit_table(ascii_lower(c)) is None);
}

proof fn lemma_fold_ascii(s: Seq<char>, n: int)
    requires
        all_ascii(s),
        0 <= n <= s.len(),
    ensures
        fold_upto(s, n) == s.take(n),
    decreases n,
{
    if n > 0 {
        lemma_fold_ascii(s, n - 1);
        lemma_lookup_ascii(s[n - 1]);
        assert(fold_piece(s, n - 1) == seq![s[n - 1]]);
        assert(s.take(n - 1) + seq![s[n - 1]] =~= s.take(n));
    }
}

proof fn lemma_strip_marks_ascii(s: Seq<char>, n: int)
    requires
        all_ascii(s),
        0 <= n <= s.len(),
    ensures
        mark_state(s, n).0 == s.take(n),
    decreases n,
{
    if n > 0 {
        lemma_strip_marks_ascii(s, n - 1);
        assert(!mark(s[n - 1]));
        assert(s.take(n - 1).push(s[n - 1]) =~= s.take(n));
    }
}

proof fn lemma_ascii_digits_ascii(s: Seq<char>)
    requires
        all_ascii(s),
    ensures
        ascii_digits_spec(s) == s,
{
    assert forall|i: int| 0 <= i < s.len() implies ascii_digit_of(#[trigger] s[i]) == s[i] by {
        assert(digit_zero(s[i] as u32) is None);
    }
    assert(ascii_digits_spec(s) =~= s);
}

/// For ASCII input the word pipeline comes down to deleting the invisible characters,
/// expanding tokens and the whitelist.
pub(crate) proof fn lemma_word_pipeline(s: Seq<char>, opts: Options)
    requires
        all_ascii(s),
    ensures
        kebab_word_spec(s, opts) == emit_spec(
            expand_tokens_spec(strip_ignorable(s), opts.separator != '.'),
            opts,
        ),
{
    let a = strip_ignorable(s);
    lemma_strip_ignorable_ascii(s);
    assert(nfkc_spec(a) == a);
    lemma_fold_ascii(a, a.len() as int);
    assert(a.take(a.len() as int) =~= a);
    assert(fold_spec(a) == a);
    assert(nfd_spec(a) == a);
    lemma_strip_marks_ascii(a, a.len() as int);
    assert(strip_marks(a) == a);
    assert(nfc_spec(a) == a);
    lemma_ascii_digits_ascii(a);
}

pub(crate) proof fn lemma_expand_ascii(s: Seq<char>, i: int, net: bool)
    requires
        all_ascii(s),
    ensures
        all_ascii(expand_from(s, i, net)),
    decreases s.len() - i,
{
    if 0 <= i < s.len() {
        crate::fold::lemma_token_from_fits(s, i, 0, net);
        match token_from(s, i, 0, net) {
            Some(k) => {
                crate::fold::lemma_token_pat_len(k);
                lemma_expand_ascii(s, i + token_pat(k).len(), net);
            },
            None => {
                lemma_expand_ascii(s, i + 1, net);
            },
        }
    }
}

// ── Clean words ─────────────────────────────────────────────────────────────────

/// A character a clean word may hold.
pub open spec fn word_char(c: char, sep: char) -> bool {
    is_ascii_lower(c) || is_ascii_digit(c) || c == sep || c == '.'
}

/// A clean word: lowercase ASCII letters and digits, separators that neither open nor
/// close it nor come in pairs, and dots only between two digits.
pub open spec fn clean(w: Seq<char>, sep: char) -> bool {
    &&& forall|i: int| 0 <= i < w.len() ==> word_char(#[trigger] w[i], sep)
    &&& w.len() > 0 ==> w[0] != sep && w.last() != sep && w.last() != '.'
    &&& forall|i: int| 0 <= i < w.len() - 1 && #[trigger] w[i] == sep ==> w[i + 1] != sep
    &&& forall|i: int|
        0 <= i < w.len() && #[trigger] w[i] == '.' ==> 0 < i < w.len() - 1 && is_ascii_digit(
            w[i - 1],
        ) && is_ascii_digit(w[i + 1])
}

/// What holds of the whitelist's output after `n` characters of ASCII input.
spec fn emit_inv(t: Seq<char>, n: int, out: Seq<char>, sep: char) -> bool {
    &&& forall|p: int| 0 <= p < out.len() ==> word_char(#[trigger] out[p], sep)
    &&& out.len() > 0 ==> out[0] != sep && out[0] != '.'
    &&& forall|p: int| 0 <= p < out.len() - 1 && #[trigger] out[p] == sep ==> out[p + 1] != sep
    &&& forall|p: int|
        0 <= p < out.len() && #[trigger] out[p] == '.' ==> p > 0 && is_ascii_digit(out[p - 1])
            && (p < out.len() - 1 ==> is_ascii_digit(out[p + 1]))
    &&& out.len() > 0 && out.last() == '.' ==> 0 < n < t.len() && t[n - 1] == '.'
        && is_ascii_digit(t[n])
    &&& n > 0 && is_ascii_alnum(t[n - 1]) ==> out.len() > 0 && out.last() == ascii_lower(t[n - 1])
}

proof fn lemma_emit_inv(t: Seq<char>, n: int, opts: Options)
    requires
        opts.ascii || all_ascii(t),
        0 <= n <= t.len(),
        inert_separator(opts.separator),
    ensures
        emit_inv(t, n, emit_upto(t, n, opts).0, opts.separator),
    decreases n,
{
    let sep = opts.separator;
    if n > 0 {
        lemma_emit_inv(t, n - 1, opts);
        lemma_emit_ascii_alphabet(t, n - 1, opts);
        let (out, carrier) = emit_upto(t, n - 1, opts);
        let i = n - 1;
        let c = t[i];
        let r = emit_step(t, i, out, carrier, opts);
        assert(emit_upto(t, n, opts).0 == r.0);
        if mark(c) {
            assert(!carrier);
            assert(r.0 == out);
            assert(!is_ascii_char(c));
            if out.len() > 0 && out.last() == '.' {
                assert(t[i - 1] == '.' && is_ascii_digit(t[i]));
            }
            assert(emit_inv(t, n, r.0, sep));
        } else if kept(c, opts) {
            assert(is_ascii_alnum(c));
            assert(to_lower(c) == seq![ascii_lower(c)]);
            let out1 = if boundary(t, i) {
                push_sep(out, sep)
            } else {
                out
            };
            if out.len() > 0 && out.last() == '.' {
                assert(t[i - 1] == '.');
                assert(!boundary(t, i));
            }
            assert(r.0 == out1.push(ascii_lower(c)));
            assert(emit_inv(t, n, r.0, sep));
        } else if c == '.' && between_digits(t, i) {
            assert(is_ascii_alnum(t[i - 1]));
            assert(r.0 == out.push('.'));
            assert(emit_inv(t, n, r.0, sep));
        } else {
            assert(r.0 == push_sep(out, sep));
            if out.len() > 0 {
                assert(out.last() != '.');
            }
            assert(emit_inv(t, n, r.0, sep));
        }
    }
}

proof fn lemma_trim_start_none(s: Seq<char>, x: char)
    requires
        s.len() == 0 || s[0] != x,
    ensures
        trim_start(s, x) == s,
{
}

/// The whitelist's output on ASCII input is a clean word.
proof fn lemma_emit_clean(t: Seq<char>, opts: Options)
    requires
        opts.ascii || all_ascii(t),
        inert_separator(opts.separator),
    ensures
        clean(emit_spec(t, opts), opts.separator),
{
    let sep = opts.separator;
    let out = emit_upto(t, t.len() as int, opts).0;
    lemma_emit_inv(t, t.len() as int, opts);
    lemma_trim_start_none(out, sep);
    if out.len() > 0 && out.last() == sep {
        let d = out.drop_last();
        if d.len() > 0 {
            assert(out[out.len() - 2] != sep);
            assert(d.last() == out[out.len() - 2]);
        }
        assert(trim_end2(d, sep, sep) == d);
        assert(emit_spec(t, opts) == d);
        assert(clean(d, sep)) by {
            if d.len() > 0 {
                if d.last() == '.' {
                    assert(out[d.len() - 1] == '.');
                }
            }
            assert forall|i: int| 0 <= i < d.len() && #[trigger] d[i] == '.' implies 0 < i < d.len()
                - 1 && is_ascii_digit(d[i - 1]) && is_ascii_digit(d[i + 1]) by {
                assert(out[i] == '.');
            }
        }
    } else {
        assert(trim_end2(out, sep, sep) == out);
        assert(emit_spec(t, opts) == out);
    }
}

/// Every kebab word of an ASCII string is clean, and under `--ascii` every kebab word.
pub proof fn lemma_word_clean(s: Seq<char>, opts: Options)
    requires
        opts.ascii || all_ascii(s),
        inert_separator(opts.separator),
    ensures
        clean(kebab_word_spec(s, opts), opts.separator),
{
    if opts.ascii {
        let t = expand_tokens_spec(
            ascii_digits_spec(
                nfc_spec(strip_marks(nfd_spec(fold_spec(nfkc_spec(strip_ignorable(s)))))),
            ),
            opts.separator != '.',
        );
        lemma_emit_clean(t, opts);
    } else {
        lemma_word_pipeline(s, opts);
        lemma_strip_ignorable_ascii(s);
        lemma_expand_ascii(strip_ignorable(s), 0, true);
        lemma_emit_clean(expand_tokens_spec(strip_ignorable(s), true), opts);
    }
}

// ── A clean word is its own kebab form ──────────────────────────────────────────

proof fn lemma_no_token(w: Seq<char>, i: int, k: int, sep: char, net: bool)
    requires
        clean(w, sep),
        inert_separator(sep),
        0 <= i < w.len(),
        0 <= k,
    ensures
        token_from(w, i, k, net) is None,
    decreases token_count() - k,
{
    if k < token_count() {
        let p = token_pat(k);
        if matches_at_spec(w, i, p) {
            assert(is_ascii_char(w[i + 1]) && ascii_lower(w[i + 1]) == p[1]);
            if k == 0 {
                assert(ascii_lower(w[i + 2]) == p[2]);
                assert(w[i + 1] == sep);
                assert(w[i + 2] == sep);
            } else if k == 1 || k == 2 {
                assert(w[i + 1] == '#');
            } else {
                assert(is_ascii_char(w[i + 0]) && ascii_lower(w[i + 0]) == p[0]);
                assert(w[i] == '.');
            }
        }
        lemma_no_token(w, i, k + 1, sep, net);
    }
}

proof fn lemma_expand_clean(w: Seq<char>, i: int, sep: char, net: bool)
    requires
        clean(w, sep),
        inert_separator(sep),
        0 <= i <= w.len(),
    ensures
        expand_from(w, i, net) == w.skip(i),
    decreases w.len() - i,
{
    if i < w.len() {
        lemma_no_token(w, i, 0, sep, net);
        assert(symbol(w[i]) == seq![w[i]]);
        lemma_expand_clean(w, i + 1, sep, net);
        assert(seq![w[i]] + w.skip(i + 1) =~= w.skip(i));
    } else {
        assert(w.skip(i) =~= Seq::<char>::empty());
    }
}

proof fn lemma_emit_identity(w: Seq<char>, n: int, opts: Options)
    requires
        clean(w, opts.separator),
        inert_separator(opts.separator),
        0 <= n <= w.len(),
    ensures
        emit_upto(w, n, opts).0 == w.take(n),
    decreases n,
{
    let sep = opts.separator;
    if n > 0 {
        lemma_emit_identity(w, n - 1, opts);
        let (out, carrier) = emit_upto(w, n - 1, opts);
        let i = n - 1;
        let c = w[i];
        assert(word_char(c, sep));
        assert(!mark(c));
        assert(!boundary(w, i));
        if is_ascii_lower(c) || is_ascii_digit(c) {
            assert(kept(c, opts));
            assert(to_lower(c) == seq![c]);
        } else if c == '.' {
            assert(between_digits(w, i));
        } else {
            assert(c == sep);
            assert(i > 0);
            assert(w[i - 1] != sep);
            assert(out.last() == w[i - 1]);
        }
        assert(w.take(n - 1).push(c) =~= w.take(n));
    }
}

/// A clean word is a fixed point of the word transform.
pub proof fn lemma_clean_fixed(w: Seq<char>, opts: Options)
    requires
        clean(w, opts.separator),
        inert_separator(opts.separator),
    ensures
        kebab_word_spec(w, opts) == w,
{
    let sep = opts.separator;
    assert forall|i: int| 0 <= i < w.len() implies !ignorable(#[trigger] w[i]) by {
        assert(word_char(w[i], sep));
    }
    assert(all_ascii(w)) by {
        assert forall|i: int| 0 <= i < w.len() implies is_ascii_char(#[trigger] w[i]) by {
            assert(word_char(w[i], sep));
        }
    }
    lemma_strip_ignorable_none(w);
    lemma_word_pipeline(w, opts);
    lemma_expand_clean(w, 0, sep, true);
    assert(w.skip(0) =~= w);
    lemma_emit_identity(w, w.len() as int, opts);
    assert(w.take(w.len() as int) =~= w);
    lemma_trim_start_none(w, sep);
    assert(trim_end2(w, sep, sep) == w);
}


/// A word transform is idempotent on ASCII: the kebab form of a kebab word is itself.
pub proof fn kebab_word_is_idempotent(s: Seq<char>, opts: Options)
    requires
        all_ascii(s),
        inert_separator(opts.separator),
    ensures
        kebab_word_spec(kebab_word_spec(s, opts), opts) == kebab_word_spec(s, opts),
{
    lemma_word_clean(s, opts);
    lemma_clean_fixed(kebab_word_spec(s, opts), opts);
}

// ── Words and extensions, piece by piece ────────────────────────────────────────

/// Whether `s` holds no dot.
pub open spec fn dot_free(s: Seq<char>) -> bool {
    forall|i: int| 0 <= i < s.len() ==> #[trigger] s[i] != '.'
}

proof fn lemma_trim_end2_last(s: Seq<char>, x: char, y: char)
    ensures
        trim_end2(s, x, y).len() > 0 ==> trim_end2(s, x, y).last() != x && trim_end2(s, x, y).last()
            != y,
    decreases s.len(),
{
    if s.len() > 0 && (s.last() == x || s.last() == y) {
        lemma_trim_end2_last(s.drop_last(), x, y);
    }
}

/// Cutting a clean word short and trimming separators and dots off its end leaves a
/// clean word.
pub proof fn lemma_trim_take_clean(w: Seq<char>, n: int, sep: char)
    requires
        clean(w, sep),
        0 <= n <= w.len(),
    ensures
        clean(trim_end2(w.take(n), sep, '.'), sep),
{
    let v = w.take(n);
    let t = trim_end2(v, sep, '.');
    lemma_trim_end2_prefix(v, sep, '.');
    lemma_trim_end2_last(v, sep, '.');
    assert forall|i: int| 0 <= i < t.len() implies t[i] == w[i] by {
        assert(t[i] == v.take(t.len() as int)[i]);
    }
    assert forall|i: int| 0 <= i < t.len() implies word_char(#[trigger] t[i], sep) by {
        assert(t[i] == w[i]);
    }
    assert forall|i: int| 0 <= i < t.len() - 1 && #[trigger] t[i] == sep implies t[i + 1] != sep by {
        assert(t[i] == w[i] && t[i + 1] == w[i + 1]);
    }
    assert forall|i: int| 0 <= i < t.len() && #[trigger] t[i] == '.' implies 0 < i < t.len() - 1
        && is_ascii_digit(t[i - 1]) && is_ascii_digit(t[i + 1]) by {
        assert(t[i] == w[i]);
        assert(i < t.len() - 1);
        assert(t[i - 1] == w[i - 1] && t[i + 1] == w[i + 1]);
    }
    if t.len() > 0 {
        assert(t[0] == w[0]);
    }
}

/// Dot-free input gives a dot-free kebab word.
proof fn lemma_emit_dot_free(t: Seq<char>, n: int, opts: Options)
    requires
        dot_free(t),
        opts.separator != '.',
        0 <= n <= t.len(),
        all_ascii(t),
    ensures
        dot_free(emit_upto(t, n, opts).0),
    decreases n,
{
    if n > 0 {
        lemma_emit_dot_free(t, n - 1, opts);
        let (out, carrier) = emit_upto(t, n - 1, opts);
        let c = t[n - 1];
        assert(c != '.');
        assert(!mark(c));
        if kept(c, opts) {
            assert(to_lower(c) == seq![ascii_lower(c)]);
        }
    }
}

proof fn lemma_strip_ignorable_sub(s: Seq<char>)
    ensures
        forall|i: int|
            0 <= i < strip_ignorable(s).len() ==> exists|j: int|
                0 <= j < s.len() && s[j] == #[trigger] strip_ignorable(s)[i],
    decreases s.len(),
{
    if s.len() > 0 {
        lemma_strip_ignorable_sub(s.drop_last());
        let a = strip_ignorable(s.drop_last());
        assert forall|i: int| 0 <= i < strip_ignorable(s).len() implies exists|j: int|
            0 <= j < s.len() && s[j] == #[trigger] strip_ignorable(s)[i] by {
            if i < a.len() {
                let j = choose|j: int| 0 <= j < s.drop_last().len() && s.drop_last()[j] == a[i];
                assert(s[j] == a[i]);
            } else {
                assert(s[s.len() - 1] == strip_ignorable(s)[i]);
            }
        }
    }
}

proof fn lemma_expand_dot_free(s: Seq<char>, i: int, net: bool)
    requires
        dot_free(s),
    ensures
        dot_free(expand_from(s, i, net)),
    decreases s.len() - i,
{
    if 0 <= i < s.len() {
        crate::fold::lemma_token_from_fits(s, i, 0, net);
        match token_from(s, i, 0, net) {
            Some(k) => {
                crate::fold::lemma_token_pat_len(k);
                if k == 3 {
                    assert(is_ascii_char(s[i + 0]) && ascii_lower(s[i + 0]) == token_pat(k)[0]);
                }
                lemma_expand_dot_free(s, i + token_pat(k).len(), net);
            },
            None => {
                lemma_expand_dot_free(s, i + 1, net);
            },
        }
    }
}

/// The kebab word of a dot-free ASCII string holds no dot.
pub proof fn lemma_word_dot_free(s: Seq<char>, opts: Options)
    requires
        all_ascii(s),
        dot_free(s),
        inert_separator(opts.separator),
    ensures
        dot_free(kebab_word_spec(s, opts)),
{
    lemma_word_pipeline(s, opts);
    let a = strip_ignorable(s);
    lemma_strip_ignorable_ascii(s);
    lemma_strip_ignorable_sub(s);
    assert(dot_free(a)) by {
        assert forall|i: int| 0 <= i < a.len() implies #[trigger] a[i] != '.' by {
            let j = choose|j: int| 0 <= j < s.len() && s[j] == a[i];
        }
    }
    lemma_expand_dot_free(a, 0, true);
    lemma_expand_ascii(a, 0, true);
    let t = expand_tokens_spec(a, true);
    lemma_emit_dot_free(t, t.len() as int, opts);
    let out = emit_upto(t, t.len() as int, opts).0;
    lemma_emit_inv(t, t.len() as int, opts);
    lemma_trim_start_none(out, opts.separator);
    let r = emit_spec(t, opts);
    lemma_trim_end2_prefix(trim_start(out, opts.separator), opts.separator, opts.separator);
    assert forall|i: int| 0 <= i < r.len() implies #[trigger] r[i] != '.' by {
        assert(r[i] == out.take(r.len() as int)[i]);
    }
}

/// Separators and dots that never touch a separator or another dot, and never stand
/// at either end: a word, or words joined by single dots.
pub open spec fn tidy(e: Seq<char>, sep: char) -> bool {
    &&& forall|i: int| 0 <= i < e.len() ==> word_char(#[trigger] e[i], sep)
    &&& e.len() > 0 ==> e[0] != sep && e[0] != '.' && e.last() != sep && e.last() != '.'
    &&& forall|i: int|
        0 <= i < e.len() - 1 && (#[trigger] e[i] == sep || e[i] == '.') ==> e[i + 1] != sep
            && e[i + 1] != '.'
}

/// Word characters, with every separator inside and between two characters that are
/// neither separators nor dots.
pub open spec fn loose(s: Seq<char>, sep: char) -> bool {
    &&& forall|i: int| 0 <= i < s.len() ==> word_char(#[trigger] s[i], sep)
    &&& forall|i: int|
        0 <= i < s.len() && #[trigger] s[i] == sep ==> 0 < i < s.len() - 1 && s[i - 1] != sep
            && s[i - 1] != '.' && s[i + 1] != sep && s[i + 1] != '.'
}

proof fn lemma_index_after_dot(e: Seq<char>, n: int)
    requires
        0 <= n <= e.len(),
    ensures
        0 <= crate::text::last_index_before(e, '.', n) + 1 <= n,
        crate::text::last_index_before(e, '.', n) >= 0 ==> e[crate::text::last_index_before(
            e,
            '.',
            n,
        )] == '.',
        forall|j: int|
            crate::text::last_index_before(e, '.', n) < j < n ==> #[trigger] e[j] != '.',
    decreases n,
{
    crate::text::lemma_last_index_range(e, '.', n);
    if n > 0 && e[n - 1] != '.' {
        lemma_index_after_dot(e, n - 1);
    }
}

/// A dot-free stretch of a tidy string that runs from its start or a dot to its end
/// or a dot is a clean word.
proof fn lemma_tidy_segment(e: Seq<char>, m: int, n: int, sep: char)
    requires
        tidy(e, sep),
        0 <= m <= n <= e.len(),
        m == 0 || e[m - 1] == '.',
        n == e.len() || e[n] == '.',
        forall|j: int| m <= j < n ==> #[trigger] e[j] != '.',
    ensures
        clean(e.subrange(m, n), sep),
        dot_free(e.subrange(m, n)),
{
    let w = e.subrange(m, n);
    assert forall|i: int| 0 <= i < w.len() implies word_char(#[trigger] w[i], sep) by {
        assert(w[i] == e[m + i]);
    }
    assert forall|i: int| 0 <= i < w.len() - 1 && #[trigger] w[i] == sep implies w[i + 1] != sep by {
        assert(w[i] == e[m + i] && w[i + 1] == e[m + i + 1]);
    }
    assert forall|i: int| 0 <= i < w.len() implies #[trigger] w[i] != '.' by {
        assert(w[i] == e[m + i]);
    }
    if w.len() > 0 {
        assert(w[0] == e[m]);
        if m > 0 {
            assert(e[m - 1] == '.');
        }
        assert(w.last() == e[n - 1]);
        if n < e.len() {
            assert(e[n] == '.');
            if e[n - 1] == sep {
                assert(e[n - 1 + 1] != '.');
            }
        }
    }
}

/// A tidy extension is its own transform.
pub proof fn lemma_ext_tidy_fixed(e: Seq<char>, opts: Options)
    requires
        tidy(e, opts.separator),
        inert_separator(opts.separator),
    ensures
        ext_spec(e, opts) == e,
{
    lemma_ext_state_tidy(e, e.len() as int, opts);
    let m = crate::text::last_index_before(e, '.', e.len() as int) + 1;
    lemma_index_after_dot(e, e.len() as int);
    lemma_tidy_segment(e, m, e.len() as int, opts.separator);
    lemma_ext_word_fixed(e.subrange(m, e.len() as int), opts);
    assert(e.take(m) + e.subrange(m, e.len() as int) =~= e);
}

proof fn lemma_ext_state_tidy(e: Seq<char>, n: int, opts: Options)
    requires
        tidy(e, opts.separator),
        inert_separator(opts.separator),
        0 <= n <= e.len(),
    ensures
        ext_state(e, n, opts) == (
            e.take(crate::text::last_index_before(e, '.', n) + 1),
            e.subrange(crate::text::last_index_before(e, '.', n) + 1, n),
        ),
    decreases n,
{
    if n > 0 {
        lemma_ext_state_tidy(e, n - 1, opts);
        lemma_index_after_dot(e, n - 1);
        let m = crate::text::last_index_before(e, '.', n - 1) + 1;
        if e[n - 1] == '.' {
            lemma_tidy_segment(e, m, n - 1, opts.separator);
            lemma_ext_word_fixed(e.subrange(m, n - 1), opts);
            assert(e.take(m) + e.subrange(m, n - 1) + seq!['.'] =~= e.take(n));
            assert(e.subrange(n, n) =~= Seq::<char>::empty());
        } else {
            assert(e.subrange(m, n - 1).push(e[n - 1]) =~= e.subrange(m, n));
        }
    } else {
        assert(e.take(0) =~= Seq::<char>::empty());
        assert(e.subrange(0, 0) =~= Seq::<char>::empty());
    }
}

proof fn lemma_clean_loose(w: Seq<char>, sep: char)
    requires
        clean(w, sep),
        dot_free(w),
    ensures
        loose(w, sep),
{
    assert forall|i: int| 0 <= i < w.len() && #[trigger] w[i] == sep implies 0 < i < w.len() - 1
        && w[i - 1] != sep && w[i - 1] != '.' && w[i + 1] != sep && w[i + 1] != '.' by {
        assert(i != 0);
        assert(i != w.len() - 1);
        if w[i - 1] == sep {
            assert(w[i - 1 + 1] != sep);
        }
    }
}

proof fn lemma_loose_join(a: Seq<char>, w: Seq<char>, sep: char)
    requires
        loose(a, sep),
        a.len() == 0 || a.last() == '.',
        loose(w, sep),
        w.len() == 0 || w[0] != sep,
    ensures
        loose(a + w, sep),
{
    let s = a + w;
    assert forall|i: int| 0 <= i < s.len() implies word_char(#[trigger] s[i], sep) by {
        if i < a.len() {
            assert(s[i] == a[i]);
        } else {
            assert(s[i] == w[i - a.len()]);
        }
    }
    assert forall|i: int| 0 <= i < s.len() && #[trigger] s[i] == sep implies 0 < i < s.len() - 1
        && s[i - 1] != sep && s[i - 1] != '.' && s[i + 1] != sep && s[i + 1] != '.' by {
        if i < a.len() {
            assert(s[i] == a[i]);
            assert(s[i - 1] == a[i - 1] && s[i + 1] == a[i + 1]);
        } else {
            let j = i - a.len();
            assert(s[i] == w[j]);
            assert(j > 0);
            assert(s[i - 1] == w[j - 1] && s[i + 1] == w[j + 1]);
        }
    }
}

proof fn lemma_loose_dot(a: Seq<char>, sep: char)
    requires
        loose(a, sep),
        inert_separator(sep),
    ensures
        loose(a.push('.'), sep),
{
    let s = a.push('.');
    assert forall|i: int| 0 <= i < s.len() implies word_char(#[trigger] s[i], sep) by {
        if i < a.len() {
            assert(s[i] == a[i]);
        }
    }
    assert forall|i: int| 0 <= i < s.len() && #[trigger] s[i] == sep implies 0 < i < s.len() - 1
        && s[i - 1] != sep && s[i - 1] != '.' && s[i + 1] != sep && s[i + 1] != '.' by {
        assert(i < a.len());
        assert(s[i] == a[i]);
        assert(s[i - 1] == a[i - 1]);
        if i + 1 < a.len() {
            assert(s[i + 1] == a[i + 1]);
        }
    }
}

proof fn lemma_ext_state_loose(e: Seq<char>, n: int, opts: Options)
    requires
        all_ascii(e),
        inert_separator(opts.separator),
        0 <= n <= e.len(),
    ensures
        loose(ext_state(e, n, opts).0, opts.separator),
        ext_state(e, n, opts).0.len() == 0 || ext_state(e, n, opts).0.last() == '.',
        dot_free(ext_state(e, n, opts).1),
        all_ascii(ext_state(e, n, opts).1),
    decreases n,
{
    if n > 0 {
        lemma_ext_state_loose(e, n - 1, opts);
        let (done, cur) = ext_state(e, n - 1, opts);
        if e[n - 1] == '.' {
            let w = ext_word_spec(cur, opts);
            lemma_ext_word_clean(cur, opts);
            lemma_clean_loose(w, opts.separator);
            lemma_loose_join(done, w, opts.separator);
            lemma_loose_dot(done + w, opts.separator);
            assert(done + w + seq!['.'] =~= (done + w).push('.'));
            assert(dot_free(Seq::<char>::empty()));
        } else {
            assert(dot_free(cur.push(e[n - 1])));
            assert(all_ascii(cur.push(e[n - 1])));
        }
    }
}

/// A kept extension of an ASCII name is tidy.
pub proof fn lemma_ext_tidy(e: Seq<char>, opts: Options)
    requires
        all_ascii(e),
        inert_separator(opts.separator),
        crate::name::usable_ext(ext_spec(e, opts)),
    ensures
        tidy(ext_spec(e, opts), opts.separator),
{
    let sep = opts.separator;
    lemma_ext_state_loose(e, e.len() as int, opts);
    let (done, cur) = ext_state(e, e.len() as int, opts);
    let w = ext_word_spec(cur, opts);
    lemma_ext_word_clean(cur, opts);
    lemma_clean_loose(w, sep);
    lemma_loose_join(done, w, sep);
    let x = ext_spec(e, opts);
    assert(x == done + w);
    assert forall|i: int| 0 <= i < x.len() - 1 && (#[trigger] x[i] == sep || x[i] == '.') implies x[i
        + 1] != sep && x[i + 1] != '.' by {
        if x[i] == '.' && x[i + 1] == '.' {
            assert(!crate::name::usable_ext(x));
        }
        if x[i + 1] == sep {
            assert(x[i + 1 - 1] != sep && x[i + 1 - 1] != '.');
        }
    }
    if x.len() > 0 {
        if x[0] == sep {
            assert(false);
        }
        if x.last() == sep {
            assert(x[x.len() - 1] == sep);
        }
    }
}

// ── The extension tables ────────────────────────────────────────────────────────


/// Each compound extension is two lowercase words around one dot.
proof fn lemma_compound_shape(k: int)
    requires
        0 <= k < compound_count(),
    ensures
        compound_ext(k).len() >= 4,
        is_ascii_lower(compound_ext(k)[0]),
        exists|q: int|
            0 < q < compound_ext(k).len() - 1 && #[trigger] compound_ext(k)[q] == '.' && (forall|
                j: int,
            |
                0 <= j < compound_ext(k).len() && j != q ==> #[trigger] compound_ext(k)[j] != '.'
                    && (is_ascii_lower(compound_ext(k)[j]) || is_ascii_digit(compound_ext(k)[j]))),
{
    let p = compound_ext(k);
    let q = if k <= 3 {
        3int
    } else if k <= 6 {
        1int
    } else if k <= 8 {
        3int
    } else {
        6int
    };
    assert(0 < q < p.len() - 1 && p[q] == '.');
    assert(forall|j: int|
        0 <= j < p.len() && j != q ==> #[trigger] p[j] != '.' && (is_ascii_lower(p[j])
            || is_ascii_digit(p[j])));
}

/// No compound extension starts the way a compound head does.
proof fn lemma_compound_not_head(k: int, j: int)
    requires
        0 <= k < compound_count(),
        0 <= j < 3,
    ensures
        !(compound_ext(k)[0] == compound_head(j)[0] && compound_ext(k)[1] == compound_head(j)[1]),
{
}

/// Of two compound extensions, the one listed first is never a dotted suffix of the
/// other, and the other never has a dot where the first would end in it.
proof fn lemma_compound_order(a: int, b: int)
    requires
        0 <= a < b < compound_count(),
    ensures
        compound_ext(a).len() <= compound_ext(b).len() ==> (seq!['.'] + compound_ext(b)).skip(
            compound_ext(b).len() - compound_ext(a).len(),
        ) != seq!['.'] + compound_ext(a),
        compound_ext(a).len() > compound_ext(b).len() ==> compound_ext(a)[compound_ext(a).len()
            - compound_ext(b).len() - 1] != '.',
{
    let pa = compound_ext(a);
    let pb = compound_ext(b);
    if pa.len() <= pb.len() {
        let w = (seq!['.'] + pb).skip(pb.len() - pa.len());
        let v = seq!['.'] + pa;
        if w == v {
            let n = pa.len() as int;
            assert(w[0] == v[0]);
            assert(w[n] == v[n]);
            assert(w[n - 1] == v[n - 1]);
            assert(w[n - 2] == v[n - 2]);
            assert(w[n - 3] == v[n - 3]);
            assert(false);
        }
    }
}

// ── Extensions of a given shape ─────────────────────────────────────────────────

proof fn lemma_ext_state_run(e: Seq<char>, m: int, n: int, opts: Options)
    requires
        0 <= m <= n <= e.len(),
        ext_state(e, m, opts).1 == Seq::<char>::empty(),
        forall|j: int| m <= j < n ==> #[trigger] e[j] != '.',
    ensures
        ext_state(e, n, opts) == (ext_state(e, m, opts).0, e.subrange(m, n)),
    decreases n - m,
{
    if n > m {
        lemma_ext_state_run(e, m, n - 1, opts);
        assert(e.subrange(m, n - 1).push(e[n - 1]) =~= e.subrange(m, n));
    } else {
        assert(e.subrange(m, n) =~= Seq::<char>::empty());
    }
}

/// A word of ASCII letters and digits, lowercased, is lowercase letters and digits.
pub proof fn lemma_lower_alnum(c: Seq<char>)
    requires
        ascii_alnum_word(c),
    ensures
        lower_seq(c).len() == c.len(),
        forall|i: int|
            0 <= i < c.len() ==> is_ascii_lower(#[trigger] lower_seq(c)[i]) || is_ascii_digit(
                lower_seq(c)[i],
            ),
{
    assert forall|i: int| 0 <= i < c.len() implies is_ascii_lower(#[trigger] lower_seq(c)[i])
        || is_ascii_digit(lower_seq(c)[i]) by {
        assert(is_ascii_alnum(c[i]));
        assert(lower_seq(c)[i] == ascii_lower(c[i]));
    }
}

/// An extension component of an ASCII name is written as a clean word without dots,
/// when the component has none.
pub proof fn lemma_ext_word_clean(c: Seq<char>, opts: Options)
    requires
        opts.ascii || all_ascii(c),
        inert_separator(opts.separator),
    ensures
        clean(ext_word_spec(c, opts), opts.separator),
        all_ascii(c) && dot_free(c) ==> dot_free(ext_word_spec(c, opts)),
{
    if ascii_alnum_word(c) {
        lemma_lower_alnum(c);
        let w = lower_seq(c);
        assert forall|i: int| 0 <= i < w.len() implies word_char(#[trigger] w[i], opts.separator)
            && w[i] != opts.separator && w[i] != '.' by {}
        if w.len() > 0 {
            assert(w[0] != opts.separator && w.last() != opts.separator && w.last() != '.');
        }
    } else {
        lemma_word_clean(c, opts);
        if all_ascii(c) && dot_free(c) {
            lemma_word_dot_free(c, opts);
        }
    }
}

pub proof fn lemma_dot_count_concat(a: Seq<char>, b: Seq<char>)
    ensures
        dot_count(a + b) == dot_count(a) + dot_count(b),
    decreases b.len(),
{
    if b.len() > 0 {
        lemma_dot_count_concat(a, b.drop_last());
        assert((a + b).drop_last() =~= a + b.drop_last());
    } else {
        assert(a + b =~= a);
    }
}

/// A string holds no dot exactly when it counts none.
pub proof fn lemma_dot_count_free(s: Seq<char>)
    ensures
        (dot_count(s) == 0) == dot_free(s),
    decreases s.len(),
{
    if s.len() > 0 {
        lemma_dot_count_free(s.drop_last());
        assert(dot_free(s) == (dot_free(s.drop_last()) && s.last() != '.')) by {
            if dot_free(s.drop_last()) && s.last() != '.' {
                assert forall|i: int| 0 <= i < s.len() implies #[trigger] s[i] != '.' by {
                    if i < s.len() - 1 {
                        assert(s[i] == s.drop_last()[i]);
                    }
                }
            }
            if dot_free(s) {
                assert forall|i: int| 0 <= i < s.drop_last().len() implies #[trigger] s.drop_last()[i]
                    != '.' by {
                    assert(s.drop_last()[i] == s[i]);
                }
            }
        }
    }
}

/// A clean word without dots is its own extension component.
pub proof fn lemma_ext_word_fixed(w: Seq<char>, opts: Options)
    requires
        clean(w, opts.separator),
        dot_free(w),
        inert_separator(opts.separator),
    ensures
        ext_word_spec(w, opts) == w,
{
    if ascii_alnum_word(w) {
        assert forall|i: int| 0 <= i < w.len() implies #[trigger] lower_seq(w)[i] == w[i] by {
            assert(word_char(w[i], opts.separator));
        }
        assert(lower_seq(w) =~= w);
    } else {
        lemma_clean_fixed(w, opts);
    }
}

/// A dot-free extension is transformed as one word.
pub proof fn lemma_ext_one(e: Seq<char>, opts: Options)
    requires
        dot_free(e),
    ensures
        ext_spec(e, opts) == ext_word_spec(e, opts),
{
    lemma_ext_state_run(e, 0, e.len() as int, opts);
    assert(e.subrange(0, e.len() as int) =~= e);
    assert(Seq::<char>::empty() + ext_word_spec(e, opts) =~= ext_word_spec(e, opts));
}

/// Two dot-free components are transformed one by one.
pub proof fn lemma_ext_two(a: Seq<char>, b: Seq<char>, opts: Options)
    requires
        dot_free(a),
        dot_free(b),
    ensures
        ext_spec(a + seq!['.'] + b, opts) == ext_word_spec(a, opts) + seq!['.']
            + ext_word_spec(b, opts),
{
    let e = a + seq!['.'] + b;
    assert forall|j: int| 0 <= j < a.len() implies #[trigger] e[j] != '.' by {
        assert(e[j] == a[j]);
    }
    lemma_ext_state_run(e, 0, a.len() as int, opts);
    assert(e.subrange(0, a.len() as int) =~= a);
    assert(e[a.len() as int] == '.');
    let n1: int = a.len() as int + 1;
    assert(ext_state(e, n1, opts) == (ext_word_spec(a, opts) + seq!['.'], Seq::<char>::empty()))
        by {
        assert(Seq::<char>::empty() + ext_word_spec(a, opts) =~= ext_word_spec(a, opts));
    }
    assert forall|j: int| n1 <= j < e.len() implies #[trigger] e[j] != '.' by {
        assert(e[j] == b[j - n1]);
    }
    lemma_ext_state_run(e, n1, e.len() as int, opts);
    assert(e.subrange(n1, e.len() as int) =~= b);
}

// ── How the second pass splits ──────────────────────────────────────────────────

proof fn lemma_last_index_is(s: Seq<char>, x: char, end: int, j: int)
    requires
        0 <= j < end <= s.len(),
        s[j] == x,
        forall|i: int| j < i < end ==> #[trigger] s[i] != x,
    ensures
        last_index_before(s, x, end) == j,
    decreases end - j,
{
    if end - 1 > j {
        lemma_last_index_is(s, x, end - 1, j);
    }
}

proof fn lemma_first_compound_none(r: Seq<char>, a: int)
    requires
        0 <= a,
        forall|b: int| a <= b < compound_count() ==> !#[trigger] ends_with_compound(r, b),
    ensures
        first_compound(r, a) is None,
    decreases compound_count() - a,
{
    if a < compound_count() {
        lemma_first_compound_none(r, a + 1);
    }
}

proof fn lemma_first_compound_some(r: Seq<char>, a: int, kc: int)
    requires
        0 <= a <= kc < compound_count(),
        forall|b: int| a <= b < kc ==> !#[trigger] ends_with_compound(r, b),
        ends_with_compound(r, kc),
    ensures
        first_compound(r, a) == Some(kc),
    decreases kc - a,
{
    if a < kc {
        lemma_first_compound_some(r, a + 1, kc);
    }
}

/// No compound extension starts right after a dot that a digit follows.
proof fn lemma_no_compound_after_digit_dot(r: Seq<char>, kk: int)
    requires
        0 <= kk < compound_count(),
        ends_with_compound(r, kk),
    ensures
        !is_ascii_digit(r[r.len() - compound_ext(kk).len()]),
        r[r.len() - compound_ext(kk).len() - 1] == '.',
{
    let p = compound_ext(kk);
    lemma_compound_shape(kk);
    let i = r.len() - p.len();
    assert(r.skip(i)[0] == r[i]);
    assert(ascii_lower(r.skip(i)[0]) == p[0]);
}

/// In a clean word every dot is followed by a digit, so no compound extension ends
/// it.
proof fn lemma_clean_no_compound(k: Seq<char>, sep: char)
    requires
        clean(k, sep),
    ensures
        first_compound(k, 0) is None,
{
    assert forall|b: int| 0 <= b < compound_count() implies !#[trigger] ends_with_compound(k, b) by {
        if ends_with_compound(k, b) {
            lemma_no_compound_after_digit_dot(k, b);
            let i = k.len() - compound_ext(b).len() - 1;
            assert(k[i] == '.');
        }
    }
    lemma_first_compound_none(k, 0);
}

/// A stretch that starts with a digit is no compound head.
proof fn lemma_digit_not_head(seg: Seq<char>)
    requires
        seg.len() > 0,
        is_ascii_digit(seg[0]),
    ensures
        !is_compound_head(seg),
{
    if is_compound_head(seg) {
        assert(ascii_lower(seg[0]) == seg[0]);
    }
}

/// How the second pass splits a clean word: not at all, or at its last dot when what
/// follows it is not all digits. Returns that dot's position, or -1.
proof fn lemma_split_clean(k: Seq<char>, sep: char) -> (j: int)
    requires
        clean(k, sep),
        k.len() > 0,
        inert_separator(sep),
    ensures
        j >= -1,
        j == -1 ==> split_ext_spec(k) == (k, None::<Seq<char>>),
        j >= 0 ==> 0 < j < k.len() - 1 && k[j] == '.' && split_ext_spec(k) == (
            k.take(j),
            Some(k.skip(j + 1)),
        ) && clean(k.take(j), sep) && k.take(j).len() > 0 && clean(k.skip(j + 1), sep) && dot_free(
            k.skip(j + 1),
        ) && k.skip(j + 1).len() > 0 && !all_ascii_digits(k.skip(j + 1)),
{
    lemma_clean_no_compound(k, sep);
    let n = k.len() as int;
    let last = last_index_before(k, '.', n);
    lemma_index_after_dot(k, n);
    if !(last > 0 && last + 1 < n) {
        return -1;
    }
    let prev = last_index_before(k, '.', last);
    lemma_index_after_dot(k, last);
    if prev > 0 {
        assert(k[prev] == '.');
        assert(is_ascii_digit(k[prev + 1]));
        assert(prev + 1 < last);
        let seg = k.subrange(prev + 1, last);
        assert(seg[0] == k[prev + 1]);
        lemma_digit_not_head(seg);
    }
    let tail = k.skip(last + 1);
    if all_ascii_digits(tail) {
        return -1;
    }
    assert(k[last] == '.');
    lemma_trim_take_clean(k, last, sep);
    assert(is_ascii_digit(k[last - 1]));
    assert(k.take(last).last() == k[last - 1]);
    assert(trim_end2(k.take(last), sep, '.') == k.take(last));
    assert forall|i: int| 0 <= i < tail.len() implies #[trigger] tail[i] != '.' by {
        assert(tail[i] == k[last + 1 + i]);
    }
    assert forall|i: int| 0 <= i < tail.len() implies word_char(#[trigger] tail[i], sep) by {
        assert(tail[i] == k[last + 1 + i]);
    }
    assert forall|i: int| 0 <= i < tail.len() - 1 && #[trigger] tail[i] == sep implies tail[i + 1]
        != sep by {
        assert(tail[i] == k[last + 1 + i] && tail[i + 1] == k[last + 1 + i + 1]);
    }
    assert(tail[0] == k[last + 1]);
    assert(tail.last() == k.last());
    last
}

/// The second pass finds the compound extension the first one kept.
proof fn lemma_split_compound(k: Seq<char>, kc: int, sep: char)
    requires
        clean(k, sep),
        k.len() > 0,
        0 <= kc < compound_count(),
    ensures
        split_ext_spec(k + seq!['.'] + compound_ext(kc)) == (k, Some(compound_ext(kc))),
{
    let p = compound_ext(kc);
    let r = k + seq!['.'] + p;
    let n = r.len() as int;
    lemma_compound_shape(kc);
    assert(r.skip(n - p.len()) =~= p);
    assert forall|j: int| 0 <= j < p.len() implies ascii_lower(#[trigger] p[j]) == p[j] by {
        lemma_compound_shape(kc);
        let q = choose|q: int|
            0 < q < p.len() - 1 && #[trigger] p[q] == '.' && (forall|j: int|
                0 <= j < p.len() && j != q ==> #[trigger] p[j] != '.' && (is_ascii_lower(p[j])
                    || is_ascii_digit(p[j])));
        if j != q {
            assert(is_ascii_lower(p[j]) || is_ascii_digit(p[j]));
        }
    }
    assert(eq_ignore_ascii_case(r.skip(n - p.len()), p));
    assert(r[n - p.len() - 1] == '.');
    assert(ends_with_compound(r, kc));
    assert forall|a: int| 0 <= a < kc implies !#[trigger] ends_with_compound(r, a) by {
        let pa = compound_ext(a);
        lemma_compound_order(a, kc);
        lemma_compound_shape(a);
        if ends_with_compound(r, a) {
            if pa.len() <= p.len() {
                let w = (seq!['.'] + p).skip(p.len() - pa.len());
                let v = seq!['.'] + pa;
                assert forall|i: int| 0 <= i < v.len() implies w[i] == v[i] by {
                    assert(w[i] == r[n - pa.len() - 1 + i]);
                    if i > 0 {
                        assert(r.skip(n - pa.len())[i - 1] == r[n - pa.len() + i - 1]);
                        assert(ascii_lower(r[n - pa.len() + i - 1]) == pa[i - 1]);
                        assert(r[n - pa.len() + i - 1] == p[p.len() - pa.len() + i - 1]);
                    }
                }
                assert(w =~= v);
            } else {
                let i = pa.len() - p.len() - 1;
                assert(r.skip(n - pa.len())[i] == r[n - p.len() - 1]);
                assert(ascii_lower(r[n - p.len() - 1]) == pa[i]);
            }
        }
    }
    lemma_first_compound_some(r, 0, kc);
    assert(r.take(n - p.len() - 1) =~= k);
}

/// The second pass finds the `.test.*`-style extension the first one kept.
proof fn lemma_split_head(k: Seq<char>, jh: int, l: Seq<char>, sep: char)
    requires
        clean(k, sep),
        k.len() > 0,
        0 <= jh < 3,
        dot_free(l),
        l.len() > 0,
        inert_separator(sep),
    ensures
        split_ext_spec(k + seq!['.'] + compound_head(jh) + seq!['.'] + l) == (
            k,
            Some(compound_head(jh) + seq!['.'] + l),
        ),
{
    let h = compound_head(jh);
    let r = k + seq!['.'] + h + seq!['.'] + l;
    let n = r.len() as int;
    let kl = k.len() as int;
    let d2 = kl + 1 + h.len();
    assert forall|i: int| 0 <= i < r.len() && #[trigger] r[i] == '.' implies (i < kl && is_ascii_digit(
        r[i + 1],
    )) || i == kl || i == d2 by {
        if i < kl {
            assert(r[i] == k[i]);
            assert(r[i + 1] == k[i + 1] || i + 1 == kl);
            if i + 1 == kl {
                assert(k.last() == '.');
            }
        } else if kl < i < d2 {
            assert(r[i] == h[i - kl - 1]);
        } else if i > d2 {
            assert(r[i] == l[i - d2 - 1]);
        }
    }
    assert forall|b: int| 0 <= b < compound_count() implies !#[trigger] ends_with_compound(r, b) by {
        if ends_with_compound(r, b) {
            let p = compound_ext(b);
            lemma_no_compound_after_digit_dot(r, b);
            lemma_compound_shape(b);
            let i0 = n - p.len() - 1;
            if i0 == kl {
                lemma_compound_not_head(b, jh);
                assert(r.skip(n - p.len())[0] == r[kl + 1]);
                assert(r.skip(n - p.len())[1] == r[kl + 2]);
                assert(r[kl + 1] == h[0] && r[kl + 2] == h[1]);
            } else if i0 == d2 {
                let q = choose|q: int|
                    0 < q < p.len() - 1 && #[trigger] p[q] == '.' && (forall|j: int|
                        0 <= j < p.len() && j != q ==> #[trigger] p[j] != '.' && (is_ascii_lower(
                            p[j],
                        ) || is_ascii_digit(p[j])));
                assert(r.skip(n - p.len())[q] == r[d2 + 1 + q]);
                assert(r[d2 + 1 + q] == l[q]);
                assert(ascii_lower(l[q]) == '.');
            }
        }
    }
    lemma_first_compound_none(r, 0);
    assert(r[d2] == '.');
    assert forall|i: int| d2 < i < n implies #[trigger] r[i] != '.' by {
        assert(r[i] == l[i - d2 - 1]);
    }
    lemma_last_index_is(r, '.', n, d2);
    assert(r[kl] == '.');
    assert forall|i: int| kl < i < d2 implies #[trigger] r[i] != '.' by {
        assert(r[i] == h[i - kl - 1]);
    }
    lemma_last_index_is(r, '.', d2, kl);
    assert(r.subrange(kl + 1, d2) =~= h);
    assert(eq_ignore_ascii_case(h, compound_head(jh)));
    assert(r.take(kl) =~= k);
    assert(r.skip(kl + 1) =~= h + seq!['.'] + l);
}

/// The second pass finds the one-word extension the first one kept.
proof fn lemma_split_last(k: Seq<char>, l: Seq<char>, sep: char)
    requires
        clean(k, sep),
        k.len() > 0,
        dot_free(l),
        l.len() > 0,
        !all_ascii_digits(l),
        inert_separator(sep),
    ensures
        split_ext_spec(k + seq!['.'] + l) == (k, Some(l)),
{
    let r = k + seq!['.'] + l;
    let n = r.len() as int;
    let kl = k.len() as int;
    assert forall|b: int| 0 <= b < compound_count() implies !#[trigger] ends_with_compound(r, b) by {
        if ends_with_compound(r, b) {
            let p = compound_ext(b);
            lemma_no_compound_after_digit_dot(r, b);
            lemma_compound_shape(b);
            let i0 = n - p.len() - 1;
            if i0 < kl {
                assert(r[i0] == k[i0]);
                assert(is_ascii_digit(k[i0 + 1]));
                assert(r[i0 + 1] == k[i0 + 1]);
            } else if i0 == kl {
                let q = choose|q: int|
                    0 < q < p.len() - 1 && #[trigger] p[q] == '.' && (forall|j: int|
                        0 <= j < p.len() && j != q ==> #[trigger] p[j] != '.' && (is_ascii_lower(
                            p[j],
                        ) || is_ascii_digit(p[j])));
                assert(r.skip(n - p.len())[q] == r[kl + 1 + q]);
                assert(r[kl + 1 + q] == l[q]);
                assert(ascii_lower(l[q]) == '.');
            } else {
                assert(r[i0] == l[i0 - kl - 1]);
            }
        }
    }
    lemma_first_compound_none(r, 0);
    assert(r[kl] == '.');
    assert forall|i: int| kl < i < n implies #[trigger] r[i] != '.' by {
        assert(r[i] == l[i - kl - 1]);
    }
    lemma_last_index_is(r, '.', n, kl);
    let prev = last_index_before(r, '.', kl);
    lemma_index_after_dot(r, kl);
    if prev > 0 {
        assert(r[prev] == k[prev]);
        assert(is_ascii_digit(k[prev + 1]));
        assert(prev + 1 < kl);
        let seg = r.subrange(prev + 1, kl);
        assert(seg[0] == k[prev + 1]);
        lemma_digit_not_head(seg);
    }
    assert(r.skip(kl + 1) =~= l);
    assert(r.take(kl) =~= k);
}

// ── Names ───────────────────────────────────────────────────────────────────────

/// An extension the transform keeps and reads back as one: a whitelisted compound, a
/// compound head and one word, or one word that is not all digits.
pub open spec fn ext_form(e: Seq<char>, sep: char) -> bool {
    &&& tidy(e, sep)
    &&& usable_ext(e)
    &&& {
        ||| exists|kc: int| 0 <= kc < compound_count() && e == #[trigger] compound_ext(kc)
        ||| exists|jh: int|
            0 <= jh < 3 && e == #[trigger] compound_head(jh) + seq!['.'] + e.skip(
                compound_head(jh).len() as int + 1,
            ) && dot_free(e.skip(compound_head(jh).len() as int + 1)) && e.len() > compound_head(jh).len()
                + 1
        ||| dot_free(e) && e.len() > 0 && !all_ascii_digits(e)
    }
}

/// Leading dots.
pub open spec fn all_dots(p: Seq<char>) -> bool {
    forall|j: int| 0 <= j < p.len() ==> #[trigger] p[j] == '.'
}

proof fn lemma_dot_run_exact(y: Seq<char>, d: int)
    requires
        0 <= d < y.len(),
        forall|j: int| 0 <= j < d ==> #[trigger] y[j] == '.',
        y[d] != '.',
    ensures
        dot_run(y) == d,
{
    lemma_dots_from_exact(y, 0, d);
}

proof fn lemma_dots_from_exact(y: Seq<char>, i: int, d: int)
    requires
        0 <= i <= d < y.len(),
        forall|j: int| 0 <= j < d ==> #[trigger] y[j] == '.',
        y[d] != '.',
    ensures
        dots_from(y, i) == d,
    decreases d - i,
{
    if i < d {
        lemma_dots_from_exact(y, i + 1, d);
    }
}

proof fn lemma_lower_head(h: Seq<char>, opts: Options) -> (jh: int)
    requires
        is_compound_head(h),
    ensures
        0 <= jh < 3,
        lower_seq(h) == compound_head(jh),
        ascii_alnum_word(h),
        ext_word_spec(h, opts) == compound_head(jh),
{
    let jh = if eq_ignore_ascii_case(h, compound_head(0)) {
        0int
    } else if eq_ignore_ascii_case(h, compound_head(1)) {
        1int
    } else {
        2int
    };
    assert(lower_seq(h) =~= compound_head(jh));
    assert forall|i: int| 0 <= i < h.len() implies is_ascii_alnum(#[trigger] h[i]) by {
        assert(ascii_lower(h[i]) == compound_head(jh)[i]);
    }
    jh
}

/// A whitelisted compound extension, in any ASCII case, transforms to its lowercase.
proof fn lemma_compound_ext_spec(big_e: Seq<char>, kc: int, opts: Options)
    requires
        0 <= kc < compound_count(),
        eq_ignore_ascii_case(big_e, compound_ext(kc)),
    ensures
        ext_spec(big_e, opts) == compound_ext(kc),
{
    let p = compound_ext(kc);
    lemma_compound_shape(kc);
    let q = choose|q: int|
        0 < q < p.len() - 1 && #[trigger] p[q] == '.' && (forall|j: int|
            0 <= j < p.len() && j != q ==> #[trigger] p[j] != '.' && (is_ascii_lower(p[j])
                || is_ascii_digit(p[j])));
    assert(ascii_lower(big_e[q]) == '.');
    assert(big_e[q] == '.');
    let a = big_e.take(q);
    let b = big_e.skip(q + 1);
    assert forall|j: int| 0 <= j < a.len() implies #[trigger] a[j] != '.' && is_ascii_alnum(a[j])
        && ascii_lower(a[j]) == p[j] by {
        assert(a[j] == big_e[j]);
        assert(ascii_lower(big_e[j]) == p[j]);
    }
    assert forall|j: int| 0 <= j < b.len() implies #[trigger] b[j] != '.' && is_ascii_alnum(b[j])
        && ascii_lower(b[j]) == p[q + 1 + j] by {
        assert(b[j] == big_e[q + 1 + j]);
        assert(ascii_lower(big_e[q + 1 + j]) == p[q + 1 + j]);
    }
    assert(big_e =~= a + seq!['.'] + b);
    lemma_ext_two(a, b, opts);
    assert(lower_seq(a) =~= p.take(q));
    assert(lower_seq(b) =~= p.skip(q + 1));
    assert(p =~= p.take(q) + seq!['.'] + p.skip(q + 1));
}

pub(crate) proof fn lemma_ascii_sub(s: Seq<char>, a: int, b: int)
    requires
        all_ascii(s),
        0 <= a <= b <= s.len(),
    ensures
        all_ascii(s.subrange(a, b)),
{
    assert forall|i: int| 0 <= i < b - a implies is_ascii_char(#[trigger] s.subrange(a, b)[i]) by {
        assert(s.subrange(a, b)[i] == s[a + i]);
    }
}

/// What the first pass splits a name into, for an ASCII name and for any name under
/// `--ascii`: leading dots, a clean stem, and an extension that reads back as one.
pub proof fn lemma_parts_form(x: Seq<char>, opts: Options)
    requires
        opts.ascii || all_ascii(x),
        inert_separator(opts.separator),
    ensures
        parts_spec(x, opts) matches Some((prefix, stem, ext)) ==> all_dots(prefix) && clean(
            stem,
            opts.separator,
        ) && (ext matches Some(e) ==> ext_form(e, opts.separator)),
{
    let sep = opts.separator;
    let d = dot_run(x);
    lemma_dots_from(x, 0);
    let prefix = x.take(d);
    let rest = x.skip(d);
    if rest.len() > 0 {
        assert(all_dots(prefix));
        assert(rest =~= x.subrange(d, x.len() as int));
        let n = rest.len() as int;
        assert forall|a: int, b: int| 0 <= a <= b <= n && all_ascii(x) implies all_ascii(
            #[trigger] rest.subrange(a, b),
        ) by {
            lemma_ascii_sub(x, d, x.len() as int);
            lemma_ascii_sub(rest, a, b);
        }
        assert(all_ascii(x) ==> all_ascii(rest)) by {
            assert(rest.subrange(0, n) =~= rest);
        }
        lemma_word_clean(rest, opts);
        let (s0, e0) = split_ext_spec(rest);
        if let Some(big_e) = e0 {
            let e = ext_spec(big_e, opts);
            if kept_ext(big_e, e) {
                lemma_ext_form(rest, opts);
            }
        }
    }
}

/// The extension the first pass keeps is of a form the next pass reads back, and the
/// stem before it is clean.
proof fn lemma_ext_form(rest: Seq<char>, opts: Options)
    requires
        opts.ascii || all_ascii(rest),
        inert_separator(opts.separator),
        rest.len() > 0,
        split_ext_spec(rest).1 matches Some(big_e) && kept_ext(big_e, ext_spec(big_e, opts)),
    ensures
        clean(kebab_word_spec(split_ext_spec(rest).0, opts), opts.separator),
        ext_form(ext_spec(split_ext_spec(rest).1.unwrap(), opts), opts.separator),
{
    let sep = opts.separator;
    let n = rest.len() as int;
    let (s0, e0) = split_ext_spec(rest);
    let big_e = e0.unwrap();
    let e = ext_spec(big_e, opts);
    assert forall|a: int, b: int| 0 <= a <= b <= n && all_ascii(rest) implies all_ascii(
        #[trigger] rest.subrange(a, b),
    ) by {
        lemma_ascii_sub(rest, a, b);
    }
    match first_compound(rest, 0) {
        Some(kc) => {
            let p = compound_ext(kc);
            lemma_first_compound_matches(rest, 0);
            assert(ends_with_compound(rest, kc));
            assert(big_e == rest.skip(n - p.len()));
            assert(s0 == rest.take(n - p.len() - 1));
            assert(rest.take(n - p.len() - 1) =~= rest.subrange(0, n - p.len() - 1));
            lemma_word_clean(s0, opts);
            lemma_compound_ext_spec(big_e, kc, opts);
            assert(e == p);
            lemma_compound_shape(kc);
            assert(ext_form(e, sep)) by {
                let q = choose|q: int|
                    0 < q < p.len() - 1 && #[trigger] p[q] == '.' && (forall|j: int|
                        0 <= j < p.len() && j != q ==> #[trigger] p[j] != '.' && (is_ascii_lower(p[j])
                            || is_ascii_digit(p[j])));
                assert forall|i: int| 0 <= i < p.len() implies word_char(#[trigger] p[i], sep) by {}
                assert forall|i: int| 0 <= i < p.len() - 1 && (#[trigger] p[i] == sep || p[i] == '.')
                    implies p[i + 1] != sep && p[i + 1] != '.' by {
                    if i != q {
                        assert(p[i] != '.');
                    }
                }
                assert(p[0] != sep && p[0] != '.');
                assert(p.last() == p[p.len() - 1]);
            }
        },
        None => {
            let last = last_index_before(rest, '.', n);
            lemma_index_after_dot(rest, n);
            let prev = last_index_before(rest, '.', last);
            lemma_index_after_dot(rest, last);
            let h = rest.subrange(prev + 1, last);
            assert(last > 0 && last + 1 < n);
            let lraw = rest.subrange(last + 1, n);
            assert(dot_free(lraw)) by {
                assert forall|i: int| 0 <= i < lraw.len() implies #[trigger] lraw[i] != '.' by {
                    assert(lraw[i] == rest[last + 1 + i]);
                }
            }
            lemma_dot_count_free(lraw);
            let l = ext_word_spec(lraw, opts);
            lemma_ext_word_clean(lraw, opts);
            lemma_dot_count_free(l);
            if prev > 0 && is_compound_head(h) {
                assert(big_e == rest.skip(prev + 1));
                assert(s0 == rest.take(prev));
                assert(rest.take(prev) =~= rest.subrange(0, prev));
                assert(rest.skip(prev + 1) =~= rest.subrange(prev + 1, n));
                lemma_word_clean(s0, opts);
                assert(dot_free(h)) by {
                    assert forall|i: int| 0 <= i < h.len() implies #[trigger] h[i] != '.' by {
                        assert(h[i] == rest[prev + 1 + i]);
                    }
                }
                assert(big_e =~= h + seq!['.'] + lraw);
                lemma_ext_two(h, lraw, opts);
                let jh = lemma_lower_head(h, opts);
                let ch = compound_head(jh);
                assert(e == ch + seq!['.'] + l);
                lemma_dot_count_free(h);
                lemma_dot_count_concat(h, seq!['.']);
                lemma_dot_count_concat(h + seq!['.'], lraw);
                assert(dot_count(seq!['.']) == 1) by {
                    assert(seq!['.'].drop_last() =~= Seq::<char>::empty());
                    assert(dot_count(Seq::<char>::empty()) == 0);
                    assert(seq!['.'].last() == '.');
                }
                lemma_dot_count_free(ch);
                lemma_dot_count_concat(ch, seq!['.']);
                lemma_dot_count_concat(ch + seq!['.'], l);
                assert(dot_free(l));
                if l.len() == 0 {
                    assert(e.last() == '.');
                }
                assert(e.skip(ch.len() as int + 1) =~= l);
                lemma_head_tidy(ch, l, sep);
                assert(ext_form(e, sep));
            } else {
                assert(big_e == lraw);
                assert(s0 == rest.take(last));
                assert(rest.take(last) =~= rest.subrange(0, last));
                lemma_word_clean(s0, opts);
                lemma_ext_one(lraw, opts);
                assert(e == l);
                assert(dot_free(l));
                lemma_clean_tidy(l, sep);
                assert(ext_form(e, sep));
            }
        },
    }
}

/// A compound head, a dot and a clean word without dots are tidy together.
proof fn lemma_head_tidy(ch: Seq<char>, l: Seq<char>, sep: char)
    requires
        ch.len() > 0,
        forall|i: int| 0 <= i < ch.len() ==> is_ascii_lower(#[trigger] ch[i]),
        clean(l, sep),
        dot_free(l),
        l.len() > 0,
        inert_separator(sep),
    ensures
        tidy(ch + seq!['.'] + l, sep),
{
    let e = ch + seq!['.'] + l;
    let c = ch.len() as int;
    assert forall|i: int| 0 <= i < e.len() implies word_char(#[trigger] e[i], sep) by {
        if i < c {
            assert(e[i] == ch[i]);
        } else if i > c {
            assert(e[i] == l[i - c - 1]);
        }
    }
    assert forall|i: int| 0 <= i < e.len() - 1 && (#[trigger] e[i] == sep || e[i] == '.') implies e[i
        + 1] != sep && e[i + 1] != '.' by {
        if i < c - 1 {
            assert(e[i] == ch[i]);
        } else if i == c - 1 {
            assert(e[i] == ch[i]);
        } else if i == c {
            assert(e[i + 1] == l[0]);
        } else {
            assert(e[i] == l[i - c - 1]);
            assert(e[i + 1] == l[i - c]);
            assert(l[i - c - 1] != '.');
        }
    }
    assert(e[0] == ch[0]);
    assert(e.last() == l.last());
}

proof fn lemma_first_compound_matches(r: Seq<char>, a: int)
    requires
        0 <= a,
    ensures
        first_compound(r, a) matches Some(k) ==> a <= k < compound_count() && ends_with_compound(
            r,
            k,
        ),
    decreases compound_count() - a,
{
    if a < compound_count() && !ends_with_compound(r, a) {
        lemma_first_compound_matches(r, a + 1);
    }
}

proof fn lemma_clean_tidy(w: Seq<char>, sep: char)
    requires
        clean(w, sep),
        inert_separator(sep),
    ensures
        tidy(w, sep),
{
    assert forall|i: int| 0 <= i < w.len() - 1 && (#[trigger] w[i] == sep || w[i] == '.') implies w[i
        + 1] != sep && w[i + 1] != '.' by {
        if w[i + 1] == '.' {
            assert(is_ascii_digit(w[i + 1 - 1]));
        }
    }
    if w.len() > 0 {
        if w[0] == '.' {
            assert(false);
        }
    }
}

/// The second pass on a name without an extension.
proof fn lemma_reparse_bare(prefix: Seq<char>, k: Seq<char>, opts: Options)
    requires
        all_dots(prefix),
        clean(k, opts.separator),
        k.len() > 0,
        inert_separator(opts.separator),
        dot_run(prefix + k) == prefix.len(),
    ensures
        parts_spec(prefix + k, opts) matches Some((p2, s2, e2)) && p2 == prefix && p2 + s2
            + ext_tail(e2) == prefix + k && clean(s2, opts.separator) && s2.len() > 0 && (e2 matches Some(
            e,
        ) ==> ext_form(e, opts.separator)),
{
    let sep = opts.separator;
    let y = prefix + k;
    let d = prefix.len() as int;
    assert(y.take(d) =~= prefix);
    assert(y.skip(d) =~= k);
    let j = lemma_split_clean(k, sep);
    if j == -1 {
        lemma_clean_fixed(k, opts);
        assert(prefix + k + Seq::<char>::empty() =~= prefix + k);
    } else {
        let big_e = k.skip(j + 1);
        let s0 = k.take(j);
        lemma_ext_one(big_e, opts);
        lemma_clean_fixed(big_e, opts);
        lemma_ext_word_fixed(big_e, opts);
        lemma_clean_fixed(s0, opts);
        assert(usable_ext(big_e)) by {
            assert(big_e[0] != '.');
            assert(!(exists|i: int| 0 <= i < big_e.len() - 1 && #[trigger] big_e[i] == '.' && big_e[i
                + 1] == '.'));
        }
        lemma_clean_tidy(big_e, sep);
        assert(ext_form(big_e, sep));
        assert(kept_ext(big_e, ext_spec(big_e, opts)));
        assert(prefix + s0 + ext_tail(Some(big_e)) =~= prefix + k);
    }
}

/// The second pass splits `k . e` where the first pass did.
proof fn lemma_resplit(k: Seq<char>, e: Seq<char>, sep: char)
    requires
        clean(k, sep),
        k.len() > 0,
        inert_separator(sep),
        ext_form(e, sep),
    ensures
        split_ext_spec(k + seq!['.'] + e) == (k, Some(e)),
{
    if exists|kc: int| 0 <= kc < compound_count() && e == #[trigger] compound_ext(kc) {
        let kc = choose|kc: int| 0 <= kc < compound_count() && e == #[trigger] compound_ext(kc);
        lemma_split_compound(k, kc, sep);
    } else if exists|jh: int|
        0 <= jh < 3 && e == #[trigger] compound_head(jh) + seq!['.'] + e.skip(
            compound_head(jh).len() as int + 1,
        ) && dot_free(e.skip(compound_head(jh).len() as int + 1)) && e.len() > compound_head(
            jh,
        ).len() as int + 1 {
        let jh = choose|jh: int|
            0 <= jh < 3 && e == #[trigger] compound_head(jh) + seq!['.'] + e.skip(
                compound_head(jh).len() as int + 1,
            ) && dot_free(e.skip(compound_head(jh).len() as int + 1)) && e.len() > compound_head(
                jh,
            ).len() as int + 1;
        let l = e.skip(compound_head(jh).len() as int + 1);
        lemma_split_head(k, jh, l, sep);
        assert(k + seq!['.'] + e =~= k + seq!['.'] + compound_head(jh) + seq!['.'] + l);
    } else {
        lemma_split_last(k, e, sep);
    }
}

/// How the second pass reads a transformed name back: the same leading dots, and a
/// clean stem and an extension that put together give the name again.
pub proof fn lemma_reparse(prefix: Seq<char>, k: Seq<char>, ext: Option<Seq<char>>, opts: Options)
    requires
        all_dots(prefix),
        clean(k, opts.separator),
        k.len() > 0,
        inert_separator(opts.separator),
        ext matches Some(e) ==> ext_form(e, opts.separator),
    ensures
        parts_spec(prefix + k + ext_tail(ext), opts) matches Some((p2, s2, e2)) && p2 == prefix
            && p2 + s2 + ext_tail(e2) == prefix + k + ext_tail(ext) && clean(s2, opts.separator)
            && s2.len() > 0 && (e2 matches Some(e) ==> ext_form(e, opts.separator)),
{
    let sep = opts.separator;
    let tail = ext_tail(ext);
    let y = prefix + k + tail;
    let d = prefix.len() as int;
    assert(y[d] == k[0]);
    if k[0] == '.' {
        assert(false);
    }
    assert forall|j: int| 0 <= j < d implies #[trigger] y[j] == '.' by {
        assert(y[j] == prefix[j]);
    }
    lemma_dot_run_exact(y, d);
    match ext {
        None => {
            assert(y =~= prefix + k);
            lemma_reparse_bare(prefix, k, opts);
        },
        Some(e) => {
            assert(y.take(d) =~= prefix);
            assert(y.skip(d) =~= k + seq!['.'] + e);
            lemma_resplit(k, e, sep);
            lemma_ext_tidy_fixed(e, opts);
            lemma_clean_fixed(k, opts);
        },
    }
}

/// The second pass assembles a name that already fits into itself.
proof fn lemma_reassemble(prefix: Seq<char>, s2: Seq<char>, e2: Option<Seq<char>>, opts: Options)
    requires
        s2.len() > 0,
        s2.last() != opts.separator,
        s2.last() != '.',
        utf8_len(prefix + s2 + ext_tail(e2)) <= opts.max_length,
        utf16_len(prefix + s2 + ext_tail(e2)) <= opts.max_length,
    ensures
        assemble_spec(prefix, s2, e2, opts) == Some(prefix + s2 + ext_tail(e2)),
{
    let tail = ext_tail(e2);
    lemma_utf8_len_concat(prefix, s2);
    lemma_utf8_len_concat(prefix + s2, tail);
    lemma_utf16_len_concat(prefix, s2);
    lemma_utf16_len_concat(prefix + s2, tail);
    lemma_len_bounds(s2);
    assert(stem_cut(prefix, s2, e2, opts) == s2.len());
    assert(s2.take(s2.len() as int) =~= s2);
    assert(trim_end2(s2, opts.separator, '.') == s2);
}

/// What the first pass assembles: the leading dots, a clean stem cut to fit, and the
/// extension.
proof fn lemma_assembled_form(
    prefix: Seq<char>,
    stem: Seq<char>,
    ext: Option<Seq<char>>,
    opts: Options,
)
    requires
        clean(stem, opts.separator),
    ensures
        assemble_spec(prefix, stem, ext, opts) matches Some(y) ==> y == prefix + trim_end2(
            stem.take(stem_cut(prefix, stem, ext, opts)),
            opts.separator,
            '.',
        ) + ext_tail(ext) && clean(
            trim_end2(stem.take(stem_cut(prefix, stem, ext, opts)), opts.separator, '.'),
            opts.separator,
        ) && trim_end2(stem.take(stem_cut(prefix, stem, ext, opts)), opts.separator, '.').len() > 0
            && utf8_len(y) <= opts.max_length && utf16_len(y) <= opts.max_length,
{
    lemma_assemble_fits(prefix, stem, ext, opts);
    if assemble_spec(prefix, stem, ext, opts) is Some {
        lemma_trim_take_clean(stem, stem_cut(prefix, stem, ext, opts), opts.separator);
    }
}

/// Running the transform twice changes nothing the second time.
///
/// Proved for every ASCII name, and under `--ascii` for every name, with a separator
/// the transform reads back as one.
pub proof fn kebab_is_idempotent(x: Seq<char>, opts: Options)
    requires
        opts.ascii || all_ascii(x),
        inert_separator(opts.separator),
    ensures
        kebab_spec(kebab_spec(x, opts), opts) == kebab_spec(x, opts),
{
    lemma_parts_form(x, opts);
    match parts_spec(x, opts) {
        None => {},
        Some((prefix, stem, ext)) => {
            lemma_assembled_form(prefix, stem, ext, opts);
            match assemble_spec(prefix, stem, ext, opts) {
                None => {
                    let y = kebab_spec(x, opts);
                    assert(y.len() == 0);
                    assert(dot_run(y) == 0);
                },
                Some(y) => {
                    let k = trim_end2(stem.take(stem_cut(prefix, stem, ext, opts)), opts.separator, '.');
                    lemma_reparse(prefix, k, ext, opts);
                    let (p2, s2, e2) = parts_spec(y, opts).unwrap();
                    lemma_reassemble(p2, s2, e2, opts);
                },
            }
        },
    }
}

proof fn lemma_decimal_digits(n: u32)
    ensures
        decimal(n).len() > 0,
        forall|i: int| 0 <= i < decimal(n).len() ==> is_ascii_digit(#[trigger] decimal(n)[i]),
    decreases n,
{
    if n >= 10 {
        lemma_decimal_digits(n / 10);
        let d = decimal(n / 10);
        assert forall|i: int| 0 <= i < decimal(n).len() implies is_ascii_digit(#[trigger] decimal(n)[i]) by {
            if i < d.len() {
                assert(decimal(n)[i] == d[i]);
            }
        }
    }
}

/// A clean stem with an ordinal joined to it is clean.
proof fn lemma_ordinal_clean(s2: Seq<char>, n: u32, opts: Options)
    requires
        clean(s2, opts.separator),
        s2.len() > 0,
        inert_separator(opts.separator),
    ensures
        clean(s2 + ordinal_tail(n, opts), opts.separator),
{
    let sep = opts.separator;
    let t = ordinal_tail(n, opts);
    let w = s2 + t;
    lemma_decimal_digits(n);
    let ds = decimal(n);
    assert forall|i: int| 0 <= i < t.len() - 1 implies is_ascii_digit(#[trigger] t[i + 1]) by {
        assert(t[i + 1] == ds[i]);
    }
    assert forall|i: int| 0 <= i < w.len() implies word_char(#[trigger] w[i], sep) by {
        if i < s2.len() {
            assert(w[i] == s2[i]);
        } else if i > s2.len() {
            assert(w[i] == t[i - s2.len()]);
            assert(t[i - s2.len()] == ds[i - s2.len() - 1]);
        }
    }
    assert forall|i: int| 0 <= i < w.len() - 1 && #[trigger] w[i] == sep implies w[i + 1] != sep by {
        if i < s2.len() - 1 {
            assert(w[i] == s2[i] && w[i + 1] == s2[i + 1]);
        } else if i == s2.len() - 1 {
            assert(w[i] == s2.last());
        } else {
            assert(w[i + 1] == t[i + 1 - s2.len()]);
            assert(is_ascii_digit(t[i - s2.len() + 1]));
        }
    }
    assert forall|i: int| 0 <= i < w.len() && #[trigger] w[i] == '.' implies 0 < i < w.len() - 1
        && is_ascii_digit(w[i - 1]) && is_ascii_digit(w[i + 1]) by {
        if i < s2.len() {
            assert(w[i] == s2[i]);
            assert(i < s2.len() - 1);
            assert(w[i - 1] == s2[i - 1] && w[i + 1] == s2[i + 1]);
        } else if i == s2.len() {
            assert(w[i] == sep);
        } else {
            assert(w[i] == t[i - s2.len()]);
            assert(is_ascii_digit(t[i - s2.len() - 1 + 1]));
        }
    }
    assert(w[0] == s2[0]);
    assert(w.last() == t.last());
    assert(is_ascii_digit(t[t.len() - 2 + 1]));
}

/// A name with an ordinal appended is still a fixed point of the transform, for the
/// names and separators of [`kebab_is_idempotent`].
pub proof fn with_ordinal_is_kebab(x: Seq<char>, n: u32, opts: Options)
    requires
        opts.ascii || all_ascii(x),
        inert_separator(opts.separator),
    ensures
        kebab_spec(with_ordinal_spec(x, n, opts), opts) == with_ordinal_spec(x, n, opts),
{
    lemma_parts_form(x, opts);
    match parts_spec(x, opts) {
        None => {},
        Some((prefix, stem, ext)) => {
            let tail = ordinal_tail(n, opts);
            let budget = Options {
                max_length: saturating_sub(opts.max_length as int, utf8_len(tail) as int) as usize,
                ..opts
            };
            lemma_assembled_form(prefix, stem, ext, budget);
            match assemble_spec(prefix, stem, ext, budget) {
                None => {
                    assert(dot_run(Seq::<char>::empty()) == 0);
                },
                Some(fitted) => {
                    let k = trim_end2(stem.take(stem_cut(prefix, stem, ext, budget)), opts.separator, '.');
                    lemma_reparse(prefix, k, ext, opts);
                    let (p2, s2, e2) = parts_spec(fitted, opts).unwrap();
                    lemma_ordinal_clean(s2, n, opts);
                    lemma_assembled_form(p2, s2 + tail, e2, opts);
                    match assemble_spec(p2, s2 + tail, e2, opts) {
                        None => {
                            assert(dot_run(Seq::<char>::empty()) == 0);
                        },
                        Some(r) => {
                            let k3 = trim_end2(
                                (s2 + tail).take(stem_cut(p2, s2 + tail, e2, opts)),
                                opts.separator,
                                '.',
                            );
                            lemma_reparse(p2, k3, e2, opts);
                            let (p3, s3, e3) = parts_spec(r, opts).unwrap();
                            lemma_reassemble(p3, s3, e3, opts);
                        },
                    }
                },
            }
        },
    }
}

/// Running the tool twice changes nothing the second time: the name a file was
/// renamed to is already kebab case, so the next run leaves it alone. For the names
/// and separators of [`kebab_is_idempotent`] and [`kebab_is_idempotent_with_dots`].
pub proof fn a_renamed_file_is_left_alone(x: Seq<char>, explicit: bool, force: bool, opts: Options)
    requires
        opts.ascii || all_ascii(x),
        inert_separator(opts.separator) || opts.separator == '.',
    ensures
        kebab_spec(x, opts).len() > 0 && !crate::plan::is_dot_component(kebab_spec(x, opts))
            ==> crate::plan::decision_holds(
            crate::plan::Decision::AlreadyKebab,
            kebab_spec(x, opts),
            explicit,
            force,
            opts,
        ),
{
    if opts.separator == '.' {
        kebab_is_idempotent_with_dots(x, opts);
    } else {
        kebab_is_idempotent(x, opts);
    }
}

// ── `--ascii` ───────────────────────────────────────────────────────────────────

/// Whether every character of `s` is an ASCII lowercase letter, a digit, the separator
/// or a dot.
pub open spec fn ascii_alphabet(s: Seq<char>, sep: char) -> bool {
    forall|i: int| 0 <= i < s.len() ==> word_char(#[trigger] s[i], sep)
}

pub(crate) proof fn lemma_emit_ascii_alphabet(t: Seq<char>, n: int, opts: Options)
    requires
        opts.ascii || all_ascii(t),
        0 <= n <= t.len(),
    ensures
        ascii_alphabet(emit_upto(t, n, opts).0, opts.separator),
        !emit_upto(t, n, opts).1,
    decreases n,
{
    if n > 0 {
        lemma_emit_ascii_alphabet(t, n - 1, opts);
        let (out, carrier) = emit_upto(t, n - 1, opts);
        let c = t[n - 1];
        if !opts.ascii {
            assert(is_ascii_char(c));
        }
        if !mark(c) && kept(c, opts) {
            assert(is_ascii_alnum(c));
            assert(to_lower(c) == seq![ascii_lower(c)]);
            let out1 = if boundary(t, n - 1) {
                push_sep(out, opts.separator)
            } else {
                out
            };
            assert(ascii_alphabet(out1, opts.separator));
            assert(emit_upto(t, n, opts).0 == out1 + seq![ascii_lower(c)]);
        }
    }
}

pub(crate) proof fn lemma_trim_start_suffix(s: Seq<char>, x: char)
    ensures
        trim_start(s, x).len() <= s.len(),
        trim_start(s, x) == s.skip(s.len() - trim_start(s, x).len()),
    decreases s.len(),
{
    if s.len() > 0 && s[0] == x {
        lemma_trim_start_suffix(s.drop_first(), x);
        let t = trim_start(s.drop_first(), x);
        assert(s.drop_first().skip(s.drop_first().len() - t.len()) =~= s.skip(s.len() - t.len()));
    } else {
        assert(s.skip(0) =~= s);
    }
}

pub(crate) proof fn lemma_alphabet_sub(s: Seq<char>, a: int, b: int, sep: char)
    requires
        ascii_alphabet(s, sep),
        0 <= a <= b <= s.len(),
    ensures
        ascii_alphabet(s.subrange(a, b), sep),
{
    assert forall|i: int| 0 <= i < b - a implies word_char(#[trigger] s.subrange(a, b)[i], sep) by {
        assert(s.subrange(a, b)[i] == s[a + i]);
    }
}

/// The whitelist's output, trimmed, keeps the alphabet of its untrimmed form.
proof fn lemma_emit_spec_alphabet(t: Seq<char>, opts: Options)
    requires
        opts.ascii || all_ascii(t),
    ensures
        ascii_alphabet(emit_spec(t, opts), opts.separator),
{
    let sep = opts.separator;
    let out = emit_upto(t, t.len() as int, opts).0;
    lemma_emit_ascii_alphabet(t, t.len() as int, opts);
    let a = trim_start(out, sep);
    lemma_trim_start_suffix(out, sep);
    assert(a =~= out.subrange(out.len() - a.len(), out.len() as int));
    lemma_alphabet_sub(out, out.len() - a.len(), out.len() as int, sep);
    lemma_trim_end2_prefix(a, sep, sep);
    let r = trim_end2(a, sep, sep);
    assert(r =~= a.subrange(0, r.len() as int));
    lemma_alphabet_sub(a, 0, r.len() as int, sep);
}

/// Under `--ascii`, and for any ASCII string, a kebab word is written in ASCII
/// lowercase letters, digits, the separator and dots.
pub proof fn lemma_word_ascii_alphabet(s: Seq<char>, opts: Options)
    requires
        opts.ascii || all_ascii(s),
    ensures
        ascii_alphabet(kebab_word_spec(s, opts), opts.separator),
{
    if opts.ascii {
        let t = expand_tokens_spec(
            ascii_digits_spec(
                nfc_spec(strip_marks(nfd_spec(fold_spec(nfkc_spec(strip_ignorable(s)))))),
            ),
            opts.separator != '.',
        );
        lemma_emit_spec_alphabet(t, opts);
    } else {
        lemma_word_pipeline(s, opts);
        lemma_strip_ignorable_ascii(s);
        lemma_expand_ascii(strip_ignorable(s), 0, opts.separator != '.');
        lemma_emit_spec_alphabet(expand_tokens_spec(strip_ignorable(s), opts.separator != '.'), opts);
    }
}

/// An extension component is written in the ASCII alphabet wherever its word is.
pub proof fn lemma_ext_word_ascii_alphabet(c: Seq<char>, opts: Options)
    requires
        opts.ascii || all_ascii(c),
    ensures
        ascii_alphabet(ext_word_spec(c, opts), opts.separator),
{
    if ascii_alnum_word(c) {
        lemma_lower_alnum(c);
    } else {
        lemma_word_ascii_alphabet(c, opts);
    }
}

pub(crate) proof fn lemma_alphabet_concat(a: Seq<char>, b: Seq<char>, sep: char)
    requires
        ascii_alphabet(a, sep),
        ascii_alphabet(b, sep),
    ensures
        ascii_alphabet(a + b, sep),
{
    assert forall|i: int| 0 <= i < (a + b).len() implies word_char(#[trigger] (a + b)[i], sep) by {
        if i < a.len() {
            assert((a + b)[i] == a[i]);
        } else {
            assert((a + b)[i] == b[i - a.len()]);
        }
    }
}

pub(crate) proof fn lemma_ext_ascii_alphabet(e: Seq<char>, n: int, opts: Options)
    requires
        opts.ascii || all_ascii(e),
        0 <= n <= e.len(),
    ensures
        ascii_alphabet(ext_state(e, n, opts).0, opts.separator),
        all_ascii(e) ==> all_ascii(ext_state(e, n, opts).1),
    decreases n,
{
    if n > 0 {
        lemma_ext_ascii_alphabet(e, n - 1, opts);
        if all_ascii(e) {
            assert(all_ascii(ext_state(e, n - 1, opts).1.push(e[n - 1])));
            assert(all_ascii(Seq::<char>::empty()));
        }
        let (done, cur) = ext_state(e, n - 1, opts);
        if e[n - 1] == '.' {
            lemma_ext_word_ascii_alphabet(cur, opts);
            lemma_alphabet_concat(done, ext_word_spec(cur, opts), opts.separator);
            lemma_alphabet_concat(done + ext_word_spec(cur, opts), seq!['.'], opts.separator);
        }
    }
}

/// The pieces an ASCII name splits into are ASCII.
pub(crate) proof fn lemma_split_ascii(rest: Seq<char>)
    requires
        all_ascii(rest),
    ensures
        all_ascii(split_ext_spec(rest).0),
        split_ext_spec(rest).1 matches Some(e) ==> all_ascii(e),
{
    let n = rest.len() as int;
    lemma_first_compound_matches(rest, 0);
    assert forall|a: int, b: int| 0 <= a <= b <= n implies all_ascii(#[trigger] rest.subrange(a, b)) by {
        lemma_ascii_sub(rest, a, b);
    }
    match first_compound(rest, 0) {
        Some(kc) => {
            let p = compound_ext(kc);
            assert(rest.take(n - p.len() - 1) =~= rest.subrange(0, n - p.len() - 1));
            assert(rest.skip(n - p.len()) =~= rest.subrange(n - p.len(), n));
        },
        None => {
            let last = last_index_before(rest, '.', n);
            lemma_index_after_dot(rest, n);
            let prev = last_index_before(rest, '.', last);
            if last > 0 && last + 1 < n {
                lemma_index_after_dot(rest, last);
                if prev > 0 {
                    assert(rest.take(prev) =~= rest.subrange(0, prev));
                    assert(rest.skip(prev + 1) =~= rest.subrange(prev + 1, n));
                }
                assert(rest.take(last) =~= rest.subrange(0, last));
                assert(rest.skip(last + 1) =~= rest.subrange(last + 1, n));
            }
        },
    }
}

/// `--ascii` narrows the output to ASCII lowercase letters, digits, the separator and
/// dots, for every input; and an ASCII name is written in that alphabet anyway. So
/// with a separator that is not `/`, only the basename changes.
pub proof fn output_stays_in_the_alphabet(x: Seq<char>, opts: Options)
    requires
        opts.ascii || all_ascii(x),
    ensures
        ascii_alphabet(kebab_spec(x, opts), opts.separator),
{
    let sep = opts.separator;
    let d = dot_run(x);
    lemma_dots_from(x, 0);
    match parts_spec(x, opts) {
        None => {
            assert(x.skip(d).len() == 0);
            assert forall|i: int| 0 <= i < x.len() implies word_char(#[trigger] x[i], sep) by {
                assert(x[i] == '.');
            }
        },
        Some((prefix, stem, ext)) => {
            assert(prefix == x.take(d));
            assert(ascii_alphabet(prefix, sep)) by {
                assert forall|i: int| 0 <= i < prefix.len() implies word_char(#[trigger] prefix[i], sep) by {
                    assert(prefix[i] == x[i]);
                }
            }
            let rest = x.skip(d);
            let (s0, e0) = split_ext_spec(rest);
            if all_ascii(x) {
                assert(rest =~= x.subrange(d, x.len() as int));
                lemma_ascii_sub(x, d, x.len() as int);
                lemma_split_ascii(rest);
            }
            lemma_word_ascii_alphabet(s0, opts);
            lemma_word_ascii_alphabet(rest, opts);
            assert(ascii_alphabet(stem, sep));
            match ext {
                Some(e) => {
                    let big_e = e0.unwrap();
                    let (done, cur) = ext_state(big_e, big_e.len() as int, opts);
                    lemma_ext_ascii_alphabet(big_e, big_e.len() as int, opts);
                    lemma_ext_word_ascii_alphabet(cur, opts);
                    lemma_alphabet_concat(done, ext_word_spec(cur, opts), sep);
                    assert(ascii_alphabet(e, sep));
                    lemma_alphabet_concat(seq!['.'], e, sep);
                },
                None => {},
            }
            let tail = ext_tail(ext);
            assert(ascii_alphabet(tail, sep));
            match assemble_spec(prefix, stem, ext, opts) {
                None => {},
                Some(y) => {
                    lemma_assemble_fits(prefix, stem, ext, opts);
                    let cut = stem_cut(prefix, stem, ext, opts);
                    let v = stem.take(cut);
                    assert(v =~= stem.subrange(0, cut));
                    lemma_alphabet_sub(stem, 0, cut, sep);
                    lemma_trim_end2_prefix(v, sep, '.');
                    let k = trim_end2(v, sep, '.');
                    assert(k =~= v.subrange(0, k.len() as int));
                    lemma_alphabet_sub(v, 0, k.len() as int, sep);
                    lemma_alphabet_concat(prefix, k, sep);
                    lemma_alphabet_concat(prefix + k, tail, sep);
                },
            }
        },
    }
}

// ── The `.` separator ───────────────────────────────────────────────────────────

/// What holds of the whitelist's output after `n` characters of ASCII input, when the
/// separator is `.`.
spec fn dotted_inv(t: Seq<char>, n: int, out: Seq<char>) -> bool {
    &&& out.len() > 0 ==> out[0] != '.'
    &&& forall|p: int| 0 <= p < out.len() - 1 && #[trigger] out[p] == '.' ==> out[p + 1] != '.'
    &&& n > 0 && is_ascii_alnum(t[n - 1]) ==> out.len() > 0 && out.last() == ascii_lower(t[n - 1])
}

proof fn lemma_emit_dotted(t: Seq<char>, n: int, opts: Options)
    requires
        opts.ascii || all_ascii(t),
        0 <= n <= t.len(),
        opts.separator == '.',
    ensures
        dotted_inv(t, n, emit_upto(t, n, opts).0),
    decreases n,
{
    if n > 0 {
        lemma_emit_dotted(t, n - 1, opts);
        lemma_emit_ascii_alphabet(t, n - 1, opts);
        let (out, carrier) = emit_upto(t, n - 1, opts);
        let i = n - 1;
        let c = t[i];
        let r = emit_step(t, i, out, carrier, opts);
        if mark(c) {
            assert(!carrier);
            assert(r.0 == out);
            assert(!is_ascii_char(c));
        } else if kept(c, opts) {
            assert(is_ascii_alnum(c));
            assert(to_lower(c) == seq![ascii_lower(c)]);
            let out1 = if boundary(t, i) {
                push_sep(out, '.')
            } else {
                out
            };
            assert(r.0 == out1.push(ascii_lower(c)));
            assert(dotted_inv(t, n, r.0));
        } else if c == '.' && between_digits(t, i) {
            assert(is_ascii_alnum(t[i - 1]));
            assert(r.0 == out.push('.'));
            assert(dotted_inv(t, n, r.0));
        } else {
            assert(r.0 == push_sep(out, '.'));
            assert(dotted_inv(t, n, r.0));
        }
    }
}

/// Trimming trailing dots off a word that opens with no dot and never doubles one
/// leaves a tidy word.
proof fn lemma_trim_dots_tidy(v: Seq<char>)
    requires
        ascii_alphabet(v, '.'),
        v.len() > 0 ==> v[0] != '.',
        forall|p: int| 0 <= p < v.len() - 1 && #[trigger] v[p] == '.' ==> v[p + 1] != '.',
    ensures
        tidy(trim_end2(v, '.', '.'), '.'),
{
    let t = trim_end2(v, '.', '.');
    lemma_trim_end2_prefix(v, '.', '.');
    lemma_trim_end2_last(v, '.', '.');
    assert forall|i: int| 0 <= i < t.len() implies t[i] == v[i] by {
        assert(t[i] == v.take(t.len() as int)[i]);
    }
    assert forall|i: int| 0 <= i < t.len() implies word_char(#[trigger] t[i], '.') by {
        assert(t[i] == v[i]);
    }
    assert forall|i: int| 0 <= i < t.len() - 1 && (#[trigger] t[i] == '.' || t[i] == '.') implies t[i
        + 1] != '.' && t[i + 1] != '.' by {
        assert(t[i] == v[i] && t[i + 1] == v[i + 1]);
    }
    if t.len() > 0 {
        assert(t[0] == v[0]);
    }
}

/// With `.` as the separator, a kebab word of an ASCII string is tidy: letters and
/// digits in words joined by single dots.
proof fn lemma_word_dotted(s: Seq<char>, opts: Options)
    requires
        opts.ascii || all_ascii(s),
        opts.separator == '.',
    ensures
        tidy(kebab_word_spec(s, opts), '.'),
{
    if opts.ascii {
        let t = expand_tokens_spec(
            ascii_digits_spec(
                nfc_spec(strip_marks(nfd_spec(fold_spec(nfkc_spec(strip_ignorable(s)))))),
            ),
            false,
        );
        lemma_emit_dotted_tidy(t, opts);
    } else {
        lemma_word_pipeline(s, opts);
        lemma_strip_ignorable_ascii(s);
        let a = strip_ignorable(s);
        lemma_expand_ascii(a, 0, false);
        lemma_emit_dotted_tidy(expand_tokens_spec(a, false), opts);
    }
}

proof fn lemma_emit_dotted_tidy(t: Seq<char>, opts: Options)
    requires
        opts.ascii || all_ascii(t),
        opts.separator == '.',
    ensures
        tidy(emit_spec(t, opts), '.'),
{
    let out = emit_upto(t, t.len() as int, opts).0;
    lemma_emit_dotted(t, t.len() as int, opts);
    lemma_emit_ascii_alphabet(t, t.len() as int, opts);
    lemma_trim_start_none(out, '.');
    lemma_trim_dots_tidy(out);
}

/// With `.` as the separator, a tidy word with no `.net` token is its own kebab word.
proof fn lemma_dotted_fixed(w: Seq<char>, opts: Options)
    requires
        tidy(w, '.'),
        opts.separator == '.',
    ensures
        kebab_word_spec(w, opts) == w,
{
    assert forall|i: int| 0 <= i < w.len() implies !ignorable(#[trigger] w[i]) by {
        assert(word_char(w[i], '.'));
    }
    assert(all_ascii(w)) by {
        assert forall|i: int| 0 <= i < w.len() implies is_ascii_char(#[trigger] w[i]) by {
            assert(word_char(w[i], '.'));
        }
    }
    lemma_strip_ignorable_none(w);
    lemma_word_pipeline(w, opts);
    lemma_expand_dotted(w, 0);
    assert(w.skip(0) =~= w);
    lemma_emit_dotted_identity(w, w.len() as int, opts);
    assert(w.take(w.len() as int) =~= w);
    lemma_trim_start_none(w, '.');
    assert(trim_end2(w, '.', '.') == w);
}

proof fn lemma_no_token_dotted(w: Seq<char>, i: int, k: int)
    requires
        tidy(w, '.'),
        0 <= i < w.len(),
        0 <= k,
    ensures
        token_from(w, i, k, false) is None,
    decreases token_count() - k,
{
    if k < token_count() {
        let p = token_pat(k);
        if matches_at_spec(w, i, p) && crate::fold::is_token_spec(w, i, p) && k != 3 {
            assert(is_ascii_char(w[i + 1]) && ascii_lower(w[i + 1]) == p[1]);
            assert(word_char(w[i + 1], '.'));
        }
        lemma_no_token_dotted(w, i, k + 1);
    }
}

proof fn lemma_expand_dotted(w: Seq<char>, i: int)
    requires
        tidy(w, '.'),
        0 <= i <= w.len(),
    ensures
        expand_from(w, i, false) == w.skip(i),
    decreases w.len() - i,
{
    if i < w.len() {
        lemma_no_token_dotted(w, i, 0);
        assert(word_char(w[i], '.'));
        assert(symbol(w[i]) == seq![w[i]]);
        lemma_expand_dotted(w, i + 1);
        assert(seq![w[i]] + w.skip(i + 1) =~= w.skip(i));
    } else {
        assert(w.skip(i) =~= Seq::<char>::empty());
    }
}

proof fn lemma_emit_dotted_identity(w: Seq<char>, n: int, opts: Options)
    requires
        tidy(w, '.'),
        opts.separator == '.',
        0 <= n <= w.len(),
    ensures
        emit_upto(w, n, opts).0 == w.take(n),
    decreases n,
{
    if n > 0 {
        lemma_emit_dotted_identity(w, n - 1, opts);
        let (out, carrier) = emit_upto(w, n - 1, opts);
        let i = n - 1;
        let c = w[i];
        assert(word_char(c, '.'));
        assert(!mark(c));
        assert(!boundary(w, i));
        if is_ascii_lower(c) || is_ascii_digit(c) {
            assert(kept(c, opts));
            assert(to_lower(c) == seq![c]);
        } else {
            assert(c == '.');
            assert(i > 0);
            assert(w[i - 1] != '.');
            assert(out.last() == w[i - 1]);
        }
        assert(w.take(n - 1).push(c) =~= w.take(n));
    }
}

/// With `.` as the separator, a tidy extension is its own transform.
proof fn lemma_ext_dotted_fixed(e: Seq<char>, opts: Options)
    requires
        tidy(e, '.'),
        opts.separator == '.',
    ensures
        ext_spec(e, opts) == e,
{
    lemma_ext_state_dotted(e, e.len() as int, opts);
    let m = last_index_before(e, '.', e.len() as int) + 1;
    lemma_index_after_dot(e, e.len() as int);
    lemma_dotted_segment(e, m, e.len() as int, opts);
    assert(e.take(m) + e.subrange(m, e.len() as int) =~= e);
}

/// A dot-free stretch of a tidy string is its own kebab word.
proof fn lemma_dotted_segment(e: Seq<char>, m: int, n: int, opts: Options)
    requires
        tidy(e, '.'),
        opts.separator == '.',
        0 <= m <= n <= e.len(),
        forall|j: int| m <= j < n ==> #[trigger] e[j] != '.',
    ensures
        kebab_word_spec(e.subrange(m, n), opts) == e.subrange(m, n),
{
    let w = e.subrange(m, n);
    assert forall|i: int| 0 <= i < w.len() implies #[trigger] w[i] == e[m + i] && w[i] != '.' by {}
    assert forall|i: int| 0 <= i < w.len() implies word_char(#[trigger] w[i], '.') by {
        assert(w[i] == e[m + i]);
    }
    lemma_dotted_fixed(w, opts);
}

proof fn lemma_ext_state_dotted(e: Seq<char>, n: int, opts: Options)
    requires
        tidy(e, '.'),
        opts.separator == '.',
        0 <= n <= e.len(),
    ensures
        ext_state(e, n, opts) == (
            e.take(last_index_before(e, '.', n) + 1),
            e.subrange(last_index_before(e, '.', n) + 1, n),
        ),
    decreases n,
{
    if n > 0 {
        lemma_ext_state_dotted(e, n - 1, opts);
        lemma_index_after_dot(e, n - 1);
        let m = last_index_before(e, '.', n - 1) + 1;
        if e[n - 1] == '.' {
            lemma_dotted_segment(e, m, n - 1, opts);
            assert(e.take(m) + e.subrange(m, n - 1) + seq!['.'] =~= e.take(n));
            assert(e.subrange(n, n) =~= Seq::<char>::empty());
        } else {
            assert(e.subrange(m, n - 1).push(e[n - 1]) =~= e.subrange(m, n));
        }
    } else {
        assert(e.take(0) =~= Seq::<char>::empty());
        assert(e.subrange(0, 0) =~= Seq::<char>::empty());
    }
}

/// Where the transform splits a name's rest: nowhere, or at a dot with something
/// before it and something that is not all digits after it. Returns that dot, or -1.
proof fn lemma_split_at(r: Seq<char>) -> (j: int)
    ensures
        split_ext_spec(r).1 is None ==> split_ext_spec(r).0 == r && j == -1,
        split_ext_spec(r).1 is Some ==> 0 < j < r.len() - 1 && r[j] == '.' && split_ext_spec(r) == (
            r.take(j),
            Some(r.skip(j + 1)),
        ) && !all_ascii_digits(r.skip(j + 1)),
{
    let n = r.len() as int;
    lemma_first_compound_matches(r, 0);
    match first_compound(r, 0) {
        Some(kc) => {
            let p = compound_ext(kc);
            lemma_compound_shape(kc);
            let j = n - p.len() - 1;
            let e = r.skip(j + 1);
            assert(e[0] == r.skip(n - p.len())[0]);
            assert(ascii_lower(e[0]) == p[0]);
            if all_ascii_digits(e) {
                assert('0' <= e[0] && e[0] <= '9');
            }
            j
        },
        None => {
            let last = last_index_before(r, '.', n);
            lemma_index_after_dot(r, n);
            if !(last > 0 && last + 1 < n) {
                return -1;
            }
            let prev = last_index_before(r, '.', last);
            lemma_index_after_dot(r, last);
            let h = r.subrange(prev + 1, last);
            if prev > 0 && is_compound_head(h) {
                let jh = lemma_lower_head(h, Options::spec_default());
                assert(lower_seq(h)[0] == compound_head(jh)[0]);
                assert(h[0] == r[prev + 1]);
                let e = r.skip(prev + 1);
                assert(e[0] == r[prev + 1]);
                if all_ascii_digits(e) {
                    assert('0' <= e[0] && e[0] <= '9');
                }
                return prev;
            }
            if all_ascii_digits(r.skip(last + 1)) {
                return -1;
            }
            last
        },
    }
}

/// A stretch of a tidy string between dots (or its ends) is tidy.
proof fn lemma_tidy_sub(r: Seq<char>, a: int, b: int)
    requires
        tidy(r, '.'),
        0 <= a < b <= r.len(),
        a == 0 || r[a - 1] == '.',
        b == r.len() || r[b] == '.',
    ensures
        tidy(r.subrange(a, b), '.'),
{
    let w = r.subrange(a, b);
    assert forall|i: int| 0 <= i < w.len() implies #[trigger] w[i] == r[a + i] by {}
    assert forall|i: int| 0 <= i < w.len() implies word_char(#[trigger] w[i], '.') by {
        assert(w[i] == r[a + i]);
    }
    assert forall|i: int| 0 <= i < w.len() - 1 && (#[trigger] w[i] == '.' || w[i] == '.') implies w[i
        + 1] != '.' && w[i + 1] != '.' by {
        assert(w[i] == r[a + i] && w[i + 1] == r[a + i + 1]);
    }
    assert(w[0] == r[a]);
    if a > 0 {
        assert(r[a - 1] == '.');
    }
    assert(w.last() == r[b - 1]);
    if b < r.len() {
        assert(r[b - 1 + 1] == '.');
    }
}

proof fn lemma_tidy_join(k: Seq<char>, e: Seq<char>)
    requires
        tidy(k, '.'),
        tidy(e, '.'),
        k.len() > 0,
        e.len() > 0,
    ensures
        tidy(k + seq!['.'] + e, '.'),
{
    let r = k + seq!['.'] + e;
    let kl = k.len() as int;
    assert forall|i: int| 0 <= i < r.len() implies word_char(#[trigger] r[i], '.') by {
        if i < kl {
            assert(r[i] == k[i]);
        } else if i > kl {
            assert(r[i] == e[i - kl - 1]);
        }
    }
    assert forall|i: int| 0 <= i < r.len() - 1 && (#[trigger] r[i] == '.' || r[i] == '.') implies r[i
        + 1] != '.' && r[i + 1] != '.' by {
        if i < kl - 1 {
            assert(r[i] == k[i] && r[i + 1] == k[i + 1]);
        } else if i == kl - 1 {
            assert(r[i] == k.last());
        } else if i == kl {
            assert(r[i + 1] == e[0]);
        } else {
            assert(r[i] == e[i - kl - 1] && r[i + 1] == e[i - kl]);
        }
    }
    assert(r[0] == k[0]);
    assert(r.last() == e.last());
}

/// With `.` as the separator, what the first pass splits an ASCII name into: tidy
/// pieces.
proof fn lemma_parts_dotted(x: Seq<char>, opts: Options)
    requires
        opts.ascii || all_ascii(x),
        opts.separator == '.',
    ensures
        parts_spec(x, opts) matches Some((prefix, stem, ext)) ==> all_dots(prefix) && tidy(stem, '.')
            && (ext matches Some(e) ==> tidy(e, '.') && e.len() > 0),
{
    let d = dot_run(x);
    lemma_dots_from(x, 0);
    let rest = x.skip(d);
    if rest.len() == 0 {
        return;
    }
    assert(all_dots(x.take(d)));
    assert(rest =~= x.subrange(d, x.len() as int));
    if all_ascii(x) {
        lemma_ascii_sub(x, d, x.len() as int);
        lemma_split_ascii(rest);
    }
    let (s0, e0) = split_ext_spec(rest);
    lemma_word_dotted(rest, opts);
    lemma_word_dotted(s0, opts);
    match e0 {
        Some(big_e) => {
            let e = ext_spec(big_e, opts);
            if usable_ext(e) {
                let (done, cur) = ext_state(big_e, big_e.len() as int, opts);
                lemma_ext_ascii_alphabet(big_e, big_e.len() as int, opts);
                lemma_ext_word_ascii_alphabet(cur, opts);
                lemma_alphabet_concat(done, ext_word_spec(cur, opts), '.');
                assert(e == done + ext_word_spec(cur, opts));
                assert forall|i: int| 0 <= i < e.len() - 1 && (#[trigger] e[i] == '.' || e[i] == '.')
                    implies e[i + 1] != '.' && e[i + 1] != '.' by {}
            }
        },
        None => {},
    }
}

/// With `.` as the separator, the second pass reads a tidy name back as itself.
proof fn lemma_reread_dotted(prefix: Seq<char>, k: Seq<char>, ext: Option<Seq<char>>, opts: Options)
    requires
        all_dots(prefix),
        tidy(k, '.'),
        k.len() > 0,
        ext matches Some(e) ==> tidy(e, '.') && e.len() > 0,
        opts.separator == '.',
        utf8_len(prefix + k + ext_tail(ext)) <= opts.max_length,
        utf16_len(prefix + k + ext_tail(ext)) <= opts.max_length,
    ensures
        kebab_spec(prefix + k + ext_tail(ext), opts) == prefix + k + ext_tail(ext),
{
    let r = k + ext_tail(ext);
    match ext {
        Some(e) => {
            lemma_tidy_join(k, e);
            assert(r =~= k + seq!['.'] + e);
        },
        None => {
            assert(r =~= k);
        },
    }
    assert(prefix + k + ext_tail(ext) =~= prefix + r);
    lemma_reparse_dotted(prefix, r, opts);
}

#[verifier::rlimit(30)]
proof fn lemma_reparse_dotted(prefix: Seq<char>, r: Seq<char>, opts: Options)
    requires
        all_dots(prefix),
        tidy(r, '.'),
        r.len() > 0,
        opts.separator == '.',
        utf8_len(prefix + r) <= opts.max_length,
        utf16_len(prefix + r) <= opts.max_length,
    ensures
        kebab_spec(prefix + r, opts) == prefix + r,
{
    let y = prefix + r;
    let d = prefix.len() as int;
    assert(y[d] == r[0]);
    assert forall|i: int| 0 <= i < d implies #[trigger] y[i] == '.' by {
        assert(y[i] == prefix[i]);
    }
    lemma_dot_run_exact(y, d);
    assert(y.skip(d) =~= r);
    assert(y.take(d) =~= prefix);
    let j = lemma_split_at(r);
    if split_ext_spec(r).1 is None {
        lemma_dotted_fixed(r, opts);
        assert(prefix + r + Seq::<char>::empty() =~= y);
        lemma_reassemble(prefix, r, None, opts);
    } else {
        lemma_reparse_dotted_split(prefix, r, j, opts);
    }
}

#[verifier::rlimit(60)]
proof fn lemma_reparse_dotted_split(prefix: Seq<char>, r: Seq<char>, j: int, opts: Options)
    requires
        all_dots(prefix),
        tidy(r, '.'),
        opts.separator == '.',
        dot_run(prefix + r) == prefix.len(),
        (prefix + r).skip(prefix.len() as int) == r,
        (prefix + r).take(prefix.len() as int) == prefix,
        utf8_len(prefix + r) <= opts.max_length,
        utf16_len(prefix + r) <= opts.max_length,
        0 < j < r.len() - 1,
        r[j] == '.',
        split_ext_spec(r) == (r.take(j), Some(r.skip(j + 1))),
        !all_ascii_digits(r.skip(j + 1)),
    ensures
        kebab_spec(prefix + r, opts) == prefix + r,
{
    let y = prefix + r;
    let s2 = r.take(j);
    let e2 = r.skip(j + 1);
    assert(s2 =~= r.subrange(0, j));
    assert(e2 =~= r.subrange(j + 1, r.len() as int));
    lemma_tidy_sub(r, 0, j);
    lemma_tidy_sub(r, j + 1, r.len() as int);
    lemma_ext_dotted_fixed(e2, opts);
    assert(!(exists|i: int| 0 <= i < e2.len() - 1 && #[trigger] e2[i] == '.' && e2[i + 1] == '.'));
    assert(usable_ext(e2));
    assert(kept_ext(e2, ext_spec(e2, opts)));
    lemma_dotted_fixed(s2, opts);
    assert(parts_spec(y, opts) == Some((prefix, s2, Some(e2))));
    assert(prefix + s2 + ext_tail(Some(e2)) =~= y);
    lemma_reassemble(prefix, s2, Some(e2), opts);
}

/// Running the transform twice changes nothing the second time, with `.` as the
/// separator, for every ASCII name and, under `--ascii`, for every name. (`X Net.md` becomes `x.net.md`, and with `.` as
/// the separator `.net` is not read as a token, so the second pass keeps it.)
pub proof fn kebab_is_idempotent_with_dots(x: Seq<char>, opts: Options)
    requires
        opts.ascii || all_ascii(x),
        opts.separator == '.',
    ensures
        kebab_spec(kebab_spec(x, opts), opts) == kebab_spec(x, opts),
{
    lemma_parts_dotted(x, opts);
    match parts_spec(x, opts) {
        None => {},
        Some((prefix, stem, ext)) => {
            lemma_assemble_fits(prefix, stem, ext, opts);
            match assemble_spec(prefix, stem, ext, opts) {
                None => {
                    assert(dot_run(Seq::<char>::empty()) == 0);
                },
                Some(y) => {
                    let cut = stem_cut(prefix, stem, ext, opts);
                    let v = stem.take(cut);
                    assert(ascii_alphabet(v, '.')) by {
                        assert forall|i: int| 0 <= i < v.len() implies word_char(#[trigger] v[i], '.') by {
                            assert(v[i] == stem[i]);
                        }
                    }
                    if v.len() > 0 {
                        assert(v[0] == stem[0]);
                    }
                    assert forall|p: int| 0 <= p < v.len() - 1 && #[trigger] v[p] == '.' implies v[p + 1]
                        != '.' by {
                        assert(v[p] == stem[p] && v[p + 1] == stem[p + 1]);
                    }
                    lemma_trim_dots_tidy(v);
                    lemma_reread_dotted(prefix, trim_end2(v, '.', '.'), ext, opts);
                },
            }
        },
    }
}


/// A prefix of a string in the dotted alphabet that neither opens with a dot nor
/// holds two dots in a row keeps both properties.
proof fn lemma_dotted_take(st: Seq<char>, c: int)
    requires
        ascii_alphabet(st, '.'),
        st.len() > 0 ==> st[0] != '.',
        forall|p: int| 0 <= p < st.len() - 1 && #[trigger] st[p] == '.' ==> st[p + 1] != '.',
        0 <= c <= st.len(),
    ensures
        ascii_alphabet(st.take(c), '.'),
        st.take(c).len() > 0 ==> st.take(c)[0] != '.',
        forall|p: int| 0 <= p < st.take(c).len() - 1 && #[trigger] st.take(c)[p] == '.' ==> st.take(c)[p + 1] != '.',
{
    let v = st.take(c);
    assert forall|i: int| 0 <= i < v.len() implies word_char(#[trigger] v[i], '.') by {
        assert(v[i] == st[i]);
    }
    assert forall|p: int| 0 <= p < v.len() - 1 && #[trigger] v[p] == '.' implies v[p + 1] != '.' by {
        assert(v[p] == st[p] && v[p + 1] == st[p + 1]);
    }
}

/// With `.` as the separator, a name with an ordinal appended is still a fixed point
/// of the transform, for every ASCII name and, under `--ascii`, for every name.
pub proof fn with_ordinal_is_kebab_with_dots(x: Seq<char>, n: u32, opts: Options)
    requires
        opts.ascii || all_ascii(x),
        opts.separator == '.',
    ensures
        kebab_spec(with_ordinal_spec(x, n, opts), opts) == with_ordinal_spec(x, n, opts),
{
    lemma_parts_dotted(x, opts);
    match parts_spec(x, opts) {
        None => {},
        Some((prefix, stem, ext)) => {
            let tail = ordinal_tail(n, opts);
            let budget = Options {
                max_length: saturating_sub(opts.max_length as int, utf8_len(tail) as int) as usize,
                ..opts
            };
            lemma_assemble_fits(prefix, stem, ext, budget);
            match assemble_spec(prefix, stem, ext, budget) {
                None => {
                    assert(dot_run(Seq::<char>::empty()) == 0);
                },
                Some(fitted) => {
                    let v = stem.take(stem_cut(prefix, stem, ext, budget));
                    let k = trim_end2(v, '.', '.');
                    lemma_trim_end2_prefix(v, '.', '.');
                    assert(fitted == prefix + k + ext_tail(ext));
                    assert(all_ascii(fitted)) by {
                        let pk = prefix + k;
                        assert forall|i: int| 0 <= i < fitted.len() implies is_ascii_char(#[trigger] fitted[i]) by {
                            if i < prefix.len() {
                                assert(fitted[i] == prefix[i]);
                            } else if i < pk.len() {
                                assert(fitted[i] == k[i - prefix.len()]);
                                assert(k[i - prefix.len()] == stem[i - prefix.len()]);
                                assert(word_char(stem[i - prefix.len()], '.'));
                            } else {
                                let e = ext.unwrap();
                                assert(fitted[i] == ext_tail(ext)[i - pk.len()]);
                                if i > pk.len() {
                                    assert(ext_tail(ext)[i - pk.len()] == e[i - pk.len() - 1]);
                                    assert(word_char(e[i - pk.len() - 1], '.'));
                                }
                            }
                        }
                    }
                    lemma_parts_dotted(fitted, opts);
                    match parts_spec(fitted, opts) {
                        None => {
                            assert(dot_run(Seq::<char>::empty()) == 0);
                        },
                        Some((p2, s2, e2)) => {
                            let st = s2 + tail;
                            lemma_assemble_fits(p2, st, e2, opts);
                            lemma_decimal_digits(n);
                            let ds = decimal(n);
                            match assemble_spec(p2, st, e2, opts) {
                                None => {
                                    assert(dot_run(Seq::<char>::empty()) == 0);
                                },
                                Some(r) => {
                                    let cut3 = stem_cut(p2, st, e2, opts);
                                    let v3 = st.take(cut3);
                                    let k3 = trim_end2(v3, '.', '.');
                                    assert(r == p2 + k3 + ext_tail(e2));
                                    if s2.len() > 0 {
                                        assert forall|i: int| 0 <= i < st.len() implies word_char(#[trigger] st[i], '.') by {
                                            if i < s2.len() {
                                                assert(st[i] == s2[i]);
                                            } else if i > s2.len() {
                                                assert(st[i] == ds[i - s2.len() - 1]);
                                            }
                                        }
                                        assert(st[0] == s2[0]);
                                        assert forall|p: int| 0 <= p < st.len() - 1 && #[trigger] st[p] == '.' implies st[p + 1] != '.' by {
                                            if p < s2.len() - 1 {
                                                assert(st[p] == s2[p] && st[p + 1] == s2[p + 1]);
                                            } else if p == s2.len() - 1 {
                                                assert(st[p] == s2.last());
                                            } else {
                                                assert(st[p + 1] == ds[p - s2.len()]);
                                            }
                                        }
                                        lemma_dotted_take(st, cut3);
                                        lemma_trim_dots_tidy(v3);
                                        lemma_reread_dotted(p2, k3, e2, opts);
                                    } else {
                                        assert(st =~= tail);
                                        let dd = k3.skip(1);
                                        lemma_trim_end2_prefix(v3, '.', '.');
                                        assert(k3.len() > 0);
                                        assert(k3[0] == '.') by {
                                            assert(k3[0] == v3[0] && v3[0] == st[0]);
                                        }
                                        assert forall|i: int| 0 < i < k3.len() implies is_ascii_digit(#[trigger] k3[i]) by {
                                            assert(k3[i] == v3[i] && v3[i] == st[i] && st[i] == ds[i - 1]);
                                        }
                                        assert(k3.len() > 1) by {
                                            if k3.len() == 1 {
                                                assert(v3.len() > 0 && (v3.last() == '.' || v3.last() != '.'));
                                                if v3.len() == 1 {
                                                    assert(v3.drop_last() =~= Seq::<char>::empty());
                                                    assert(trim_end2(v3.drop_last(), '.', '.').len() == 0);
                                                } else {
                                                    assert(v3.last() == st[v3.len() - 1]);
                                                    assert(is_ascii_digit(ds[v3.len() - 2]));
                                                    assert(k3 == v3);
                                                }
                                            }
                                        }
                                        let p3 = p2 + seq!['.'];
                                        assert(all_dots(p3)) by {
                                            assert forall|i: int| 0 <= i < p3.len() implies #[trigger] p3[i] == '.' by {
                                                if i < p2.len() {
                                                    assert(p3[i] == p2[i]);
                                                }
                                            }
                                        }
                                        assert(tidy(dd, '.')) by {
                                            assert forall|i: int| 0 <= i < dd.len() implies is_ascii_digit(#[trigger] dd[i]) by {
                                                assert(dd[i] == k3[i + 1]);
                                            }
                                        }
                                        assert(p2 + k3 =~= p3 + dd);
                                        lemma_reread_dotted(p3, dd, e2, opts);
                                    }
                                },
                            }
                        },
                    }
                },
            }
        },
    }
}


/// The second-to-last extension components documented to bind to the extension:
/// `test`, `spec` and `stories`, in any ASCII case.
pub open spec fn documented_head(h: Seq<char>) -> bool {
    ||| eq_ignore_ascii_case(h, seq!['t', 'e', 's', 't'])
    ||| eq_ignore_ascii_case(h, seq!['s', 'p', 'e', 'c'])
    ||| eq_ignore_ascii_case(h, seq!['s', 't', 'o', 'r', 'i', 'e', 's'])
}

proof fn lemma_lower_is_dot(c: char)
    ensures
        (ascii_lower(c) == '.') == (c == '.'),
{
}

/// A whitelisted compound extension that ends `s . h . e`, with `h` and `e` free of
/// dots, is `h . e` lowercased.
proof fn lemma_compound_window(s: Seq<char>, h: Seq<char>, e: Seq<char>, k: int)
    requires
        dot_free(h),
        dot_free(e),
        0 <= k < compound_count(),
        ends_with_compound(s + seq!['.'] + h + seq!['.'] + e, k),
    ensures
        compound_ext(k) == lower_seq(h) + seq!['.'] + lower_seq(e),
{
    let r = s + seq!['.'] + h + seq!['.'] + e;
    let len = r.len() as int;
    let p = compound_ext(k);
    let n = p.len() as int;
    let pos1 = s.len() as int;
    let pos2: int = s.len() + 1 + h.len() as int;
    assert forall|i: int| pos1 < i < len && i != pos2 implies #[trigger] r[i] != '.' by {
        if i < pos2 {
            assert(r[i] == h[i - pos1 - 1]);
        } else {
            assert(r[i] == e[i - pos2 - 1]);
        }
    }
    assert(r[pos1] == '.' && r[pos2] == '.');
    lemma_compound_shape(k);
    let q = choose|q: int|
        0 < q < p.len() - 1 && #[trigger] p[q] == '.' && (forall|j: int|
            0 <= j < p.len() && j != q ==> #[trigger] p[j] != '.' && (is_ascii_lower(p[j])
                || is_ascii_digit(p[j])));
    let t = r.skip(len - n);
    assert forall|j: int| 0 <= j < n implies (#[trigger] r[len - n + j] == '.') == (j == q) by {
        assert(t[j] == r[len - n + j]);
        assert(ascii_lower(t[j]) == p[j]);
        lemma_lower_is_dot(t[j]);
    }
    assert(r[len - n + q] == '.');
    if len - n + q != pos2 {
        assert(len - n + q <= pos1);
        assert(r[len - n + (pos2 - (len - n))] == '.');
        assert(false);
    }
    let b = len - n - 1;
    assert(r[b] == '.');
    if b != pos1 {
        if b > pos1 {
            assert(b < pos2);
            assert(false);
        } else {
            assert(r[len - n + (pos1 - (len - n))] == '.');
            assert(false);
        }
    }
    assert(q == h.len());
    let w = lower_seq(h) + seq!['.'] + lower_seq(e);
    assert forall|j: int| 0 <= j < n implies #[trigger] p[j] == w[j] by {
        assert(t[j] == r[len - n + j]);
        assert(ascii_lower(t[j]) == p[j]);
        if j < q {
            assert(r[len - n + j] == h[j]);
        } else if j > q {
            assert(r[len - n + j] == e[j - q - 1]);
        }
    }
    assert(p =~= w);
}

proof fn lemma_head_letters(h: Seq<char>)
    requires
        documented_head(h),
    ensures
        dot_free(h),
        lower_seq(h).len() == 4 || lower_seq(h).len() == 7,
{
    assert forall|i: int| 0 <= i < h.len() implies #[trigger] h[i] != '.' by {
        lemma_lower_is_dot(h[i]);
    }
}

/// No whitelisted compound extension ends `s . h . e` when `h` is a documented head.
proof fn lemma_no_compound_after_head(s: Seq<char>, h: Seq<char>, e: Seq<char>, k: int)
    requires
        documented_head(h),
        dot_free(e),
        0 <= k < compound_count(),
    ensures
        !ends_with_compound(s + seq!['.'] + h + seq!['.'] + e, k),
{
    lemma_head_letters(h);
    if ends_with_compound(s + seq!['.'] + h + seq!['.'] + e, k) {
        lemma_compound_window(s, h, e, k);
        let c = compound_ext(k);
        let m = lower_seq(h).len() as int;
        assert(c[m] == '.');
        lemma_compound_shape(k);
        assert(false);
    }
}

/// A name ending in `.test.<ext>`, `.spec.<ext>` or `.stories.<ext>` (the head in any
/// ASCII case, the last component anything without a dot) keeps the head with its
/// extension: `Button.stories.tsx` splits into `Button` and `stories.tsx`.
pub proof fn a_compound_head_binds_to_the_extension(s: Seq<char>, h: Seq<char>, e: Seq<char>)
    requires
        s.len() > 0,
        documented_head(h),
        e.len() > 0,
        dot_free(e),
    ensures
        split_ext_spec(s + seq!['.'] + h + seq!['.'] + e) == (s, Some(h + seq!['.'] + e)),
{
    let r = s + seq!['.'] + h + seq!['.'] + e;
    let len = r.len() as int;
    let pos1 = s.len() as int;
    let pos2: int = s.len() + 1 + h.len() as int;
    assert forall|b: int| 0 <= b < compound_count() implies !#[trigger] ends_with_compound(r, b) by {
        lemma_no_compound_after_head(s, h, e, b);
    }
    lemma_first_compound_none(r, 0);
    assert forall|i: int| pos1 < i < len && i != pos2 implies #[trigger] r[i] != '.' by {
        if i < pos2 {
            assert(r[i] == h[i - pos1 - 1]);
            lemma_lower_is_dot(h[i - pos1 - 1]);
        } else {
            assert(r[i] == e[i - pos2 - 1]);
        }
    }
    assert(r[pos1] == '.' && r[pos2] == '.');
    lemma_last_index_is(r, '.', len, pos2);
    lemma_last_index_is(r, '.', pos2, pos1);
    assert(r.subrange(pos1 + 1, pos2) =~= h);
    assert(is_compound_head(h));
    assert(r.take(pos1) =~= s);
    assert(r.skip(pos1 + 1) =~= h + seq!['.'] + e);
}


/// The compound extensions documented to stay whole, as their two parts: `.tar.gz`,
/// `.tar.bz2`, `.tar.xz`, `.tar.zst`, `.d.ts`, `.d.mts`, `.d.cts`, `.min.js`,
/// `.min.css`, `.module.css` and `.module.scss`.
pub open spec fn documented_compound(k: int) -> (Seq<char>, Seq<char>) {
    if k == 0 {
        (seq!['t', 'a', 'r'], seq!['g', 'z'])
    } else if k == 1 {
        (seq!['t', 'a', 'r'], seq!['b', 'z', '2'])
    } else if k == 2 {
        (seq!['t', 'a', 'r'], seq!['x', 'z'])
    } else if k == 3 {
        (seq!['t', 'a', 'r'], seq!['z', 's', 't'])
    } else if k == 4 {
        (seq!['d'], seq!['t', 's'])
    } else if k == 5 {
        (seq!['d'], seq!['m', 't', 's'])
    } else if k == 6 {
        (seq!['d'], seq!['c', 't', 's'])
    } else if k == 7 {
        (seq!['m', 'i', 'n'], seq!['j', 's'])
    } else if k == 8 {
        (seq!['m', 'i', 'n'], seq!['c', 's', 's'])
    } else if k == 9 {
        (seq!['m', 'o', 'd', 'u', 'l', 'e'], seq!['c', 's', 's'])
    } else {
        (seq!['m', 'o', 'd', 'u', 'l', 'e'], seq!['s', 'c', 's', 's'])
    }
}

/// A name ending in a documented compound extension keeps it whole: `x.tar.gz` splits
/// into `x` and `tar.gz`, not `x.tar` and `gz`.
pub proof fn a_compound_extension_stays_whole(s: Seq<char>, k: int)
    requires
        s.len() > 0,
        0 <= k < 11,
    ensures
        split_ext_spec(s + seq!['.'] + documented_compound(k).0 + seq!['.'] + documented_compound(k).1)
            == (s, Some(documented_compound(k).0 + seq!['.'] + documented_compound(k).1)),
{
    let (a, b) = documented_compound(k);
    let r = s + seq!['.'] + a + seq!['.'] + b;
    let p = compound_ext(k);
    let w = a + seq!['.'] + b;
    assert(dot_free(a) && dot_free(b));
    assert(p =~= w);
    lemma_compound_shape(k);
    assert(lower_seq(a) =~= a) by {
        assert forall|i: int| 0 <= i < a.len() implies #[trigger] lower_seq(a)[i] == a[i] by {
            assert(a[i] == p[i]);
        }
    }
    assert(lower_seq(b) =~= b) by {
        assert forall|i: int| 0 <= i < b.len() implies #[trigger] lower_seq(b)[i] == b[i] by {
            assert(b[i] == p[a.len() + 1 + i]);
        }
    }
    let len = r.len() as int;
    let n = p.len() as int;
    assert(r.skip(len - n) =~= w);
    assert(r[len - n - 1] == '.');
    assert(eq_ignore_ascii_case(r.skip(len - n), p)) by {
        assert forall|j: int| 0 <= j < n implies ascii_lower(#[trigger] r.skip(len - n)[j]) == p[j] by {
            assert(r.skip(len - n)[j] == p[j]);
        }
    }
    assert(ends_with_compound(r, k));
    assert forall|c: int| 0 <= c < k implies !#[trigger] ends_with_compound(r, c) by {
        if ends_with_compound(r, c) {
            lemma_compound_window(s, a, b, c);
            assert(compound_ext(c) == compound_ext(k));
            assert(false);
        }
    }
    lemma_first_compound_some(r, 0, k);
    assert(r.take(len - n - 1) =~= s);
}

} // verus!

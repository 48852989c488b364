//! Changing the separator: a name kebab-cased under one separator and under another
//! differs in the separator alone.

use vstd::prelude::*;

use crate::fixed_point::{
    ascii_alphabet, lemma_alphabet_concat, lemma_ascii_sub, lemma_emit_ascii_alphabet,
    lemma_expand_ascii, lemma_ext_ascii_alphabet, lemma_ext_word_ascii_alphabet, lemma_lower_alnum,
    lemma_split_ascii, lemma_strip_ignorable_ascii, lemma_trim_start_suffix,
    lemma_word_ascii_alphabet, lemma_word_pipeline, word_char,
};
use crate::fold::{ascii_digits_spec, expand_tokens_spec, fold_spec, strip_ignorable};
use crate::name::{
    ascii_alnum_word, assemble_spec, cut_from, dot_count, dot_run, ext_spec, ext_state, ext_tail,
    ext_word_spec, kebab_spec, kept_ext, lemma_assemble_fits, lemma_dots_from, lower_seq, parts_spec,
    split_ext_spec, stem_cut, usable_ext,
};
use crate::text::{
    all_ascii_digits, char_utf16_len, char_utf8_len, trim_end2, trim_start, utf16_len, utf8_len,
};
use crate::unicode::{
    all_ascii, ascii_lower, clusters, control, is_ascii_alnum, is_ascii_char, is_ascii_digit,
    is_ascii_lower, mark, nfc_spec, nfd_spec, nfkc_spec, no_crlf, singletons, to_lower,
};
use crate::word::{
    between_digits, boundary, emit_spec, emit_upto, kebab_word_spec, kept, push_sep, strip_marks,
};
use crate::Options;

verus! {

/// `s` with every `a` written as `b`.
pub open spec fn swap_sep(s: Seq<char>, a: char, b: char) -> Seq<char> {
    s.map_values(|c: char| if c == a { b } else { c })
}

/// An optional string with every `a` written as `b`.
pub open spec fn swap_opt(o: Option<Seq<char>>, a: char, b: char) -> Option<Seq<char>> {
    match o {
        Some(s) => Some(swap_sep(s, a, b)),
        None => None,
    }
}

/// A separator that stands apart from everything else an ASCII name is written in:
/// a printable ASCII character that is neither a letter, a digit nor a dot.
pub open spec fn plain_separator(c: char) -> bool {
    is_ascii_char(c) && !is_ascii_alnum(c) && c != '.' && !control(c)
}

/// `opts` with `sep` as its separator.
pub open spec fn with_separator(opts: Options, sep: char) -> Options {
    Options { separator: sep, ascii: opts.ascii, max_length: opts.max_length }
}

/// No character of `s` is `c`.
pub open spec fn free_of(s: Seq<char>, c: char) -> bool {
    forall|i: int| 0 <= i < s.len() ==> #[trigger] s[i] != c
}

proof fn lemma_swap_concat(s: Seq<char>, t: Seq<char>, a: char, b: char)
    ensures
        swap_sep(s + t, a, b) == swap_sep(s, a, b) + swap_sep(t, a, b),
{
    assert(swap_sep(s + t, a, b) =~= swap_sep(s, a, b) + swap_sep(t, a, b));
}

proof fn lemma_swap_id(s: Seq<char>, a: char, b: char)
    requires
        free_of(s, a),
    ensures
        swap_sep(s, a, b) == s,
{
    assert(swap_sep(s, a, b) =~= s);
}

proof fn lemma_alphabet_free(s: Seq<char>, a: char, b: char)
    requires
        ascii_alphabet(s, a),
        plain_separator(b),
        a != b,
    ensures
        free_of(s, b),
{
    assert forall|i: int| 0 <= i < s.len() implies #[trigger] s[i] != b by {
        assert(word_char(s[i], a));
    }
}

proof fn lemma_swap_push_sep(out: Seq<char>, a: char, b: char)
    requires
        a == b || free_of(out, b),
    ensures
        push_sep(swap_sep(out, a, b), b) == swap_sep(push_sep(out, a), a, b),
{
    if out.len() > 0 {
        assert(swap_sep(out, a, b).last() == (if out.last() == a { b } else { out.last() }));
        if out.last() != a {
            assert(swap_sep(out.push(a), a, b) =~= swap_sep(out, a, b).push(b));
        }
    }
}

proof fn lemma_emit_swap(t: Seq<char>, n: int, oa: Options, b: char)
    requires
        oa.ascii || all_ascii(t),
        0 <= n <= t.len(),
        plain_separator(oa.separator),
        plain_separator(b),
    ensures
        emit_upto(t, n, with_separator(oa, b)).0 == swap_sep(emit_upto(t, n, oa).0, oa.separator, b),
        emit_upto(t, n, with_separator(oa, b)).1 == emit_upto(t, n, oa).1,
    decreases n,
{
    if n > 0 {
        let a = oa.separator;
        lemma_emit_swap(t, n - 1, oa, b);
        lemma_emit_ascii_alphabet(t, n - 1, oa);
        let out = emit_upto(t, n - 1, oa).0;
        if a != b {
            lemma_alphabet_free(out, a, b);
        }
        lemma_swap_push_sep(out, a, b);
        let c = t[n - 1];
        if mark(c) {
            assert(!emit_upto(t, n - 1, oa).1);
        } else if kept(c, oa) {
            assert(is_ascii_char(c));
            let l = ascii_lower(c);
            assert(to_lower(c) == seq![l]);
            assert(is_ascii_lower(l) || is_ascii_digit(l));
            let out1 = if boundary(t, n - 1) {
                push_sep(out, a)
            } else {
                out
            };
            lemma_swap_concat(out1, seq![l], a, b);
            assert(swap_sep(seq![l], a, b) =~= seq![l]);
        } else if c == '.' && between_digits(t, n - 1) {
            assert(swap_sep(out.push('.'), a, b) =~= swap_sep(out, a, b).push('.'));
        }
    }
}

proof fn lemma_swap_trim_start(s: Seq<char>, a: char, b: char)
    requires
        a == b || free_of(s, b),
    ensures
        trim_start(swap_sep(s, a, b), b) == swap_sep(trim_start(s, a), a, b),
    decreases s.len(),
{
    if s.len() > 0 {
        assert(swap_sep(s, a, b)[0] == (if s[0] == a { b } else { s[0] }));
        if s[0] == a {
            assert(swap_sep(s, a, b).drop_first() =~= swap_sep(s.drop_first(), a, b));
            lemma_swap_trim_start(s.drop_first(), a, b);
        }
    }
}

proof fn lemma_swap_trim_end2(s: Seq<char>, a: char, b: char, y: char)
    requires
        a == b || free_of(s, b),
        y == a || y != b,
    ensures
        trim_end2(swap_sep(s, a, b), b, if y == a { b } else { y }) == swap_sep(
            trim_end2(s, a, y),
            a,
            b,
        ),
    decreases s.len(),
{
    if s.len() > 0 {
        assert(swap_sep(s, a, b).last() == (if s.last() == a { b } else { s.last() }));
        if s.last() == a || s.last() == y {
            assert(swap_sep(s, a, b).drop_last() =~= swap_sep(s.drop_last(), a, b));
            lemma_swap_trim_end2(s.drop_last(), a, b, y);
        }
    }
}

proof fn lemma_emit_spec_swap(t: Seq<char>, oa: Options, b: char)
    requires
        oa.ascii || all_ascii(t),
        plain_separator(oa.separator),
        plain_separator(b),
    ensures
        emit_spec(t, with_separator(oa, b)) == swap_sep(emit_spec(t, oa), oa.separator, b),
{
    let a = oa.separator;
    let out = emit_upto(t, t.len() as int, oa).0;
    lemma_emit_swap(t, t.len() as int, oa, b);
    lemma_emit_ascii_alphabet(t, t.len() as int, oa);
    if a != b {
        lemma_alphabet_free(out, a, b);
    }
    lemma_swap_trim_start(out, a, b);
    let s1 = trim_start(out, a);
    lemma_trim_start_suffix(out, a);
    if a != b {
        assert forall|i: int| 0 <= i < s1.len() implies #[trigger] s1[i] != b by {
            assert(s1[i] == out[out.len() - s1.len() + i]);
        }
    }
    lemma_swap_trim_end2(s1, a, b, a);
}

/// Under another separator a kebab word of ASCII text, or of any text under
/// `--ascii`, differs in its separators alone: each one becomes the new separator,
/// and nothing else moves.
pub proof fn a_word_changes_only_its_separator(s: Seq<char>, opts: Options, sep: char)
    requires
        opts.ascii || all_ascii(s),
        plain_separator(opts.separator),
        plain_separator(sep),
    ensures
        kebab_word_spec(s, with_separator(opts, sep)) == swap_sep(
            kebab_word_spec(s, opts),
            opts.separator,
            sep,
        ),
{
    if opts.ascii {
        let t = expand_tokens_spec(
            ascii_digits_spec(
                nfc_spec(strip_marks(nfd_spec(fold_spec(nfkc_spec(strip_ignorable(s)))))),
            ),
            true,
        );
        lemma_emit_spec_swap(t, opts, sep);
    } else {
        lemma_word_pipeline(s, opts);
        lemma_word_pipeline(s, with_separator(opts, sep));
        lemma_strip_ignorable_ascii(s);
        lemma_expand_ascii(strip_ignorable(s), 0, true);
        lemma_emit_spec_swap(expand_tokens_spec(strip_ignorable(s), true), opts, sep);
    }
}


/// So does an extension component.
proof fn lemma_ext_word_swap(c: Seq<char>, oa: Options, b: char)
    requires
        oa.ascii || all_ascii(c),
        plain_separator(oa.separator),
        plain_separator(b),
    ensures
        ext_word_spec(c, with_separator(oa, b)) == swap_sep(ext_word_spec(c, oa), oa.separator, b),
{
    if ascii_alnum_word(c) {
        lemma_lower_alnum(c);
        assert(free_of(lower_seq(c), oa.separator));
        lemma_swap_id(lower_seq(c), oa.separator, b);
    } else {
        a_word_changes_only_its_separator(c, oa, b);
    }
}

proof fn lemma_ext_state_swap(e: Seq<char>, n: int, oa: Options, b: char)
    requires
        oa.ascii || all_ascii(e),
        0 <= n <= e.len(),
        plain_separator(oa.separator),
        plain_separator(b),
    ensures
        ext_state(e, n, with_separator(oa, b)).0 == swap_sep(ext_state(e, n, oa).0, oa.separator, b),
        ext_state(e, n, with_separator(oa, b)).1 == ext_state(e, n, oa).1,
    decreases n,
{
    if n > 0 {
        let a = oa.separator;
        lemma_ext_state_swap(e, n - 1, oa, b);
        lemma_ext_ascii_alphabet(e, n - 1, oa);
        let (done, cur) = ext_state(e, n - 1, oa);
        if e[n - 1] == '.' {
            lemma_ext_word_swap(cur, oa, b);
            let w = ext_word_spec(cur, oa);
            lemma_swap_concat(done, w, a, b);
            lemma_swap_concat(done + w, seq!['.'], a, b);
            assert(swap_sep(seq!['.'], a, b) =~= seq!['.']);
        }
    }
}

/// The transformed extension swaps its separators too, and is written in the
/// alphabet of its separator.
proof fn lemma_ext_spec_swap(e: Seq<char>, oa: Options, b: char)
    requires
        oa.ascii || all_ascii(e),
        plain_separator(oa.separator),
        plain_separator(b),
    ensures
        ext_spec(e, with_separator(oa, b)) == swap_sep(ext_spec(e, oa), oa.separator, b),
        ascii_alphabet(ext_spec(e, oa), oa.separator),
{
    let a = oa.separator;
    let n = e.len() as int;
    lemma_ext_state_swap(e, n, oa, b);
    lemma_ext_ascii_alphabet(e, n, oa);
    let (done, cur) = ext_state(e, n, oa);
    lemma_ext_word_swap(cur, oa, b);
    lemma_ext_word_ascii_alphabet(cur, oa);
    lemma_swap_concat(done, ext_word_spec(cur, oa), a, b);
    lemma_alphabet_concat(done, ext_word_spec(cur, oa), a);
}

proof fn lemma_usable_swap(e: Seq<char>, a: char, b: char)
    requires
        plain_separator(a),
        plain_separator(b),
    ensures
        usable_ext(swap_sep(e, a, b)) == usable_ext(e),
{
    let f = swap_sep(e, a, b);
    assert forall|i: int| 0 <= i < e.len() implies (#[trigger] f[i] == '.') == (e[i] == '.') by {}
    if exists|i: int| 0 <= i < e.len() - 1 && #[trigger] e[i] == '.' && e[i + 1] == '.' {
        let i = choose|i: int| 0 <= i < e.len() - 1 && #[trigger] e[i] == '.' && e[i + 1] == '.';
        assert(f[i] == '.' && f[i + 1] == '.');
    }
    if exists|i: int| 0 <= i < f.len() - 1 && #[trigger] f[i] == '.' && f[i + 1] == '.' {
        let i = choose|i: int| 0 <= i < f.len() - 1 && #[trigger] f[i] == '.' && f[i + 1] == '.';
        assert(e[i] == '.' && e[i + 1] == '.');
    }
    if all_ascii_digits(e) {
        assert forall|i: int| 0 <= i < f.len() implies '0' <= #[trigger] f[i] && f[i] <= '9' by {
            assert('0' <= e[i] && e[i] <= '9');
        }
    }
    if all_ascii_digits(f) {
        assert forall|i: int| 0 <= i < e.len() implies '0' <= #[trigger] e[i] && e[i] <= '9' by {
            assert('0' <= f[i] && f[i] <= '9');
        }
    }
}

proof fn lemma_swap_dot_count(s: Seq<char>, a: char, b: char)
    requires
        a != '.',
        b != '.',
    ensures
        dot_count(swap_sep(s, a, b)) == dot_count(s),
    decreases s.len(),
{
    if s.len() > 0 {
        assert(swap_sep(s, a, b).drop_last() =~= swap_sep(s.drop_last(), a, b));
        lemma_swap_dot_count(s.drop_last(), a, b);
    }
}

proof fn lemma_swap_lens(s: Seq<char>, a: char, b: char)
    requires
        is_ascii_char(a),
        is_ascii_char(b),
    ensures
        utf8_len(swap_sep(s, a, b)) == utf8_len(s),
        utf16_len(swap_sep(s, a, b)) == utf16_len(s),
    decreases s.len(),
{
    if s.len() > 0 {
        assert(swap_sep(s, a, b).drop_last() =~= swap_sep(s.drop_last(), a, b));
        lemma_swap_lens(s.drop_last(), a, b);
    }
}

proof fn lemma_one_char_lens(c: char)
    requires
        is_ascii_char(c),
    ensures
        utf8_len(seq![c]) == 1,
        utf16_len(seq![c]) == 1,
{
    let e = Seq::<char>::empty();
    assert(seq![c].drop_last() =~= e);
    assert(utf8_len(e) == 0 && utf16_len(e) == 0);
    assert(seq![c].last() == c);
    assert(char_utf8_len(c) == 1 && char_utf16_len(c) == 1);
}

/// Truncation walks an ASCII stem one character at a time, and cuts it where it cut
/// the stem before its separators were swapped.
proof fn lemma_cut_from_swap(
    s: Seq<char>,
    k: int,
    at: int,
    bytes: int,
    units: int,
    max: int,
    a: char,
    b: char,
)
    requires
        all_ascii(s),
        is_ascii_char(b),
    ensures
        cut_from(singletons(swap_sep(s, a, b)), k, at, bytes, units, max) == cut_from(
            singletons(s),
            k,
            at,
            bytes,
            units,
            max,
        ),
    decreases s.len() - k,
{
    if 0 <= k < s.len() {
        let f = swap_sep(s, a, b);
        assert(singletons(f)[k] == seq![f[k]]);
        assert(singletons(s)[k] == seq![s[k]]);
        assert(is_ascii_char(s[k]));
        lemma_one_char_lens(f[k]);
        lemma_one_char_lens(s[k]);
        lemma_cut_from_swap(s, k + 1, at + 1, bytes + 1, units + 1, max, a, b);
    }
}

/// What the transform writes in the alphabet of a plain separator is ASCII and holds
/// no carriage return, so its clusters are its characters.
proof fn lemma_alphabet_clusters(s: Seq<char>, sep: char)
    requires
        ascii_alphabet(s, sep),
        plain_separator(sep),
    ensures
        clusters(s) == singletons(s),
{
    assert forall|i: int| 0 <= i < s.len() implies is_ascii_char(#[trigger] s[i]) && s[i] != '\r' by {
        assert(word_char(s[i], sep));
    }
    assert(all_ascii(s));
    assert(no_crlf(s));
}

proof fn lemma_swap_alphabet(s: Seq<char>, a: char, b: char)
    requires
        ascii_alphabet(s, a),
    ensures
        ascii_alphabet(swap_sep(s, a, b), b),
{
    assert forall|i: int| 0 <= i < s.len() implies word_char(#[trigger] swap_sep(s, a, b)[i], b) by {
        assert(word_char(s[i], a));
    }
}


proof fn lemma_assemble_swap(
    prefix: Seq<char>,
    stem: Seq<char>,
    ext: Option<Seq<char>>,
    oa: Options,
    b: char,
)
    requires
        plain_separator(oa.separator),
        plain_separator(b),
        forall|i: int| 0 <= i < prefix.len() ==> #[trigger] prefix[i] == '.',
        ascii_alphabet(stem, oa.separator),
        ext matches Some(e) ==> ascii_alphabet(e, oa.separator),
    ensures
        assemble_spec(
            prefix,
            swap_sep(stem, oa.separator, b),
            swap_opt(ext, oa.separator, b),
            with_separator(oa, b),
        ) == swap_opt(assemble_spec(prefix, stem, ext, oa), oa.separator, b),
{
    let a = oa.separator;
    let ob = with_separator(oa, b);
    let stem_b = swap_sep(stem, a, b);
    let ext_b = swap_opt(ext, a, b);
    let tail = ext_tail(ext);
    let tail_b = ext_tail(ext_b);
    match ext {
        Some(e) => {
            lemma_swap_concat(seq!['.'], e, a, b);
            assert(swap_sep(seq!['.'], a, b) =~= seq!['.']);
        },
        None => {
            assert(swap_sep(Seq::<char>::empty(), a, b) =~= Seq::<char>::empty());
        },
    }
    assert(tail_b == swap_sep(tail, a, b));
    lemma_swap_lens(tail, a, b);
    lemma_swap_lens(stem, a, b);
    assert(free_of(prefix, a));
    lemma_swap_id(prefix, a, b);
    // The cut falls in the same place.
    lemma_alphabet_clusters(stem, a);
    lemma_swap_alphabet(stem, a, b);
    lemma_alphabet_clusters(stem_b, b);
    let fixed = utf8_len(prefix) + utf8_len(tail);
    let fixed16 = utf16_len(prefix) + utf16_len(tail);
    assert(all_ascii(stem));
    lemma_cut_from_swap(stem, 0, 0, fixed as int, fixed16 as int, oa.max_length as int, a, b);
    let cut = stem_cut(prefix, stem, ext, oa);
    assert(stem_cut(prefix, stem_b, ext_b, ob) == cut);
    let max = oa.max_length as int;
    if !(stem.len() == 0 || fixed >= max || fixed16 >= max) {
        lemma_assemble_fits(prefix, stem, ext, oa);
        // What survives the cut swaps its separators.
        let v = stem.take(cut);
        assert(stem_b.take(cut) =~= swap_sep(v, a, b));
        if a != b {
            lemma_alphabet_free(stem, a, b);
            assert forall|i: int| 0 <= i < v.len() implies #[trigger] v[i] != b by {
                assert(v[i] == stem[i]);
            }
        }
        lemma_swap_trim_end2(v, a, b, '.');
        let kept = trim_end2(v, a, '.');
        lemma_swap_concat(prefix, kept, a, b);
        lemma_swap_concat(prefix + kept, tail, a, b);
    }
}

/// The separator is a knob and nothing more: for an ASCII name, and for any name under
/// `--ascii`, the kebab form under one plain separator is the kebab form under another
/// with each separator replaced, and nothing else changed. (`My File_v2.md` becomes
/// `my-file-v2.md` or `my_file_v2.md`.)
pub proof fn changing_the_separator_changes_only_the_separator(x: Seq<char>, opts: Options, sep: char)
    requires
        opts.ascii || all_ascii(x),
        plain_separator(opts.separator),
        plain_separator(sep),
    ensures
        kebab_spec(x, with_separator(opts, sep)) == swap_sep(kebab_spec(x, opts), opts.separator, sep),
{
    let a = opts.separator;
    let ob = with_separator(opts, sep);
    let d = dot_run(x);
    lemma_dots_from(x, 0);
    let rest = x.skip(d);
    if rest.len() == 0 {
        assert forall|i: int| 0 <= i < x.len() implies #[trigger] x[i] != a by {
            assert(x[i] == '.');
        }
        lemma_swap_id(x, a, sep);
    } else {
        let prefix = x.take(d);
        assert(rest =~= x.subrange(d, x.len() as int));
        if all_ascii(x) {
            lemma_ascii_sub(x, d, x.len() as int);
            lemma_split_ascii(rest);
        }
        let (s0, e0) = split_ext_spec(rest);
        a_word_changes_only_its_separator(s0, opts, sep);
        a_word_changes_only_its_separator(rest, opts, sep);
        lemma_word_ascii_alphabet(s0, opts);
        lemma_word_ascii_alphabet(rest, opts);
        match e0 {
            Some(e) => {
                lemma_ext_spec_swap(e, opts, sep);
                lemma_usable_swap(ext_spec(e, opts), a, sep);
                lemma_swap_dot_count(ext_spec(e, opts), a, sep);
                if kept_ext(e, ext_spec(e, opts)) {
                    let ext = Some(ext_spec(e, opts));
                    let stem = kebab_word_spec(s0, opts);
                    assert(parts_spec(x, ob) == Some(
                        (prefix, swap_sep(stem, a, sep), swap_opt(ext, a, sep)),
                    ));
                    lemma_assemble_swap(prefix, stem, ext, opts, sep);
                } else {
                    lemma_assemble_swap(prefix, kebab_word_spec(rest, opts), None, opts, sep);
                }
            },
            None => {
                lemma_assemble_swap(prefix, kebab_word_spec(rest, opts), None, opts, sep);
            },
        }
        assert(swap_sep(Seq::<char>::empty(), a, sep) =~= Seq::<char>::empty());
    }
}

} // verus!

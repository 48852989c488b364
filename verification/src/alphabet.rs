//! What the transform writes: the separator, dots, ASCII lowercase letters and digits,
//! and, from the scripts it keeps, their letters in lowercase with their marks.

use vstd::prelude::*;

use crate::fixed_point::{lemma_lower_alnum, lemma_trim_start_suffix, word_char};
use crate::fold::{ascii_digits_spec, expand_tokens_spec, fold_spec, strip_ignorable};
use crate::name::{
    ascii_alnum_word, assemble_spec, dot_run, ext_spec, ext_state, ext_tail, ext_word_spec,
    kebab_spec, lemma_assemble_fits, lemma_dots_from, lower_seq, parts_spec, split_ext_spec,
    stem_cut,
};
use crate::text::{lemma_trim_end2_prefix, trim_end2, trim_start};
use crate::unicode::{
    ascii_lower, is_ascii_char, is_ascii_digit, is_ascii_lower, mark, nfc_spec, nfd_spec, nfkc_spec,
    to_lower,
};
use crate::word::{emit_spec, emit_upto, kebab_word_spec, kept, push_sep, strip_marks};
use crate::Options;

verus! {

/// `ch` is one of the characters the lowercase form of a kept character of a script
/// other than ASCII is written in.
pub open spec fn kept_script_char(ch: char, opts: Options) -> bool {
    exists|c: char, j: int|
        kept(c, opts) && !is_ascii_char(c) && 0 <= j < to_lower(c).len() && #[trigger] to_lower(c)[j]
            == ch
}

/// A character the transform may write: the separator, a dot, an ASCII lowercase
/// letter or digit, a character of a kept script in lowercase, or a combining mark.
pub open spec fn output_char(ch: char, opts: Options) -> bool {
    ||| word_char(ch, opts.separator)
    ||| kept_script_char(ch, opts)
    ||| mark(ch)
}

/// Every character of `s` is one the transform may write.
pub open spec fn in_output_alphabet(s: Seq<char>, opts: Options) -> bool {
    forall|i: int| 0 <= i < s.len() ==> output_char(#[trigger] s[i], opts)
}

proof fn lemma_alphabet_concat(a: Seq<char>, b: Seq<char>, opts: Options)
    requires
        in_output_alphabet(a, opts),
        in_output_alphabet(b, opts),
    ensures
        in_output_alphabet(a + b, opts),
{
    assert forall|i: int| 0 <= i < (a + b).len() implies output_char(#[trigger] (a + b)[i], opts) by {
        if i < a.len() {
            assert((a + b)[i] == a[i]);
        } else {
            assert((a + b)[i] == b[i - a.len()]);
        }
    }
}

proof fn lemma_alphabet_sub(s: Seq<char>, a: int, b: int, opts: Options)
    requires
        in_output_alphabet(s, opts),
        0 <= a <= b <= s.len(),
    ensures
        in_output_alphabet(s.subrange(a, b), opts),
{
    assert forall|i: int| 0 <= i < b - a implies output_char(#[trigger] s.subrange(a, b)[i], opts) by {
        assert(s.subrange(a, b)[i] == s[a + i]);
    }
}

proof fn lemma_emit_alphabet(t: Seq<char>, n: int, opts: Options)
    requires
        0 <= n <= t.len(),
    ensures
        in_output_alphabet(emit_upto(t, n, opts).0, opts),
    decreases n,
{
    if n > 0 {
        lemma_emit_alphabet(t, n - 1, opts);
        let out = emit_upto(t, n - 1, opts).0;
        let sep = opts.separator;
        let c = t[n - 1];
        assert(in_output_alphabet(push_sep(out, sep), opts)) by {
            if out.len() > 0 && out.last() != sep {
                lemma_alphabet_concat(out, seq![sep], opts);
                assert(out.push(sep) =~= out + seq![sep]);
            }
        }
        assert(in_output_alphabet(out.push('.'), opts)) by {
            lemma_alphabet_concat(out, seq!['.'], opts);
            assert(out.push('.') =~= out + seq!['.']);
        }
        assert(in_output_alphabet(out.push(c), opts) || !mark(c)) by {
            if mark(c) {
                lemma_alphabet_concat(out, seq![c], opts);
                assert(out.push(c) =~= out + seq![c]);
            }
        }
        if !mark(c) && kept(c, opts) {
            let l = to_lower(c);
            assert(in_output_alphabet(l, opts)) by {
                assert forall|j: int| 0 <= j < l.len() implies output_char(#[trigger] l[j], opts) by {
                    if is_ascii_char(c) {
                        assert(l[j] == ascii_lower(c));
                        assert(is_ascii_lower(ascii_lower(c)) || is_ascii_digit(ascii_lower(c)));
                    } else {
                        assert(kept(c, opts) && !is_ascii_char(c) && 0 <= j < to_lower(c).len()
                            && to_lower(c)[j] == l[j]);
                    }
                }
            }
            lemma_alphabet_concat(out, l, opts);
            lemma_alphabet_concat(push_sep(out, sep), l, opts);
        }
    }
}

proof fn lemma_emit_spec_alphabet(t: Seq<char>, opts: Options)
    ensures
        in_output_alphabet(emit_spec(t, opts), opts),
{
    let sep = opts.separator;
    let s = emit_upto(t, t.len() as int, opts).0;
    lemma_emit_alphabet(t, t.len() as int, opts);
    let a = trim_start(s, sep);
    lemma_trim_start_suffix(s, sep);
    assert(a =~= s.subrange(s.len() - a.len(), s.len() as int));
    lemma_alphabet_sub(s, s.len() - a.len(), s.len() as int, opts);
    lemma_trim_end2_prefix(a, sep, sep);
    let r = trim_end2(a, sep, sep);
    assert(r =~= a.subrange(0, r.len() as int));
    lemma_alphabet_sub(a, 0, r.len() as int, opts);
}

/// A kebab word is written in the output alphabet, whatever it was made from.
pub proof fn lemma_word_alphabet(s: Seq<char>, opts: Options)
    ensures
        in_output_alphabet(kebab_word_spec(s, opts), opts),
{
    let t = expand_tokens_spec(
        ascii_digits_spec(nfc_spec(strip_marks(nfd_spec(fold_spec(nfkc_spec(strip_ignorable(s))))))),
        opts.separator != '.',
    );
    lemma_emit_spec_alphabet(t, opts);
}

/// An extension component is written in the output alphabet.
proof fn lemma_ext_word_alphabet(c: Seq<char>, opts: Options)
    ensures
        in_output_alphabet(ext_word_spec(c, opts), opts),
{
    if ascii_alnum_word(c) {
        lemma_lower_alnum(c);
        assert forall|i: int| 0 <= i < lower_seq(c).len() implies output_char(
            #[trigger] lower_seq(c)[i],
            opts,
        ) by {
            assert(word_char(lower_seq(c)[i], opts.separator));
        }
    } else {
        lemma_word_alphabet(c, opts);
    }
}

proof fn lemma_ext_state_alphabet(e: Seq<char>, n: int, opts: Options)
    requires
        0 <= n <= e.len(),
    ensures
        in_output_alphabet(ext_state(e, n, opts).0, opts),
    decreases n,
{
    if n > 0 {
        lemma_ext_state_alphabet(e, n - 1, opts);
        let (done, cur) = ext_state(e, n - 1, opts);
        if e[n - 1] == '.' {
            lemma_ext_word_alphabet(cur, opts);
            lemma_alphabet_concat(done, ext_word_spec(cur, opts), opts);
            lemma_alphabet_concat(done + ext_word_spec(cur, opts), seq!['.'], opts);
        }
    }
}

/// The output alphabet of the transform, for every name and every option: a dotfile
/// prefix, the separator, dots, ASCII lowercase letters and digits, and the letters
/// of the scripts it keeps, lowercased, with their combining marks. Which of these
/// are whitespace or controls is the standard library's and the Unicode tables' to
/// say; under `--ascii`, or for an ASCII name, only the first five remain
/// ([`crate::fixed_point::output_stays_in_the_alphabet`]).
pub proof fn output_is_in_the_alphabet(x: Seq<char>, opts: Options)
    ensures
        in_output_alphabet(kebab_spec(x, opts), opts),
{
    let sep = opts.separator;
    let d = dot_run(x);
    lemma_dots_from(x, 0);
    match parts_spec(x, opts) {
        None => {
            assert(x.skip(d).len() == 0);
            assert forall|i: int| 0 <= i < x.len() implies output_char(#[trigger] x[i], opts) by {
                assert(x[i] == '.');
            }
        },
        Some((prefix, stem, ext)) => {
            assert(prefix == x.take(d));
            assert forall|i: int| 0 <= i < prefix.len() implies output_char(#[trigger] prefix[i], opts) by {
                assert(prefix[i] == x[i]);
            }
            let rest = x.skip(d);
            let (s0, e0) = split_ext_spec(rest);
            lemma_word_alphabet(s0, opts);
            lemma_word_alphabet(rest, opts);
            match ext {
                Some(e) => {
                    let big_e = e0.unwrap();
                    let (done, cur) = ext_state(big_e, big_e.len() as int, opts);
                    lemma_ext_state_alphabet(big_e, big_e.len() as int, opts);
                    lemma_ext_word_alphabet(cur, opts);
                    lemma_alphabet_concat(done, ext_word_spec(cur, opts), opts);
                    assert(in_output_alphabet(e, opts));
                    assert(in_output_alphabet(seq!['.'], opts)) by {
                        assert(word_char(seq!['.'][0], sep));
                    }
                    lemma_alphabet_concat(seq!['.'], e, opts);
                },
                None => {},
            }
            let tail = ext_tail(ext);
            assert(in_output_alphabet(tail, opts));
            match assemble_spec(prefix, stem, ext, opts) {
                None => {},
                Some(y) => {
                    lemma_assemble_fits(prefix, stem, ext, opts);
                    let cut = stem_cut(prefix, stem, ext, opts);
                    let v = stem.take(cut);
                    assert(v =~= stem.subrange(0, cut));
                    lemma_alphabet_sub(stem, 0, cut, opts);
                    lemma_trim_end2_prefix(v, sep, '.');
                    let k = trim_end2(v, sep, '.');
                    assert(k =~= v.subrange(0, k.len() as int));
                    lemma_alphabet_sub(v, 0, k.len() as int, opts);
                    lemma_alphabet_concat(prefix, k, opts);
                    lemma_alphabet_concat(prefix + k, tail, opts);
                },
            }
        },
    }
}

} // verus!

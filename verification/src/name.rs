//! Names with extensions: the dotfile prefix, the extension rules, truncation to the
//! length budget, and ordinal suffixes for collisions.

use vstd::prelude::*;

use crate::text::{
    all_ascii_digits, is_all_ascii_digits, last_index_before, len_utf16, len_utf8,
    lemma_last_index_range, lemma_len_bounds, lemma_len_take, lemma_trim_end2_prefix,
    lemma_utf16_len_concat, lemma_utf8_len_concat, rfind_before, slice, trim_end2, trim_end_matches2,
    utf16_len, utf8_len,
};
use crate::unicode::{
    ascii_lower, char_ascii_lower, char_is_ascii_alnum, chars_of, clusters, graphemes, is_ascii_alnum,
    lemma_clusters, string_of, views,
};
use crate::word::{kebab_word_chars, kebab_word_spec};
use crate::Options;

verus! {

// ── Step 1: basename and extension ──────────────────────────────────────────────

/// Compound extensions kept whole. Everything else splits on the last dot.
pub open spec fn compound_ext(k: int) -> Seq<char> {
    if k == 0 {
        seq!['t', 'a', 'r', '.', 'g', 'z']
    } else if k == 1 {
        seq!['t', 'a', 'r', '.', 'b', 'z', '2']
    } else if k == 2 {
        seq!['t', 'a', 'r', '.', 'x', 'z']
    } else if k == 3 {
        seq!['t', 'a', 'r', '.', 'z', 's', 't']
    } else if k == 4 {
        seq!['d', '.', 't', 's']
    } else if k == 5 {
        seq!['d', '.', 'm', 't', 's']
    } else if k == 6 {
        seq!['d', '.', 'c', 't', 's']
    } else if k == 7 {
        seq!['m', 'i', 'n', '.', 'j', 's']
    } else if k == 8 {
        seq!['m', 'i', 'n', '.', 'c', 's', 's']
    } else if k == 9 {
        seq!['m', 'o', 'd', 'u', 'l', 'e', '.', 'c', 's', 's']
    } else {
        seq!['m', 'o', 'd', 'u', 'l', 'e', '.', 's', 'c', 's', 's']
    }
}

pub open spec fn compound_count() -> int {
    11
}

pub fn compound_ext_at(k: usize) -> (r: Vec<char>)
    ensures
        r@ == compound_ext(k as int),
{
    if k == 0 {
        vec!['t', 'a', 'r', '.', 'g', 'z']
    } else if k == 1 {
        vec!['t', 'a', 'r', '.', 'b', 'z', '2']
    } else if k == 2 {
        vec!['t', 'a', 'r', '.', 'x', 'z']
    } else if k == 3 {
        vec!['t', 'a', 'r', '.', 'z', 's', 't']
    } else if k == 4 {
        vec!['d', '.', 't', 's']
    } else if k == 5 {
        vec!['d', '.', 'm', 't', 's']
    } else if k == 6 {
        vec!['d', '.', 'c', 't', 's']
    } else if k == 7 {
        vec!['m', 'i', 'n', '.', 'j', 's']
    } else if k == 8 {
        vec!['m', 'i', 'n', '.', 'c', 's', 's']
    } else if k == 9 {
        vec!['m', 'o', 'd', 'u', 'l', 'e', '.', 'c', 's', 's']
    } else {
        vec!['m', 'o', 'd', 'u', 'l', 'e', '.', 's', 'c', 's', 's']
    }
}

/// Second-to-last extension components that bind to whatever follows them, so that
/// `Component.Test.tsx` keeps `.test.tsx`.
pub open spec fn compound_head(k: int) -> Seq<char> {
    if k == 0 {
        seq!['t', 'e', 's', 't']
    } else if k == 1 {
        seq!['s', 'p', 'e', 'c']
    } else {
        seq!['s', 't', 'o', 'r', 'i', 'e', 's']
    }
}

pub fn compound_head_at(k: usize) -> (r: Vec<char>)
    ensures
        r@ == compound_head(k as int),
{
    if k == 0 {
        vec!['t', 'e', 's', 't']
    } else if k == 1 {
        vec!['s', 'p', 'e', 'c']
    } else {
        vec!['s', 't', 'o', 'r', 'i', 'e', 's']
    }
}

/// `a` equals the lowercase ASCII word `p`, ignoring ASCII case.
pub open spec fn eq_ignore_ascii_case(a: Seq<char>, p: Seq<char>) -> bool {
    &&& a.len() == p.len()
    &&& forall|j: int| 0 <= j < a.len() ==> ascii_lower(#[trigger] a[j]) == p[j]
}

/// `s` ends in `.` followed by the `k`th compound extension, with something before it.
pub open spec fn ends_with_compound(s: Seq<char>, k: int) -> bool {
    let p = compound_ext(k);
    &&& s.len() > p.len() + 1
    &&& s[s.len() - p.len() - 1] == '.'
    &&& eq_ignore_ascii_case(s.skip(s.len() - p.len()), p)
}

/// The first compound extension, counting from `k`, that `s` ends in.
pub open spec fn first_compound(s: Seq<char>, k: int) -> Option<int>
    decreases compound_count() - k,
{
    if k >= compound_count() || k < 0 {
        None
    } else if ends_with_compound(s, k) {
        Some(k)
    } else {
        first_compound(s, k + 1)
    }
}

pub open spec fn is_compound_head(a: Seq<char>) -> bool {
    eq_ignore_ascii_case(a, compound_head(0)) || eq_ignore_ascii_case(a, compound_head(1))
        || eq_ignore_ascii_case(a, compound_head(2))
}

/// Split a name into stem and extension.
///
/// A compound extension from the whitelist stays whole; `.test.*`, `.spec.*` and
/// `.stories.*` bind to what follows them; otherwise the last dot splits. A dot at
/// either end separates nothing (`Backup.`), and neither does a dot before a pure
/// number: `v1.2.3` and `192.168.1.1` have version segments, not extensions.
pub open spec fn split_ext_spec(s: Seq<char>) -> (Seq<char>, Option<Seq<char>>) {
    match first_compound(s, 0) {
        Some(k) => {
            let n = compound_ext(k).len();
            (s.take(s.len() - n - 1), Some(s.skip(s.len() - n)))
        },
        None => {
            let last = last_index_before(s, '.', s.len() as int);
            if !(last > 0 && last + 1 < s.len()) {
                (s, None)
            } else {
                let prev = last_index_before(s, '.', last);
                if prev > 0 && is_compound_head(s.subrange(prev + 1, last)) {
                    (s.take(prev), Some(s.skip(prev + 1)))
                } else if all_ascii_digits(s.skip(last + 1)) {
                    (s, None)
                } else {
                    (s.take(last), Some(s.skip(last + 1)))
                }
            }
        },
    }
}

/// Does `s`, from `start`, equal the lowercase ASCII word `p` ignoring case?
pub fn eq_ignore_case_at(s: &Vec<char>, start: usize, end: usize, p: &Vec<char>) -> (r: bool)
    requires
        start <= end <= s.len(),
    ensures
        r == eq_ignore_ascii_case(s@.subrange(start as int, end as int), p@),
{
    if end - start != p.len() {
        return false;
    }
    let mut j: usize = 0;
    while j < p.len()
        invariant
            start <= end <= s.len(),
            end - start == p.len(),
            j <= p.len(),
            forall|m: int|
                0 <= m < j ==> ascii_lower(#[trigger] s@.subrange(start as int, end as int)[m])
                    == p@[m],
        decreases p.len() - j,
    {
        if char_ascii_lower(s[start + j]) != p[j] {
            assert(s@.subrange(start as int, end as int)[j as int] == s@[start + j]);
            return false;
        }
        j += 1;
    }
    true
}

pub fn split_extension(s: &Vec<char>) -> (r: (Vec<char>, Option<Vec<char>>))
    ensures
        (r.0@, match r.1 {
            Some(e) => Some(e@),
            None => None,
        }) == split_ext_spec(s@),
{
    let mut k: usize = 0;
    while k < 11
        invariant
            k <= 11,
            first_compound(s@, 0) == first_compound(s@, k as int),
        decreases 11 - k,
    {
        let p = compound_ext_at(k);
        let n = p.len();
        if s.len() > n + 1 && s[s.len() - n - 1] == '.' {
            if eq_ignore_case_at(s, s.len() - n, s.len(), &p) {
                assert(s@.subrange(s.len() - n, s.len() as int) =~= s@.skip(s.len() - n));
                let head = slice(s, 0, s.len() - n - 1);
                let ext = slice(s, s.len() - n, s.len());
                assert(head@ =~= s@.take(s.len() - n - 1));
                assert(ext@ =~= s@.skip(s.len() - n));
                return (head, Some(ext));
            }
            assert(s@.subrange(s.len() - n, s.len() as int) =~= s@.skip(s.len() - n));
        }
        k += 1;
    }
    proof {
        lemma_last_index_range(s@, '.', s.len() as int);
    }
    let last = match rfind_before(s, '.', s.len()) {
        Some(idx) if idx > 0 && idx + 1 < s.len() => idx,
        _ => {
            let whole = slice(s, 0, s.len());
            assert(whole@ =~= s@);
            return (whole, None);
        },
    };
    proof {
        lemma_last_index_range(s@, '.', last as int);
    }
    if let Some(prev) = rfind_before(s, '.', last) {
        if prev > 0 {
            let mut h: usize = 0;
            let mut head_match = false;
            while h < 3
                invariant
                    h <= 3,
                    prev < last < s.len(),
                    head_match == (exists|m: int|
                        0 <= m < h && eq_ignore_ascii_case(
                            #[trigger] s@.subrange(prev + 1, last as int),
                            compound_head(m),
                        )),
                decreases 3 - h,
            {
                let head = compound_head_at(h);
                if eq_ignore_case_at(s, prev + 1, last, &head) {
                    head_match = true;
                }
                h += 1;
            }
            assert(head_match == is_compound_head(s@.subrange(prev + 1, last as int))) by {
                if is_compound_head(s@.subrange(prev + 1, last as int)) {
                    if eq_ignore_ascii_case(s@.subrange(prev + 1, last as int), compound_head(0)) {
                        assert(exists|m: int|
                            0 <= m < 3 && eq_ignore_ascii_case(
                                #[trigger] s@.subrange(prev + 1, last as int),
                                compound_head(m),
                            ));
                    } else if eq_ignore_ascii_case(
                        s@.subrange(prev + 1, last as int),
                        compound_head(1),
                    ) {
                        assert(eq_ignore_ascii_case(
                            s@.subrange(prev + 1, last as int),
                            compound_head(1),
                        ));
                    } else {
                        assert(eq_ignore_ascii_case(
                            s@.subrange(prev + 1, last as int),
                            compound_head(2),
                        ));
                    }
                }
            }
            if head_match {
                let head = slice(s, 0, prev);
                let ext = slice(s, prev + 1, s.len());
                assert(head@ =~= s@.take(prev as int));
                assert(ext@ =~= s@.skip(prev + 1));
                return (head, Some(ext));
            }
        }
    }
    if is_all_ascii_digits(s, last + 1, s.len()) {
        assert(s@.subrange(last + 1, s.len() as int) =~= s@.skip(last + 1));
        let whole = slice(s, 0, s.len());
        assert(whole@ =~= s@);
        return (whole, None);
    }
    assert(s@.subrange(last + 1, s.len() as int) =~= s@.skip(last + 1));
    let head = slice(s, 0, last);
    let ext = slice(s, last + 1, s.len());
    assert(head@ =~= s@.take(last as int));
    assert(ext@ =~= s@.skip(last + 1));
    (head, Some(ext))
}

// ── The dotfile prefix and the extension's components ───────────────────────────

/// How many dots `s` starts with, counting from `i`.
pub open spec fn dots_from(s: Seq<char>, i: int) -> int
    decreases s.len() - i,
{
    if i < 0 || i >= s.len() || s[i] != '.' {
        if i < 0 {
            0
        } else {
            i
        }
    } else {
        dots_from(s, i + 1)
    }
}

/// The length of the leading run of dots. Leading dots mark a dotfile and are kept
/// verbatim: `.gitignore` has no extension, and `..config.md` is legitimate.
pub open spec fn dot_run(s: Seq<char>) -> int {
    dots_from(s, 0)
}

pub proof fn lemma_dots_from(s: Seq<char>, i: int)
    requires
        0 <= i <= s.len(),
    ensures
        i <= dots_from(s, i) <= s.len(),
        forall|j: int| i <= j < dots_from(s, i) ==> s[j] == '.',
        dots_from(s, i) < s.len() ==> s[dots_from(s, i)] != '.',
    decreases s.len() - i,
{
    if i < s.len() && s[i] == '.' {
        lemma_dots_from(s, i + 1);
    }
}

/// ASCII lowercase, character by character.
pub open spec fn lower_seq(s: Seq<char>) -> Seq<char> {
    s.map_values(|c: char| ascii_lower(c))
}

/// Nothing but ASCII letters and digits.
pub open spec fn ascii_alnum_word(c: Seq<char>) -> bool {
    forall|i: int| 0 <= i < c.len() ==> is_ascii_alnum(#[trigger] c[i])
}

/// One component of an extension as the transform writes it. A file type spelled in
/// ASCII letters and digits is lowercased and kept whole, never split into words:
/// `Component.TeSt.tsx` keeps `.test.tsx`, which the next pass reads back as the same
/// compound. Anything else goes through the word transform.
pub open spec fn ext_word_spec(c: Seq<char>, opts: Options) -> Seq<char> {
    if ascii_alnum_word(c) {
        lower_seq(c)
    } else {
        kebab_word_spec(c, opts)
    }
}

/// [`ext_word_spec`].
pub fn ext_word_chars(c: &Vec<char>, opts: &Options) -> (r: Vec<char>)
    ensures
        r@ == ext_word_spec(c@, *opts),
{
    let mut out: Vec<char> = Vec::new();
    let mut i: usize = 0;
    while i < c.len()
        invariant
            i <= c.len(),
            out@ == lower_seq(c@.take(i as int)),
            forall|j: int| 0 <= j < i ==> is_ascii_alnum(#[trigger] c@[j]),
        decreases c.len() - i,
    {
        if !char_is_ascii_alnum(c[i]) {
            return kebab_word_chars(c, opts);
        }
        out.push(char_ascii_lower(c[i]));
        assert(c@.take(i + 1) =~= c@.take(i as int).push(c@[i as int]));
        assert(lower_seq(c@.take(i + 1)) =~= lower_seq(c@.take(i as int)).push(ascii_lower(c@[i as int])));
        i += 1;
    }
    assert(c@.take(i as int) =~= c@);
    out
}

/// After the first `n` characters of an extension: the components finished so far
/// (transformed, each followed by its dot) and the component in progress.
pub open spec fn ext_state(e: Seq<char>, n: int, opts: Options) -> (Seq<char>, Seq<char>)
    decreases n,
{
    if n <= 0 {
        (Seq::empty(), Seq::empty())
    } else {
        let (done, cur) = ext_state(e, n - 1, opts);
        if e[n - 1] == '.' {
            (done + ext_word_spec(cur, opts) + seq!['.'], Seq::empty())
        } else {
            (done, cur.push(e[n - 1]))
        }
    }
}

/// The extension with each dot-separated component transformed as a word and the
/// dots kept, so that `.tar.gz` survives while junk inside an extension does not.
pub open spec fn ext_spec(e: Seq<char>, opts: Options) -> Seq<char> {
    let (done, cur) = ext_state(e, e.len() as int, opts);
    done + ext_word_spec(cur, opts)
}

/// An extension that can stand as one: non-empty, no dot at either end, no empty
/// component, and not all digits — `A.᭐` becomes `a.0`, and `.0` would read as a
/// version segment on the next pass.
pub open spec fn usable_ext(e: Seq<char>) -> bool {
    &&& e.len() > 0
    &&& e[0] != '.'
    &&& e.last() != '.'
    &&& !(exists|i: int| 0 <= i < e.len() - 1 && #[trigger] e[i] == '.' && e[i + 1] == '.')
    &&& !all_ascii_digits(e)
}

/// How many dots `s` holds.
pub open spec fn dot_count(s: Seq<char>) -> nat
    decreases s.len(),
{
    if s.len() == 0 {
        0
    } else {
        dot_count(s.drop_last()) + if s.last() == '.' {
            1nat
        } else {
            0nat
        }
    }
}

/// [`dot_count`].
pub fn count_dots(s: &Vec<char>) -> (r: usize)
    ensures
        r == dot_count(s@),
{
    let mut n: usize = 0;
    let mut i: usize = 0;
    while i < s.len()
        invariant
            i <= s.len(),
            n == dot_count(s@.take(i as int)),
            n <= i,
        decreases s.len() - i,
    {
        assert(s@.take(i + 1).drop_last() =~= s@.take(i as int));
        if s[i] == '.' {
            n += 1;
        }
        i += 1;
    }
    assert(s@.take(i as int) =~= s@);
    n
}

/// The extension a name keeps: one that can stand as one ([`usable_ext`]), and whose
/// components' words gained no dot, so that each reads back as a component on the
/// next pass (NFKC spells `⒈` as `1.`).
pub open spec fn kept_ext(raw: Seq<char>, e: Seq<char>) -> bool {
    usable_ext(e) && dot_count(e) == dot_count(raw)
}

/// Split a name into its leading dots, its transformed stem and its transformed
/// extension. `None` for a name that is nothing but dots.
pub open spec fn parts_spec(name: Seq<char>, opts: Options) -> Option<
    (Seq<char>, Seq<char>, Option<Seq<char>>),
> {
    let d = dot_run(name);
    let prefix = name.take(d);
    let rest = name.skip(d);
    if rest.len() == 0 {
        None
    } else {
        let (stem, ext) = split_ext_spec(rest);
        match ext {
            Some(e) if kept_ext(e, ext_spec(e, opts)) => Some(
                (prefix, kebab_word_spec(stem, opts), Some(ext_spec(e, opts))),
            ),
            _ => Some((prefix, kebab_word_spec(rest, opts), None)),
        }
    }
}

pub fn transform_ext(e: &Vec<char>, opts: &Options) -> (r: Vec<char>)
    ensures
        r@ == ext_spec(e@, *opts),
{
    let mut done: Vec<char> = Vec::new();
    let mut cur: Vec<char> = Vec::new();
    let mut i: usize = 0;
    while i < e.len()
        invariant
            i <= e.len(),
            (done@, cur@) == ext_state(e@, i as int, *opts),
        decreases e.len() - i,
    {
        if e[i] == '.' {
            let mut word = ext_word_chars(&cur, opts);
            done.append(&mut word);
            done.push('.');
            cur = Vec::new();
        } else {
            cur.push(e[i]);
        }
        i += 1;
    }
    let mut word = ext_word_chars(&cur, opts);
    done.append(&mut word);
    done
}

pub fn is_usable_ext(e: &Vec<char>) -> (r: bool)
    ensures
        r == usable_ext(e@),
{
    if e.len() == 0 || e[0] == '.' || e[e.len() - 1] == '.' {
        return false;
    }
    let mut i: usize = 0;
    while i + 1 < e.len()
        invariant
            e.len() > 0,
            i < e.len(),
            forall|j: int| 0 <= j < i ==> !(#[trigger] e@[j] == '.' && e@[j + 1] == '.'),
        decreases e.len() - i,
    {
        if e[i] == '.' && e[i + 1] == '.' {
            return false;
        }
        i += 1;
    }
    assert(!(exists|j: int| 0 <= j < e.len() - 1 && #[trigger] e@[j] == '.' && e@[j + 1] == '.'));
    let digits = is_all_ascii_digits(e, 0, e.len());
    assert(e@.subrange(0, e.len() as int) =~= e@);
    !digits
}

pub fn parts(name: &Vec<char>, opts: &Options) -> (r: Option<(Vec<char>, Vec<char>, Option<Vec<char>>)>)
    ensures
        match r {
            None => parts_spec(name@, *opts) is None,
            Some((p, s, e)) => parts_spec(name@, *opts) == Some(
                (p@, s@, match e {
                    Some(e) => Some(e@),
                    None => None,
                }),
            ),
        },
        r is None <==> dot_run(name@) == name@.len(),
{
    let mut d: usize = 0;
    proof {
        lemma_dots_from(name@, 0);
    }
    while d < name.len() && name[d] == '.'
        invariant
            d <= name.len(),
            dots_from(name@, 0) == dots_from(name@, d as int),
        decreases name.len() - d,
    {
        d += 1;
    }
    let prefix = slice(name, 0, d);
    let rest = slice(name, d, name.len());
    assert(prefix@ =~= name@.take(d as int));
    assert(rest@ =~= name@.skip(d as int));
    proof {
        lemma_dots_from(name@, 0);
    }
    if rest.len() == 0 {
        return None;
    }
    let (stem, ext) = split_extension(&rest);
    match ext {
        Some(e) => {
            let transformed = transform_ext(&e, opts);
            if is_usable_ext(&transformed) && count_dots(&transformed) == count_dots(&e) {
                let word = kebab_word_chars(&stem, opts);
                return Some((prefix, word, Some(transformed)));
            }
        },
        None => {},
    }
    let word = kebab_word_chars(&rest, opts);
    Some((prefix, word, None))
}

// ── Step 11: fit the budget ─────────────────────────────────────────────────────

/// Where truncation cuts the stem, walking its grapheme clusters from `k` on with
/// `at` characters, `bytes` bytes and `units` UTF-16 units already placed: at the
/// first cluster that would overrun the budget in either unit, or nowhere.
pub open spec fn cut_from(gs: Seq<Seq<char>>, k: int, at: int, bytes: int, units: int, max: int) -> Option<int>
    decreases gs.len() - k,
{
    if k < 0 || k >= gs.len() {
        None
    } else {
        let g = gs[k];
        if bytes + utf8_len(g) > max || units + utf16_len(g) > max {
            Some(at)
        } else {
            cut_from(gs, k + 1, at + g.len(), bytes + utf8_len(g), units + utf16_len(g), max)
        }
    }
}

/// The extension with its dot, or nothing.
pub open spec fn ext_tail(ext: Option<Seq<char>>) -> Seq<char> {
    match ext {
        Some(e) => seq!['.'] + e,
        None => Seq::empty(),
    }
}

/// Where truncation cuts `stem`, with `fixed` bytes and `fixed16` UTF-16 units already
/// spoken for, and how much the kept part weighs.
pub fn truncation_cut(stem: &Vec<char>, fixed: u128, fixed16: u128, max: u128) -> (cut: usize)
    requires
        fixed < max,
        fixed16 < max,
        max <= usize::MAX,
    ensures
        cut <= stem.len(),
        fixed + utf8_len(stem@.take(cut as int)) <= max,
        fixed16 + utf16_len(stem@.take(cut as int)) <= max,
        cut == match cut_from(clusters(stem@), 0, 0, fixed as int, fixed16 as int, max as int) {
            Some(a) => a,
            None => stem@.len() as int,
        },
{
    let gs = graphemes(stem);
    let ghost gsv = views(gs@);
    let mut bytes = fixed;
    let mut units = fixed16;
    let mut at: usize = 0;
    let mut k: usize = 0;
    let mut cut = stem.len();
    proof {
        if gs.len() == 0 {
            assert(gsv.take(0) =~= gsv);
            assert(stem@.take(0) =~= stem@);
        }
    }
    while k < gs.len()
        invariant_except_break
            cut == stem.len(),
        invariant
            gsv == views(gs@),
            gsv == clusters(stem@),
            gsv.flatten() == stem@,
            k <= gs.len(),
            bytes <= max,
            units <= max,
            max <= usize::MAX,
            at as int == gsv.take(k as int).flatten().len(),
            at <= stem.len(),
            bytes == fixed + utf8_len(stem@.take(at as int)),
            k == gs.len() ==> stem@.take(at as int) == stem@,
            units == fixed16 + utf16_len(stem@.take(at as int)),
            stem@.take(at as int) == gsv.take(k as int).flatten(),
            cut_from(gsv, 0, 0, fixed as int, fixed16 as int, max as int) == cut_from(
                gsv,
                k as int,
                at as int,
                bytes as int,
                units as int,
                max as int,
            ),
        ensures
            cut <= stem.len(),
            fixed + utf8_len(stem@.take(cut as int)) <= max,
            fixed16 + utf16_len(stem@.take(cut as int)) <= max,
            cut == match cut_from(gsv, 0, 0, fixed as int, fixed16 as int, max as int) {
                Some(a) => a,
                None => stem@.len() as int,
            },
        decreases gs.len() - k,
    {
        let g = &gs[k];
        assert(g@ == gsv[k as int]);
        proof {
            lemma_len_bounds(g@);
            lemma_flatten_take_len(gsv, k as int);
        }
        let g8 = len_utf8(g);
        let g16 = len_utf16(g);
        if bytes + g8 > max || units + g16 > max {
            cut = at;
            break;
        }
        proof {
            assert(stem@.take(at + g@.len()) == stem@.take(at as int) + g@) by {
                assert(gsv.take(k + 1).flatten() == gsv.take(k as int).flatten() + gsv[k as int]);
                assert(stem@.take(at + g@.len()) =~= gsv.flatten().take(
                    gsv.take(k + 1).flatten().len() as int,
                ));
            }
            lemma_utf8_len_concat(stem@.take(at as int), g@);
            lemma_utf16_len_concat(stem@.take(at as int), g@);
        }
        bytes = bytes + g8;
        units = units + g16;
        at = at + g.len();
        k += 1;
        proof {
            if k == gs.len() {
                assert(gsv.take(k as int) =~= gsv);
            }
        }
    }
    proof {
        if cut == stem.len() {
            assert(stem@.take(cut as int) =~= stem@);
        }
    }
    cut
}

/// Join the pieces back together, truncating the stem on grapheme boundaries so that
/// the whole fits the budget in bytes and in UTF-16 units.
///
/// `None` when nothing survives: an empty stem, or an extension that alone overruns
/// the limit. Both mean refusal, not a fabricated name.
pub open spec fn assemble_spec(prefix: Seq<char>, stem: Seq<char>, ext: Option<Seq<char>>, opts: Options) -> Option<Seq<char>> {
    let tail = ext_tail(ext);
    let fixed = utf8_len(prefix) + utf8_len(tail);
    let fixed16 = utf16_len(prefix) + utf16_len(tail);
    let max = opts.max_length as int;
    if stem.len() == 0 || fixed >= max || fixed16 >= max {
        None
    } else {
        let kept = trim_end2(stem.take(stem_cut(prefix, stem, ext, opts)), opts.separator, '.');
        if kept.len() == 0 {
            None
        } else {
            Some(prefix + kept + tail)
        }
    }
}

/// Where truncation cuts the stem: nowhere when the whole name fits, else at the
/// first grapheme cluster that would overrun the budget in either unit.
pub open spec fn stem_cut(prefix: Seq<char>, stem: Seq<char>, ext: Option<Seq<char>>, opts: Options) -> int {
    let tail = ext_tail(ext);
    let fixed = utf8_len(prefix) + utf8_len(tail);
    let fixed16 = utf16_len(prefix) + utf16_len(tail);
    let max = opts.max_length as int;
    if fixed + utf8_len(stem) <= max && fixed16 + utf16_len(stem) <= max {
        stem.len() as int
    } else {
        match cut_from(clusters(stem), 0, 0, fixed as int, fixed16 as int, max) {
            Some(at) => if at <= stem.len() {
                at
            } else {
                stem.len() as int
            },
            None => stem.len() as int,
        }
    }
}

/// Wherever truncation cuts, the kept part fits next to what is already spoken for.
proof fn lemma_cut_from_fits(
    stem: Seq<char>,
    gs: Seq<Seq<char>>,
    k: int,
    at: int,
    bytes: int,
    units: int,
    fixed: int,
    fixed16: int,
    max: int,
)
    requires
        gs.flatten() == stem,
        0 <= k <= gs.len(),
        at == gs.take(k).flatten().len(),
        stem.take(at) == gs.take(k).flatten(),
        bytes == fixed + utf8_len(stem.take(at)),
        units == fixed16 + utf16_len(stem.take(at)),
        bytes <= max,
        units <= max,
    ensures
        cut_from(gs, k, at, bytes, units, max) matches Some(a) ==> 0 <= a <= stem.len() && fixed
            + utf8_len(stem.take(a)) <= max && fixed16 + utf16_len(stem.take(a)) <= max,
    decreases gs.len() - k,
{
    if k < gs.len() {
        let g = gs[k];
        lemma_flatten_take_len(gs, k);
        if !(bytes + utf8_len(g) > max || units + utf16_len(g) > max) {
            let at2 = at + g.len();
            assert(stem.take(at2) == stem.take(at) + g) by {
                assert(stem.take(at2) =~= gs.flatten().take(gs.take(k + 1).flatten().len() as int));
            }
            lemma_utf8_len_concat(stem.take(at), g);
            lemma_utf16_len_concat(stem.take(at), g);
            lemma_cut_from_fits(stem, gs, k + 1, at2, bytes + utf8_len(g), units + utf16_len(g), fixed, fixed16, max);
        } else {
            assert(gs.take(k).flatten().len() <= gs.flatten().len());
        }
    }
}

/// An assembled name fits the budget, in bytes and in UTF-16 units.
pub proof fn lemma_assemble_fits(prefix: Seq<char>, stem: Seq<char>, ext: Option<Seq<char>>, opts: Options)
    ensures
        assemble_spec(prefix, stem, ext, opts) matches Some(y) ==> utf8_len(y) <= opts.max_length
            && utf16_len(y) <= opts.max_length,
        assemble_spec(prefix, stem, ext, opts) is Some ==> 0 <= stem_cut(prefix, stem, ext, opts)
            <= stem.len(),
        !(stem.len() == 0 || utf8_len(prefix) + utf8_len(ext_tail(ext)) >= opts.max_length
            || utf16_len(prefix) + utf16_len(ext_tail(ext)) >= opts.max_length) ==> 0 <= stem_cut(
            prefix,
            stem,
            ext,
            opts,
        ) <= stem.len(),
{
    let tail = ext_tail(ext);
    let fixed = utf8_len(prefix) + utf8_len(tail);
    let fixed16 = utf16_len(prefix) + utf16_len(tail);
    let max = opts.max_length as int;
    if !(stem.len() == 0 || fixed >= max || fixed16 >= max) {
        let gs = clusters(stem);
        lemma_clusters(stem);
        assert(gs.take(0) =~= Seq::<Seq<char>>::empty());
        assert(stem.take(0) =~= Seq::<char>::empty());
        lemma_cut_from_fits(stem, gs, 0, 0, fixed as int, fixed16 as int, fixed as int, fixed16 as int, max);
        let cut = stem_cut(prefix, stem, ext, opts);
        assert(stem.take(stem.len() as int) =~= stem);
        if cut_from(gs, 0, 0, fixed as int, fixed16 as int, max) is None && !(fixed + utf8_len(stem) <= max && fixed16 + utf16_len(stem) <= max) {
            lemma_cut_from_none(stem, gs, 0, 0, fixed as int, fixed16 as int, fixed as int, fixed16 as int, max);
        }
        assert(fixed + utf8_len(stem.take(cut)) <= max);
        assert(fixed16 + utf16_len(stem.take(cut)) <= max);
        let kept = trim_end2(stem.take(cut), opts.separator, '.');
        lemma_trim_end2_prefix(stem.take(cut), opts.separator, '.');
        lemma_len_take(stem.take(cut), kept.len() as int);
        lemma_utf8_len_concat(prefix, kept);
        lemma_utf8_len_concat(prefix + kept, tail);
        lemma_utf16_len_concat(prefix, kept);
        lemma_utf16_len_concat(prefix + kept, tail);
    }
}

/// When truncation finds no cluster that overruns, the whole stem fits.
proof fn lemma_cut_from_none(
    stem: Seq<char>,
    gs: Seq<Seq<char>>,
    k: int,
    at: int,
    bytes: int,
    units: int,
    fixed: int,
    fixed16: int,
    max: int,
)
    requires
        gs.flatten() == stem,
        0 <= k <= gs.len(),
        at == gs.take(k).flatten().len(),
        stem.take(at) == gs.take(k).flatten(),
        bytes == fixed + utf8_len(stem.take(at)),
        units == fixed16 + utf16_len(stem.take(at)),
        bytes <= max,
        units <= max,
        cut_from(gs, k, at, bytes, units, max) is None,
    ensures
        fixed + utf8_len(stem) <= max,
        fixed16 + utf16_len(stem) <= max,
    decreases gs.len() - k,
{
    if k < gs.len() {
        let g = gs[k];
        lemma_flatten_take_len(gs, k);
        let at2 = at + g.len();
        assert(stem.take(at2) == stem.take(at) + g) by {
            assert(stem.take(at2) =~= gs.flatten().take(gs.take(k + 1).flatten().len() as int));
        }
        lemma_utf8_len_concat(stem.take(at), g);
        lemma_utf16_len_concat(stem.take(at), g);
        lemma_cut_from_none(stem, gs, k + 1, at2, bytes + utf8_len(g), units + utf16_len(g), fixed, fixed16, max);
    } else {
        assert(gs.take(k) =~= gs);
        assert(stem.take(at) =~= stem);
    }
}

pub proof fn lemma_flatten_take_len(gs: Seq<Seq<char>>, k: int)
    requires
        0 <= k < gs.len(),
    ensures
        gs.take(k + 1).flatten() == gs.take(k).flatten() + gs[k],
        gs.take(k).flatten().len() + gs[k].len() <= gs.flatten().len(),
        gs.flatten().take(gs.take(k + 1).flatten().len() as int) == gs.take(k + 1).flatten(),
{
    assert(gs.take(k + 1) =~= gs.take(k).push(gs[k]));
    gs.take(k).lemma_flatten_push(gs[k]);
    vstd::seq_lib::lemma_flatten_concat(gs.take(k + 1), gs.skip(k + 1));
    assert(gs.take(k + 1) + gs.skip(k + 1) =~= gs);
    assert(gs.flatten().take(gs.take(k + 1).flatten().len() as int) =~= gs.take(k + 1).flatten());
}

#[verifier::rlimit(40)]
pub fn assemble(prefix: &Vec<char>, stem: &Vec<char>, ext: &Option<Vec<char>>, opts: &Options) -> (r: Option<Vec<char>>)
    ensures
        match r {
            Some(v) => assemble_spec(prefix@, stem@, match ext {
                Some(e) => Some(e@),
                None => None,
            }, *opts) == Some(v@),
            None => assemble_spec(prefix@, stem@, match ext {
                Some(e) => Some(e@),
                None => None,
            }, *opts) is None,
        },
        r matches Some(v) ==> utf8_len(v@) <= opts.max_length && utf16_len(v@)
            <= opts.max_length,
{
    let ghost ext_v: Option<Seq<char>> = match ext {
        Some(e) => Some(e@),
        None => None,
    };
    let mut tail: Vec<char> = Vec::new();
    match ext {
        Some(e) => {
            tail.push('.');
            let mut copy = slice(e, 0, e.len());
            tail.append(&mut copy);
        },
        None => {},
    }
    assert(tail@ =~= ext_tail(ext_v));
    proof {
        lemma_len_bounds(prefix@);
        lemma_len_bounds(tail@);
    }
    let prefix8 = len_utf8(prefix);
    let tail8 = len_utf8(&tail);
    let prefix16 = len_utf16(prefix);
    let tail16 = len_utf16(&tail);
    let prefix_chars = prefix.len();
    let tail_chars = tail.len();
    assert(prefix@.len() == prefix_chars && tail@.len() == tail_chars);
    assert(prefix8 <= 4 * usize::MAX && tail8 <= 4 * usize::MAX);
    assert(prefix16 <= 2 * usize::MAX && tail16 <= 2 * usize::MAX);
    let fixed = prefix8 + tail8;
    let fixed16 = prefix16 + tail16;
    let max = opts.max_length as u128;
    if stem.len() == 0 || fixed >= max || fixed16 >= max {
        return None;
    }
    proof {
        lemma_len_bounds(stem@);
    }
    let stem8 = len_utf8(stem);
    let stem16 = len_utf16(stem);
    let whole = fixed + stem8 <= max && fixed16 + stem16 <= max;
    let cut = if whole {
        proof {
            assert(stem@.take(stem@.len() as int) =~= stem@);
        }
        stem.len()
    } else {
        truncation_cut(stem, fixed, fixed16, max)
    };
    let ghost cut_spec = stem_cut(prefix@, stem@, ext_v, *opts);
    assert(cut == cut_spec);
    assert(fixed + utf8_len(stem@.take(cut as int)) <= max);
    assert(fixed16 + utf16_len(stem@.take(cut as int)) <= max);
    let head = slice(stem, 0, cut);
    assert(head@ =~= stem@.take(cut as int));
    let kept = trim_end_matches2(&head, opts.separator, '.');
    if kept.len() == 0 {
        return None;
    }
    proof {
        lemma_trim_end2_prefix(head@, opts.separator, '.');
        lemma_len_take(head@, kept@.len() as int);
        lemma_utf8_len_concat(prefix@, kept@);
        lemma_utf8_len_concat(prefix@ + kept@, tail@);
        lemma_utf16_len_concat(prefix@, kept@);
        lemma_utf16_len_concat(prefix@ + kept@, tail@);
    }
    let mut out = slice(prefix, 0, prefix.len());
    let mut kept_mut = kept;
    out.append(&mut kept_mut);
    out.append(&mut tail);
    assert(out@ =~= prefix@ + trim_end2(stem@.take(cut_spec), opts.separator, '.') + ext_tail(ext_v));
    Some(out)
}

// ── The public transform ────────────────────────────────────────────────────────

/// A name that is nothing but dots (`.`, `..`, or the empty name) as the transform
/// writes it: unchanged while it fits the length budget, refused beyond it.
pub open spec fn dots_within(name: Seq<char>, opts: Options) -> Seq<char> {
    if name.len() <= opts.max_length {
        name
    } else {
        Seq::empty()
    }
}

/// A string of dots weighs one byte and one UTF-16 unit per dot.
pub proof fn lemma_dots_len(s: Seq<char>)
    requires
        forall|i: int| 0 <= i < s.len() ==> #[trigger] s[i] == '.',
    ensures
        utf8_len(s) == s.len(),
        utf16_len(s) == s.len(),
    decreases s.len(),
{
    if s.len() > 0 {
        lemma_dots_len(s.drop_last());
    }
}

/// The kebab form of a filename. A name that is nothing but dots passes through
/// unchanged if it fits the budget and is refused otherwise; an empty result is a
/// refusal.
pub open spec fn kebab_spec(name: Seq<char>, opts: Options) -> Seq<char> {
    match parts_spec(name, opts) {
        None => dots_within(name, opts),
        Some((prefix, stem, ext)) => match assemble_spec(prefix, stem, ext, opts) {
            Some(r) => r,
            None => Seq::empty(),
        },
    }
}

/// [`dots_within`] for a name that is nothing but dots.
fn dots_fitted(name: &Vec<char>, opts: &Options) -> (r: Vec<char>)
    requires
        dot_run(name@) == name@.len(),
    ensures
        r@ == dots_within(name@, *opts),
        utf8_len(r@) <= opts.max_length && utf16_len(r@) <= opts.max_length,
{
    proof {
        lemma_dots_from(name@, 0);
        lemma_dots_len(name@);
    }
    if name.len() <= opts.max_length {
        slice(name, 0, name.len())
    } else {
        let empty: Vec<char> = Vec::new();
        assert(utf8_len(empty@) == 0 && utf16_len(empty@) == 0);
        empty
    }
}

pub fn kebab_chars(name: &Vec<char>, opts: &Options) -> (r: Vec<char>)
    ensures
        r@ == kebab_spec(name@, *opts),
        utf8_len(r@) <= opts.max_length && utf16_len(r@)
            <= opts.max_length,
{
    match parts(name, opts) {
        None => dots_fitted(name, opts),
        Some((prefix, stem, ext)) => match assemble(&prefix, &stem, &ext, opts) {
            Some(r) => r,
            None => {
                let empty: Vec<char> = Vec::new();
                assert(utf8_len(empty@) == 0 && utf16_len(empty@) == 0);
                empty
            },
        },
    }
}

/// Convert a filename to kebab case, preserving its extension.
pub fn kebab(name: &str) -> (r: String)
    ensures
        r@ == kebab_spec(name@, Options::spec_default()),
        utf8_len(r@) <= 255 && utf16_len(r@) <= 255,
{
    kebab_with(name, &Options::default())
}

/// [`kebab`], with the separator, output alphabet and length budget spelled out.
///
/// The result fits the length budget, counted in UTF-8 bytes and in UTF-16 code units
/// alike.
pub fn kebab_with(name: &str, opts: &Options) -> (r: String)
    ensures
        r@ == kebab_spec(name@, *opts),
        utf8_len(r@) <= opts.max_length && utf16_len(r@)
            <= opts.max_length,
{
    let chars = chars_of(name);
    let out = kebab_chars(&chars, opts);
    string_of(&out)
}

// ── Ordinals for collisions ─────────────────────────────────────────────────────

/// The decimal digits of `n`.
pub open spec fn decimal(n: u32) -> Seq<char>
    decreases n,
{
    if n < 10 {
        seq![(48 + n) as char]
    } else {
        decimal(n / 10).push((48 + n % 10) as char)
    }
}

pub fn decimal_digits(n: u32) -> (r: Vec<char>)
    ensures
        r@ == decimal(n),
    decreases n,
{
    if n < 10 {
        vec![((48 + n) as u8) as char]
    } else {
        let mut v = decimal_digits(n / 10);
        v.push(((48 + n % 10) as u8) as char);
        v
    }
}

/// `a - b`, or zero.
pub open spec fn saturating_sub(a: int, b: int) -> int {
    if a > b {
        a - b
    } else {
        0
    }
}

/// The suffix an ordinal adds: the separator, then the number.
pub open spec fn ordinal_tail(n: u32, opts: Options) -> Seq<char> {
    seq![opts.separator] + decimal(n)
}

/// The name with an ordinal appended to its stem, for the filesystem layer's collision
/// suffixing. Room for the ordinal is reserved out of the budget before fitting, so
/// that a name already at the limit does not truncate straight back onto the name it
/// collided with; the fitted name is then split again and the ordinal joined to its
/// stem.
pub open spec fn with_ordinal_spec(name: Seq<char>, n: u32, opts: Options) -> Seq<char> {
    match parts_spec(name, opts) {
        None => dots_within(name, opts),
        Some((prefix, stem, ext)) => {
            let tail = ordinal_tail(n, opts);
            let budget = Options {
                max_length: saturating_sub(opts.max_length as int, utf8_len(tail) as int) as usize,
                ..opts
            };
            match assemble_spec(prefix, stem, ext, budget) {
                None => Seq::empty(),
                Some(fitted) => match parts_spec(fitted, opts) {
                    None => Seq::empty(),
                    Some((prefix2, stem2, ext2)) => match assemble_spec(
                        prefix2,
                        stem2 + tail,
                        ext2,
                        opts,
                    ) {
                        Some(r) => r,
                        None => Seq::empty(),
                    },
                },
            }
        },
    }
}

/// Append an ordinal to a name's stem: `my-file.md` and 2 give `my-file-2.md`.
///
/// The result fits the length budget.
pub fn with_ordinal(name: &str, n: u32, opts: &Options) -> (r: String)
    ensures
        r@ == with_ordinal_spec(name@, n, *opts),
        utf8_len(r@) <= opts.max_length && utf16_len(r@)
            <= opts.max_length,
{
    let chars = chars_of(name);
    let out = with_ordinal_chars(&chars, n, opts);
    string_of(&out)
}

pub fn with_ordinal_chars(chars: &Vec<char>, n: u32, opts: &Options) -> (r: Vec<char>)
    ensures
        r@ == with_ordinal_spec(chars@, n, *opts),
        utf8_len(r@) <= opts.max_length && utf16_len(r@)
            <= opts.max_length,
{
    let empty: Vec<char> = Vec::new();
    assert(utf8_len(empty@) == 0 && utf16_len(empty@) == 0);
    let (prefix, stem, ext) = match parts(chars, opts) {
        None => return dots_fitted(chars, opts),
        Some(p) => p,
    };
    let mut tail: Vec<char> = vec![opts.separator];
    let mut digits = decimal_digits(n);
    tail.append(&mut digits);
    assert(tail@ =~= ordinal_tail(n, *opts));
    proof {
        lemma_len_bounds(tail@);
    }
    let tail_len = len_utf8(&tail);
    let max = opts.max_length as u128;
    let budget_len: usize = if max > tail_len {
        (max - tail_len) as usize
    } else {
        0
    };
    let budget = Options { separator: opts.separator, ascii: opts.ascii, max_length: budget_len };
    assert(budget == Options {
        max_length: saturating_sub(opts.max_length as int, utf8_len(tail@) as int) as usize,
        ..*opts
    });
    let fitted = match assemble(&prefix, &stem, &ext, &budget) {
        None => return empty,
        Some(f) => f,
    };
    let (prefix2, stem2, ext2) = match parts(&fitted, opts) {
        None => return empty,
        Some(p) => p,
    };
    let mut longer = slice(&stem2, 0, stem2.len());
    longer.append(&mut tail);
    assert(longer@ =~= stem2@ + ordinal_tail(n, *opts));
    match assemble(&prefix2, &longer, &ext2, opts) {
        Some(r) => r,
        None => empty,
    }
}
} // verus!

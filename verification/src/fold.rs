//! Character folding: the invisible characters deleted first, the special folds and
//! transliteration that run before decomposition, non-ASCII digits, and the tokens
//! whose punctuation carries the meaning.
//!
//! Everything here runs before word boundaries are detected, so a replacement keeps
//! the case signal of the character it replaces: a multi-letter expansion of a capital
//! is written `Ae` or `AE` depending on its neighbours, so that `Æther` becomes
//! `aether` and `ÆTHER` does not become `a-ether`.

use vstd::prelude::*;

use crate::translit::{translit, translit_table};
use crate::unicode::{
    ascii_lower, char_ascii_lower, char_is_ascii, char_is_ascii_alnum, char_is_ascii_alpha,
    is_ascii_alnum, is_ascii_alpha, is_ascii_char, decompose_canonical, is_lowercase, is_silent_control, is_uppercase, lowercase, lowercase_of,
    lower_first, opt_view, canonical_decomposition, silent_control, to_upper, uppercase,
    uppercase_of,
};

verus! {

// ── Deleted outright ────────────────────────────────────────────────────────────

/// Invisible format characters: the soft hyphen, Arabic format characters, the
/// Mongolian vowel separator, joiners and direction marks, bidi embeddings,
/// overrides and isolates, the word joiner and invisible operators, the BOM,
/// interlinear annotation marks, noncharacters and tag characters. U+200B is not
/// among them: a zero-width space is a gap between words.
pub open spec fn invisible(u: u32) -> bool {
    u == 0x00AD || (0x0600 <= u <= 0x0605) || u == 0x061C || u == 0x06DD || u == 0x070F
        || u == 0x08E2 || u == 0x180E || (0x200C <= u <= 0x200F) || (0x202A <= u <= 0x202E)
        || (0x2060 <= u <= 0x2064) || (0x2066 <= u <= 0x206F) || u == 0xFEFF
        || (0xFFF9 <= u <= 0xFFFB) || u == 0xFFFE || u == 0xFFFF || u == 0x110BD
        || u == 0x110CD || (0x13430 <= u <= 0x1343F) || (0x1BCA0 <= u <= 0x1BCA3)
        || (0x1D173 <= u <= 0x1D17A) || (0xE0000 <= u <= 0xE007F)
}

/// Characters deleted before anything else reads the name: controls other than
/// whitespace (a tab or newline is a gap between words), and the invisible ones.
pub open spec fn ignorable(c: char) -> bool {
    silent_control(c) || invisible(c as u32)
}

pub fn is_ignorable(c: char) -> (r: bool)
    ensures
        r == ignorable(c),
{
    if is_silent_control(c) {
        return true;
    }
    let u = c as u32;
    u == 0x00AD || (0x0600 <= u && u <= 0x0605) || u == 0x061C || u == 0x06DD || u == 0x070F
        || u == 0x08E2 || u == 0x180E || (0x200C <= u && u <= 0x200F) || (0x202A <= u && u
        <= 0x202E) || (0x2060 <= u && u <= 0x2064) || (0x2066 <= u && u <= 0x206F) || u
        == 0xFEFF || (0xFFF9 <= u && u <= 0xFFFB) || u == 0xFFFE || u == 0xFFFF || u
        == 0x110BD || u == 0x110CD || (0x13430 <= u && u <= 0x1343F) || (0x1BCA0 <= u && u
        <= 0x1BCA3) || (0x1D173 <= u && u <= 0x1D17A) || (0xE0000 <= u && u <= 0xE007F)
}

/// `s` with every ignorable character removed.
pub open spec fn strip_ignorable(s: Seq<char>) -> Seq<char>
    decreases s.len(),
{
    if s.len() == 0 {
        s
    } else if ignorable(s.last()) {
        strip_ignorable(s.drop_last())
    } else {
        strip_ignorable(s.drop_last()).push(s.last())
    }
}

pub fn remove_ignorable(s: &Vec<char>) -> (r: Vec<char>)
    ensures
        r@ == strip_ignorable(s@),
{
    let mut out: Vec<char> = Vec::new();
    let mut i: usize = 0;
    while i < s.len()
        invariant
            i <= s.len(),
            out@ == strip_ignorable(s@.take(i as int)),
        decreases s.len() - i,
    {
        let c = s[i];
        assert(s@.take(i + 1).drop_last() =~= s@.take(i as int));
        if !is_ignorable(c) {
            out.push(c);
        }
        i += 1;
    }
    assert(s@.take(s.len() as int) =~= s@);
    out
}

// ── Special folds and transliteration ───────────────────────────────────────────

/// Letters with no canonical decomposition, which decomposing and dropping marks
/// would pass through untouched and the whitelist would then delete (`Łódź` would
/// become `d`). Values are the lowercase expansion; folding restores the case.
pub open spec fn special_fold_table(c: char) -> Option<Seq<char>> {
    match c {
        'ß' | 'ẞ' => Some(seq!['s', 's']),
        'ł' | 'Ł' => Some(seq!['l']),
        'ø' | 'Ø' | 'ǿ' | 'Ǿ' => Some(seq!['o']),
        'đ' | 'Đ' | 'ð' | 'Ð' => Some(seq!['d']),
        'þ' | 'Þ' => Some(seq!['t', 'h']),
        'ħ' | 'Ħ' => Some(seq!['h']),
        'ŋ' | 'Ŋ' => Some(seq!['n', 'g']),
        'ı' | 'İ' | 'ɨ' => Some(seq!['i']),
        'æ' | 'Æ' | 'ǣ' | 'Ǣ' | 'ǽ' | 'Ǽ' => Some(seq!['a', 'e']),
        'œ' | 'Œ' => Some(seq!['o', 'e']),
        'ŧ' | 'Ŧ' => Some(seq!['t']),
        'ĸ' => Some(seq!['k']),
        'ǥ' | 'Ǥ' | 'ǧ' | 'Ǧ' => Some(seq!['g']),
        'ƒ' | 'Ƒ' => Some(seq!['f']),
        'ȼ' | 'Ȼ' => Some(seq!['c']),
        'ɇ' | 'Ɇ' => Some(seq!['e']),
        'ɍ' | 'Ɍ' => Some(seq!['r']),
        'ƶ' | 'Ƶ' => Some(seq!['z']),
        'ɏ' | 'Ɏ' => Some(seq!['y']),
        'ſ' => Some(seq!['s']),
        'µ' => Some(seq!['u']),
        _ => None,
    }
}

pub fn special_fold(c: char) -> (r: Option<Vec<char>>)
    ensures
        opt_view(r) == special_fold_table(c),
{
    match c {
        'ß' | 'ẞ' => Some(vec!['s', 's']),
        'ł' | 'Ł' => Some(vec!['l']),
        'ø' | 'Ø' | 'ǿ' | 'Ǿ' => Some(vec!['o']),
        'đ' | 'Đ' | 'ð' | 'Ð' => Some(vec!['d']),
        'þ' | 'Þ' => Some(vec!['t', 'h']),
        'ħ' | 'Ħ' => Some(vec!['h']),
        'ŋ' | 'Ŋ' => Some(vec!['n', 'g']),
        'ı' | 'İ' | 'ɨ' => Some(vec!['i']),
        'æ' | 'Æ' | 'ǣ' | 'Ǣ' | 'ǽ' | 'Ǽ' => Some(vec!['a', 'e']),
        'œ' | 'Œ' => Some(vec!['o', 'e']),
        'ŧ' | 'Ŧ' => Some(vec!['t']),
        'ĸ' => Some(vec!['k']),
        'ǥ' | 'Ǥ' | 'ǧ' | 'Ǧ' => Some(vec!['g']),
        'ƒ' | 'Ƒ' => Some(vec!['f']),
        'ȼ' | 'Ȼ' => Some(vec!['c']),
        'ɇ' | 'Ɇ' => Some(vec!['e']),
        'ɍ' | 'Ɍ' => Some(vec!['r']),
        'ƶ' | 'Ƶ' => Some(vec!['z']),
        'ɏ' | 'Ɏ' => Some(vec!['y']),
        'ſ' => Some(vec!['s']),
        'µ' => Some(vec!['u']),
        _ => None,
    }
}

/// The first character of `c`'s canonical decomposition: its base letter. An ASCII
/// character decomposes to itself.
pub open spec fn base_char(c: char) -> char {
    if is_ascii_char(c) {
        c
    } else {
        canonical_decomposition(c)[0]
    }
}

/// One fold lookup: the explicit table, then transliteration of the lowercase letter,
/// then the same two against the character's base letter (`ά` to `α` to `a`).
pub open spec fn lookup_spec(c: char) -> Option<Seq<char>> {
    match special_fold_table(c) {
        Some(r) => Some(r),
        None => match translit_table(lower_first(c)) {
            Some(r) => Some(r),
            None => {
                let base = base_char(c);
                if base == c {
                    None
                } else {
                    match special_fold_table(base) {
                        Some(r) => Some(r),
                        None => translit_table(lower_first(base)),
                    }
                }
            },
        },
    }
}

pub fn lookup(c: char) -> (r: Option<Vec<char>>)
    ensures
        opt_view(r) == lookup_spec(c),
{
    if let Some(r) = special_fold(c) {
        return Some(r);
    }
    let lower = lowercase_of(c);
    if let Some(r) = translit(lower[0]) {
        return Some(r);
    }
    let decomposed = decompose_canonical(c);
    let base = decomposed[0];
    if base == c {
        return None;
    }
    if let Some(r) = special_fold(base) {
        return Some(r);
    }
    let base_lower = lowercase_of(base);
    translit(base_lower[0])
}

/// Every character of `s` replaced by its uppercase mapping.
pub open spec fn upper_all(s: Seq<char>) -> Seq<char>
    decreases s.len(),
{
    if s.len() == 0 {
        s
    } else {
        upper_all(s.drop_last()) + to_upper(s.last())
    }
}

pub fn uppercase_all(s: &Vec<char>) -> (r: Vec<char>)
    ensures
        r@ == upper_all(s@),
{
    let mut out: Vec<char> = Vec::new();
    let mut i: usize = 0;
    while i < s.len()
        invariant
            i <= s.len(),
            out@ == upper_all(s@.take(i as int)),
        decreases s.len() - i,
    {
        assert(s@.take(i + 1).drop_last() =~= s@.take(i as int));
        let mut up = uppercase_of(s[i]);
        out.append(&mut up);
        i += 1;
    }
    assert(s@.take(s.len() as int) =~= s@);
    out
}

/// Does an uppercase letter sit next to position `i`? Decides between `AE` and `Ae`.
pub open spec fn adjacent_upper(s: Seq<char>, i: int) -> bool {
    if i + 1 < s.len() && lowercase(s[i + 1]) {
        false
    } else {
        (i + 1 < s.len() && uppercase(s[i + 1])) || (i > 0 && uppercase(s[i - 1]))
    }
}

pub fn adjacent_uppercase(s: &Vec<char>, i: usize) -> (r: bool)
    requires
        i < s.len(),
    ensures
        r == adjacent_upper(s@, i as int),
{
    if i + 1 < s.len() && is_lowercase(s[i + 1]) {
        return false;
    }
    (i + 1 < s.len() && is_uppercase(s[i + 1])) || (i > 0 && is_uppercase(s[i - 1]))
}

/// What the character at `i` folds to, re-cased after its neighbours.
pub open spec fn fold_piece(s: Seq<char>, i: int) -> Seq<char> {
    let c = s[i];
    match lookup_spec(c) {
        None => seq![c],
        Some(rep) => if !uppercase(c) {
            rep
        } else if rep.len() == 1 {
            upper_all(rep)
        } else if adjacent_upper(s, i) {
            upper_all(rep)
        } else if rep.len() == 0 {
            rep
        } else {
            to_upper(rep[0]) + rep.drop_first()
        },
    }
}

/// The folds of the first `n` characters of `s`, concatenated.
pub open spec fn fold_upto(s: Seq<char>, n: int) -> Seq<char>
    decreases n,
{
    if n <= 0 {
        Seq::empty()
    } else {
        fold_upto(s, n - 1) + fold_piece(s, n - 1)
    }
}

/// Special folds and transliteration over a whole string.
pub open spec fn fold_spec(s: Seq<char>) -> Seq<char> {
    fold_upto(s, s.len() as int)
}

pub fn fold_piece_at(s: &Vec<char>, i: usize) -> (r: Vec<char>)
    requires
        i < s.len(),
    ensures
        r@ == fold_piece(s@, i as int),
{
    let c = s[i];
    let rep = match lookup(c) {
        None => return vec![c],
        Some(rep) => rep,
    };
    if !is_uppercase(c) {
        rep
    } else if rep.len() == 1 {
        uppercase_all(&rep)
    } else if adjacent_uppercase(s, i) {
        uppercase_all(&rep)
    } else if rep.len() == 0 {
        rep
    } else {
        let mut out = uppercase_of(rep[0]);
        let mut j: usize = 1;
        while j < rep.len()
            invariant
                1 <= j <= rep.len(),
                out@ == to_upper(rep@[0]) + rep@.subrange(1, j as int),
            decreases rep.len() - j,
        {
            out.push(rep[j]);
            j += 1;
            assert(out@ =~= to_upper(rep@[0]) + rep@.subrange(1, j as int));
        }
        assert(rep@.subrange(1, rep.len() as int) =~= rep@.drop_first());
        out
    }
}

pub fn fold(s: &Vec<char>) -> (r: Vec<char>)
    ensures
        r@ == fold_spec(s@),
{
    let mut out: Vec<char> = Vec::new();
    let mut i: usize = 0;
    while i < s.len()
        invariant
            i <= s.len(),
            out@ == fold_upto(s@, i as int),
        decreases s.len() - i,
    {
        let mut piece = fold_piece_at(s, i);
        out.append(&mut piece);
        i += 1;
    }
    out
}

// ── Digits from every script ────────────────────────────────────────────────────

/// The codepoint of the zero of the decimal digit block that holds `u`, if any.
/// NFKC already covered fullwidth digits; Arabic-Indic and Devanagari (and the
/// other scripts here) it leaves alone.
pub open spec fn digit_zero(u: u32) -> Option<u32> {
    if 0x0660 <= u && u <= 0x0669 {
        Some(0x0660)
    } else if 0x06F0 <= u && u <= 0x06F9 {
        Some(0x06F0)
    } else if 0x07C0 <= u && u <= 0x07C9 {
        Some(0x07C0)
    } else if 0x0966 <= u && u <= 0x096F {
        Some(0x0966)
    } else if 0x09E6 <= u && u <= 0x09EF {
        Some(0x09E6)
    } else if 0x0A66 <= u && u <= 0x0A6F {
        Some(0x0A66)
    } else if 0x0AE6 <= u && u <= 0x0AEF {
        Some(0x0AE6)
    } else if 0x0B66 <= u && u <= 0x0B6F {
        Some(0x0B66)
    } else if 0x0BE6 <= u && u <= 0x0BEF {
        Some(0x0BE6)
    } else if 0x0C66 <= u && u <= 0x0C6F {
        Some(0x0C66)
    } else if 0x0CE6 <= u && u <= 0x0CEF {
        Some(0x0CE6)
    } else if 0x0D66 <= u && u <= 0x0D6F {
        Some(0x0D66)
    } else if 0x0DE6 <= u && u <= 0x0DEF {
        Some(0x0DE6)
    } else if 0x0E50 <= u && u <= 0x0E59 {
        Some(0x0E50)
    } else if 0x0ED0 <= u && u <= 0x0ED9 {
        Some(0x0ED0)
    } else if 0x0F20 <= u && u <= 0x0F29 {
        Some(0x0F20)
    } else if 0x1040 <= u && u <= 0x1049 {
        Some(0x1040)
    } else if 0x1090 <= u && u <= 0x1099 {
        Some(0x1090)
    } else if 0x17E0 <= u && u <= 0x17E9 {
        Some(0x17E0)
    } else if 0x1810 <= u && u <= 0x1819 {
        Some(0x1810)
    } else if 0x1946 <= u && u <= 0x194F {
        Some(0x1946)
    } else if 0x19D0 <= u && u <= 0x19D9 {
        Some(0x19D0)
    } else if 0x1A80 <= u && u <= 0x1A89 {
        Some(0x1A80)
    } else if 0x1A90 <= u && u <= 0x1A99 {
        Some(0x1A90)
    } else if 0x1B50 <= u && u <= 0x1B59 {
        Some(0x1B50)
    } else if 0x1BB0 <= u && u <= 0x1BB9 {
        Some(0x1BB0)
    } else if 0x1C40 <= u && u <= 0x1C49 {
        Some(0x1C40)
    } else if 0x1C50 <= u && u <= 0x1C59 {
        Some(0x1C50)
    } else if 0xA620 <= u && u <= 0xA629 {
        Some(0xA620)
    } else if 0xA8D0 <= u && u <= 0xA8D9 {
        Some(0xA8D0)
    } else if 0xA900 <= u && u <= 0xA909 {
        Some(0xA900)
    } else if 0xA9D0 <= u && u <= 0xA9D9 {
        Some(0xA9D0)
    } else if 0xA9F0 <= u && u <= 0xA9F9 {
        Some(0xA9F0)
    } else if 0xAA50 <= u && u <= 0xAA59 {
        Some(0xAA50)
    } else if 0xABF0 <= u && u <= 0xABF9 {
        Some(0xABF0)
    } else if 0xFF10 <= u && u <= 0xFF19 {
        Some(0xFF10)
    } else {
        None
    }
}

pub fn find_digit_zero(u: u32) -> (r: Option<u32>)
    ensures
        r == digit_zero(u),
{
    if 0x0660 <= u && u <= 0x0669 {
        Some(0x0660)
    } else if 0x06F0 <= u && u <= 0x06F9 {
        Some(0x06F0)
    } else if 0x07C0 <= u && u <= 0x07C9 {
        Some(0x07C0)
    } else if 0x0966 <= u && u <= 0x096F {
        Some(0x0966)
    } else if 0x09E6 <= u && u <= 0x09EF {
        Some(0x09E6)
    } else if 0x0A66 <= u && u <= 0x0A6F {
        Some(0x0A66)
    } else if 0x0AE6 <= u && u <= 0x0AEF {
        Some(0x0AE6)
    } else if 0x0B66 <= u && u <= 0x0B6F {
        Some(0x0B66)
    } else if 0x0BE6 <= u && u <= 0x0BEF {
        Some(0x0BE6)
    } else if 0x0C66 <= u && u <= 0x0C6F {
        Some(0x0C66)
    } else if 0x0CE6 <= u && u <= 0x0CEF {
        Some(0x0CE6)
    } else if 0x0D66 <= u && u <= 0x0D6F {
        Some(0x0D66)
    } else if 0x0DE6 <= u && u <= 0x0DEF {
        Some(0x0DE6)
    } else if 0x0E50 <= u && u <= 0x0E59 {
        Some(0x0E50)
    } else if 0x0ED0 <= u && u <= 0x0ED9 {
        Some(0x0ED0)
    } else if 0x0F20 <= u && u <= 0x0F29 {
        Some(0x0F20)
    } else if 0x1040 <= u && u <= 0x1049 {
        Some(0x1040)
    } else if 0x1090 <= u && u <= 0x1099 {
        Some(0x1090)
    } else if 0x17E0 <= u && u <= 0x17E9 {
        Some(0x17E0)
    } else if 0x1810 <= u && u <= 0x1819 {
        Some(0x1810)
    } else if 0x1946 <= u && u <= 0x194F {
        Some(0x1946)
    } else if 0x19D0 <= u && u <= 0x19D9 {
        Some(0x19D0)
    } else if 0x1A80 <= u && u <= 0x1A89 {
        Some(0x1A80)
    } else if 0x1A90 <= u && u <= 0x1A99 {
        Some(0x1A90)
    } else if 0x1B50 <= u && u <= 0x1B59 {
        Some(0x1B50)
    } else if 0x1BB0 <= u && u <= 0x1BB9 {
        Some(0x1BB0)
    } else if 0x1C40 <= u && u <= 0x1C49 {
        Some(0x1C40)
    } else if 0x1C50 <= u && u <= 0x1C59 {
        Some(0x1C50)
    } else if 0xA620 <= u && u <= 0xA629 {
        Some(0xA620)
    } else if 0xA8D0 <= u && u <= 0xA8D9 {
        Some(0xA8D0)
    } else if 0xA900 <= u && u <= 0xA909 {
        Some(0xA900)
    } else if 0xA9D0 <= u && u <= 0xA9D9 {
        Some(0xA9D0)
    } else if 0xA9F0 <= u && u <= 0xA9F9 {
        Some(0xA9F0)
    } else if 0xAA50 <= u && u <= 0xAA59 {
        Some(0xAA50)
    } else if 0xABF0 <= u && u <= 0xABF9 {
        Some(0xABF0)
    } else if 0xFF10 <= u && u <= 0xFF19 {
        Some(0xFF10)
    } else {
        None
    }
}

/// `c` as an ASCII digit, if it is a decimal digit of another script.
pub open spec fn ascii_digit_of(c: char) -> char {
    match digit_zero(c as u32) {
        Some(z) => (48 + ((c as u32) - z)) as char,
        None => c,
    }
}

pub open spec fn ascii_digits_spec(s: Seq<char>) -> Seq<char> {
    s.map_values(|c: char| ascii_digit_of(c))
}

pub fn ascii_digits(s: &Vec<char>) -> (r: Vec<char>)
    ensures
        r@ == ascii_digits_spec(s@),
{
    let mut out: Vec<char> = Vec::new();
    let mut i: usize = 0;
    while i < s.len()
        invariant
            i <= s.len(),
            out@ == ascii_digits_spec(s@.take(i as int)),
        decreases s.len() - i,
    {
        let c = s[i];
        let d = match find_digit_zero(c as u32) {
            Some(z) => ((48 + (c as u32 - z)) as u8) as char,
            None => c,
        };
        out.push(d);
        i += 1;
        assert(out@ =~= ascii_digits_spec(s@.take(i as int)));
    }
    assert(s@.take(s.len() as int) =~= s@);
    out
}


// ── Tokens whose punctuation is the name ────────────────────────────────────────

/// The tokens whose punctuation is the name, longest first so that `c++` is not shadowed.
pub open spec fn token_pat(k: int) -> Seq<char> {
    if k == 0 {
        seq!['c', '+', '+']
    } else if k == 1 {
        seq!['c', '#']
    } else if k == 2 {
        seq!['f', '#']
    } else {
        seq!['.', 'n', 'e', 't']
    }
}

pub open spec fn token_rep(k: int) -> Seq<char> {
    if k == 0 {
        seq!['c', 'p', 'p']
    } else if k == 1 {
        seq!['c', 's', 'h', 'a', 'r', 'p']
    } else if k == 2 {
        seq!['f', 's', 'h', 'a', 'r', 'p']
    } else {
        seq!['d', 'o', 't', 'n', 'e', 't']
    }
}

pub proof fn lemma_token_pat_len(k: int)
    ensures
        token_pat(k).len() >= 2,
{
}

/// How many tokens there are.
pub open spec fn token_count() -> int {
    4
}

pub fn token_pattern(k: usize) -> (r: Vec<char>)
    ensures
        r@ == token_pat(k as int),
{
    if k == 0 {
        vec!['c', '+', '+']
    } else if k == 1 {
        vec!['c', '#']
    } else if k == 2 {
        vec!['f', '#']
    } else {
        vec!['.', 'n', 'e', 't']
    }
}

pub fn token_replacement(k: usize) -> (r: Vec<char>)
    ensures
        r@ == token_rep(k as int),
{
    if k == 0 {
        vec!['c', 'p', 'p']
    } else if k == 1 {
        vec!['c', 's', 'h', 'a', 'r', 'p']
    } else if k == 2 {
        vec!['f', 's', 'h', 'a', 'r', 'p']
    } else {
        vec!['d', 'o', 't', 'n', 'e', 't']
    }
}

/// Case-insensitive match of an all-ASCII pattern at position `i`.
pub open spec fn matches_at_spec(s: Seq<char>, i: int, pat: Seq<char>) -> bool {
    &&& i + pat.len() <= s.len()
    &&& forall|n: int|
        0 <= n < pat.len() ==> is_ascii_char(#[trigger] s[i + n]) && ascii_lower(s[i + n])
            == pat[n]
}

pub fn matches_at(s: &Vec<char>, i: usize, pat: &Vec<char>) -> (r: bool)
    requires
        i <= s.len(),
    ensures
        r == matches_at_spec(s@, i as int, pat@),
{
    if pat.len() > s.len() - i {
        return false;
    }
    let mut n: usize = 0;
    while n < pat.len()
        invariant
            i + pat.len() <= s.len(),
            n <= pat.len(),
            forall|m: int|
                0 <= m < n ==> is_ascii_char(#[trigger] s@[i + m]) && ascii_lower(s@[i + m])
                    == pat@[m],
        decreases pat.len() - n,
    {
        let c = s[i + n];
        if !char_is_ascii(c) || char_ascii_lower(c) != pat[n] {
            assert(!(is_ascii_char(s@[i + n]) && ascii_lower(s@[i + n]) == pat@[n as int]));
            return false;
        }
        n += 1;
    }
    true
}

/// Is the match at `i` a whole token rather than a fragment of a longer word? The
/// right edge rejects a following letter (a digit is fine: `.net5`, `C++11`); the
/// left edge applies only when the token starts with a letter.
pub open spec fn is_token_spec(s: Seq<char>, i: int, pat: Seq<char>) -> bool {
    let left = !is_ascii_alnum(pat[0]) || i == 0 || !is_ascii_alnum(s[i - 1]);
    let right = !(i + pat.len() < s.len() && is_ascii_alpha(s[i + pat.len()]));
    left && right
}

pub fn is_token(s: &Vec<char>, i: usize, pat: &Vec<char>) -> (r: bool)
    requires
        i <= s.len(),
        pat.len() > 0,
        i + pat.len() <= s.len(),
    ensures
        r == is_token_spec(s@, i as int, pat@),
{
    let left = !char_is_ascii_alnum(pat[0]) || i == 0 || !char_is_ascii_alnum(s[i - 1]);
    let right = !(i + pat.len() < s.len() && char_is_ascii_alpha(s[i + pat.len()]));
    left && right
}

/// Whether token `k` is read at all. `.net` is not when `net` is off: with `.` as the
/// separator, `x.net` is two words joined by the separator, and reading it as a token
/// would spell out on the second pass what the first pass joined.
pub open spec fn token_read(k: int, net: bool) -> bool {
    net || k != 3
}

/// The first token, counting from `k`, that stands at position `i`.
pub open spec fn token_from(s: Seq<char>, i: int, k: int, net: bool) -> Option<int>
    decreases token_count() - k,
{
    if k >= token_count() || k < 0 {
        None
    } else if token_read(k, net) && matches_at_spec(s, i, token_pat(k)) && is_token_spec(
        s,
        i,
        token_pat(k),
    ) {
        Some(k)
    } else {
        token_from(s, i, k + 1, net)
    }
}

/// What a character that starts no token becomes: `&` a word, an apostrophe nothing.
pub open spec fn symbol(c: char) -> Seq<char> {
    if c == '&' {
        seq!['-', 'a', 'n', 'd', '-']
    } else if c == '\'' || c == '\u{2019}' || c == '\u{2018}' || c == '\u{02BC}' || c == '`' {
        Seq::empty()
    } else {
        seq![c]
    }
}

/// Token expansion from position `i` on, reading `.net` only if `net`. Expansions are
/// wrapped in `-`, which the whitelist turns into the separator: `A&B` becomes
/// `a-and-b`, not `aand-b`.
pub open spec fn expand_from(s: Seq<char>, i: int, net: bool) -> Seq<char>
    decreases s.len() - i,
{
    if i >= s.len() || i < 0 {
        Seq::empty()
    } else {
        match token_from(s, i, 0, net) {
            Some(k) => {
                proof {
                    lemma_token_pat_len(k);
                    lemma_token_from_fits(s, i, 0, net);
                }
                seq!['-'] + token_rep(k) + seq!['-'] + expand_from(
                s,
                i + token_pat(k).len(),
                net,
            )
            },
            None => symbol(s[i]) + expand_from(s, i + 1, net),
        }
    }
}

pub open spec fn expand_tokens_spec(s: Seq<char>, net: bool) -> Seq<char> {
    expand_from(s, 0, net)
}

pub proof fn lemma_token_from_fits(s: Seq<char>, i: int, k: int, net: bool)
    requires
        0 <= i < s.len(),
    ensures
        token_from(s, i, k, net) matches Some(j) ==> 0 <= j < token_count() && i + token_pat(
            j,
        ).len() <= s.len() && matches_at_spec(s, i, token_pat(j)),
    decreases token_count() - k,
{
    if 0 <= k < token_count() && !(token_read(k, net) && matches_at_spec(s, i, token_pat(k))
        && is_token_spec(s, i, token_pat(k))) {
        lemma_token_from_fits(s, i, k + 1, net);
    }
}

/// The first token at `i`, if any, reading `.net` only if `net`.
pub fn token_at(s: &Vec<char>, i: usize, net: bool) -> (r: Option<usize>)
    requires
        i < s.len(),
    ensures
        r matches Some(k) ==> Some(k as int) == token_from(s@, i as int, 0, net),
        r is None ==> token_from(s@, i as int, 0, net) is None,
{
    let mut k: usize = 0;
    while k < 4
        invariant
            k <= 4,
            i < s.len(),
            token_from(s@, i as int, 0, net) == token_from(s@, i as int, k as int, net),
        decreases 4 - k,
    {
        let pat = token_pattern(k);
        if (net || k != 3) && matches_at(s, i, &pat) {
            if is_token(s, i, &pat) {
                return Some(k);
            }
        }
        k += 1;
    }
    None
}

pub fn expand_tokens(s: &Vec<char>, net: bool) -> (r: Vec<char>)
    ensures
        r@ == expand_tokens_spec(s@, net),
{
    let mut out: Vec<char> = Vec::new();
    let mut i: usize = 0;
    while i < s.len()
        invariant
            i <= s.len(),
            out@ + expand_from(s@, i as int, net) == expand_from(s@, 0, net),
        decreases s.len() - i,
    {
        proof {
            lemma_token_from_fits(s@, i as int, 0, net);
        }
        let ghost prev = out@;
        match token_at(s, i, net) {
            Some(k) => {
                let mut rep = token_replacement(k);
                let len = token_pattern(k).len();
                out.push('-');
                out.append(&mut rep);
                out.push('-');
                assert(out@ =~= prev + (seq!['-'] + token_rep(k as int) + seq!['-']));
                assert(expand_from(s@, i as int, net) == seq!['-'] + token_rep(k as int) + seq!['-']
                    + expand_from(s@, i + len, net));
                assert(prev + expand_from(s@, i as int, net) =~= out@ + expand_from(s@, i + len, net));
                i += len;
            },
            None => {
                let c = s[i];
                if c == '&' {
                    out.push('-');
                    out.push('a');
                    out.push('n');
                    out.push('d');
                    out.push('-');
                } else if c == '\'' || c == '\u{2019}' || c == '\u{2018}' || c == '\u{02BC}' || c
                    == '`' {
                } else {
                    out.push(c);
                }
                assert(out@ =~= prev + symbol(c));
                assert(expand_from(s@, i as int, net) == symbol(c) + expand_from(s@, i + 1, net));
                assert(prev + expand_from(s@, i as int, net) =~= out@ + expand_from(s@, i + 1, net));
                i += 1;
            },
        }
    }
    assert(expand_from(s@, i as int, net) =~= Seq::<char>::empty());
    assert(out@ =~= out@ + expand_from(s@, i as int, net));
    out
}


/// The Latin letter under the stroke of a letter that Unicode names "... WITH
/// STROKE" (Ø is O with stroke, Ł is L with stroke), the stroked o with an acute
/// besides.
pub open spec fn stroked_base(c: char) -> Option<char> {
    match c {
        'ø' | 'Ø' | 'ǿ' | 'Ǿ' => Some('o'),
        'ł' | 'Ł' => Some('l'),
        'đ' | 'Đ' => Some('d'),
        'ħ' | 'Ħ' => Some('h'),
        'ŧ' | 'Ŧ' => Some('t'),
        'ǥ' | 'Ǥ' => Some('g'),
        'ȼ' | 'Ȼ' => Some('c'),
        'ɇ' | 'Ɇ' => Some('e'),
        'ɍ' | 'Ɍ' => Some('r'),
        'ƶ' | 'Ƶ' => Some('z'),
        'ɏ' | 'Ɏ' => Some('y'),
        'ɨ' => Some('i'),
        _ => None,
    }
}

/// A letter with a stroke has no canonical decomposition, so no mark-stripping finds
/// the letter under it; the special fold does, and gives that letter, lowercase:
/// `Ø` and `ø` fold to `o`, `Ł` and `ł` to `l`.
pub proof fn a_stroked_letter_folds_to_its_base(c: char)
    ensures
        stroked_base(c) matches Some(b) ==> special_fold_table(c) == Some(seq![b]),
{
}


/// The letters a Latin ligature joins, by its Unicode name (LIGATURE AE, LIGATURE OE,
/// and SHARP S, the ligature of two s), the macron and acute forms of æ besides.
pub open spec fn ligature_letters(c: char) -> Option<(char, char)> {
    match c {
        'æ' | 'Æ' | 'ǣ' | 'Ǣ' | 'ǽ' | 'Ǽ' => Some(('a', 'e')),
        'œ' | 'Œ' => Some(('o', 'e')),
        'ß' | 'ẞ' => Some(('s', 's')),
        _ => None,
    }
}

/// A ligature folds to the two letters it joins, lowercase: `Æ` to `ae`, `ß` to
/// `ss`.
pub proof fn a_ligature_folds_to_its_letters(c: char)
    ensures
        ligature_letters(c) matches Some((a, b)) ==> special_fold_table(c) == Some(seq![a, b]),
{
}

} // verus!

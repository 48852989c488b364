//! Script transliteration: Cyrillic (BGN/PCGN, Russian table) and Greek, letter by
//! letter, to ASCII. Scripts that need a dictionary rather than a codepoint table (CJK,
//! Thai, Arabic, Hebrew, Indic) have no entry and are kept as they are.
//!
//! Lookups are keyed on the lowercase letter; the fold step restores the case.

use vstd::prelude::*;

use crate::unicode::opt_view;

verus! {

/// The romanization of one lowercase Cyrillic or Greek letter. The hard and soft signs
/// romanize to nothing; both final and medial sigma romanize to `s`.
pub open spec fn translit_table(c: char) -> Option<Seq<char>> {
    match c {
        'а' => Some(seq!['a']),
        'б' => Some(seq!['b']),
        'в' => Some(seq!['v']),
        'г' => Some(seq!['g']),
        'д' => Some(seq!['d']),
        'е' => Some(seq!['e']),
        'ё' => Some(seq!['e']),
        'ж' => Some(seq!['z', 'h']),
        'з' => Some(seq!['z']),
        'и' => Some(seq!['i']),
        'й' => Some(seq!['y']),
        'к' => Some(seq!['k']),
        'л' => Some(seq!['l']),
        'м' => Some(seq!['m']),
        'н' => Some(seq!['n']),
        'о' => Some(seq!['o']),
        'п' => Some(seq!['p']),
        'р' => Some(seq!['r']),
        'с' => Some(seq!['s']),
        'т' => Some(seq!['t']),
        'у' => Some(seq!['u']),
        'ф' => Some(seq!['f']),
        'х' => Some(seq!['k', 'h']),
        'ц' => Some(seq!['t', 's']),
        'ч' => Some(seq!['c', 'h']),
        'ш' => Some(seq!['s', 'h']),
        'щ' => Some(seq!['s', 'h', 'c', 'h']),
        'ы' => Some(seq!['y']),
        'э' => Some(seq!['e']),
        'ю' => Some(seq!['y', 'u']),
        'я' => Some(seq!['y', 'a']),
        'ъ' | 'ь' => Some(seq![]),
        'і' => Some(seq!['i']),
        'ї' => Some(seq!['y', 'i']),
        'є' => Some(seq!['y', 'e']),
        'ґ' => Some(seq!['g']),
        'ў' => Some(seq!['w']),
        'ј' => Some(seq!['j']),
        'љ' => Some(seq!['l', 'j']),
        'њ' => Some(seq!['n', 'j']),
        'ћ' => Some(seq!['c']),
        'ђ' => Some(seq!['d']),
        'џ' => Some(seq!['d', 'z']),
        'ѕ' => Some(seq!['d', 'z']),
        'ѓ' => Some(seq!['g']),
        'ќ' => Some(seq!['k']),
        'α' => Some(seq!['a']),
        'β' => Some(seq!['v']),
        'γ' => Some(seq!['g']),
        'δ' => Some(seq!['d']),
        'ε' => Some(seq!['e']),
        'ζ' => Some(seq!['z']),
        'η' => Some(seq!['i']),
        'θ' => Some(seq!['t', 'h']),
        'ι' => Some(seq!['i']),
        'κ' => Some(seq!['k']),
        'λ' => Some(seq!['l']),
        'μ' => Some(seq!['m']),
        'ν' => Some(seq!['n']),
        'ξ' => Some(seq!['x']),
        'ο' => Some(seq!['o']),
        'π' => Some(seq!['p']),
        'ρ' => Some(seq!['r']),
        'σ' | 'ς' => Some(seq!['s']),
        'τ' => Some(seq!['t']),
        'υ' => Some(seq!['y']),
        'φ' => Some(seq!['f']),
        'χ' => Some(seq!['c', 'h']),
        'ψ' => Some(seq!['p', 's']),
        'ω' => Some(seq!['o']),
        _ => None,
    }
}

/// Romanize one lowercase Cyrillic or Greek letter, or `None` to keep it as it is.
pub fn translit(c: char) -> (r: Option<Vec<char>>)
    ensures
        opt_view(r) == translit_table(c),
{
    match c {
        'а' => Some(vec!['a']),
        'б' => Some(vec!['b']),
        'в' => Some(vec!['v']),
        'г' => Some(vec!['g']),
        'д' => Some(vec!['d']),
        'е' => Some(vec!['e']),
        'ё' => Some(vec!['e']),
        'ж' => Some(vec!['z', 'h']),
        'з' => Some(vec!['z']),
        'и' => Some(vec!['i']),
        'й' => Some(vec!['y']),
        'к' => Some(vec!['k']),
        'л' => Some(vec!['l']),
        'м' => Some(vec!['m']),
        'н' => Some(vec!['n']),
        'о' => Some(vec!['o']),
        'п' => Some(vec!['p']),
        'р' => Some(vec!['r']),
        'с' => Some(vec!['s']),
        'т' => Some(vec!['t']),
        'у' => Some(vec!['u']),
        'ф' => Some(vec!['f']),
        'х' => Some(vec!['k', 'h']),
        'ц' => Some(vec!['t', 's']),
        'ч' => Some(vec!['c', 'h']),
        'ш' => Some(vec!['s', 'h']),
        'щ' => Some(vec!['s', 'h', 'c', 'h']),
        'ы' => Some(vec!['y']),
        'э' => Some(vec!['e']),
        'ю' => Some(vec!['y', 'u']),
        'я' => Some(vec!['y', 'a']),
        'ъ' | 'ь' => Some(vec![]),
        'і' => Some(vec!['i']),
        'ї' => Some(vec!['y', 'i']),
        'є' => Some(vec!['y', 'e']),
        'ґ' => Some(vec!['g']),
        'ў' => Some(vec!['w']),
        'ј' => Some(vec!['j']),
        'љ' => Some(vec!['l', 'j']),
        'њ' => Some(vec!['n', 'j']),
        'ћ' => Some(vec!['c']),
        'ђ' => Some(vec!['d']),
        'џ' => Some(vec!['d', 'z']),
        'ѕ' => Some(vec!['d', 'z']),
        'ѓ' => Some(vec!['g']),
        'ќ' => Some(vec!['k']),
        'α' => Some(vec!['a']),
        'β' => Some(vec!['v']),
        'γ' => Some(vec!['g']),
        'δ' => Some(vec!['d']),
        'ε' => Some(vec!['e']),
        'ζ' => Some(vec!['z']),
        'η' => Some(vec!['i']),
        'θ' => Some(vec!['t', 'h']),
        'ι' => Some(vec!['i']),
        'κ' => Some(vec!['k']),
        'λ' => Some(vec!['l']),
        'μ' => Some(vec!['m']),
        'ν' => Some(vec!['n']),
        'ξ' => Some(vec!['x']),
        'ο' => Some(vec!['o']),
        'π' => Some(vec!['p']),
        'ρ' => Some(vec!['r']),
        'σ' | 'ς' => Some(vec!['s']),
        'τ' => Some(vec!['t']),
        'υ' => Some(vec!['y']),
        'φ' => Some(vec!['f']),
        'χ' => Some(vec!['c', 'h']),
        'ψ' => Some(vec!['p', 's']),
        'ω' => Some(vec!['o']),
        _ => None,
    }
}


/// The Greek letter a Cyrillic letter was taken from, where the two kept its sound:
/// а α, г γ, д δ, е ε, з ζ, и ι, к κ, л λ, м μ, н ν, о ο, п π, р ρ, с σ, т τ, ф φ.
pub open spec fn greek_source(c: char) -> Option<char> {
    match c {
        'а' => Some('α'),
        'г' => Some('γ'),
        'д' => Some('δ'),
        'е' => Some('ε'),
        'з' => Some('ζ'),
        'и' => Some('ι'),
        'к' => Some('κ'),
        'л' => Some('λ'),
        'м' => Some('μ'),
        'н' => Some('ν'),
        'о' => Some('ο'),
        'п' => Some('π'),
        'р' => Some('ρ'),
        'с' => Some('σ'),
        'т' => Some('τ'),
        'ф' => Some('φ'),
        _ => None,
    }
}

/// The plain Cyrillic letter a letter is written as with a mark added: ѓ and ґ are г,
/// ќ is к, ё is е.
pub open spec fn marked_cyrillic_base(c: char) -> Option<char> {
    match c {
        'ѓ' => Some('г'),
        'ґ' => Some('г'),
        'ќ' => Some('к'),
        'ё' => Some('е'),
        _ => None,
    }
}

/// A Cyrillic letter taken from Greek with its sound romanizes exactly as its Greek
/// source does, to one ASCII lowercase letter; and a Cyrillic letter with a mark
/// added romanizes as the plain letter under it. (So `м` and `μ` both give `m`.)
pub proof fn cyrillic_romanizes_like_its_greek_source(c: char)
    ensures
        greek_source(c) matches Some(g) ==> (translit_table(c) == translit_table(g) && (
        translit_table(c) matches Some(r) && r.len() == 1 && 'a' <= r[0] && r[0] <= 'z')),
        marked_cyrillic_base(c) matches Some(b) ==> translit_table(c) == translit_table(b)
            && translit_table(c) is Some,
{
}


/// The two letters whose sounds a Cyrillic or Greek letter joins: щ is ш and ч, ц is т
/// and с, ψ is π and σ, џ and ѕ are д and з, љ is л and ј, њ is н and ј; the iotated
/// vowels я, ю, є, ї are й before а, у, е, і.
pub open spec fn letter_pair(c: char) -> Option<(char, char)> {
    match c {
        'щ' => Some(('ш', 'ч')),
        'ц' => Some(('т', 'с')),
        'ψ' => Some(('π', 'σ')),
        'џ' => Some(('д', 'з')),
        'ѕ' => Some(('д', 'з')),
        'љ' => Some(('л', 'ј')),
        'њ' => Some(('н', 'ј')),
        'я' => Some(('й', 'а')),
        'ю' => Some(('й', 'у')),
        'є' => Some(('й', 'е')),
        'ї' => Some(('й', 'і')),
        _ => None,
    }
}

/// The letter whose sound a letter spells with an added `h`: ж is з, х is к, ш is с,
/// θ is τ.
pub open spec fn h_digraph_base(c: char) -> Option<char> {
    match c {
        'ж' => Some('з'),
        'х' => Some('к'),
        'ш' => Some('с'),
        'θ' => Some('τ'),
        _ => None,
    }
}

/// A letter that joins two sounds romanizes as the two letters do one after the
/// other, and a letter spelt with an `h` digraph as its base letter followed by `h`:
/// `щ` gives `sh` + `ch`, `я` gives `y` + `a`, `ж` gives `z` + `h`.
pub proof fn a_joined_letter_romanizes_as_its_parts(c: char)
    ensures
        letter_pair(c) matches Some((a, b)) ==> (translit_table(a) matches Some(ra) && (
        translit_table(b) matches Some(rb) && translit_table(c) == Some(ra + rb))),
        h_digraph_base(c) matches Some(a) ==> (translit_table(a) matches Some(ra)
            && translit_table(c) == Some(ra + seq!['h'])),
{
    match c {
        'щ' => {
            assert(seq!['s', 'h'] + seq!['c', 'h'] =~= seq!['s', 'h', 'c', 'h']);
        },
        'ц' => {
            assert(seq!['t'] + seq!['s'] =~= seq!['t', 's']);
        },
        'ψ' => {
            assert(seq!['p'] + seq!['s'] =~= seq!['p', 's']);
        },
        'џ' | 'ѕ' => {
            assert(seq!['d'] + seq!['z'] =~= seq!['d', 'z']);
        },
        'љ' => {
            assert(seq!['l'] + seq!['j'] =~= seq!['l', 'j']);
        },
        'њ' => {
            assert(seq!['n'] + seq!['j'] =~= seq!['n', 'j']);
        },
        'я' => {
            assert(seq!['y'] + seq!['a'] =~= seq!['y', 'a']);
        },
        'ю' => {
            assert(seq!['y'] + seq!['u'] =~= seq!['y', 'u']);
        },
        'є' => {
            assert(seq!['y'] + seq!['e'] =~= seq!['y', 'e']);
        },
        'ї' => {
            assert(seq!['y'] + seq!['i'] =~= seq!['y', 'i']);
        },
        'ж' => {
            assert(seq!['z'] + seq!['h'] =~= seq!['z', 'h']);
        },
        'х' => {
            assert(seq!['k'] + seq!['h'] =~= seq!['k', 'h']);
        },
        'ш' => {
            assert(seq!['s'] + seq!['h'] =~= seq!['s', 'h']);
        },
        'θ' => {
            assert(seq!['t'] + seq!['h'] =~= seq!['t', 'h']);
        },
        _ => {},
    }
}


/// Letters that the romanization writes alike because they are read alike: ω as ο, η
/// as ι, final ς as σ, э as е, і as и, ы as й.
pub open spec fn read_alike(c: char) -> Option<char> {
    match c {
        'ω' => Some('ο'),
        'η' => Some('ι'),
        'ς' => Some('σ'),
        'э' => Some('е'),
        'і' => Some('и'),
        'ы' => Some('й'),
        _ => None,
    }
}

/// Letters read alike romanize alike.
pub proof fn letters_read_alike_romanize_alike(c: char)
    ensures
        read_alike(c) matches Some(d) ==> (translit_table(c) == translit_table(d)
            && translit_table(c) is Some),
{
}

} // verus!

//! Character sequences: lengths in the units filesystems count in, trimming,
//! slicing and searching.

use vstd::prelude::*;
use vstd::utf8::encode_utf8;

verus! {

/// Bytes `c` takes in UTF-8.
pub open spec fn char_utf8_len(c: char) -> nat {
    let u = c as u32;
    if u < 0x80 {
        1
    } else if u < 0x800 {
        2
    } else if u < 0x10000 {
        3
    } else {
        4
    }
}

/// UTF-16 code units `c` takes.
pub open spec fn char_utf16_len(c: char) -> nat {
    if (c as u32) < 0x10000 {
        1
    } else {
        2
    }
}

/// Length of `s` in UTF-8 bytes — the unit ext4 counts a name in.
pub open spec fn utf8_len(s: Seq<char>) -> nat
    decreases s.len(),
{
    if s.len() == 0 {
        0
    } else {
        utf8_len(s.drop_last()) + char_utf8_len(s.last())
    }
}

/// Length of `s` in UTF-16 code units — the unit APFS and NTFS count a name in.
pub open spec fn utf16_len(s: Seq<char>) -> nat
    decreases s.len(),
{
    if s.len() == 0 {
        0
    } else {
        utf16_len(s.drop_last()) + char_utf16_len(s.last())
    }
}

pub proof fn lemma_utf8_len_concat(a: Seq<char>, b: Seq<char>)
    ensures
        utf8_len(a + b) == utf8_len(a) + utf8_len(b),
    decreases b.len(),
{
    if b.len() == 0 {
        assert(a + b =~= a);
    } else {
        lemma_utf8_len_concat(a, b.drop_last());
        assert((a + b).drop_last() =~= a + b.drop_last());
    }
}

pub proof fn lemma_utf16_len_concat(a: Seq<char>, b: Seq<char>)
    ensures
        utf16_len(a + b) == utf16_len(a) + utf16_len(b),
    decreases b.len(),
{
    if b.len() == 0 {
        assert(a + b =~= a);
    } else {
        lemma_utf16_len_concat(a, b.drop_last());
        assert((a + b).drop_last() =~= a + b.drop_last());
    }
}

pub proof fn lemma_len_bounds(s: Seq<char>)
    ensures
        s.len() <= utf8_len(s) <= 4 * s.len(),
        s.len() <= utf16_len(s) <= 2 * s.len(),
    decreases s.len(),
{
    if s.len() > 0 {
        lemma_len_bounds(s.drop_last());
    }
}

/// A prefix is never longer than the whole.
pub proof fn lemma_len_take(s: Seq<char>, n: int)
    requires
        0 <= n <= s.len(),
    ensures
        utf8_len(s.take(n)) <= utf8_len(s),
        utf16_len(s.take(n)) <= utf16_len(s),
{
    lemma_utf8_len_concat(s.take(n), s.skip(n));
    lemma_utf16_len_concat(s.take(n), s.skip(n));
    assert(s.take(n) + s.skip(n) =~= s);
}

/// `utf8_len` is the length of the UTF-8 encoding.
pub proof fn lemma_utf8_len_is_encoding_len(s: Seq<char>)
    ensures
        utf8_len(s) == encode_utf8(s).len(),
    decreases s.len(),
{
    if s.len() > 0 {
        lemma_utf8_len_is_encoding_len(s.drop_first());
        lemma_utf8_len_concat(seq![s[0]], s.drop_first());
        assert(seq![s[0]] + s.drop_first() =~= s);
        assert(seq![s[0]].drop_last() =~= Seq::<char>::empty());
        vstd::utf8::char_is_scalar(s[0]);
        let one = seq![s[0]];
        assert(one.drop_last() =~= Seq::<char>::empty());
        assert(one.last() == s[0]);
        assert(utf8_len(one) == utf8_len(one.drop_last()) + char_utf8_len(one.last()));
        assert(utf8_len(one) == char_utf8_len(s[0]));
        assert(encode_utf8(s) == vstd::utf8::encode_scalar(s[0] as u32) + encode_utf8(
            s.drop_first(),
        ));
        assert(vstd::utf8::encode_scalar(s[0] as u32).len() == char_utf8_len(s[0]));
    }
}

pub fn char_len_utf8(c: char) -> (r: u128)
    ensures
        r == char_utf8_len(c),
{
    let u = c as u32;
    if u < 0x80 {
        1
    } else if u < 0x800 {
        2
    } else if u < 0x10000 {
        3
    } else {
        4
    }
}

pub fn char_len_utf16(c: char) -> (r: u128)
    ensures
        r == char_utf16_len(c),
{
    if (c as u32) < 0x10000 {
        1
    } else {
        2
    }
}

/// UTF-8 length, computed wide enough that it cannot overflow.
pub fn len_utf8(s: &Vec<char>) -> (r: u128)
    ensures
        r == utf8_len(s@),
{
    let mut n: u128 = 0;
    let mut i: usize = 0;
    while i < s.len()
        invariant
            i <= s.len(),
            n == utf8_len(s@.take(i as int)),
            n <= 4 * i,
        decreases s.len() - i,
    {
        assert(s@.take(i + 1).drop_last() =~= s@.take(i as int));
        n = n + char_len_utf8(s[i]);
        i += 1;
    }
    assert(s@.take(s.len() as int) =~= s@);
    n
}

/// UTF-16 length, computed wide enough that it cannot overflow.
pub fn len_utf16(s: &Vec<char>) -> (r: u128)
    ensures
        r == utf16_len(s@),
{
    let mut n: u128 = 0;
    let mut i: usize = 0;
    while i < s.len()
        invariant
            i <= s.len(),
            n == utf16_len(s@.take(i as int)),
            n <= 2 * i,
        decreases s.len() - i,
    {
        assert(s@.take(i + 1).drop_last() =~= s@.take(i as int));
        n = n + char_len_utf16(s[i]);
        i += 1;
    }
    assert(s@.take(s.len() as int) =~= s@);
    n
}

/// `s` without its leading `x`s.
pub open spec fn trim_start(s: Seq<char>, x: char) -> Seq<char>
    decreases s.len(),
{
    if s.len() > 0 && s[0] == x {
        trim_start(s.drop_first(), x)
    } else {
        s
    }
}

/// `s` without its trailing `x`s and `y`s.
pub open spec fn trim_end2(s: Seq<char>, x: char, y: char) -> Seq<char>
    decreases s.len(),
{
    if s.len() > 0 && (s.last() == x || s.last() == y) {
        trim_end2(s.drop_last(), x, y)
    } else {
        s
    }
}

pub proof fn lemma_trim_end2_prefix(s: Seq<char>, x: char, y: char)
    ensures
        trim_end2(s, x, y).len() <= s.len(),
        trim_end2(s, x, y) == s.take(trim_end2(s, x, y).len() as int),
    decreases s.len(),
{
    if s.len() > 0 && (s.last() == x || s.last() == y) {
        lemma_trim_end2_prefix(s.drop_last(), x, y);
        let t = trim_end2(s.drop_last(), x, y);
        assert(s.drop_last().take(t.len() as int) =~= s.take(t.len() as int));
    } else {
        assert(s.take(s.len() as int) =~= s);
    }
}

/// `s` without its leading and trailing `x`s.
pub open spec fn trim(s: Seq<char>, x: char) -> Seq<char> {
    trim_end2(trim_start(s, x), x, x)
}

/// The characters of `s` from `from` up to `to`.
pub fn slice(s: &Vec<char>, from: usize, to: usize) -> (r: Vec<char>)
    requires
        from <= to <= s.len(),
    ensures
        r@ == s@.subrange(from as int, to as int),
{
    let mut out: Vec<char> = Vec::new();
    let mut i = from;
    while i < to
        invariant
            from <= i <= to <= s.len(),
            out@ == s@.subrange(from as int, i as int),
        decreases to - i,
    {
        out.push(s[i]);
        i += 1;
        assert(out@ =~= s@.subrange(from as int, i as int));
    }
    out
}

/// `s` without its leading and trailing `x`s.
pub fn trim_matches(s: &Vec<char>, x: char) -> (r: Vec<char>)
    ensures
        r@ == trim(s@, x),
{
    let mut a: usize = 0;
    assert(s@.subrange(0, s.len() as int) =~= s@);
    while a < s.len() && s[a] == x
        invariant
            a <= s.len(),
            trim_start(s@, x) == trim_start(s@.subrange(a as int, s.len() as int), x),
        decreases s.len() - a,
    {
        assert(s@.subrange(a as int, s.len() as int).drop_first() =~= s@.subrange(
            a + 1,
            s.len() as int,
        ));
        a += 1;
    }
    let head = slice(s, a, s.len());
    assert(trim_start(s@, x) == head@);
    trim_end_matches2(&head, x, x)
}

/// `s` without its trailing `x`s and `y`s.
pub fn trim_end_matches2(s: &Vec<char>, x: char, y: char) -> (r: Vec<char>)
    ensures
        r@ == trim_end2(s@, x, y),
{
    let mut b: usize = s.len();
    assert(s@.take(s.len() as int) =~= s@);
    while b > 0 && (s[b - 1] == x || s[b - 1] == y)
        invariant
            b <= s.len(),
            trim_end2(s@, x, y) == trim_end2(s@.take(b as int), x, y),
        decreases b,
    {
        assert(s@.take(b as int).drop_last() =~= s@.take(b - 1));
        b -= 1;
    }
    slice(s, 0, b)
}

/// Index of the last `x` in `s` before position `end`, or -1.
pub open spec fn last_index_before(s: Seq<char>, x: char, end: int) -> int
    decreases end,
{
    if end <= 0 {
        -1
    } else if s[end - 1] == x {
        end - 1
    } else {
        last_index_before(s, x, end - 1)
    }
}

pub proof fn lemma_last_index_range(s: Seq<char>, x: char, end: int)
    requires
        0 <= end <= s.len(),
    ensures
        -1 <= last_index_before(s, x, end) < end,
        last_index_before(s, x, end) >= 0 ==> s[last_index_before(s, x, end)] == x,
    decreases end,
{
    if end > 0 && s[end - 1] != x {
        lemma_last_index_range(s, x, end - 1);
    }
}

/// The index of the last `x` before `end`, if there is one.
pub fn rfind_before(s: &Vec<char>, x: char, end: usize) -> (r: Option<usize>)
    requires
        end <= s.len(),
    ensures
        match r {
            Some(i) => i as int == last_index_before(s@, x, end as int),
            None => last_index_before(s@, x, end as int) == -1,
        },
{
    let mut e = end;
    while e > 0
        invariant
            e <= end <= s.len(),
            last_index_before(s@, x, end as int) == last_index_before(s@, x, e as int),
        decreases e,
    {
        if s[e - 1] == x {
            return Some(e - 1);
        }
        e -= 1;
    }
    None
}

/// Every character of `s` is an ASCII digit.
pub open spec fn all_ascii_digits(s: Seq<char>) -> bool {
    forall|i: int| 0 <= i < s.len() ==> '0' <= #[trigger] s[i] && s[i] <= '9'
}

pub fn is_all_ascii_digits(s: &Vec<char>, from: usize, to: usize) -> (r: bool)
    requires
        from <= to <= s.len(),
    ensures
        r == all_ascii_digits(s@.subrange(from as int, to as int)),
{
    let mut i = from;
    while i < to
        invariant
            from <= i <= to <= s.len(),
            all_ascii_digits(s@.subrange(from as int, i as int)),
        decreases to - i,
    {
        if !('0' <= s[i] && s[i] <= '9') {
            assert(s@.subrange(from as int, to as int)[i - from] == s@[i as int]);
            return false;
        }
        i += 1;
        assert(forall|j: int|
            0 <= j < i - from ==> s@.subrange(from as int, i as int)[j] == s@[from + j]);
    }
    true
}

} // verus!

//! The decisions of a run: what to do with one path, how a list of paths becomes the
//! work list, which options are acceptable, and how an undo proceeds. The caller reads
//! the disk and the environment and performs the renames; everything it decides with
//! what it read is here.

use vstd::prelude::*;

use crate::journal::{bytes_equal, chars_equal, Entry};
use crate::name::{kebab_spec, kebab_with};
use crate::protect::{landmine, landmine_spec, Landmine};
use crate::unicode::{chars_of, control, is_control, string_of};
use crate::Options;

verus! {

// ── One path ────────────────────────────────────────────────────────────────────

/// `.` or `..`: a path component, not a name.
pub open spec fn is_dot_component(name: Seq<char>) -> bool {
    name == seq!['.'] || name == seq!['.', '.']
}

/// What to do with one basename.
pub enum Decision {
    /// `.` or `..`: refused, it is a path component.
    PathComponent,
    /// Nothing survives the transform: refused rather than invented.
    NoKebabForm,
    /// Already kebab case: nothing to do, silently, but the name stays spoken for.
    AlreadyKebab,
    /// A protected name that a sweep found: left alone, and spoken for.
    SkipProtected(Landmine),
    /// Rename to `to`; `warning` is set for a protected name renamed because the user
    /// named it.
    Rename { to: String, warning: Option<Landmine> },
}

/// The protection that applies: none under `force`.
pub open spec fn guard_spec(name: Seq<char>, force: bool) -> Option<Landmine> {
    if force {
        None
    } else {
        landmine_spec(name)
    }
}

/// Whether `r` is the decision for `name`. A file named on the command line was
/// chosen, so a protected one is renamed with a warning; a file a sweep found was
/// not, so it is skipped.
pub open spec fn decision_holds(
    r: Decision,
    name: Seq<char>,
    explicit: bool,
    force: bool,
    opts: Options,
) -> bool {
    let new = kebab_spec(name, opts);
    let guard = guard_spec(name, force);
    match r {
        Decision::PathComponent => is_dot_component(name),
        Decision::NoKebabForm => !is_dot_component(name) && new.len() == 0,
        Decision::AlreadyKebab => !is_dot_component(name) && new.len() > 0 && new == name,
        Decision::SkipProtected(k) => !is_dot_component(name) && new.len() > 0 && new != name
            && guard == Some(k) && !explicit,
        Decision::Rename { to, warning } => !is_dot_component(name) && new.len() > 0 && new
            != name && to@ == new && warning == guard && (guard is None || explicit),
    }
}

/// Decide what to do with the basename `name`.
pub fn decide(name: &str, explicit: bool, force: bool, opts: &Options) -> (r: Decision)
    ensures
        decision_holds(r, name@, explicit, force, *opts),
{
    let chars = chars_of(name);
    let one_dot = chars.len() == 1 && chars[0] == '.';
    let two_dots = chars.len() == 2 && chars[0] == '.' && chars[1] == '.';
    proof {
        if one_dot {
            assert(chars@ =~= seq!['.']);
        }
        if two_dots {
            assert(chars@ =~= seq!['.', '.']);
        }
        if !one_dot && !two_dots {
            if chars@.len() == 1 {
                assert(chars@[0] != seq!['.'][0]);
            }
            if chars@.len() == 2 {
                assert(chars@[0] != seq!['.', '.'][0] || chars@[1] != seq!['.', '.'][1]);
            }
        }
    }
    if one_dot || two_dots {
        return Decision::PathComponent;
    }
    let new = kebab_with(name, opts);
    let new_chars = chars_of(new.as_str());
    if new_chars.len() == 0 {
        return Decision::NoKebabForm;
    }
    if chars_equal(&new_chars, &chars) {
        return Decision::AlreadyKebab;
    }
    let guard = if force {
        None
    } else {
        landmine(&chars)
    };
    match guard {
        Some(k) => {
            if !explicit {
                return Decision::SkipProtected(k);
            }
        },
        None => {},
    }
    Decision::Rename { to: new, warning: guard }
}

/// A UTF-8 continuation byte.
pub open spec fn continuation(b: u8) -> bool {
    0x80 <= b && b <= 0xBF
}

/// The length of the well-formed UTF-8 sequence that starts at `i` of `b`, or 0 when
/// none does: one byte below 0x80; a lead byte and its continuation bytes otherwise,
/// with the narrower second-byte ranges that rule out overlong forms, surrogates and
/// code points above U+10FFFF.
pub open spec fn utf8_seq_len(b: Seq<u8>, i: int) -> int {
    if i < 0 || i >= b.len() {
        0
    } else if b[i] < 0x80 {
        1
    } else if 0xC2 <= b[i] && b[i] <= 0xDF {
        if i + 1 < b.len() && continuation(b[i + 1]) {
            2
        } else {
            0
        }
    } else if 0xE0 <= b[i] && b[i] <= 0xEF {
        let lo: u8 = if b[i] == 0xE0 {
            0xA0
        } else {
            0x80
        };
        let hi: u8 = if b[i] == 0xED {
            0x9F
        } else {
            0xBF
        };
        if i + 2 < b.len() && lo <= b[i + 1] && b[i + 1] <= hi && continuation(b[i + 2]) {
            3
        } else {
            0
        }
    } else if 0xF0 <= b[i] && b[i] <= 0xF4 {
        let lo: u8 = if b[i] == 0xF0 {
            0x90
        } else {
            0x80
        };
        let hi: u8 = if b[i] == 0xF4 {
            0x8F
        } else {
            0xBF
        };
        if i + 3 < b.len() && lo <= b[i + 1] && b[i + 1] <= hi && continuation(b[i + 2])
            && continuation(b[i + 3]) {
            4
        } else {
            0
        }
    } else {
        0
    }
}

/// How many bytes of `b`, from `i` on, belong to no well-formed UTF-8 sequence.
pub open spec fn invalid_from(b: Seq<u8>, i: int) -> int
    decreases b.len() - i,
{
    if i < 0 || i >= b.len() {
        0
    } else if utf8_seq_len(b, i) > 0 {
        invalid_from(b, i + utf8_seq_len(b, i))
    } else {
        1 + invalid_from(b, i + 1)
    }
}

fn seq_len_at(b: &[u8], i: usize) -> (r: usize)
    requires
        i < b@.len(),
    ensures
        r == utf8_seq_len(b@, i as int),
{
    let n = b.len();
    let c = b[i];
    if c < 0x80 {
        1
    } else if 0xC2 <= c && c <= 0xDF {
        if n - i > 1 && 0x80 <= b[i + 1] && b[i + 1] <= 0xBF {
            2
        } else {
            0
        }
    } else if 0xE0 <= c && c <= 0xEF {
        let lo: u8 = if c == 0xE0 {
            0xA0
        } else {
            0x80
        };
        let hi: u8 = if c == 0xED {
            0x9F
        } else {
            0xBF
        };
        if n - i > 2 && lo <= b[i + 1] && b[i + 1] <= hi && 0x80 <= b[i + 2] && b[i + 2] <= 0xBF {
            3
        } else {
            0
        }
    } else if 0xF0 <= c && c <= 0xF4 {
        let lo: u8 = if c == 0xF0 {
            0x90
        } else {
            0x80
        };
        let hi: u8 = if c == 0xF4 {
            0x8F
        } else {
            0xBF
        };
        if n - i > 3 && lo <= b[i + 1] && b[i + 1] <= hi && 0x80 <= b[i + 2] && b[i + 2] <= 0xBF
            && 0x80 <= b[i + 3] && b[i + 3] <= 0xBF {
            4
        } else {
            0
        }
    } else {
        0
    }
}

/// How many bytes of a file name are not valid UTF-8: the bytes that decoding the
/// name lossily drops (each invalid stretch becomes one replacement character, so this
/// is not the number of replacement characters).
pub fn dropped_bytes(name: &[u8]) -> (r: usize)
    ensures
        r == invalid_from(name@, 0),
{
    let mut i: usize = 0;
    let mut n: usize = 0;
    while i < name.len()
        invariant
            i <= name@.len(),
            n <= i,
            n + invalid_from(name@, i as int) == invalid_from(name@, 0),
        decreases name.len() - i,
    {
        let k = seq_len_at(name, i);
        if k > 0 {
            i = i + k;
        } else {
            n = n + 1;
            i = i + 1;
        }
    }
    n
}

// ── The input list ──────────────────────────────────────────────────────────────

/// One piece of a list, as an entry: a trailing carriage return dropped from a
/// newline-separated list produced on Windows, and nothing for an empty piece.
pub open spec fn finish_entry(piece: Seq<u8>, null: bool) -> Seq<Seq<u8>> {
    let line = if !null && piece.len() > 0 && piece.last() == 13u8 {
        piece.drop_last()
    } else {
        piece
    };
    if line.len() == 0 {
        Seq::empty()
    } else {
        seq![line]
    }
}

/// The byte that ends an entry: NUL under `-0`, a newline otherwise.
pub open spec fn list_separator(null: bool) -> u8 {
    if null {
        0u8
    } else {
        10u8
    }
}

/// The entries of `buf` from the piece that starts at `start`, scanning at `i`.
pub open spec fn entries_from(buf: Seq<u8>, null: bool, start: int, i: int) -> Seq<Seq<u8>>
    decreases buf.len() - i,
{
    if i >= buf.len() {
        finish_entry(buf.subrange(start, buf.len() as int), null)
    } else if buf[i] == list_separator(null) {
        finish_entry(buf.subrange(start, i), null) + entries_from(buf, null, i + 1, i + 1)
    } else {
        entries_from(buf, null, start, i + 1)
    }
}

/// The paths in a list read from stdin: split on the separator, carriage returns
/// dropped from a newline list, empty entries skipped.
pub open spec fn list_entries(buf: Seq<u8>, null: bool) -> Seq<Seq<u8>> {
    entries_from(buf, null, 0, 0)
}

/// Every entry of `es` is non-empty and free of the byte `sep`.
pub open spec fn entries_ok(es: Seq<Seq<u8>>, sep: u8) -> bool {
    forall|k: int|
        0 <= k < es.len() ==> (#[trigger] es[k]).len() > 0 && forall|j: int|
            0 <= j < es[k].len() ==> es[k][j] != sep
}

proof fn lemma_entries_from_ok(buf: Seq<u8>, null: bool, start: int, i: int)
    requires
        0 <= start <= i <= buf.len(),
        forall|j: int| start <= j < i ==> buf[j] != list_separator(null),
    ensures
        entries_ok(entries_from(buf, null, start, i), list_separator(null)),
    decreases buf.len() - i,
{
    let sep = list_separator(null);
    let end = if i >= buf.len() {
        buf.len() as int
    } else {
        i
    };
    if i >= buf.len() || buf[i] == sep {
        let piece = buf.subrange(start, end);
        let f = finish_entry(piece, null);
        assert(entries_ok(f, sep)) by {
            assert forall|j: int| 0 <= j < piece.len() implies piece[j] != sep by {
                assert(piece[j] == buf[start + j]);
            }
            if f.len() > 0 {
                let line = f[0];
                assert forall|j: int| 0 <= j < line.len() implies line[j] != sep by {
                    assert(line[j] == piece[j]);
                }
            }
        }
        if i < buf.len() {
            lemma_entries_from_ok(buf, null, i + 1, i + 1);
            let rest = entries_from(buf, null, i + 1, i + 1);
            assert forall|k: int| 0 <= k < (f + rest).len() implies (#[trigger] (f + rest)[k]).len()
                > 0 && forall|j: int| 0 <= j < (f + rest)[k].len() ==> (f + rest)[k][j] != sep by {
                if k < f.len() {
                    assert((f + rest)[k] == f[k]);
                } else {
                    assert((f + rest)[k] == rest[k - f.len()]);
                }
            }
        }
    } else {
        lemma_entries_from_ok(buf, null, start, i + 1);
    }
}

/// A list read from stdin splits at its separator: no entry is empty, and no entry
/// holds the separator (a NUL under `-0`, a newline otherwise).
pub proof fn a_list_splits_at_its_separator(buf: Seq<u8>, null: bool)
    ensures
        entries_ok(list_entries(buf, null), list_separator(null)),
{
    lemma_entries_from_ok(buf, null, 0, 0);
}

/// Byte vectors, by their views.
pub open spec fn byte_views(v: Seq<Vec<u8>>) -> Seq<Seq<u8>> {
    v.map_values(|b: Vec<u8>| b@)
}

pub fn copy_bytes(b: &[u8], from: usize, to: usize) -> (r: Vec<u8>)
    requires
        from <= to <= b@.len(),
    ensures
        r@ == b@.subrange(from as int, to as int),
{
    let mut out: Vec<u8> = Vec::new();
    let mut i = from;
    while i < to
        invariant
            from <= i <= to <= b@.len(),
            out@ == b@.subrange(from as int, i as int),
        decreases to - i,
    {
        out.push(b[i]);
        i += 1;
        assert(out@ =~= b@.subrange(from as int, i as int));
    }
    out
}

fn push_entry(out: &mut Vec<Vec<u8>>, buf: &[u8], start: usize, end: usize, null: bool)
    requires
        start <= end <= buf@.len(),
    ensures
        byte_views(final(out)@) == byte_views(old(out)@) + finish_entry(
            buf@.subrange(start as int, end as int),
            null,
        ),
{
    let mut stop = end;
    if !null && end > start && buf[end - 1] == 13u8 {
        stop = end - 1;
    }
    let line = copy_bytes(buf, start, stop);
    proof {
        let piece = buf@.subrange(start as int, end as int);
        if stop < end {
            assert(piece.drop_last() =~= line@);
        } else {
            assert(piece =~= line@);
        }
    }
    if stop > start {
        out.push(line);
        assert(byte_views(out@) =~= byte_views(old(out)@) + seq![line@]);
    } else {
        assert(byte_views(old(out)@) + Seq::<Seq<u8>>::empty() =~= byte_views(old(out)@));
    }
}

/// Split a list read from stdin into its entries.
pub fn split_list(buf: &[u8], null: bool) -> (r: Vec<Vec<u8>>)
    ensures
        byte_views(r@) == list_entries(buf@, null),
{
    let sep: u8 = if null {
        0u8
    } else {
        10u8
    };
    let mut out: Vec<Vec<u8>> = Vec::new();
    let mut start: usize = 0;
    let mut i: usize = 0;
    while i < buf.len()
        invariant
            start <= i <= buf@.len(),
            sep == list_separator(null),
            byte_views(out@) + entries_from(buf@, null, start as int, i as int) == list_entries(
                buf@,
                null,
            ),
        decreases buf.len() - i,
    {
        if buf[i] == sep {
            let ghost before = byte_views(out@);
            push_entry(&mut out, buf, start, i, null);
            assert(byte_views(out@) + entries_from(buf@, null, i + 1, i + 1) =~= before
                + entries_from(buf@, null, start as int, i as int));
            start = i + 1;
        }
        i += 1;
    }
    let ghost before = byte_views(out@);
    push_entry(&mut out, buf, start, i, null);
    assert(byte_views(out@) =~= before + entries_from(buf@, null, start as int, i as int));
    out
}

/// `~/x` means the home directory, including in a list arriving on stdin, where no
/// shell had a chance to expand it. What follows `~/`, or `None` when the path does
/// not start that way; a bare `~` is a legal filename and is left alone.
pub fn home_relative(path: &str) -> (r: Option<String>)
    ensures
        match r {
            Some(rest) => path@.len() >= 2 && path@[0] == '~' && path@[1] == '/' && rest@
                == path@.skip(2),
            None => !(path@.len() >= 2 && path@[0] == '~' && path@[1] == '/'),
        },
{
    let chars = chars_of(path);
    if chars.len() >= 2 && chars[0] == '~' && chars[1] == '/' {
        let rest = crate::text::slice(&chars, 2, chars.len());
        assert(rest@ =~= path@.skip(2));
        Some(string_of(&rest))
    } else {
        None
    }
}

// ── The work list ───────────────────────────────────────────────────────────────

/// Whether `keys[i]` already occurred before position `i`.
pub open spec fn seen_before(keys: Seq<Seq<u8>>, i: int) -> bool {
    exists|j: int| 0 <= j < i && keys[j] == keys[i]
}

/// Whether `k` is one of `named`.
pub open spec fn listed(named: Seq<Seq<u8>>, k: Seq<u8>) -> bool {
    exists|j: int| 0 <= j < named.len() && named[j] == k
}

/// The first `n` items reduced to the work list: each path once, at its first
/// occurrence, marked explicit when that occurrence is, or when the path was named.
pub open spec fn work_spec(
    keys: Seq<Seq<u8>>,
    explicit: Seq<bool>,
    named: Seq<Seq<u8>>,
    n: int,
) -> Seq<(int, bool)>
    decreases n,
{
    if n <= 0 {
        Seq::empty()
    } else {
        let prev = work_spec(keys, explicit, named, n - 1);
        if seen_before(keys, n - 1) {
            prev
        } else {
            prev.push((n - 1, explicit[n - 1] || listed(named, keys[n - 1])))
        }
    }
}

/// The keys of the items.
pub open spec fn item_keys(items: Seq<(Vec<u8>, bool)>) -> Seq<Seq<u8>> {
    items.map_values(|it: (Vec<u8>, bool)| it.0@)
}

/// The explicit flags of the items.
pub open spec fn item_flags(items: Seq<(Vec<u8>, bool)>) -> Seq<bool> {
    items.map_values(|it: (Vec<u8>, bool)| it.1)
}

/// A work list by its positions and flags.
pub open spec fn work_view(r: Seq<(usize, bool)>) -> Seq<(int, bool)> {
    r.map_values(|p: (usize, bool)| (p.0 as int, p.1))
}

fn is_listed(named: &Vec<Vec<u8>>, k: &Vec<u8>) -> (r: bool)
    ensures
        r == listed(byte_views(named@), k@),
{
    let mut j: usize = 0;
    while j < named.len()
        invariant
            j <= named.len(),
            forall|m: int| 0 <= m < j ==> byte_views(named@)[m] != k@,
        decreases named.len() - j,
    {
        if bytes_equal(&named[j], k) {
            assert(byte_views(named@)[j as int] == k@);
            return true;
        }
        j += 1;
    }
    false
}

/// Turn the swept and named paths into the work list. `items` holds each path's
/// key (equal keys, equal paths) and whether it was named on the command line; the
/// result holds each path's position, once, at its first occurrence, and whether it
/// counts as chosen by the user. A path both swept up and named was still chosen.
pub fn work_list(items: &Vec<(Vec<u8>, bool)>, named: &Vec<Vec<u8>>) -> (r: Vec<(usize, bool)>)
    ensures
        work_view(r@) == work_spec(
            item_keys(items@),
            item_flags(items@),
            byte_views(named@),
            items@.len() as int,
        ),
{
    let ghost keys = item_keys(items@);
    let ghost flags = item_flags(items@);
    let mut out: Vec<(usize, bool)> = Vec::new();
    let mut i: usize = 0;
    while i < items.len()
        invariant
            i <= items.len(),
            keys == item_keys(items@),
            flags == item_flags(items@),
            work_view(out@) == work_spec(keys, flags, byte_views(named@), i as int),
        decreases items.len() - i,
    {
        let mut seen = false;
        let mut j: usize = 0;
        while j < i
            invariant
                j <= i < items.len(),
                keys == item_keys(items@),
                seen == exists|m: int| 0 <= m < j && keys[m] == keys[i as int],
            decreases i - j,
        {
            if bytes_equal(&items[j].0, &items[i].0) {
                assert(keys[j as int] == keys[i as int]);
                seen = true;
            }
            j += 1;
        }
        if !seen {
            let flag = items[i].1 || is_listed(named, &items[i].0);
            assert(flags[i as int] == items@[i as int].1);
            out.push((i, flag));
            assert(work_view(out@) =~= work_spec(keys, flags, byte_views(named@), i as int).push(
                (i as int, flag),
            ));
        }
        i += 1;
    }
    out
}

// ── Options ─────────────────────────────────────────────────────────────────────

/// Why the options were refused.
#[derive(Debug, Clone, Copy, PartialEq, Eq)]
pub enum OptionsError {
    /// This character cannot separate words in a filename.
    Separator(char),
    /// The length budget is below 2.
    MaxLength,
}

/// The options a command line asks for. A separator that is `/`, `.`, a control
/// character or the platform's path separator would break the path and is refused;
/// so is a length budget below 2. Checked in that order.
pub open spec fn options_spec(
    ascii: bool,
    separator: Option<char>,
    max_length: Option<usize>,
    platform_separator: bool,
) -> Result<Options, OptionsError> {
    match separator {
        Some(c) if c == '/' || c == '.' || control(c) || platform_separator => Err(
            OptionsError::Separator(c),
        ),
        _ => match max_length {
            Some(m) if m < 2 => Err(OptionsError::MaxLength),
            _ => Ok(
                Options {
                    separator: match separator {
                        Some(c) => c,
                        None => '-',
                    },
                    ascii,
                    max_length: match max_length {
                        Some(m) => m,
                        None => 255,
                    },
                },
            ),
        },
    }
}

/// [`options_spec`], with whether the separator is one of the platform's path
/// separators supplied.
pub fn options_from(
    ascii: bool,
    separator: Option<char>,
    max_length: Option<usize>,
    platform_separator: bool,
) -> (r: Result<Options, OptionsError>)
    ensures
        r == options_spec(ascii, separator, max_length, platform_separator),
{
    let mut opts = Options::default();
    opts.ascii = ascii;
    match separator {
        Some(c) => {
            if c == '/' || c == '.' || is_control(c) || platform_separator {
                return Err(OptionsError::Separator(c));
            }
            opts.separator = c;
        },
        None => {},
    }
    match max_length {
        Some(m) => {
            if m < 2 {
                return Err(OptionsError::MaxLength);
            }
            opts.max_length = m;
        },
        None => {},
    }
    Ok(opts)
}

/// `std::path::is_separator`: whether `c` separates path components on this
/// platform. The module's documentation names the separators: `/` on every platform,
/// and `\` as well on Windows; no other character is one.
#[verifier::external_body]
fn call_is_separator(c: char) -> (r: bool)
    ensures
        c == '/' ==> r,
        r ==> c == '/' || c == '\\',
{
    std::path::is_separator(c)
}

/// The options a command line asks for, with this platform's path separators: a
/// backslash separates words or paths depending on the platform.
pub fn options(ascii: bool, separator: Option<char>, max_length: Option<usize>) -> (r: Result<
    Options,
    OptionsError,
>)
    ensures
        exists|platform: bool| r == options_spec(ascii, separator, max_length, platform),
        !(separator == Some('\\')) ==> r == options_spec(ascii, separator, max_length, false),
{
    let platform = match separator {
        Some(c) => call_is_separator(c),
        None => false,
    };
    proof {
        match separator {
            Some(c) => {
                if c == '/' {
                    assert(options_spec(ascii, separator, max_length, platform) == options_spec(
                        ascii,
                        separator,
                        max_length,
                        false,
                    ));
                }
            },
            None => {},
        }
    }
    options_from(ascii, separator, max_length, platform)
}

/// How a run ended: every path handled, or some left undone.
#[derive(Debug, Clone, Copy, PartialEq, Eq)]
pub enum Outcome {
    Clean,
    Partial,
}

/// A run is partial when an input was missing or unreadable, or when any one path
/// could not be handled; a failed path never stops the others.
pub fn outcome(inputs_partial: bool, steps: &Vec<bool>) -> (r: Outcome)
    ensures
        r == (if inputs_partial || exists|i: int| 0 <= i < steps@.len() && !#[trigger] steps@[i] {
            Outcome::Partial
        } else {
            Outcome::Clean
        }),
{
    let mut partial = inputs_partial;
    let mut i: usize = 0;
    while i < steps.len()
        invariant
            i <= steps@.len(),
            partial == (inputs_partial || exists|j: int| 0 <= j < i && !#[trigger] steps@[j]),
        decreases steps.len() - i,
    {
        if !steps[i] {
            partial = true;
        }
        i += 1;
    }
    if partial {
        Outcome::Partial
    } else {
        Outcome::Clean
    }
}

/// The exit status: 0 for a clean run, 1 for a partial one, 2 for a run that stopped
/// on an error (`None`).
pub fn exit_code(outcome: Option<Outcome>) -> (r: u8)
    ensures
        r == match outcome {
            Some(Outcome::Clean) => 0u8,
            Some(Outcome::Partial) => 1u8,
            None => 2u8,
        },
{
    match outcome {
        Some(Outcome::Clean) => 0,
        Some(Outcome::Partial) => 1,
        None => 2,
    }
}

// ── Undo ────────────────────────────────────────────────────────────────────────

/// Where undoing `e` starts from: the name it was renamed to; for a rename
/// interrupted between its two steps, the temporary name the file sits under, if it
/// is still there; otherwise nothing.
pub open spec fn undo_source_spec(e: crate::journal::EntryView, via_exists: bool) -> Option<
    Seq<u8>,
> {
    if e.committed {
        Some(e.to)
    } else {
        match e.via {
            Some(v) if via_exists => Some(v),
            _ => None,
        }
    }
}

/// [`undo_source_spec`], with whether the temporary name exists supplied.
pub fn undo_source(entry: &Entry, via_exists: bool) -> (r: Option<Vec<u8>>)
    ensures
        match r {
            Some(v) => undo_source_spec(entry@, via_exists) == Some(v@),
            None => undo_source_spec(entry@, via_exists) is None,
        },
{
    if entry.committed {
        let n = entry.to.len();
        return Some(copy_bytes(entry.to.as_slice(), 0, n));
    }
    match &entry.via {
        Some(v) => {
            if via_exists {
                let n = v.len();
                let r = copy_bytes(v.as_slice(), 0, n);
                assert(r@ =~= v@);
                Some(r)
            } else {
                None
            }
        },
        None => None,
    }
}

/// What to do with one entry being undone.
#[derive(Debug, Clone, Copy, PartialEq, Eq)]
pub enum UndoAction {
    /// The file to move back is gone.
    Gone,
    /// Something else has taken the old name since: undo restores names, it does
    /// not destroy whatever moved in.
    Occupied,
    /// Move it back.
    Move,
}

pub open spec fn undo_check_spec(source_exists: bool, origin_exists: bool, same_file: bool) -> UndoAction {
    if !source_exists {
        UndoAction::Gone
    } else if origin_exists && !same_file {
        UndoAction::Occupied
    } else {
        UndoAction::Move
    }
}

/// Decide one entry, given whether the file to move back exists, whether its
/// old name exists, and whether the two are the same file.
pub fn undo_check(source_exists: bool, origin_exists: bool, same_file: bool) -> (r: UndoAction)
    ensures
        r == undo_check_spec(source_exists, origin_exists, same_file),
{
    if !source_exists {
        UndoAction::Gone
    } else if origin_exists && !same_file {
        UndoAction::Occupied
    } else {
        UndoAction::Move
    }
}

/// Undo restores names; it never moves a file onto a name that another file has
/// taken since.
pub proof fn undo_never_clobbers(source_exists: bool, origin_exists: bool, same_file: bool)
    ensures
        undo_check_spec(source_exists, origin_exists, same_file) == UndoAction::Move
            ==> source_exists && (!origin_exists || same_file),
{
}

/// What happened to one entry of an undo.
#[derive(Debug, Clone, Copy, PartialEq, Eq)]
pub enum UndoEvent {
    /// Nothing to move back: an interrupted record whose temporary file is gone.
    Skipped,
    Gone,
    Occupied,
    Moved,
    /// The move itself failed.
    Failed,
}

/// How an undo is going: whether anything was left undone, and whether a second
/// `--undo` could still achieve something. A record whose file is gone is spent
/// either way; one that could not move is worth keeping, so the user can fix the
/// cause and try again.
pub struct UndoProgress {
    pub partial: bool,
    pub retryable: bool,
}

impl UndoProgress {
    pub fn new() -> (r: UndoProgress)
        ensures
            !r.partial,
            !r.retryable,
    {
        UndoProgress { partial: false, retryable: false }
    }

    pub fn record(&mut self, event: UndoEvent)
        ensures
            final(self).partial == (old(self).partial || event == UndoEvent::Gone || event
                == UndoEvent::Occupied || event == UndoEvent::Failed),
            final(self).retryable == (old(self).retryable || event == UndoEvent::Occupied
                || event == UndoEvent::Failed),
    {
        match event {
            UndoEvent::Skipped => {},
            UndoEvent::Moved => {},
            UndoEvent::Gone => {
                self.partial = true;
            },
            UndoEvent::Occupied => {
                self.partial = true;
                self.retryable = true;
            },
            UndoEvent::Failed => {
                self.partial = true;
                self.retryable = true;
            },
        }
    }

    /// Whether the undone run leaves the journal: only after a real undo, and only
    /// when nothing in it is worth retrying.
    pub fn spends_journal(&self, dry_run: bool) -> (r: bool)
        ensures
            r == (!dry_run && !self.retryable),
    {
        !dry_run && !self.retryable
    }
}

} // verus!

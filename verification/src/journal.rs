//! The undo journal's format: what a run writes, and how it is read back.
//!
//! One record per line, tab-separated: `RUN` opens a run, `PLAN from to via` is
//! written before a rename, `DONE from to` after it. Paths are percent-encoded over
//! their bytes, so a name with a tab or a newline cannot forge a record and a name
//! that is not valid UTF-8 still round-trips exactly.

use vstd::prelude::*;

use crate::unicode::{chars_of, push_char};

verus! {

// ── Percent-encoding ────────────────────────────────────────────────────────────

/// The uppercase hexadecimal digit for `d`.
pub open spec fn hex_digit(d: u8) -> char {
    if d < 10 {
        (48 + d) as char
    } else {
        (55 + d) as char
    }
}

/// How one byte is written: `%` as `%25`, printable ASCII as itself, anything else as
/// `%` and two uppercase hex digits.
pub open spec fn encode_byte(b: u8) -> Seq<char> {
    if b == 0x25 {
        seq!['%', '2', '5']
    } else if 0x20 <= b <= 0x7e {
        seq![b as char]
    } else {
        seq!['%', hex_digit(b / 16), hex_digit(b % 16)]
    }
}

/// A path's bytes, percent-encoded.
pub open spec fn encode_spec(b: Seq<u8>) -> Seq<char>
    decreases b.len(),
{
    if b.len() == 0 {
        Seq::empty()
    } else {
        encode_byte(b[0]) + encode_spec(b.drop_first())
    }
}

pub proof fn lemma_encode_concat(a: Seq<u8>, c: Seq<u8>)
    ensures
        encode_spec(a + c) == encode_spec(a) + encode_spec(c),
    decreases a.len(),
{
    if a.len() == 0 {
        assert(a + c =~= c);
    } else {
        lemma_encode_concat(a.drop_first(), c);
        assert((a + c).drop_first() =~= a.drop_first() + c);
        assert(encode_byte(a[0]) + (encode_spec(a.drop_first()) + encode_spec(c))
            =~= encode_byte(a[0]) + encode_spec(a.drop_first()) + encode_spec(c));
    }
}

pub fn hex_digit_of(d: u8) -> (r: char)
    requires
        d < 16,
    ensures
        r == hex_digit(d),
{
    if d < 10 {
        (48 + d) as char
    } else {
        (55 + d) as char
    }
}

/// Percent-encode a path's bytes, keeping only characters that cannot be confused
/// with the record structure.
pub fn encode(path: &[u8]) -> (r: String)
    ensures
        r@ == encode_spec(path@),
{
    let mut out = String::new();
    let mut i: usize = 0;
    while i < path.len()
        invariant
            i <= path.len(),
            out@ == encode_spec(path@.take(i as int)),
        decreases path.len() - i,
    {
        let b = path[i];
        if b == 0x25 {
            push_char(&mut out, '%');
            push_char(&mut out, '2');
            push_char(&mut out, '5');
        } else if 0x20 <= b && b <= 0x7e {
            push_char(&mut out, b as char);
        } else {
            push_char(&mut out, '%');
            push_char(&mut out, hex_digit_of(b / 16));
            push_char(&mut out, hex_digit_of(b % 16));
        }
        proof {
            lemma_encode_concat(path@.take(i as int), seq![b]);
            assert(path@.take(i + 1) =~= path@.take(i as int) + seq![b]);
            assert(encode_spec(seq![b]) =~= encode_byte(b)) by {
                assert(seq![b].drop_first() =~= Seq::<u8>::empty());
                assert(encode_spec(seq![b].drop_first()) == Seq::<char>::empty());
            }
        }
        i += 1;
    }
    assert(path@.take(path.len() as int) =~= path@);
    out
}

// ── Decoding ────────────────────────────────────────────────────────────────────

/// The value of an ASCII hexadecimal digit, either case.
pub open spec fn hex_value(b: u8) -> Option<u8> {
    if 0x30 <= b <= 0x39 {
        Some((b - 0x30) as u8)
    } else if 0x41 <= b <= 0x46 {
        Some((b - 0x41 + 10) as u8)
    } else if 0x61 <= b <= 0x66 {
        Some((b - 0x61 + 10) as u8)
    } else {
        None
    }
}

/// Two bytes read as a hexadecimal `u8` the way `u8::from_str_radix(_, 16)` reads
/// them: an optional `+` then digits.
pub open spec fn hex_pair(a: u8, b: u8) -> Option<u8> {
    if a == 0x2b {
        hex_value(b)
    } else {
        match (hex_value(a), hex_value(b)) {
            (Some(x), Some(y)) => Some((16 * x + y) as u8),
            _ => None,
        }
    }
}

/// Decoding from byte `i` on: a `%` with two more bytes after it that read as a hex
/// number is that byte; anything else is itself.
pub open spec fn decode_from(raw: Seq<u8>, i: int) -> Seq<u8>
    decreases raw.len() - i,
{
    if i < 0 || i >= raw.len() {
        Seq::empty()
    } else if raw[i] == 0x25 && i + 2 < raw.len() && hex_pair(raw[i + 1], raw[i + 2]) is Some {
        seq![hex_pair(raw[i + 1], raw[i + 2])->0] + decode_from(raw, i + 3)
    } else {
        seq![raw[i]] + decode_from(raw, i + 1)
    }
}

/// A field's bytes, decoded.
pub open spec fn decode_spec(s: Seq<char>) -> Seq<u8> {
    decode_from(vstd::utf8::encode_utf8(s), 0)
}

pub fn hex_value_of(b: u8) -> (r: Option<u8>)
    ensures
        r == hex_value(b),
{
    if 0x30 <= b && b <= 0x39 {
        Some(b - 0x30)
    } else if 0x41 <= b && b <= 0x46 {
        Some(b - 0x41 + 10)
    } else if 0x61 <= b && b <= 0x66 {
        Some(b - 0x61 + 10)
    } else {
        None
    }
}

pub fn hex_pair_of(a: u8, b: u8) -> (r: Option<u8>)
    ensures
        r == hex_pair(a, b),
{
    if a == 0x2b {
        hex_value_of(b)
    } else {
        match (hex_value_of(a), hex_value_of(b)) {
            (Some(x), Some(y)) => Some(16 * x + y),
            _ => None,
        }
    }
}

/// Undo [`encode`]: every `%XX` becomes the byte it names.
pub fn decode(s: &str) -> (r: Vec<u8>)
    ensures
        r@ == decode_spec(s@),
{
    decode_raw(s.as_bytes())
}

pub fn decode_raw(raw: &[u8]) -> (r: Vec<u8>)
    ensures
        r@ == decode_from(raw@, 0),
{
    let mut out: Vec<u8> = Vec::new();
    let mut i: usize = 0;
    while i < raw.len()
        invariant
            i <= raw.len(),
            out@ + decode_from(raw@, i as int) == decode_from(raw@, 0),
        decreases raw.len() - i,
    {
        let ghost prev = out@;
        if raw[i] == 0x25 && raw.len() - i > 2 {
            if let Some(b) = hex_pair_of(raw[i + 1], raw[i + 2]) {
                out.push(b);
                assert(prev + decode_from(raw@, i as int) =~= out@ + decode_from(
                    raw@,
                    i + 3,
                ));
                i += 3;
                continue;
            }
        }
        out.push(raw[i]);
        assert(prev + decode_from(raw@, i as int) =~= out@ + decode_from(raw@, i + 1));
        i += 1;
    }
    assert(out@ =~= out@ + decode_from(raw@, i as int));
    out
}

// ── The law: a decoded encoding is the path ─────────────────────────────────────

/// The bytes of an encoding: it is all ASCII, one byte per character.
pub open spec fn encode_bytes(b: Seq<u8>) -> Seq<u8> {
    encode_spec(b).map_values(|c: char| c as u8)
}

pub proof fn lemma_encode_ascii(b: Seq<u8>)
    ensures
        vstd::utf8::is_ascii_chars(encode_spec(b)),
        forall|i: int| 0 <= i < encode_spec(b).len() ==> 0x20 <= #[trigger] (encode_spec(b)[i] as u32) <= 0x7e,
    decreases b.len(),
{
    if b.len() > 0 {
        lemma_encode_ascii(b.drop_first());
        let e = encode_spec(b);
        let h = encode_byte(b[0]);
        assert forall|i: int| 0 <= i < h.len() implies 0x20 <= #[trigger] (h[i] as u32) <= 0x7e by {
            if b[0] != 0x25 && !(0x20 <= b[0] <= 0x7e) {
                assert(b[0] / 16 < 16);
                assert(b[0] % 16 < 16);
            }
        }
        assert forall|i: int| 0 <= i < e.len() implies 0x20 <= #[trigger] (e[i] as u32) <= 0x7e by {
            if i < h.len() {
                assert(e[i] == h[i]);
            } else {
                assert(e[i] == encode_spec(b.drop_first())[i - h.len()]);
            }
        }
    }
}

proof fn lemma_decode_one(x: u8, rest: Seq<u8>)
    ensures
        decode_from(encode_byte(x).map_values(|c: char| c as u8) + rest, 0) == seq![x]
            + decode_from(rest, 0),
{
    let h = encode_byte(x).map_values(|c: char| c as u8);
    let raw = h + rest;
    if x == 0x25 {
        assert(h =~= seq![0x25u8, 0x32u8, 0x35u8]);
        assert(raw[0] == 0x25 && raw[1] == 0x32 && raw[2] == 0x35);
        assert(hex_pair(0x32, 0x35) == Some(0x25u8));
        assert(raw.skip(3) =~= rest);
        lemma_decode_shift(raw, 3, rest);
    } else if 0x20 <= x <= 0x7e {
        assert(h =~= seq![x]);
        assert(raw.skip(1) =~= rest);
        lemma_decode_shift(raw, 1, rest);
    } else {
        let hi = x / 16;
        let lo = x % 16;
        assert(h =~= seq![0x25u8, hex_digit(hi) as u8, hex_digit(lo) as u8]);
        assert(hex_value(hex_digit(hi) as u8) == Some(hi));
        assert(hex_value(hex_digit(lo) as u8) == Some(lo));
        assert(hex_digit(hi) as u8 != 0x2b);
        assert(16 * hi + lo == x);
        assert(raw.skip(3) =~= rest);
        lemma_decode_shift(raw, 3, rest);
    }
}

/// Decoding a suffix that starts at a record-independent position.
proof fn lemma_decode_shift(raw: Seq<u8>, k: int, rest: Seq<u8>)
    requires
        0 <= k <= raw.len(),
        raw.skip(k) == rest,
    ensures
        decode_from(raw, k) == decode_from(rest, 0),
    decreases raw.len() - k,
{
    if k < raw.len() {
        assert(raw[k] == rest[0]);
        if raw[k] == 0x25 && k + 2 < raw.len() && hex_pair(raw[k + 1], raw[k + 2]) is Some {
            assert(raw[k + 1] == rest[1] && raw[k + 2] == rest[2]);
            assert(raw.skip(k + 3) =~= rest.skip(3));
            lemma_decode_shift(raw, k + 3, rest.skip(3));
            lemma_decode_shift(rest, 3, rest.skip(3));
        } else {
            assert(raw.skip(k + 1) =~= rest.skip(1));
            lemma_decode_shift(raw, k + 1, rest.skip(1));
            lemma_decode_shift(rest, 1, rest.skip(1));
        }
    }
}

/// Decoding the encoding of a path gives back the path, byte for byte.
pub proof fn lemma_decode_encode(b: Seq<u8>)
    ensures
        decode_spec(encode_spec(b)) == b,
{
    lemma_encode_ascii(b);
    let e = encode_spec(b);
    vstd::utf8::is_ascii_chars_encode_utf8(e);
    assert(vstd::utf8::encode_utf8(e) =~= encode_bytes(b));
    lemma_decode_bytes(b);
}

proof fn lemma_decode_bytes(b: Seq<u8>)
    ensures
        decode_from(encode_bytes(b), 0) == b,
    decreases b.len(),
{
    if b.len() == 0 {
        assert(encode_bytes(b) =~= Seq::<u8>::empty());
    } else {
        lemma_decode_bytes(b.drop_first());
        assert(encode_bytes(b) =~= encode_byte(b[0]).map_values(|c: char| c as u8) + encode_bytes(
            b.drop_first(),
        ));
        lemma_decode_one(b[0], encode_bytes(b.drop_first()));
        assert(seq![b[0]] + b.drop_first() =~= b);
    }
}

// ── Records ─────────────────────────────────────────────────────────────────────

/// One recorded rename, as read back for `--undo`.
pub struct Entry {
    pub from: Vec<u8>,
    pub to: Vec<u8>,
    /// The temporary name a two-step rename passes through. Present on a `PLAN` record
    /// that never reached `DONE`, which is how an interrupted run is recovered.
    pub via: Option<Vec<u8>>,
    pub committed: bool,
}

/// An entry by its byte sequences.
pub struct EntryView {
    pub from: Seq<u8>,
    pub to: Seq<u8>,
    pub via: Option<Seq<u8>>,
    pub committed: bool,
}

impl View for Entry {
    type V = EntryView;

    open spec fn view(&self) -> EntryView {
        EntryView {
            from: self.from@,
            to: self.to@,
            via: match self.via {
                Some(v) => Some(v@),
                None => None,
            },
            committed: self.committed,
        }
    }
}

/// Runs of entries, by their views.
pub open spec fn runs_view(runs: Seq<Vec<Entry>>) -> Seq<Seq<EntryView>> {
    runs.map_values(|r: Vec<Entry>| r@.map_values(|e: Entry| e@))
}

/// Lines, by their characters.
pub open spec fn lines_view(lines: Seq<String>) -> Seq<Seq<char>> {
    lines.map_values(|l: String| l@)
}

/// The tab-separated fields of a line. A line always has at least one field.
pub open spec fn fields_of(line: Seq<char>) -> Seq<Seq<char>>
    decreases line.len(),
{
    if line.len() == 0 {
        seq![Seq::empty()]
    } else {
        let f = fields_of(line.drop_last());
        if line.last() == '\t' {
            f.push(Seq::empty())
        } else {
            f.update(f.len() - 1, f.last().push(line.last()))
        }
    }
}

pub proof fn lemma_fields_nonempty(line: Seq<char>)
    ensures
        fields_of(line).len() >= 1,
    decreases line.len(),
{
    if line.len() > 0 {
        lemma_fields_nonempty(line.drop_last());
    }
}

pub open spec fn run_word() -> Seq<char> {
    seq!['R', 'U', 'N']
}

pub open spec fn plan_word() -> Seq<char> {
    seq!['P', 'L', 'A', 'N']
}

pub open spec fn done_word() -> Seq<char> {
    seq!['D', 'O', 'N', 'E']
}

/// The pieces of `p` between slashes. There is always at least one.
pub open spec fn pieces(p: Seq<u8>) -> Seq<Seq<u8>>
    decreases p.len(),
{
    if p.len() == 0 {
        seq![Seq::empty()]
    } else {
        let f = pieces(p.drop_last());
        if p.last() == 0x2fu8 {
            f.push(Seq::empty())
        } else {
            f.update(f.len() - 1, f.last().push(p.last()))
        }
    }
}

pub proof fn lemma_pieces_nonempty(p: Seq<u8>)
    ensures
        pieces(p).len() >= 1,
    decreases p.len(),
{
    if p.len() > 0 {
        lemma_pieces_nonempty(p.drop_last());
    }
}

/// Whether `p` starts at the root.
pub open spec fn absolute(p: Seq<u8>) -> bool {
    p.len() > 0 && p[0] == 0x2fu8
}

/// The pieces that are components: not empty (a repeated or trailing slash), and not
/// `.`, unless it begins a relative path.
pub open spec fn kept_pieces(ps: Seq<Seq<u8>>, relative: bool) -> Seq<Seq<u8>>
    decreases ps.len(),
{
    if ps.len() == 0 {
        Seq::empty()
    } else {
        let rest = kept_pieces(ps.drop_last(), relative);
        let q = ps.last();
        if q.len() == 0 || (q == seq![0x2eu8] && !(ps.len() == 1 && relative)) {
            rest
        } else {
            rest.push(q)
        }
    }
}

/// Components joined by slashes.
pub open spec fn join_parts(ks: Seq<Seq<u8>>) -> Seq<u8>
    decreases ks.len(),
{
    if ks.len() == 0 {
        Seq::empty()
    } else if ks.len() == 1 {
        ks[0]
    } else {
        join_parts(ks.drop_last()) + seq![0x2fu8] + ks.last()
    }
}

/// A path as `Path` compares it, component by component: a root if it starts with
/// `/`, then its components joined by single slashes. Repeated and trailing slashes
/// and `.` components go, but for a `.` that begins a relative path; so `a//b`,
/// `a/./b` and `a/b/` all read `a/b`. (On Windows a backslash separates components
/// too; a journal written there spells its paths with whichever the program used.)
pub open spec fn path_key(p: Seq<u8>) -> Seq<u8> {
    (if absolute(p) {
        seq![0x2fu8]
    } else {
        Seq::empty()
    }) + join_parts(kept_pieces(pieces(p), !absolute(p)))
}

/// [`path_key`].
pub fn path_key_of(p: &Vec<u8>) -> (r: Vec<u8>)
    ensures
        r@ == path_key(p@),
{
    let mut ps: Vec<Vec<u8>> = Vec::new();
    let mut cur: Vec<u8> = Vec::new();
    let mut i: usize = 0;
    while i < p.len()
        invariant
            i <= p.len(),
            ps@.map_values(|f: Vec<u8>| f@).push(cur@) == pieces(p@.take(i as int)),
        decreases p.len() - i,
    {
        assert(p@.take(i + 1).drop_last() =~= p@.take(i as int));
        if p[i] == 0x2f {
            let done = cur;
            ps.push(done);
            cur = Vec::new();
        } else {
            cur.push(p[i]);
        }
        i += 1;
        assert(ps@.map_values(|f: Vec<u8>| f@).push(cur@) =~= pieces(p@.take(i as int)));
    }
    assert(p@.take(p.len() as int) =~= p@);
    ps.push(cur);
    let ghost pv = ps@.map_values(|f: Vec<u8>| f@);
    assert(pv =~= pieces(p@));
    let abs = p.len() > 0 && p[0] == 0x2f;
    let mut out: Vec<u8> = Vec::new();
    if abs {
        out.push(0x2f);
    }
    let ghost root = out@;
    let mut any = false;
    let mut k: usize = 0;
    while k < ps.len()
        invariant
            k <= ps.len(),
            pv == ps@.map_values(|f: Vec<u8>| f@),
            abs == absolute(p@),
            out@ == root + join_parts(kept_pieces(pv.take(k as int), !abs)),
            any == (kept_pieces(pv.take(k as int), !abs).len() > 0),
        decreases ps.len() - k,
    {
        assert(pv.take(k + 1).drop_last() =~= pv.take(k as int));
        let q = &ps[k];
        assert(q@ == pv[k as int]);
        let dot = q.len() == 1 && q[0] == 0x2e;
        assert(dot == (q@ == seq![0x2eu8])) by {
            if q@.len() == 1 && q@[0] == 0x2eu8 {
                assert(q@ =~= seq![0x2eu8]);
            }
        }
        let ghost ks = kept_pieces(pv.take(k as int), !abs);
        if !(q.len() == 0 || (dot && !(k == 0 && !abs))) {
            if any {
                out.push(0x2f);
            }
            let mut piece = q.clone();
            assert(piece@ == q@);
            out.append(&mut piece);
            assert(kept_pieces(pv.take(k + 1), !abs) == ks.push(q@));
            assert(ks.push(q@).drop_last() =~= ks);
            if any {
                assert(out@ =~= root + (join_parts(ks) + seq![0x2fu8] + q@));
            } else {
                assert(ks.len() == 0);
                assert(join_parts(ks.push(q@)) == ks.push(q@)[0]);
                assert(out@ =~= root + q@);
            }
            any = true;
        }
        k += 1;
    }
    assert(pv.take(ps.len() as int) =~= pv);
    out
}

/// The position of the last entry in `run`, before `end`, that records `from` to
/// `to`, the paths compared as [`path_key`] reads them.
pub open spec fn last_match(run: Seq<EntryView>, from: Seq<u8>, to: Seq<u8>, end: int) -> Option<int>
    decreases end,
{
    if end <= 0 {
        None
    } else if path_key(run[end - 1].from) == path_key(from) && path_key(run[end - 1].to)
        == path_key(to) {
        Some(end - 1)
    } else {
        last_match(run, from, to, end - 1)
    }
}

/// A `DONE` record marks the most recent matching `PLAN` of its run as committed.
pub open spec fn mark_done(run: Seq<EntryView>, from: Seq<u8>, to: Seq<u8>) -> Seq<EntryView> {
    match last_match(run, from, to, run.len() as int) {
        Some(j) => run.update(j, EntryView { committed: true, ..run[j] }),
        None => run,
    }
}

/// Read one line into the runs so far. A record before the first `RUN` is ignored,
/// as is anything that does not parse — a corrupt line must not take the rest with it.
pub open spec fn parse_line(runs: Seq<Seq<EntryView>>, line: Seq<char>) -> Seq<Seq<EntryView>> {
    let f = fields_of(line);
    if f[0] == run_word() {
        runs.push(Seq::empty())
    } else if runs.len() == 0 {
        runs
    } else if f[0] == plan_word() && f.len() >= 3 {
        let via = if f.len() >= 4 && f[3].len() > 0 {
            Some(decode_spec(f[3]))
        } else {
            None
        };
        let entry = EntryView {
            from: decode_spec(f[1]),
            to: decode_spec(f[2]),
            via: via,
            committed: false,
        };
        runs.update(runs.len() - 1, runs.last().push(entry))
    } else if f[0] == done_word() && f.len() >= 3 {
        runs.update(
            runs.len() - 1,
            mark_done(runs.last(), decode_spec(f[1]), decode_spec(f[2])),
        )
    } else {
        runs
    }
}

/// Group records into runs.
pub open spec fn parse_spec(lines: Seq<Seq<char>>) -> Seq<Seq<EntryView>>
    decreases lines.len(),
{
    if lines.len() == 0 {
        Seq::empty()
    } else {
        parse_line(parse_spec(lines.drop_last()), lines.last())
    }
}

pub fn split_fields(line: &Vec<char>) -> (r: Vec<Vec<char>>)
    ensures
        r@.map_values(|f: Vec<char>| f@) == fields_of(line@),
{
    let mut out: Vec<Vec<char>> = Vec::new();
    let mut cur: Vec<char> = Vec::new();
    let mut i: usize = 0;
    while i < line.len()
        invariant
            i <= line.len(),
            out@.map_values(|f: Vec<char>| f@).push(cur@) == fields_of(line@.take(i as int)),
        decreases line.len() - i,
    {
        let ghost before = fields_of(line@.take(i as int));
        assert(line@.take(i + 1).drop_last() =~= line@.take(i as int));
        if line[i] == '\t' {
            let done = cur;
            out.push(done);
            cur = Vec::new();
        } else {
            cur.push(line[i]);
        }
        i += 1;
        assert(out@.map_values(|f: Vec<char>| f@).push(cur@) =~= fields_of(line@.take(i as int)));
    }
    assert(line@.take(line.len() as int) =~= line@);
    out.push(cur);
    assert(out@.map_values(|f: Vec<char>| f@) =~= fields_of(line@));
    out
}

pub fn chars_equal(a: &Vec<char>, b: &Vec<char>) -> (r: bool)
    ensures
        r == (a@ == b@),
{
    if a.len() != b.len() {
        return false;
    }
    let mut i: usize = 0;
    while i < a.len()
        invariant
            a.len() == b.len(),
            i <= a.len(),
            forall|j: int| 0 <= j < i ==> a@[j] == b@[j],
        decreases a.len() - i,
    {
        if a[i] != b[i] {
            return false;
        }
        i += 1;
    }
    assert(a@ =~= b@);
    true
}

pub fn bytes_equal(a: &Vec<u8>, b: &Vec<u8>) -> (r: bool)
    ensures
        r == (a@ == b@),
{
    if a.len() != b.len() {
        return false;
    }
    let mut i: usize = 0;
    while i < a.len()
        invariant
            a.len() == b.len(),
            i <= a.len(),
            forall|j: int| 0 <= j < i ==> a@[j] == b@[j],
        decreases a.len() - i,
    {
        if a[i] != b[i] {
            return false;
        }
        i += 1;
    }
    assert(a@ =~= b@);
    true
}

/// Decode one field.
pub fn decode_field(field: &Vec<char>) -> (r: Vec<u8>)
    ensures
        r@ == decode_spec(field@),
{
    let text = crate::unicode::string_of(field);
    decode(text.as_str())
}

/// Mark the most recent matching entry of `run` as committed.
pub fn commit_entry(run: &mut Vec<Entry>, from: &Vec<u8>, to: &Vec<u8>)
    ensures
        final(run)@.map_values(|e: Entry| e@) == mark_done(
            old(run)@.map_values(|e: Entry| e@),
            from@,
            to@,
        ),
{
    let ghost v = run@.map_values(|e: Entry| e@);
    let mut end = run.len();
    while end > 0
        invariant
            end <= run.len(),
            v == run@.map_values(|e: Entry| e@),
            v == old(run)@.map_values(|e: Entry| e@),
            last_match(v, from@, to@, run.len() as int) == last_match(v, from@, to@, end as int),
        decreases end,
    {
        let j = end - 1;
        if bytes_equal(&path_key_of(&run[j].from), &path_key_of(from)) && bytes_equal(
            &path_key_of(&run[j].to),
            &path_key_of(to),
        ) {
            assert(path_key(v[j as int].from) == path_key(from@) && path_key(v[j as int].to)
                == path_key(to@));
            assert(last_match(v, from@, to@, end as int) == Some(j as int));
            let mut e = run.remove(j);
            e.committed = true;
            run.insert(j, e);
            assert(run@.map_values(|e: Entry| e@) =~= v.update(
                j as int,
                EntryView { committed: true, ..v[j as int] },
            ));
            return;
        }
        end -= 1;
    }
}

/// Group records into runs.
pub fn parse(lines: &[String]) -> (r: Vec<Vec<Entry>>)
    ensures
        runs_view(r@) == parse_spec(lines_view(lines@)),
{
    let mut runs: Vec<Vec<Entry>> = Vec::new();
    let mut i: usize = 0;
    while i < lines.len()
        invariant
            i <= lines.len(),
            runs_view(runs@) == parse_spec(lines_view(lines@).take(i as int)),
        decreases lines.len() - i,
    {
        let ghost before = runs_view(runs@);
        assert(lines_view(lines@).take(i + 1).drop_last() =~= lines_view(lines@).take(i as int));
        let chars = chars_of(lines[i].as_str());
        let fields = split_fields(&chars);
        proof {
            lemma_fields_nonempty(chars@);
        }
        let ghost f = fields_of(chars@);
        assert(fields@.len() == f.len());
        assert(fields@[0]@ == f[0]);
        if chars_equal(&fields[0], &vec!['R', 'U', 'N']) {
            let empty: Vec<Entry> = Vec::new();
            assert(empty@.map_values(|e: Entry| e@) =~= Seq::<EntryView>::empty());
            runs.push(empty);
            assert(runs_view(runs@) =~= before.push(Seq::empty()));
        } else if runs.len() > 0 && fields.len() >= 3 && chars_equal(
            &fields[0],
            &vec!['P', 'L', 'A', 'N'],
        ) {
            assert(fields@[1]@ == f[1] && fields@[2]@ == f[2]);
            let from = decode_field(&fields[1]);
            let to = decode_field(&fields[2]);
            let via = if fields.len() >= 4 && fields[3].len() > 0 {
                assert(fields@[3]@ == f[3]);
                Some(decode_field(&fields[3]))
            } else {
                None
            };
            let entry = Entry { from, to, via, committed: false };
            let ghost ev = entry@;
            let mut last = runs.pop().unwrap();
            let ghost lv = last@.map_values(|e: Entry| e@);
            assert(lv == before.last());
            last.push(entry);
            assert(last@.map_values(|e: Entry| e@) =~= lv.push(ev));
            runs.push(last);
            assert(runs_view(runs@) =~= before.update(before.len() - 1, lv.push(ev)));
            assert(runs_view(runs@) =~= parse_line(before, chars@));
        } else if runs.len() > 0 && fields.len() >= 3 && chars_equal(
            &fields[0],
            &vec!['D', 'O', 'N', 'E'],
        ) {
            assert(fields@[1]@ == f[1] && fields@[2]@ == f[2]);
            let from = decode_field(&fields[1]);
            let to = decode_field(&fields[2]);
            let mut last = runs.pop().unwrap();
            let ghost lv = last@.map_values(|e: Entry| e@);
            assert(lv == before.last());
            commit_entry(&mut last, &from, &to);
            runs.push(last);
            assert(runs_view(runs@) =~= before.update(
                before.len() - 1,
                mark_done(lv, from@, to@),
            ));
            assert(runs_view(runs@) =~= parse_line(before, chars@));
        }
        i += 1;
    }
    assert(lines_view(lines@).take(lines.len() as int) =~= lines_view(lines@));
    runs
}

// ── Writing records ─────────────────────────────────────────────────────────────

/// The line that opens a run.
pub open spec fn run_line() -> Seq<char> {
    run_word()
}

/// The line written before a rename, with the temporary name a two-step rename
/// passes through (an empty field when there is none).
pub open spec fn plan_line(from: Seq<u8>, to: Seq<u8>, via: Option<Seq<u8>>) -> Seq<char> {
    plan_word() + seq!['\t'] + encode_spec(from) + seq!['\t'] + encode_spec(to) + seq!['\t']
        + match via {
        Some(v) => encode_spec(v),
        None => Seq::empty(),
    }
}

/// The line written once a rename has completed.
pub open spec fn done_line(from: Seq<u8>, to: Seq<u8>) -> Seq<char> {
    done_word() + seq!['\t'] + encode_spec(from) + seq!['\t'] + encode_spec(to)
}

pub fn push_str_chars(out: &mut String, s: &String)
    ensures
        final(out)@ == old(out)@ + s@,
{
    let chars = chars_of(s.as_str());
    let mut i: usize = 0;
    while i < chars.len()
        invariant
            i <= chars.len(),
            chars@ == s@,
            out@ == old(out)@ + chars@.take(i as int),
        decreases chars.len() - i,
    {
        push_char(out, chars[i]);
        i += 1;
        assert(out@ =~= old(out)@ + chars@.take(i as int));
    }
    assert(chars@.take(chars.len() as int) =~= chars@);
}

/// `RUN`.
pub fn run_record() -> (r: String)
    ensures
        r@ == run_line(),
{
    let mut out = String::new();
    push_char(&mut out, 'R');
    push_char(&mut out, 'U');
    push_char(&mut out, 'N');
    assert(out@ =~= run_line());
    out
}

/// `PLAN`, the encoded source and target, and the encoded temporary name or nothing.
pub fn plan_record(from: &[u8], to: &[u8], via: Option<&[u8]>) -> (r: String)
    ensures
        r@ == plan_line(from@, to@, match via {
            Some(v) => Some(v@),
            None => None,
        }),
{
    let mut out = String::new();
    push_char(&mut out, 'P');
    push_char(&mut out, 'L');
    push_char(&mut out, 'A');
    push_char(&mut out, 'N');
    push_char(&mut out, '\t');
    push_str_chars(&mut out, &encode(from));
    push_char(&mut out, '\t');
    push_str_chars(&mut out, &encode(to));
    push_char(&mut out, '\t');
    match via {
        Some(v) => push_str_chars(&mut out, &encode(v)),
        None => {},
    }
    assert(out@ =~= plan_line(from@, to@, match via {
        Some(v) => Some(v@),
        None => None,
    }));
    out
}

/// An optional byte slice, by its view.
pub open spec fn opt_bytes(v: Option<&[u8]>) -> Option<Seq<u8>> {
    match v {
        Some(b) => Some(b@),
        None => None,
    }
}

/// The lines that record a planned rename. A run's `RUN` marker is written with its
/// first rename rather than when it starts: a run that renames nothing leaves no
/// trace, so an empty run never becomes the most recent one and hides the real one
/// from `--undo`.
pub fn plan_records(started: bool, from: &[u8], to: &[u8], via: Option<&[u8]>) -> (r: Vec<String>)
    ensures
        lines_view(r@) == if started {
            seq![plan_line(from@, to@, opt_bytes(via))]
        } else {
            seq![run_line(), plan_line(from@, to@, opt_bytes(via))]
        },
{
    let mut out: Vec<String> = Vec::new();
    if !started {
        out.push(run_record());
    }
    out.push(plan_record(from, to, via));
    assert(lines_view(out@) =~= if started {
        seq![plan_line(from@, to@, opt_bytes(via))]
    } else {
        seq![run_line(), plan_line(from@, to@, opt_bytes(via))]
    });
    out
}

/// `DONE` and the encoded source and target.
pub fn commit_record(from: &[u8], to: &[u8]) -> (r: String)
    ensures
        r@ == done_line(from@, to@),
{
    let mut out = String::new();
    push_char(&mut out, 'D');
    push_char(&mut out, 'O');
    push_char(&mut out, 'N');
    push_char(&mut out, 'E');
    push_char(&mut out, '\t');
    push_str_chars(&mut out, &encode(from));
    push_char(&mut out, '\t');
    push_str_chars(&mut out, &encode(to));
    assert(out@ =~= done_line(from@, to@));
    out
}

// ── Reading a run back ──────────────────────────────────────────────────────────

/// The last run, oldest record first; empty if there is nothing to undo.
pub open spec fn last_run_spec(lines: Seq<Seq<char>>) -> Seq<EntryView> {
    let runs = parse_spec(lines);
    if runs.len() == 0 {
        Seq::empty()
    } else {
        runs.last()
    }
}

/// The most recent run, oldest record first. Empty if there is nothing to undo.
pub fn last_run(lines: &[String]) -> (r: Vec<Entry>)
    ensures
        r@.map_values(|e: Entry| e@) == last_run_spec(lines_view(lines@)),
{
    let mut runs = parse(lines);
    match runs.pop() {
        Some(run) => run,
        None => {
            let empty: Vec<Entry> = Vec::new();
            assert(empty@.map_values(|e: Entry| e@) =~= Seq::<EntryView>::empty());
            empty
        },
    }
}

/// Does the line start with `RUN`?
pub open spec fn starts_run(line: Seq<char>) -> bool {
    line.len() >= 3 && line[0] == 'R' && line[1] == 'U' && line[2] == 'N'
}

pub fn line_starts_run(line: &String) -> (r: bool)
    ensures
        r == starts_run(line@),
{
    let chars = chars_of(line.as_str());
    chars.len() >= 3 && chars[0] == 'R' && chars[1] == 'U' && chars[2] == 'N'
}

/// The position of the last line that starts with `RUN`.
pub open spec fn last_run_start(lines: Seq<Seq<char>>) -> Option<int>
    decreases lines.len(),
{
    if lines.len() == 0 {
        None
    } else if starts_run(lines.last()) {
        Some(lines.len() - 1)
    } else {
        last_run_start(lines.drop_last())
    }
}

/// Where the file is cut to forget the most recent run: at the last line that starts
/// with `RUN`, or nowhere.
pub open spec fn drop_cut_spec(lines: Seq<Seq<char>>) -> int {
    match last_run_start(lines) {
        Some(j) => j,
        None => lines.len() as int,
    }
}

pub fn drop_last_run_cut(lines: &[String]) -> (r: usize)
    ensures
        r as int == drop_cut_spec(lines_view(lines@)),
{
    let ghost lv = lines_view(lines@);
    let mut end = lines.len();
    assert(lv.take(end as int) =~= lv);
    while end > 0
        invariant
            end <= lines.len(),
            lv == lines_view(lines@),
            last_run_start(lv) == last_run_start(lv.take(end as int)),
        decreases end,
    {
        assert(lv.take(end as int).drop_last() =~= lv.take(end - 1));
        if line_starts_run(&lines[end - 1]) {
            return end - 1;
        }
        end -= 1;
    }
    lines.len()
}

/// Runs kept when the journal is trimmed.
pub const KEEP_RUNS: usize = 20;

/// The indices of the lines before `end` that start with `RUN`.
pub open spec fn run_starts(lines: Seq<Seq<char>>, end: int) -> Seq<int>
    decreases end,
{
    if end <= 0 {
        Seq::empty()
    } else if starts_run(lines[end - 1]) {
        run_starts(lines, end - 1).push(end - 1)
    } else {
        run_starts(lines, end - 1)
    }
}

/// The first line kept when the journal is trimmed to its last `KEEP_RUNS` runs.
pub open spec fn trim_keep_spec(lines: Seq<Seq<char>>) -> int {
    let starts = run_starts(lines, lines.len() as int);
    let cut = if starts.len() > KEEP_RUNS {
        starts.len() - KEEP_RUNS
    } else {
        0
    };
    if cut < starts.len() {
        starts[cut]
    } else {
        0
    }
}

pub fn trim_keep(lines: &[String]) -> (r: usize)
    ensures
        r as int == trim_keep_spec(lines_view(lines@)),
{
    let ghost lv = lines_view(lines@);
    let mut starts: Vec<usize> = Vec::new();
    let mut i: usize = 0;
    while i < lines.len()
        invariant
            i <= lines.len(),
            lv == lines_view(lines@),
            starts@.map_values(|x: usize| x as int) == run_starts(lv, i as int),
        decreases lines.len() - i,
    {
        if line_starts_run(&lines[i]) {
            starts.push(i);
        }
        i += 1;
        assert(starts@.map_values(|x: usize| x as int) =~= run_starts(lv, i as int));
    }
    let cut = if starts.len() > KEEP_RUNS {
        starts.len() - KEEP_RUNS
    } else {
        0
    };
    if cut < starts.len() {
        assert(starts@.map_values(|x: usize| x as int)[cut as int] == starts@[cut as int] as int);
        starts[cut]
    } else {
        0
    }
}

// ── Laws of the format ──────────────────────────────────────────────────────────

/// A sequence of characters without a tab.
pub open spec fn tab_free(s: Seq<char>) -> bool {
    forall|i: int| 0 <= i < s.len() ==> s[i] != '\t'
}

/// An encoded path is printable ASCII, so it holds no tab and no line break and
/// cannot forge a record.
pub proof fn encoding_cannot_forge_a_record(b: Seq<u8>)
    ensures
        forall|i: int|
            0 <= i < encode_spec(b).len() ==> 0x20 <= #[trigger] (encode_spec(b)[i] as u32) <= 0x7e,
        tab_free(encode_spec(b)),
        forall|i: int| 0 <= i < encode_spec(b).len() ==> #[trigger] encode_spec(b)[i] != '\n',
{
    lemma_encode_ascii(b);
    assert forall|i: int| 0 <= i < encode_spec(b).len() implies encode_spec(b)[i] != '\t' by {
        assert(0x20 <= (encode_spec(b)[i] as u32));
    }
    assert forall|i: int| 0 <= i < encode_spec(b).len() implies #[trigger] encode_spec(b)[i] != '\n' by {
        assert(0x20 <= (encode_spec(b)[i] as u32));
    }
}

/// Decoding the encoding of a path gives back the path, byte for byte — including a
/// path that is not valid UTF-8.
pub proof fn encoding_round_trips(b: Seq<u8>)
    ensures
        decode_spec(encode_spec(b)) == b,
{
    lemma_decode_encode(b);
}

pub proof fn lemma_encode_len(b: Seq<u8>)
    ensures
        encode_spec(b).len() >= b.len(),
    decreases b.len(),
{
    if b.len() > 0 {
        lemma_encode_len(b.drop_first());
    }
}

pub proof fn lemma_fields_single(b: Seq<char>)
    requires
        tab_free(b),
    ensures
        fields_of(b) == seq![b],
    decreases b.len(),
{
    if b.len() == 0 {
        assert(b =~= Seq::<char>::empty());
        assert(fields_of(b) =~= seq![b]);
    } else {
        assert(tab_free(b.drop_last())) by {
            assert forall|i: int| 0 <= i < b.drop_last().len() implies b.drop_last()[i] != '\t' by {
                assert(b.drop_last()[i] == b[i]);
            }
        }
        assert(b[b.len() - 1] != '\t');
        lemma_fields_single(b.drop_last());
        assert(b.drop_last().push(b.last()) =~= b);
        assert(fields_of(b) =~= seq![b]);
    }
}

pub proof fn lemma_fields_append(a: Seq<char>, b: Seq<char>)
    requires
        tab_free(b),
    ensures
        fields_of(a + seq!['\t'] + b) == fields_of(a).push(b),
    decreases b.len(),
{
    let at = a + seq!['\t'];
    if b.len() == 0 {
        assert(at + b =~= at);
        assert(at.drop_last() =~= a);
        assert(at.last() == '\t');
        assert(b =~= Seq::<char>::empty());
        assert(fields_of(at) == fields_of(at.drop_last()).push(Seq::empty()));
    } else {
        assert(tab_free(b.drop_last())) by {
            assert forall|i: int| 0 <= i < b.drop_last().len() implies b.drop_last()[i] != '\t' by {
                assert(b.drop_last()[i] == b[i]);
            }
        }
        assert(b[b.len() - 1] != '\t');
        lemma_fields_append(a, b.drop_last());
        assert((at + b).drop_last() =~= at + b.drop_last());
        assert((at + b).last() == b.last());
        assert(b.drop_last().push(b.last()) =~= b);
        assert(fields_of(at + b) =~= fields_of(a).push(b));
    }
}

/// The via field of a plan line: the temporary name's encoding, or nothing.
pub open spec fn via_field(via: Option<Seq<u8>>) -> Seq<char> {
    match via {
        Some(v) => encode_spec(v),
        None => Seq::empty(),
    }
}

pub proof fn lemma_plan_fields(from: Seq<u8>, to: Seq<u8>, via: Option<Seq<u8>>)
    ensures
        fields_of(plan_line(from, to, via)) == seq![
            plan_word(),
            encode_spec(from),
            encode_spec(to),
            via_field(via),
        ],
{
    encoding_cannot_forge_a_record(from);
    encoding_cannot_forge_a_record(to);
    match via {
        Some(v) => encoding_cannot_forge_a_record(v),
        None => {},
    }
    assert(tab_free(via_field(via)));
    assert(tab_free(plan_word()));
    lemma_fields_single(plan_word());
    let a1 = plan_word() + seq!['\t'] + encode_spec(from);
    lemma_fields_append(plan_word(), encode_spec(from));
    let a2 = a1 + seq!['\t'] + encode_spec(to);
    lemma_fields_append(a1, encode_spec(to));
    lemma_fields_append(a2, via_field(via));
    assert(plan_line(from, to, via) =~= a2 + seq!['\t'] + via_field(via));
    assert(fields_of(plan_line(from, to, via)) =~= seq![
        plan_word(),
        encode_spec(from),
        encode_spec(to),
        via_field(via),
    ]);
}

pub proof fn lemma_done_fields(from: Seq<u8>, to: Seq<u8>)
    ensures
        fields_of(done_line(from, to)) == seq![done_word(), encode_spec(from), encode_spec(to)],
{
    encoding_cannot_forge_a_record(from);
    encoding_cannot_forge_a_record(to);
    assert(tab_free(done_word()));
    lemma_fields_single(done_word());
    let a1 = done_word() + seq!['\t'] + encode_spec(from);
    lemma_fields_append(done_word(), encode_spec(from));
    lemma_fields_append(a1, encode_spec(to));
    assert(fields_of(done_line(from, to)) =~= seq![
        done_word(),
        encode_spec(from),
        encode_spec(to),
    ]);
}

/// One rename as it is recorded: source, target and temporary name.
pub type RenameRecord = (Seq<u8>, Seq<u8>, Option<Seq<u8>>);

/// The lines a run writes for its renames, a `PLAN` and a `DONE` for each.
pub open spec fn rename_lines(rs: Seq<RenameRecord>) -> Seq<Seq<char>>
    decreases rs.len(),
{
    if rs.len() == 0 {
        Seq::empty()
    } else {
        let r = rs.last();
        rename_lines(rs.drop_last()) + seq![plan_line(r.0, r.1, r.2), done_line(r.0, r.1)]
    }
}

/// The entries a completed run should read back as.
pub open spec fn committed_entries(rs: Seq<RenameRecord>) -> Seq<EntryView> {
    rs.map_values(|r: RenameRecord| EntryView { from: r.0, to: r.1, via: r.2, committed: true })
}

/// A temporary name, when there is one, is not empty.
pub open spec fn via_nonempty(via: Option<Seq<u8>>) -> bool {
    match via {
        Some(v) => v.len() > 0,
        None => true,
    }
}

/// Every rename's temporary name, when there is one, is not empty: an empty one is
/// written as an empty field and read back as none.
pub open spec fn records_well_formed(rs: Seq<RenameRecord>) -> bool {
    forall|i: int| 0 <= i < rs.len() ==> via_nonempty((#[trigger] rs[i]).2)
}

proof fn lemma_parse_push(lines: Seq<Seq<char>>, x: Seq<char>)
    ensures
        parse_spec(lines.push(x)) == parse_line(parse_spec(lines), x),
{
    assert(lines.push(x).drop_last() =~= lines);
}

/// The entry a `PLAN` line for `r` reads back as.
pub open spec fn planned_entry(r: RenameRecord) -> EntryView {
    EntryView { from: r.0, to: r.1, via: r.2, committed: false }
}

proof fn lemma_words_differ()
    ensures
        plan_word() != run_word(),
        done_word() != run_word(),
        done_word() != plan_word(),
{
    assert(plan_word().len() != run_word().len());
    assert(done_word().len() != run_word().len());
    assert(done_word()[0] != plan_word()[0]);
}

proof fn lemma_after_plan(base: Seq<Seq<EntryView>>, run: Seq<EntryView>, r: RenameRecord)
    requires
        via_nonempty(r.2),
    ensures
        parse_line(base.push(run), plan_line(r.0, r.1, r.2)) == base.push(
            run.push(planned_entry(r)),
        ),
{
    lemma_plan_fields(r.0, r.1, r.2);
    lemma_words_differ();
    encoding_round_trips(r.0);
    encoding_round_trips(r.1);
    match r.2 {
        Some(v) => {
            encoding_round_trips(v);
            lemma_encode_len(v);
        },
        None => {},
    }
    assert(base.push(run).update(base.len() as int, run.push(planned_entry(r))) =~= base.push(
        run.push(planned_entry(r)),
    ));
}

proof fn lemma_after_done(base: Seq<Seq<EntryView>>, run: Seq<EntryView>, r: RenameRecord)
    requires
        run.len() > 0,
        run.last().from == r.0,
        run.last().to == r.1,
    ensures
        parse_line(base.push(run), done_line(r.0, r.1)) == base.push(
            run.update(run.len() - 1, EntryView { committed: true, ..run.last() }),
        ),
{
    lemma_done_fields(r.0, r.1);
    lemma_words_differ();
    encoding_round_trips(r.0);
    encoding_round_trips(r.1);
    assert(last_match(run, r.0, r.1, run.len() as int) == Some(run.len() - 1));
    assert(base.push(run).update(
        base.len() as int,
        run.update(run.len() - 1, EntryView { committed: true, ..run.last() }),
    ) =~= base.push(run.update(run.len() - 1, EntryView { committed: true, ..run.last() })));
}

/// Reading back what a run wrote: after a `RUN` line and a `PLAN` and `DONE` line for
/// each rename, the journal holds one more run, and that run is exactly those renames,
/// in order, each committed.
pub proof fn a_completed_run_reads_back(lines: Seq<Seq<char>>, rs: Seq<RenameRecord>)
    requires
        records_well_formed(rs),
    ensures
        parse_spec(lines.push(run_line()) + rename_lines(rs)) == parse_spec(lines).push(
            committed_entries(rs),
        ),
    decreases rs.len(),
{
    let base = parse_spec(lines);
    if rs.len() == 0 {
        assert(lines.push(run_line()) + rename_lines(rs) =~= lines.push(run_line()));
        lemma_parse_push(lines, run_line());
        lemma_fields_single(run_line());
        assert(committed_entries(rs) =~= Seq::<EntryView>::empty());
    } else {
        let rs0 = rs.drop_last();
        let r = rs.last();
        assert(records_well_formed(rs0)) by {
            assert forall|i: int| 0 <= i < rs0.len() implies via_nonempty((#[trigger] rs0[i]).2) by {
                assert(rs0[i] == rs[i]);
            }
        }
        assert(via_nonempty(rs[rs.len() - 1].2));
        a_completed_run_reads_back(lines, rs0);
        let x = lines.push(run_line()) + rename_lines(rs0);
        let p = plan_line(r.0, r.1, r.2);
        let d = done_line(r.0, r.1);
        assert(lines.push(run_line()) + rename_lines(rs) =~= x.push(p).push(d));
        lemma_parse_push(x.push(p), d);
        lemma_parse_push(x, p);
        let e0 = committed_entries(rs0);
        lemma_after_plan(base, e0, r);
        let run = e0.push(planned_entry(r));
        lemma_after_done(base, run, r);
        assert(run.update(run.len() - 1, EntryView { committed: true, ..run.last() })
            =~= committed_entries(rs));
    }
}

/// What `--undo` reads back after a completed run is that run.
pub proof fn undo_sees_the_last_run(lines: Seq<Seq<char>>, rs: Seq<RenameRecord>)
    requires
        records_well_formed(rs),
    ensures
        last_run_spec(lines.push(run_line()) + rename_lines(rs)) == committed_entries(rs),
{
    a_completed_run_reads_back(lines, rs);
}

// ── Forgetting a run ────────────────────────────────────────────────────────────

/// The first field of a line is a prefix of it, and the whole line when there is no
/// tab.
proof fn lemma_first_field_prefix(line: Seq<char>)
    ensures
        fields_of(line).len() >= 1,
        fields_of(line)[0].len() <= line.len(),
        fields_of(line)[0] == line.take(fields_of(line)[0].len() as int),
        fields_of(line).len() == 1 ==> fields_of(line)[0] == line,
    decreases line.len(),
{
    if line.len() == 0 {
        assert(line.take(0) =~= Seq::<char>::empty());
    } else {
        let prev = line.drop_last();
        lemma_first_field_prefix(prev);
        let f = fields_of(prev);
        assert(prev.take(f[0].len() as int) =~= line.take(f[0].len() as int));
        if line.last() != '\t' && f.len() == 1 {
            assert(f[0].push(line.last()) =~= line);
            assert(line.take(line.len() as int) =~= line);
        }
    }
}

/// Every line that starts with `RUN` is a run marker. Lines written by a run always
/// are; a corrupt `RUNX` line would not be.
pub open spec fn markers_consistent(lines: Seq<Seq<char>>) -> bool {
    forall|i: int| 0 <= i < lines.len() && starts_run(#[trigger] lines[i]) ==> fields_of(
        lines[i],
    )[0] == run_word()
}

proof fn lemma_marker_starts_run(line: Seq<char>)
    requires
        fields_of(line)[0] == run_word(),
    ensures
        starts_run(line),
{
    lemma_first_field_prefix(line);
    let w = fields_of(line)[0];
    assert(line.take(3) == w);
    assert(line[0] == w[0] && line[1] == w[1] && line[2] == w[2]);
}

proof fn lemma_last_run_start_range(lines: Seq<Seq<char>>)
    ensures
        last_run_start(lines) matches Some(j) ==> 0 <= j < lines.len(),
    decreases lines.len(),
{
    if lines.len() > 0 && !starts_run(lines.last()) {
        lemma_last_run_start_range(lines.drop_last());
    }
}

proof fn lemma_parse_len(lines: Seq<Seq<char>>)
    ensures
        parse_spec(lines).len() > 0 ==> last_run_start(lines) is Some,
    decreases lines.len(),
{
    if lines.len() > 0 {
        let prev = lines.drop_last();
        lemma_parse_len(prev);
        let x = lines.last();
        lemma_fields_nonempty(x);
        if fields_of(x)[0] == run_word() {
            lemma_marker_starts_run(x);
        }
    }
}

/// Forgetting the most recent run: cutting the journal at the last line that starts
/// with `RUN` leaves exactly the runs before it.
pub proof fn dropping_the_last_run_forgets_only_it(lines: Seq<Seq<char>>)
    requires
        markers_consistent(lines),
        parse_spec(lines).len() > 0,
    ensures
        parse_spec(lines.take(drop_cut_spec(lines))) == parse_spec(lines).drop_last(),
    decreases lines.len(),
{
    let n = lines.len() as int;
    let prev = lines.drop_last();
    let x = lines.last();
    lemma_fields_nonempty(x);
    if starts_run(x) {
        assert(fields_of(lines[n - 1])[0] == run_word());
        assert(lines.take(n - 1) =~= prev);
        assert(parse_spec(lines) == parse_spec(prev).push(Seq::empty()));
        assert(parse_spec(lines).drop_last() =~= parse_spec(prev));
    } else {
        if fields_of(x)[0] == run_word() {
            lemma_marker_starts_run(x);
        }
        assert(markers_consistent(prev)) by {
            assert forall|i: int| 0 <= i < prev.len() && starts_run(#[trigger] prev[i]) implies fields_of(
                prev[i],
            )[0] == run_word() by {
                assert(prev[i] == lines[i]);
            }
        }
        assert(parse_spec(prev).len() > 0);
        dropping_the_last_run_forgets_only_it(prev);
        lemma_parse_len(prev);
        lemma_last_run_start_range(prev);
        let j = last_run_start(prev)->0;
        assert(drop_cut_spec(lines) == drop_cut_spec(prev));
        assert(lines.take(j) =~= prev.take(j));
        assert(parse_spec(lines).drop_last() =~= parse_spec(prev).drop_last());
    }
}

// ── Where the journal lives ─────────────────────────────────────────────────────

/// `a` joined with the relative path `b` as `Path::join` does on Unix: a `/` between
/// them unless `a` is empty or already ends in one.
pub open spec fn join_unix(a: Seq<u8>, b: Seq<u8>) -> Seq<u8> {
    if a.len() > 0 && a.last() != 0x2Fu8 {
        a + seq![0x2Fu8] + b
    } else {
        a + b
    }
}

/// `a` joined with the relative path `b` as `Path::join` does on Windows: a `\`
/// between them unless `a` is empty, already ends in `/` or `\`, or is a bare drive
/// such as `C:`. A verbatim `\\?\` base is joined the same way here, where
/// `Path::join` would also normalize its components.
pub open spec fn join_windows(a: Seq<u8>, b: Seq<u8>) -> Seq<u8> {
    let drive = a.len() == 2 && a[1] == 0x3Au8 && ((0x41u8 <= a[0] && a[0] <= 0x5Au8) || (0x61u8
        <= a[0] && a[0] <= 0x7Au8));
    if a.len() > 0 && a.last() != 0x2Fu8 && a.last() != 0x5Cu8 && !drive {
        a + seq![0x5Cu8] + b
    } else {
        a + b
    }
}

/// `keb`.
pub open spec fn keb_dir() -> Seq<u8> {
    seq![0x6Bu8, 0x65u8, 0x62u8]
}

/// `journal.tsv`.
pub open spec fn journal_file() -> Seq<u8> {
    seq![0x6Au8, 0x6Fu8, 0x75u8, 0x72u8, 0x6Eu8, 0x61u8, 0x6Cu8, 0x2Eu8, 0x74u8, 0x73u8, 0x76u8]
}

/// `.local/state`.
pub open spec fn local_state() -> Seq<u8> {
    seq![0x2Eu8, 0x6Cu8, 0x6Fu8, 0x63u8, 0x61u8, 0x6Cu8, 0x2Fu8, 0x73u8, 0x74u8, 0x61u8, 0x74u8, 0x65u8]
}

/// The state directory on Unix: `$XDG_STATE_HOME` when it is absolute (starts with
/// `/`), otherwise `$HOME/.local/state`, otherwise none.
pub open spec fn state_dir_spec(xdg_state_home: Option<Seq<u8>>, home: Option<Seq<u8>>) -> Option<
    Seq<u8>,
> {
    match xdg_state_home {
        Some(x) if x.len() > 0 && x[0] == 0x2Fu8 => Some(x),
        _ => match home {
            Some(h) => Some(join_unix(h, local_state())),
            None => None,
        },
    }
}

/// Where the journal lives on Unix: `keb/journal.tsv` in the state directory.
pub open spec fn journal_path_spec(xdg_state_home: Option<Seq<u8>>, home: Option<Seq<u8>>) -> Option<
    Seq<u8>,
> {
    match state_dir_spec(xdg_state_home, home) {
        Some(d) => Some(join_unix(join_unix(d, keb_dir()), journal_file())),
        None => None,
    }
}

/// Where the journal lives on Windows: `keb\journal.tsv` in `%LOCALAPPDATA%`.
pub open spec fn journal_path_windows_spec(local_app_data: Option<Seq<u8>>) -> Option<Seq<u8>> {
    match local_app_data {
        Some(d) => Some(join_windows(join_windows(d, keb_dir()), journal_file())),
        None => None,
    }
}

/// An optional byte vector, by its view.
pub open spec fn opt_vec(v: Option<Vec<u8>>) -> Option<Seq<u8>> {
    match v {
        Some(b) => Some(b@),
        None => None,
    }
}

fn append_bytes(out: &mut Vec<u8>, b: &Vec<u8>)
    ensures
        final(out)@ == old(out)@ + b@,
{
    let mut i: usize = 0;
    while i < b.len()
        invariant
            i <= b@.len(),
            out@ == old(out)@ + b@.take(i as int),
        decreases b.len() - i,
    {
        out.push(b[i]);
        i += 1;
        assert(out@ =~= old(out)@ + b@.take(i as int));
    }
    assert(b@.take(b@.len() as int) =~= b@);
}

fn join_unix_exec(a: &Vec<u8>, b: &Vec<u8>) -> (r: Vec<u8>)
    ensures
        r@ == join_unix(a@, b@),
{
    let mut out: Vec<u8> = Vec::new();
    append_bytes(&mut out, a);
    if a.len() > 0 && a[a.len() - 1] != 0x2F {
        out.push(0x2F);
    }
    append_bytes(&mut out, b);
    assert(out@ =~= join_unix(a@, b@));
    out
}

fn join_windows_exec(a: &Vec<u8>, b: &Vec<u8>) -> (r: Vec<u8>)
    ensures
        r@ == join_windows(a@, b@),
{
    let drive = a.len() == 2 && a[1] == 0x3A && ((0x41 <= a[0] && a[0] <= 0x5A) || (0x61 <= a[0]
        && a[0] <= 0x7A));
    let mut out: Vec<u8> = Vec::new();
    append_bytes(&mut out, a);
    if a.len() > 0 && a[a.len() - 1] != 0x2F && a[a.len() - 1] != 0x5C && !drive {
        out.push(0x5C);
    }
    append_bytes(&mut out, b);
    assert(out@ =~= join_windows(a@, b@));
    out
}

fn keb_dir_bytes() -> (r: Vec<u8>)
    ensures
        r@ == keb_dir(),
{
    let r = vec![0x6Bu8, 0x65u8, 0x62u8];
    assert(r@ =~= keb_dir());
    r
}

fn journal_file_bytes() -> (r: Vec<u8>)
    ensures
        r@ == journal_file(),
{
    let r = vec![0x6Au8, 0x6Fu8, 0x75u8, 0x72u8, 0x6Eu8, 0x61u8, 0x6Cu8, 0x2Eu8, 0x74u8, 0x73u8, 0x76u8];
    assert(r@ =~= journal_file());
    r
}

/// Where the journal lives on Unix, from `$XDG_STATE_HOME` and `$HOME` as the
/// environment holds them (`None` when unset). These say where to put a file, never
/// what the tool does to a name.
pub fn journal_path(xdg_state_home: Option<Vec<u8>>, home: Option<Vec<u8>>) -> (r: Option<Vec<u8>>)
    ensures
        opt_vec(r) == journal_path_spec(opt_vec(xdg_state_home), opt_vec(home)),
{
    let base = match xdg_state_home {
        Some(x) if x.len() > 0 && x[0] == 0x2F => Some(x),
        _ => match home {
            Some(h) => {
                let ls = vec![0x2Eu8, 0x6Cu8, 0x6Fu8, 0x63u8, 0x61u8, 0x6Cu8, 0x2Fu8, 0x73u8, 0x74u8, 0x61u8, 0x74u8, 0x65u8];
                assert(ls@ =~= local_state());
                Some(join_unix_exec(&h, &ls))
            },
            None => None,
        },
    };
    assert(opt_vec(base) == state_dir_spec(opt_vec(xdg_state_home), opt_vec(home)));
    match base {
        Some(d) => {
            let dir = join_unix_exec(&d, &keb_dir_bytes());
            Some(join_unix_exec(&dir, &journal_file_bytes()))
        },
        None => None,
    }
}

/// Where the journal lives on Windows, from `%LOCALAPPDATA%`.
pub fn journal_path_windows(local_app_data: Option<Vec<u8>>) -> (r: Option<Vec<u8>>)
    ensures
        opt_vec(r) == journal_path_windows_spec(opt_vec(local_app_data)),
{
    match local_app_data {
        Some(d) => {
            let dir = join_windows_exec(&d, &keb_dir_bytes());
            Some(join_windows_exec(&dir, &journal_file_bytes()))
        },
        None => None,
    }
}

// ── Reading the journal, as a whole ────────────────────────────────────────────

/// Whether a line is a run marker: its first field is exactly `RUN`.
pub open spec fn is_marker(line: Seq<char>) -> bool {
    fields_of(line)[0] == run_word()
}

/// How many of `lines` are run markers.
pub open spec fn markers(lines: Seq<Seq<char>>) -> nat
    decreases lines.len(),
{
    if lines.len() == 0 {
        0
    } else {
        markers(lines.drop_last()) + if is_marker(lines.last()) {
            1nat
        } else {
            0nat
        }
    }
}

/// The runs after reading `lines` on top of `runs`.
pub open spec fn parse_onto(runs: Seq<Seq<EntryView>>, lines: Seq<Seq<char>>) -> Seq<
    Seq<EntryView>,
>
    decreases lines.len(),
{
    if lines.len() == 0 {
        runs
    } else {
        parse_line(parse_onto(runs, lines.drop_last()), lines.last())
    }
}

proof fn lemma_parse_concat(a: Seq<Seq<char>>, b: Seq<Seq<char>>)
    ensures
        parse_spec(a + b) == parse_onto(parse_spec(a), b),
    decreases b.len(),
{
    if b.len() == 0 {
        assert(a + b =~= a);
    } else {
        lemma_parse_concat(a, b.drop_last());
        assert((a + b).drop_last() =~= a + b.drop_last());
    }
}

proof fn lemma_parse_count(lines: Seq<Seq<char>>)
    ensures
        parse_spec(lines).len() == markers(lines),
    decreases lines.len(),
{
    if lines.len() > 0 {
        lemma_parse_count(lines.drop_last());
    }
}

/// Reading the journal: there are as many runs as lines whose first tab field is
/// exactly `RUN` ([`markers`]), and whatever stands before the first such line is
/// ignored. What each other line adds to the latest run is
/// [`reading_one_more_line`].
pub proof fn every_marker_opens_one_run(pre: Seq<Seq<char>>, lines: Seq<Seq<char>>)
    requires
        markers(pre) == 0,
    ensures
        parse_spec(lines).len() == markers(lines),
        parse_spec(pre + lines) == parse_spec(lines),
{
    lemma_parse_count(lines);
    lemma_parse_count(pre);
    lemma_parse_concat(pre, lines);
    lemma_parse_concat(Seq::empty(), lines);
    assert(Seq::<Seq<char>>::empty() + lines =~= lines);
    assert(parse_spec(pre) =~= Seq::<Seq<EntryView>>::empty());
    assert(parse_spec(Seq::<Seq<char>>::empty()) =~= Seq::<Seq<EntryView>>::empty());
}


/// Whether entry `j` of `run` is the last before `end` to record `from` to `to`.
pub open spec fn is_last_match(run: Seq<EntryView>, from: Seq<u8>, to: Seq<u8>, end: int, j: int) -> bool {
    &&& 0 <= j < end
    &&& path_key(run[j].from) == path_key(from) && path_key(run[j].to) == path_key(to)
    &&& forall|k: int|
        j < k < end ==> !(path_key(#[trigger] run[k].from) == path_key(from) && path_key(run[k].to)
            == path_key(to))
}

proof fn lemma_last_match(run: Seq<EntryView>, from: Seq<u8>, to: Seq<u8>, end: int)
    ensures
        last_match(run, from, to, end) matches Some(j) ==> is_last_match(run, from, to, end, j),
        last_match(run, from, to, end) is None ==> forall|k: int|
            0 <= k < end ==> !(path_key(#[trigger] run[k].from) == path_key(from) && path_key(
                run[k].to,
            ) == path_key(to)),
    decreases end,
{
    if end > 0 {
        lemma_last_match(run, from, to, end - 1);
    }
}

/// What one more line does to the runs read so far: a `RUN` marker opens a new, empty
/// run; before the first marker, and for any line that is neither a marker nor a
/// `PLAN` or `DONE` record with both names, nothing changes. A `PLAN` record appends
/// one uncommitted entry, with its names, to the latest run. A `DONE` record commits
/// the latest entry of the latest run that records the same two paths, compared
/// component by component ([`path_key`]), if there is one, and changes nothing else.
pub proof fn reading_one_more_line(lines: Seq<Seq<char>>, line: Seq<char>)
    ensures
        ({
            let before = parse_spec(lines);
            let after = parse_spec(lines.push(line));
            let f = fields_of(line);
            &&& f[0] == run_word() ==> after == before.push(Seq::empty())
            &&& f[0] != run_word() && (before.len() == 0 || f.len() < 3 || (f[0] != plan_word()
                && f[0] != done_word())) ==> after == before
            &&& f[0] == plan_word() && f.len() >= 3 && before.len() > 0 ==> {
                &&& after.len() == before.len()
                &&& after.drop_last() == before.drop_last()
                &&& after.last().drop_last() == before.last()
                &&& after.last().last().from == decode_spec(f[1])
                &&& after.last().last().to == decode_spec(f[2])
                &&& !after.last().last().committed
            }
            &&& f[0] == done_word() && f.len() >= 3 && before.len() > 0 ==> {
                let from = decode_spec(f[1]);
                let to = decode_spec(f[2]);
                let run = before.last();
                &&& after.len() == before.len()
                &&& after.drop_last() == before.drop_last()
                &&& after.last().len() == run.len()
                &&& forall|i: int|
                    0 <= i < run.len() ==> (#[trigger] after.last()[i]).from == run[i].from
                        && after.last()[i].to == run[i].to && after.last()[i].via == run[i].via
                        && after.last()[i].committed == (run[i].committed || is_last_match(
                        run,
                        from,
                        to,
                        run.len() as int,
                        i,
                    ))
            }
        }),
{
    let before = parse_spec(lines);
    let f = fields_of(line);
    assert(lines.push(line).drop_last() =~= lines);
    if f[0] != run_word() && before.len() > 0 && f[0] == done_word() && f.len() >= 3 {
        let from = decode_spec(f[1]);
        let to = decode_spec(f[2]);
        let run = before.last();
        lemma_last_match(run, from, to, run.len() as int);
        assert forall|i: int, j: int|
            is_last_match(run, from, to, run.len() as int, i) && is_last_match(
                run,
                from,
                to,
                run.len() as int,
                j,
            ) implies i == j by {
            if i < j {
                assert(!(path_key(run[j].from) == path_key(from) && path_key(run[j].to) == path_key(
                    to,
                )));
            } else if j < i {
                assert(!(path_key(run[i].from) == path_key(from) && path_key(run[i].to) == path_key(
                    to,
                )));
            }
        }
    }
}

} // verus!

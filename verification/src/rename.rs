//! The decisions behind a rename: where a name lands once collisions are resolved,
//! and the temporary names a two-step rename passes through. The filesystem queries
//! and the renames themselves are the caller's.

use vstd::prelude::*;

use crate::journal::{bytes_equal, chars_equal};
use crate::name::{with_ordinal, with_ordinal_spec};
use crate::plan::{byte_views, copy_bytes};
use crate::unicode::chars_of;
use crate::Options;

verus! {

/// Where a name should land, once collisions are resolved. Each variant carries the
/// candidate name it settled on, in the directory being resolved.
pub enum Target {
    /// Free, or the same file under a different spelling.
    Free(String),
    /// Taken by a different file, and `-f` says to replace it.
    Overwrite(String),
    /// Taken by a directory, or by so many suffixed siblings that there is no name
    /// left. Refuse: no loss outranks finishing the job.
    Blocked(String),
}

/// No loss: a candidate held by another file is replaced only under `force`, and a
/// directory never, at any force level.
pub proof fn overwriting_needs_force_and_a_file(
    name: Seq<char>,
    candidate: Seq<char>,
    n: u32,
    occupant: Occupant,
    force: bool,
    opts: Options,
)
    ensures
        resolve_spec(name, candidate, n, occupant, force, opts).0 matches Some((code, _)) && code
            == 1 ==> force && occupant == (Occupant::Other { is_dir: false }),
{
}

/// Two files never collapse into one without `-f`: a name this run has assigned, and
/// not vacated since, is never where another file lands; the step moves on to the
/// next ordinal or gives up.
pub proof fn claimed_names_stay_distinct(
    name: Seq<char>,
    candidate: Seq<char>,
    n: u32,
    exists: bool,
    same_file: bool,
    is_dir: bool,
    opts: Options,
)
    ensures
        resolve_spec(
            name,
            candidate,
            n,
            occupant_spec(false, true, exists, same_file, is_dir),
            false,
            opts,
        ).0 matches Some((code, _)) ==> code == 2,
{
}

/// The outcome of trying one candidate.
pub enum Step {
    /// Settled.
    Done(Target),
    /// Taken; try this name next.
    Next(String),
}

/// Who holds a candidate name, as the caller found out.
pub enum Occupant {
    /// Nobody, or a file this run has already moved out of the way.
    Nobody,
    /// The file being renamed itself, under a different spelling.
    SameFile,
    /// Another file this run has already claimed, or another file on disk.
    Other {
        /// Whether what holds the name is a directory.
        is_dir: bool,
    },
}

/// The most suffixes tried before giving up on a name.
pub const MAX_ORDINAL: u32 = 9999;

/// One step of collision resolution for `name`, trying `candidate` (`name` itself
/// first, then `name` with ordinal `n - 1`): take a free name or the file's own; with
/// `force` replace a file but never a directory; otherwise move on to ordinal `n`, or
/// give up when that has no name or `n` is past the limit.
pub open spec fn resolve_spec(
    name: Seq<char>,
    candidate: Seq<char>,
    n: u32,
    occupant: Occupant,
    force: bool,
    opts: Options,
) -> (Option<(int, Seq<char>)>, Seq<char>) {
    match occupant {
        Occupant::Nobody => (Some((0, candidate)), Seq::empty()),
        Occupant::SameFile => (Some((0, candidate)), Seq::empty()),
        Occupant::Other { is_dir } => if force && !is_dir {
            (Some((1, candidate)), Seq::empty())
        } else {
            let next = with_ordinal_spec(name, n, opts);
            if next.len() == 0 || n > MAX_ORDINAL {
                (Some((2, candidate)), Seq::empty())
            } else {
                (None, next)
            }
        },
    }
}

/// The `k`-th name collision resolution tries for `name`: the name itself, then the
/// name with ordinal `k`.
pub open spec fn candidate(name: Seq<char>, k: int, opts: Options) -> Seq<char> {
    if k <= 1 {
        name
    } else {
        with_ordinal_spec(name, k as u32, opts)
    }
}

/// Whether a candidate held by `o` is where the file lands without replacing anything.
pub open spec fn settles(o: Occupant) -> bool {
    o is Nobody || o is SameFile
}

/// Collision resolution run to its end from the `k`-th candidate, with `occ` telling
/// who holds each name: [`resolve_spec`] applied to one candidate after the other, as
/// the caller's loop does, until a step settles. The code and name it settles on.
pub open spec fn resolve_run(
    name: Seq<char>,
    k: int,
    occ: spec_fn(Seq<char>) -> Occupant,
    force: bool,
    opts: Options,
) -> (int, Seq<char>)
    decreases MAX_ORDINAL + 1 - k,
{
    let c = candidate(name, k, opts);
    match resolve_spec(name, c, (k + 1) as u32, occ(c), force, opts).0 {
        Some(r) => r,
        None => if 1 <= k <= MAX_ORDINAL {
            resolve_run(name, k + 1, occ, force, opts)
        } else {
            (2, c)
        },
    }
}

/// Without `-f`, a name lands on the first candidate that nobody else holds: the
/// name itself, else the lowest ordinal, as long as every suffixed name up to it
/// exists and the ordinal stays within [`MAX_ORDINAL`].
pub proof fn the_first_free_candidate_wins(
    name: Seq<char>,
    occ: spec_fn(Seq<char>) -> Occupant,
    opts: Options,
    k: int,
)
    requires
        1 <= k <= MAX_ORDINAL,
        settles(occ(candidate(name, k, opts))),
        forall|j: int| 1 <= j < k ==> !settles(#[trigger] occ(candidate(name, j, opts))),
        forall|j: int| 2 <= j <= k ==> (#[trigger] candidate(name, j, opts)).len() > 0,
    ensures
        resolve_run(name, 1, occ, false, opts) == (0int, candidate(name, k, opts)),
{
    lemma_run_from(name, 1, occ, opts, k);
}

proof fn lemma_run_from(
    name: Seq<char>,
    k0: int,
    occ: spec_fn(Seq<char>) -> Occupant,
    opts: Options,
    k: int,
)
    requires
        1 <= k0 <= k <= MAX_ORDINAL,
        settles(occ(candidate(name, k, opts))),
        forall|j: int| k0 <= j < k ==> !settles(#[trigger] occ(candidate(name, j, opts))),
        forall|j: int| k0 < j <= k ==> (#[trigger] candidate(name, j, opts)).len() > 0,
    ensures
        resolve_run(name, k0, occ, false, opts) == (0int, candidate(name, k, opts)),
    decreases k - k0,
{
    if k0 < k {
        let c = candidate(name, k0, opts);
        assert(!settles(occ(c)));
        assert(candidate(name, k0 + 1, opts).len() > 0);
        assert(with_ordinal_spec(name, (k0 + 1) as u32, opts) == candidate(name, k0 + 1, opts));
        lemma_run_from(name, k0 + 1, occ, opts, k);
    }
}

/// Over the whole run, as at each step: what it settles on as free is held by nobody
/// else, so a name this run has already claimed is never handed out again; it
/// replaces only under `-f`, and only a file, never a directory.
pub proof fn a_run_settles_only_where_it_may(
    name: Seq<char>,
    k: int,
    occ: spec_fn(Seq<char>) -> Occupant,
    force: bool,
    opts: Options,
)
    ensures
        resolve_run(name, k, occ, force, opts).0 == 0 ==> settles(
            occ(resolve_run(name, k, occ, force, opts).1),
        ),
        resolve_run(name, k, occ, force, opts).0 == 1 ==> force && occ(
            resolve_run(name, k, occ, force, opts).1,
        ) == (Occupant::Other { is_dir: false }),
        0 <= resolve_run(name, k, occ, force, opts).0 <= 2,
    decreases MAX_ORDINAL + 1 - k,
{
    let c = candidate(name, k, opts);
    match resolve_spec(name, c, (k + 1) as u32, occ(c), force, opts).0 {
        Some(r) => {},
        None => if 1 <= k <= MAX_ORDINAL {
            a_run_settles_only_where_it_may(name, k + 1, occ, force, opts);
        },
    }
}

/// The step's outcome, in the same shape as [`resolve_spec`].
pub open spec fn step_view(s: Step) -> (Option<(int, Seq<char>)>, Seq<char>) {
    match s {
        Step::Done(Target::Free(c)) => (Some((0, c@)), Seq::empty()),
        Step::Done(Target::Overwrite(c)) => (Some((1, c@)), Seq::empty()),
        Step::Done(Target::Blocked(c)) => (Some((2, c@)), Seq::empty()),
        Step::Next(c) => (None, c@),
    }
}

pub fn copy_string(s: &str) -> (r: String)
    ensures
        r@ == s@,
{
    let chars = crate::unicode::chars_of(s);
    crate::unicode::string_of(&chars)
}

/// Resolve one candidate for `name`. This is where injectivity comes back: the
/// transform maps `My File` and `my_file` to the same name, and suffixing keeps the
/// two files apart.
pub fn resolve_step(
    name: &str,
    candidate: &str,
    n: u32,
    occupant: Occupant,
    force: bool,
    opts: &Options,
) -> (r: Step)
    ensures
        step_view(r) == resolve_spec(name@, candidate@, n, occupant, force, *opts),
{
    match occupant {
        Occupant::Nobody => Step::Done(Target::Free(copy_string(candidate))),
        Occupant::SameFile => Step::Done(Target::Free(copy_string(candidate))),
        Occupant::Other { is_dir } => {
            if force && !is_dir {
                return Step::Done(Target::Overwrite(copy_string(candidate)));
            }
            let next = with_ordinal(name, n, opts);
            if next.as_str().is_empty() || n > MAX_ORDINAL {
                Step::Done(Target::Blocked(copy_string(candidate)))
            } else {
                Step::Next(next)
            }
        },
    }
}

/// Paths this run has spoken for, each by its key: equal keys, equal paths.
pub struct Claims {
    /// Targets already assigned, plus sources left in place because they were
    /// already kebab case or protected.
    pub taken: Vec<Vec<u8>>,
    /// Sources renamed away, whose old names are free again.
    pub vacated: Vec<Vec<u8>>,
}

/// Whether `k` is among `keys`.
pub open spec fn holds_key(keys: Seq<Seq<u8>>, k: Seq<u8>) -> bool {
    exists|j: int| 0 <= j < keys.len() && keys[j] == k
}

fn find_key(keys: &Vec<Vec<u8>>, k: &Vec<u8>) -> (r: bool)
    ensures
        r == holds_key(byte_views(keys@), k@),
{
    let mut j: usize = 0;
    while j < keys.len()
        invariant
            j <= keys.len(),
            forall|m: int| 0 <= m < j ==> byte_views(keys@)[m] != k@,
        decreases keys.len() - j,
    {
        if bytes_equal(&keys[j], k) {
            assert(byte_views(keys@)[j as int] == k@);
            return true;
        }
        j += 1;
    }
    false
}

impl Claims {
    /// Whether this run has assigned `k`, or left a file in place under it.
    pub open spec fn is_taken(&self, k: Seq<u8>) -> bool {
        holds_key(byte_views(self.taken@), k)
    }

    /// Whether this run has moved a file away from `k`.
    pub open spec fn is_vacated(&self, k: Seq<u8>) -> bool {
        holds_key(byte_views(self.vacated@), k)
    }

    /// Speak for `k`.
    pub fn take(&mut self, k: &Vec<u8>)
        ensures
            forall|x: Seq<u8>| #[trigger] final(self).is_taken(x) == (old(self).is_taken(x) || x == k@),
            forall|x: Seq<u8>| #[trigger] final(self).is_vacated(x) == old(self).is_vacated(x),
    {
        let ghost before = byte_views(self.taken@);
        let n = k.len();
        let c = copy_bytes(k.as_slice(), 0, n);
        assert(c@ =~= k@);
        self.taken.push(c);
        assert(byte_views(self.taken@) =~= before.push(k@));
        assert forall|x: Seq<u8>| #[trigger] self.is_taken(x) == (holds_key(before, x) || x == k@) by {
            if holds_key(before, x) {
                let j = choose|j: int| 0 <= j < before.len() && before[j] == x;
                assert(byte_views(self.taken@)[j] == x);
            }
            if x == k@ {
                assert(byte_views(self.taken@)[before.len() as int] == x);
            }
        }
    }

    /// Record that the file at `k` has moved away.
    pub fn vacate(&mut self, k: &Vec<u8>)
        ensures
            forall|x: Seq<u8>| #[trigger] final(self).is_vacated(x) == (old(self).is_vacated(x) || x == k@),
            forall|x: Seq<u8>| #[trigger] final(self).is_taken(x) == old(self).is_taken(x),
    {
        let ghost before = byte_views(self.vacated@);
        let n = k.len();
        let c = copy_bytes(k.as_slice(), 0, n);
        assert(c@ =~= k@);
        self.vacated.push(c);
        assert(byte_views(self.vacated@) =~= before.push(k@));
        assert forall|x: Seq<u8>| #[trigger] self.is_vacated(x) == (holds_key(before, x) || x == k@) by {
            if holds_key(before, x) {
                let j = choose|j: int| 0 <= j < before.len() && before[j] == x;
                assert(byte_views(self.vacated@)[j] == x);
            }
            if x == k@ {
                assert(byte_views(self.vacated@)[before.len() as int] == x);
            }
        }
    }

    pub fn taken(&self, k: &Vec<u8>) -> (r: bool)
        ensures
            r == self.is_taken(k@),
    {
        find_key(&self.taken, k)
    }

    pub fn vacated(&self, k: &Vec<u8>) -> (r: bool)
        ensures
            r == self.is_vacated(k@),
    {
        find_key(&self.vacated, k)
    }

    /// Who holds the candidate `k`, given what the disk says: whether something is
    /// there, whether it is the file being renamed, and whether it is a directory.
    /// A name this run vacated is free whatever the disk says; one it assigned is
    /// another file's; otherwise the disk decides.
    pub fn occupant(&self, k: &Vec<u8>, exists: bool, same_file: bool, is_dir: bool) -> (r:
        Occupant)
        ensures
            r == occupant_spec(self.is_vacated(k@), self.is_taken(k@), exists, same_file, is_dir),
    {
        if self.vacated(k) {
            Occupant::Nobody
        } else if self.taken(k) {
            Occupant::Other { is_dir }
        } else if !exists {
            Occupant::Nobody
        } else if same_file {
            Occupant::SameFile
        } else {
            Occupant::Other { is_dir }
        }
    }
}

impl Default for Claims {
    fn default() -> (r: Claims)
        ensures
            forall|x: Seq<u8>| !(#[trigger] r.is_taken(x)),
            forall|x: Seq<u8>| !(#[trigger] r.is_vacated(x)),
    {
        Claims { taken: Vec::new(), vacated: Vec::new() }
    }
}

pub open spec fn occupant_spec(
    vacated: bool,
    taken: bool,
    exists: bool,
    same_file: bool,
    is_dir: bool,
) -> Occupant {
    if vacated {
        Occupant::Nobody
    } else if taken {
        Occupant::Other { is_dir }
    } else if !exists {
        Occupant::Nobody
    } else if same_file {
        Occupant::SameFile
    } else {
        Occupant::Other { is_dir }
    }
}

/// The lowercase form `str::to_lowercase` gives.
pub uninterp spec fn str_lowercase(s: Seq<char>) -> Seq<char>;

/// `str::to_lowercase`, which maps by the Unicode `Lowercase` mapping with a final
/// sigma rule. The result is named.
#[verifier::external_body]
fn call_str_to_lowercase(s: &str) -> (r: String)
    ensures
        r@ == str_lowercase(s@),
{
    s.to_lowercase()
}

/// Whether two existing paths are the same file, where there are no inode numbers to
/// compare: the test the filesystem itself uses, on a case-insensitive filesystem,
/// is whether the paths differ only in case. `a` and `b` are the paths' lossy text.
pub fn same_file(a_exists: bool, b_exists: bool, a: &str, b: &str) -> (r: bool)
    ensures
        r == (a_exists && b_exists && str_lowercase(a@) == str_lowercase(b@)),
{
    if !a_exists || !b_exists {
        return false;
    }
    let la = call_str_to_lowercase(a);
    let lb = call_str_to_lowercase(b);
    let ca = chars_of(la.as_str());
    let cb = chars_of(lb.as_str());
    chars_equal(&ca, &cb)
}

/// The part of renaming that is not the syscall: whether to overwrite, whether to
/// touch the disk at all, and the counter behind temporary names.
pub struct Mover {
    /// Overwrite an existing target, and rename protected names under `-r`.
    pub force: bool,
    pub dry_run: bool,
    pub counter: u32,
}

impl Mover {
    pub fn new(force: bool, dry_run: bool) -> (r: Mover)
        ensures
            r.force == force,
            r.dry_run == dry_run,
            r.counter == 0,
    {
        Mover { force, dry_run, counter: 0 }
    }

    /// The next temporary name in the target's own directory, `.keb-<pid>-<counter>`,
    /// so the intermediate step of a two-step rename never crosses a filesystem
    /// boundary.
    pub fn next_temp_name(&mut self, pid: u32) -> (r: String)
        requires
            old(self).counter < u32::MAX,
        ensures
            final(self).counter == old(self).counter + 1,
            final(self).force == old(self).force,
            final(self).dry_run == old(self).dry_run,
            r@ == temp_name_spec(pid, (old(self).counter + 1) as u32),
    {
        self.counter = self.counter + 1;
        let mut out = String::new();
        let prefix = vec!['.', 'k', 'e', 'b', '-'];
        let mut i: usize = 0;
        while i < prefix.len()
            invariant
                i <= prefix.len(),
                prefix@ == seq!['.', 'k', 'e', 'b', '-'],
                out@ == prefix@.take(i as int),
            decreases prefix.len() - i,
        {
            crate::unicode::push_char(&mut out, prefix[i]);
            i += 1;
            assert(out@ =~= prefix@.take(i as int));
        }
        push_all(&mut out, &crate::name::decimal_digits(pid));
        crate::unicode::push_char(&mut out, '-');
        push_all(&mut out, &crate::name::decimal_digits(self.counter));
        assert(out@ =~= temp_name_spec(pid, self.counter));
        out
    }
}

/// One step of a rename as the filesystem layer carries it out.
#[derive(Debug, Clone, Copy, PartialEq, Eq)]
pub enum MoveStep {
    /// Write the `PLAN` record, with the temporary name if there is one, before
    /// touching anything: the journal is write-ahead.
    Plan,
    /// `git mv`, replacing what is at the target if `replace`. When it succeeds, the
    /// rename is done and the steps up to [`MoveStep::Commit`] are skipped.
    Git {
        replace: bool,
    },
    /// Rename the source to the temporary name.
    ToTemp,
    /// Rename the temporary name to the target.
    FromTemp,
    /// Rename the source to the target in one step.
    Direct,
    /// Write the `DONE` record.
    Commit,
}

/// The steps of one rename. A dry run takes none. Otherwise: the `PLAN` record; `git
/// mv`, replacing under `-f` and for a case-only rename (the target is the source
/// under another spelling); failing that, the syscall, in two steps through a
/// temporary name for a case-only rename that has one, since a case-insensitive
/// filesystem cannot do it in one; and the `DONE` record.
pub open spec fn rename_steps_spec(dry_run: bool, force: bool, case_only: bool, have_temp: bool) -> Seq<
    MoveStep,
> {
    if dry_run {
        Seq::empty()
    } else {
        seq![MoveStep::Plan, MoveStep::Git { replace: force || case_only }] + (if case_only
            && have_temp {
            seq![MoveStep::ToTemp, MoveStep::FromTemp]
        } else {
            seq![MoveStep::Direct]
        }) + seq![MoveStep::Commit]
    }
}

/// [`rename_steps_spec`].
pub fn rename_steps(dry_run: bool, force: bool, case_only: bool, have_temp: bool) -> (r: Vec<
    MoveStep,
>)
    ensures
        r@ == rename_steps_spec(dry_run, force, case_only, have_temp),
{
    let mut steps: Vec<MoveStep> = Vec::new();
    if dry_run {
        return steps;
    }
    steps.push(MoveStep::Plan);
    steps.push(MoveStep::Git { replace: force || case_only });
    if case_only && have_temp {
        steps.push(MoveStep::ToTemp);
        steps.push(MoveStep::FromTemp);
    } else {
        steps.push(MoveStep::Direct);
    }
    steps.push(MoveStep::Commit);
    proof {
        if case_only && have_temp {
            assert(steps@ =~= rename_steps_spec(dry_run, force, case_only, have_temp));
        } else {
            assert(steps@ =~= rename_steps_spec(dry_run, force, case_only, have_temp));
        }
    }
    steps
}

/// A dry run touches nothing; a real rename records its plan before it moves anything
/// and its completion after the last move, so an interrupted rename is always in the
/// journal; and `git mv` replaces what is at the target only under `-f` or for the
/// file's own name in another case.
pub proof fn the_journal_is_written_ahead(dry_run: bool, force: bool, case_only: bool, have_temp: bool)
    ensures
        ({
            let r = rename_steps_spec(dry_run, force, case_only, have_temp);
            &&& dry_run <==> r.len() == 0
            &&& !dry_run ==> r[0] == MoveStep::Plan && r.last() == MoveStep::Commit
            &&& forall|i: int|
                0 < i < r.len() - 1 ==> #[trigger] r[i] != MoveStep::Plan && r[i] != MoveStep::Commit
            &&& forall|i: int|
                0 <= i < r.len() ==> (#[trigger] r[i] matches MoveStep::Git { replace } ==> (replace
                    <==> force || case_only))
        }),
{
}

/// `.keb-<pid>-<counter>`.
pub open spec fn temp_name_spec(pid: u32, counter: u32) -> Seq<char> {
    seq!['.', 'k', 'e', 'b', '-'] + crate::name::decimal(pid) + seq!['-'] + crate::name::decimal(
        counter,
    )
}

pub fn push_all(out: &mut String, chars: &Vec<char>)
    ensures
        final(out)@ == old(out)@ + chars@,
{
    let mut i: usize = 0;
    while i < chars.len()
        invariant
            i <= chars.len(),
            out@ == old(out)@ + chars@.take(i as int),
        decreases chars.len() - i,
    {
        crate::unicode::push_char(out, chars[i]);
        i += 1;
        assert(out@ =~= old(out)@ + chars@.take(i as int));
    }
    assert(chars@.take(chars.len() as int) =~= chars@);
}

} // verus!

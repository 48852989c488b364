//! What a recursive sweep visits, and in what order. The traversal itself, which never
//! follows a symlink and collects everything before anything is renamed, is the
//! caller's; this module filters what it finds and puts it deepest first, so that a
//! rename never invalidates a path still waiting in the queue.

use vstd::prelude::*;

verus! {

/// What `-r` should sweep up, from `--files-only` / `--dirs-only`.
#[derive(Clone, Copy, PartialEq, Eq, Debug)]
pub enum Filter {
    All,
    FilesOnly,
    DirsOnly,
}

/// Whether an entry belongs in the sweep.
pub open spec fn wanted_spec(filter: Filter, is_dir: bool) -> bool {
    match filter {
        Filter::All => true,
        Filter::FilesOnly => !is_dir,
        Filter::DirsOnly => is_dir,
    }
}

pub fn wanted(filter: Filter, is_dir: bool) -> (r: bool)
    ensures
        r == wanted_spec(filter, is_dir),
{
    match filter {
        Filter::All => true,
        Filter::FilesOnly => !is_dir,
        Filter::DirsOnly => is_dir,
    }
}

/// The filter the two flags select; `--dirs-only` wins when both are given.
pub open spec fn filter_spec(dirs_only: bool, files_only: bool) -> Filter {
    if dirs_only {
        Filter::DirsOnly
    } else if files_only {
        Filter::FilesOnly
    } else {
        Filter::All
    }
}

pub fn filter_for(dirs_only: bool, files_only: bool) -> (r: Filter)
    ensures
        r == filter_spec(dirs_only, files_only),
{
    if dirs_only {
        Filter::DirsOnly
    } else if files_only {
        Filter::FilesOnly
    } else {
        Filter::All
    }
}

// ── Path order ──────────────────────────────────────────────────────────────────

/// Byte strings compared from position `i` on: `-1`, `0` or `1`, a proper prefix
/// first.
pub open spec fn order_bytes(a: Seq<u8>, b: Seq<u8>, i: int) -> int
    decreases a.len() - i,
{
    if i >= a.len() && i >= b.len() {
        0
    } else if i >= a.len() {
        -1
    } else if i >= b.len() {
        1
    } else if a[i] < b[i] {
        -1
    } else if a[i] > b[i] {
        1
    } else {
        order_bytes(a, b, i + 1)
    }
}

/// Component lists compared from component `i` on, each component by its bytes:
/// the order paths under one root sort in.
pub open spec fn order_parts(a: Seq<Seq<u8>>, b: Seq<Seq<u8>>, i: int) -> int
    decreases a.len() - i,
{
    if i >= a.len() && i >= b.len() {
        0
    } else if i >= a.len() {
        -1
    } else if i >= b.len() {
        1
    } else if order_bytes(a[i], b[i], 0) != 0 {
        order_bytes(a[i], b[i], 0)
    } else {
        order_parts(a, b, i + 1)
    }
}

/// Whether the path with components `a` may come before the one with components
/// `b`: deeper first, and at equal depth in path order.
pub open spec fn goes_before(a: Seq<Seq<u8>>, b: Seq<Seq<u8>>) -> bool {
    a.len() > b.len() || (a.len() == b.len() && order_parts(a, b, 0) <= 0)
}

proof fn lemma_order_bytes(a: Seq<u8>, b: Seq<u8>, i: int)
    requires
        0 <= i,
    ensures
        order_bytes(a, b, i) == -order_bytes(b, a, i),
        -1 <= order_bytes(a, b, i) <= 1,
        order_bytes(a, b, i) == 0 && i <= a.len() && i <= b.len() ==> a.len() == b.len() && (forall|j: int|
            i <= j < a.len() ==> a[j] == b[j]),
    decreases a.len() - i,
{
    if i < a.len() && i < b.len() && a[i] == b[i] {
        lemma_order_bytes(a, b, i + 1);
        if order_bytes(a, b, i) == 0 {
            assert forall|j: int| i <= j < a.len() implies a[j] == b[j] by {
                if j > i {
                    assert(i + 1 <= j);
                }
            }
        }
    }
}

proof fn lemma_order_bytes_trans(a: Seq<u8>, b: Seq<u8>, c: Seq<u8>, i: int)
    requires
        0 <= i,
        order_bytes(a, b, i) <= 0,
        order_bytes(b, c, i) <= 0,
    ensures
        order_bytes(a, c, i) <= 0,
    decreases a.len() - i,
{
    if i < a.len() && i < b.len() && i < c.len() && a[i] == b[i] && b[i] == c[i] {
        lemma_order_bytes_trans(a, b, c, i + 1);
    }
}

proof fn lemma_bytes_equal(a: Seq<u8>, b: Seq<u8>)
    requires
        order_bytes(a, b, 0) == 0,
    ensures
        a == b,
{
    lemma_order_bytes(a, b, 0);
    assert(a =~= b);
}

/// A strict step and a non-strict one make a strict one.
proof fn lemma_order_bytes_strict(a: Seq<u8>, b: Seq<u8>, c: Seq<u8>)
    requires
        order_bytes(a, b, 0) <= 0,
        order_bytes(b, c, 0) <= 0,
        order_bytes(a, b, 0) < 0 || order_bytes(b, c, 0) < 0,
    ensures
        order_bytes(a, c, 0) < 0,
{
    lemma_order_bytes_trans(a, b, c, 0);
    if order_bytes(a, c, 0) == 0 {
        lemma_bytes_equal(a, c);
        lemma_order_bytes(a, b, 0);
    }
}

proof fn lemma_order_parts(a: Seq<Seq<u8>>, b: Seq<Seq<u8>>, i: int)
    requires
        0 <= i,
    ensures
        order_parts(a, b, i) == -order_parts(b, a, i),
    decreases a.len() - i,
{
    if i < a.len() && i < b.len() {
        lemma_order_bytes(a[i], b[i], 0);
        lemma_order_parts(a, b, i + 1);
    }
}

proof fn lemma_order_parts_trans(a: Seq<Seq<u8>>, b: Seq<Seq<u8>>, c: Seq<Seq<u8>>, i: int)
    requires
        0 <= i,
        order_parts(a, b, i) <= 0,
        order_parts(b, c, i) <= 0,
    ensures
        order_parts(a, c, i) <= 0,
    decreases a.len() - i,
{
    if i < a.len() && i < b.len() && i < c.len() {
        lemma_order_bytes(a[i], b[i], 0);
        lemma_order_bytes(b[i], c[i], 0);
        lemma_order_bytes(a[i], c[i], 0);
        let ab = order_bytes(a[i], b[i], 0);
        let bc = order_bytes(b[i], c[i], 0);
        if ab == 0 && bc == 0 {
            lemma_bytes_equal(a[i], b[i]);
            lemma_bytes_equal(b[i], c[i]);
            lemma_order_parts_trans(a, b, c, i + 1);
        } else if ab == 0 {
            lemma_bytes_equal(a[i], b[i]);
        } else if bc == 0 {
            lemma_bytes_equal(b[i], c[i]);
        } else {
            lemma_order_bytes_strict(a[i], b[i], c[i]);
        }
    }
}

/// The order is total.
proof fn lemma_goes_before_total(a: Seq<Seq<u8>>, b: Seq<Seq<u8>>)
    ensures
        goes_before(a, b) || goes_before(b, a),
{
    lemma_order_parts(a, b, 0);
}

/// The order is transitive.
proof fn lemma_goes_before_trans(a: Seq<Seq<u8>>, b: Seq<Seq<u8>>, c: Seq<Seq<u8>>)
    requires
        goes_before(a, b),
        goes_before(b, c),
    ensures
        goes_before(a, c),
{
    if a.len() == b.len() && b.len() == c.len() {
        lemma_order_parts_trans(a, b, c, 0);
    }
}

pub fn compare_bytes(a: &Vec<u8>, b: &Vec<u8>) -> (r: i8)
    ensures
        r == order_bytes(a@, b@, 0),
{
    let mut i: usize = 0;
    while i < a.len() && i < b.len()
        invariant
            order_bytes(a@, b@, 0) == order_bytes(a@, b@, i as int),
        decreases a.len() - i,
    {
        if a[i] < b[i] {
            return -1;
        }
        if a[i] > b[i] {
            return 1;
        }
        i += 1;
    }
    if i >= a.len() && i >= b.len() {
        0
    } else if i >= a.len() {
        -1
    } else {
        1
    }
}

/// The components of a path, by their bytes.
pub open spec fn parts_view(v: Vec<Vec<u8>>) -> Seq<Seq<u8>> {
    v@.map_values(|c: Vec<u8>| c@)
}

pub fn compare_parts(a: &Vec<Vec<u8>>, b: &Vec<Vec<u8>>) -> (r: i8)
    ensures
        r == order_parts(parts_view(*a), parts_view(*b), 0),
{
    let ghost av = parts_view(*a);
    let ghost bv = parts_view(*b);
    let mut i: usize = 0;
    while i < a.len() && i < b.len()
        invariant
            av == parts_view(*a),
            bv == parts_view(*b),
            order_parts(av, bv, 0) == order_parts(av, bv, i as int),
        decreases a.len() - i,
    {
        let c = compare_bytes(&a[i], &b[i]);
        assert(av[i as int] == a@[i as int]@);
        assert(bv[i as int] == b@[i as int]@);
        if c != 0 {
            return c;
        }
        i += 1;
    }
    if i >= a.len() && i >= b.len() {
        0
    } else if i >= a.len() {
        -1
    } else {
        1
    }
}

pub fn comes_before(a: &Vec<Vec<u8>>, b: &Vec<Vec<u8>>) -> (r: bool)
    ensures
        r == goes_before(parts_view(*a), parts_view(*b)),
{
    a.len() > b.len() || (a.len() == b.len() && compare_parts(a, b) <= 0)
}

// ── The sweep's result ──────────────────────────────────────────────────────────

/// One entry the traversal found: its components below the root, by their bytes,
/// and the path itself.
pub struct Found<P> {
    pub components: Vec<Vec<u8>>,
    pub path: P,
}

/// The components of a found entry, by their bytes.
pub open spec fn found_key<P>(f: Found<P>) -> Seq<Seq<u8>> {
    parts_view(f.components)
}

/// Deepest first, and in path order among entries of one depth.
pub open spec fn deepest_first<P>(s: Seq<Found<P>>) -> bool {
    forall|i: int, j: int|
        0 <= i < j < s.len() ==> goes_before(#[trigger] found_key(s[i]), #[trigger] found_key(s[j]))
}

/// Put the entries deepest first: the same entries, in that order.
pub fn order_deepest_first<P>(found: Vec<Found<P>>) -> (r: Vec<Found<P>>)
    ensures
        r@.to_multiset() == found@.to_multiset(),
        deepest_first(r@),
{
    broadcast use vstd::seq_lib::group_to_multiset_ensures;

    let ghost input = found@;
    let mut rest = found;
    let mut out: Vec<Found<P>> = Vec::new();
    while rest.len() > 0
        invariant
            out@.to_multiset().add(rest@.to_multiset()) == input.to_multiset(),
            deepest_first(out@),
        decreases rest.len(),
    {
        let ghost before = rest@;
        let ghost done = out@;
        let f = rest.remove(0);
        proof {
            broadcast use vstd::multiset::group_multiset_axioms;

            vstd::seq_lib::to_multiset_remove(before, 0);
            vstd::seq_lib::to_multiset_contains(before, f);
            assert(before.contains(f)) by {
                assert(before[0] == f);
            }
            assert(done.to_multiset().insert(f).add(rest@.to_multiset()) =~= input.to_multiset());
        }
        let mut k: usize = 0;
        while k < out.len() && comes_before(&out[k].components, &f.components)
            invariant
                k <= out.len(),
                forall|j: int| 0 <= j < k ==> goes_before(#[trigger] found_key(out@[j]), found_key(f)),
            decreases out.len() - k,
        {
            k += 1;
        }
        let ghost old_out = out@;
        proof {
            if k < old_out.len() {
                lemma_goes_before_total(found_key(old_out[k as int]), found_key(f));
                assert forall|j: int| k <= j < old_out.len() implies goes_before(
                    found_key(f),
                    #[trigger] found_key(old_out[j]),
                ) by {
                    if j > k {
                        lemma_goes_before_trans(
                            found_key(f),
                            found_key(old_out[k as int]),
                            found_key(old_out[j]),
                        );
                    }
                }
            }
            vstd::seq_lib::to_multiset_insert(old_out, k as int, f);
        }
        out.insert(k, f);
        proof {
            let s = out@;
            assert(s == old_out.insert(k as int, f));
            assert forall|i: int, j: int| 0 <= i < j < s.len() implies goes_before(
                #[trigger] found_key(s[i]),
                #[trigger] found_key(s[j]),
            ) by {
                if j < k {
                    assert(s[i] == old_out[i] && s[j] == old_out[j]);
                } else if j == k {
                    assert(s[i] == old_out[i]);
                } else if i < k {
                    assert(s[i] == old_out[i] && s[j] == old_out[j - 1]);
                    if j - 1 >= k {
                        lemma_goes_before_trans(
                            found_key(old_out[i]),
                            found_key(f),
                            found_key(old_out[j - 1]),
                        );
                    }
                } else if i == k {
                    assert(s[j] == old_out[j - 1]);
                } else {
                    assert(s[i] == old_out[i - 1] && s[j] == old_out[j - 1]);
                }
            }
            assert(out@.to_multiset() == old_out.to_multiset().insert(f));
        }
    }
    assert(rest@.to_multiset() =~= vstd::multiset::Multiset::empty());
    assert(out@.to_multiset() =~= input.to_multiset());
    out
}

/// Everything a sweep produced: the paths to visit, deepest first, and the entries
/// that could not be read.
pub struct Walk<P, E> {
    pub paths: Vec<P>,
    pub errors: Vec<(P, E)>,
}

/// The paths of a sequence of found entries.
pub open spec fn paths_of<P>(s: Seq<Found<P>>) -> Seq<P> {
    s.map_values(|f: Found<P>| f.path)
}

impl<P, E> Walk<P, E> {
    /// The sweep's result from what the traversal found: every found entry once,
    /// deepest first and in path order within a depth, and the errors as they came.
    pub fn from_found(found: Vec<Found<P>>, errors: Vec<(P, E)>) -> (r: Walk<P, E>)
        ensures
            exists|s: Seq<Found<P>>|
                #![trigger paths_of(s)]
                s.to_multiset() == found@.to_multiset() && deepest_first(s) && r.paths@
                    == paths_of(s),
            r.errors@ == errors@,
    {
        let mut ordered = order_deepest_first(found);
        let ghost s = ordered@;
        let mut paths: Vec<P> = Vec::new();
        while ordered.len() > 0
            invariant
                paths@ + paths_of(ordered@) == paths_of(s),
            decreases ordered.len(),
        {
            let ghost before = ordered@;
            let f = ordered.remove(0);
            paths.push(f.path);
            assert(paths_of(before) =~= seq![f.path] + paths_of(ordered@));
            assert(paths@ + paths_of(ordered@) =~= paths_of(s));
        }
        assert(paths_of(ordered@) =~= Seq::<P>::empty());
        assert(paths@ =~= paths_of(s));
        Walk { paths, errors }
    }
}

} // verus!

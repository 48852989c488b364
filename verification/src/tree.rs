//! A model of the tree of names a run renames, against which undoing a run is
//! checked: the library's undo decisions, applied last entry first, give back the
//! tree the run started from.

use vstd::prelude::*;

use crate::journal::EntryView;
use crate::plan::{undo_check_spec, undo_source_spec, UndoAction};

verus! {

/// `p` is `a` itself, or a path beneath it.
pub open spec fn under(p: Seq<u8>, a: Seq<u8>) -> bool {
    p == a || (p.len() > a.len() && p.take(a.len() as int) == a && p[a.len() as int] == 0x2fu8)
}

/// The tree with `a`, and everything beneath it, moved to `b`. A tree maps each path
/// that exists to the file it names.
pub open spec fn move_tree(t: Map<Seq<u8>, int>, a: Seq<u8>, b: Seq<u8>) -> Map<Seq<u8>, int> {
    Map::new(
        |p: Seq<u8>|
            if under(p, b) {
                t.contains_key(a + p.skip(b.len() as int))
            } else {
                !under(p, a) && t.contains_key(p)
            },
        |p: Seq<u8>|
            if under(p, b) {
                t[a + p.skip(b.len() as int)]
            } else {
                t[p]
            },
    )
}

/// A rename that loses nothing: the name exists, and nothing is at or beneath the
/// new one.
pub open spec fn can_move(t: Map<Seq<u8>, int>, a: Seq<u8>, b: Seq<u8>) -> bool {
    &&& t.contains_key(a)
    &&& forall|p: Seq<u8>| #[trigger] t.contains_key(p) ==> !under(p, b)
}

/// The tree after the entries' renames, in order.
pub open spec fn run_tree(t: Map<Seq<u8>, int>, es: Seq<EntryView>) -> Map<Seq<u8>, int>
    decreases es.len(),
{
    if es.len() == 0 {
        t
    } else {
        move_tree(run_tree(t, es.drop_last()), es.last().from, es.last().to)
    }
}

/// Every rename of the run lost nothing.
pub open spec fn run_valid(t: Map<Seq<u8>, int>, es: Seq<EntryView>) -> bool
    decreases es.len(),
{
    es.len() == 0 || (run_valid(t, es.drop_last()) && can_move(
        run_tree(t, es.drop_last()),
        es.last().from,
        es.last().to,
    ))
}

/// Undoing one entry in the tree `t`, by the library's decisions: where the file
/// to move back is ([`undo_source_spec`]), and whether to move it
/// ([`undo_check_spec`]).
pub open spec fn undo_one(t: Map<Seq<u8>, int>, e: EntryView) -> Map<Seq<u8>, int> {
    let via_exists = match e.via {
        Some(v) => t.contains_key(v),
        None => false,
    };
    match undo_source_spec(e, via_exists) {
        None => t,
        Some(src) => {
            let same = t.contains_key(src) && t.contains_key(e.from) && t[src] == t[e.from];
            if undo_check_spec(t.contains_key(src), t.contains_key(e.from), same)
                == UndoAction::Move {
                move_tree(t, src, e.from)
            } else {
                t
            }
        },
    }
}

/// Undo: the entries, last first.
pub open spec fn undo_tree(t: Map<Seq<u8>, int>, es: Seq<EntryView>) -> Map<Seq<u8>, int>
    decreases es.len(),
{
    if es.len() == 0 {
        t
    } else {
        undo_tree(undo_one(t, es.last()), es.drop_last())
    }
}

proof fn lemma_rebase(p: Seq<u8>, a: Seq<u8>, b: Seq<u8>)
    requires
        under(p, a),
    ensures
        under(b + p.skip(a.len() as int), b),
        (b + p.skip(a.len() as int)).skip(b.len() as int) == p.skip(a.len() as int),
        a + p.skip(a.len() as int) == p,
{
    let s = p.skip(a.len() as int);
    let q = b + s;
    assert(q.skip(b.len() as int) =~= s);
    assert(q.take(b.len() as int) =~= b);
    if p == a {
        assert(s =~= Seq::<u8>::empty());
        assert(q =~= b);
        assert(a + s =~= p);
    } else {
        assert(p.take(a.len() as int) + s =~= p);
        assert(q[b.len() as int] == s[0]);
    }
}

/// Moving `a` to `b` and back gives the tree back, when nothing was at or beneath `b`.
proof fn lemma_move_back(t: Map<Seq<u8>, int>, a: Seq<u8>, b: Seq<u8>)
    requires
        can_move(t, a, b),
    ensures
        move_tree(move_tree(t, a, b), b, a) == t,
{
    let t1 = move_tree(t, a, b);
    let t2 = move_tree(t1, b, a);
    assert forall|p: Seq<u8>| #[trigger] t2.contains_key(p) == t.contains_key(p) && (t.contains_key(p)
        ==> t2[p] == t[p]) by {
        if under(p, a) {
            lemma_rebase(p, a, b);
        } else if t.contains_key(p) {
            assert(!under(p, b));
        }
    }
    assert(t2 =~= t);
}

/// Undoing a run gives back the tree it started from: every file is back at its old
/// name, the directories first, their contents after. For a run whose renames all
/// completed and overwrote nothing, undone before anything else touched those names.
pub proof fn undo_restores_the_tree(t: Map<Seq<u8>, int>, es: Seq<EntryView>)
    requires
        run_valid(t, es),
        forall|i: int| 0 <= i < es.len() ==> (#[trigger] es[i]).committed,
    ensures
        undo_tree(run_tree(t, es), es) == t,
    decreases es.len(),
{
    if es.len() > 0 {
        let e = es.last();
        let rest = es.drop_last();
        let t0 = run_tree(t, rest);
        let t1 = move_tree(t0, e.from, e.to);
        assert(e.committed);
        assert(t1.contains_key(e.to)) by {
            lemma_rebase(e.from, e.from, e.to);
        }
        assert(!under(e.from, e.to));
        assert(!t1.contains_key(e.from));
        lemma_move_back(t0, e.from, e.to);
        assert(undo_one(t1, e) == t0);
        assert forall|i: int| 0 <= i < rest.len() implies (#[trigger] rest[i]).committed by {
            assert(rest[i] == es[i]);
        }
        undo_restores_the_tree(t, rest);
    }
}

} // verus!

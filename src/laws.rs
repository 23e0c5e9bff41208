//! Properties that relate the diff and the rebuild, stated over the same model
//! that their contracts use.
use vstd::prelude::*;

use crate::store::{path_lookup, stored_map, stored_tree};
use crate::tree::{
    apply_direct, changed, changed_below, child_base, descent, edit_depth, group_of, id_is_zero,
    in_group, is_group_name, kept_paths, lemma_listing_map_empty, name_rebuilt, no_descent, rebuilds_to,
    rebuilt, reports_own_path, slot_of, tree_mode, EditView, PathView, Slot, TREE_MODE,
};

verus! {

/// A name that holds the same thing on both sides is never reported, nor
/// anything below it.
proof fn lemma_same_slot(s: Option<Slot>, q: PathView)
    ensures
        !reports_own_path(s, s),
        descent(s, s) is None,
        !changed_below(s, s, q),
{
}

/// Diffing a tree against itself reads no subtree and reports no path.
pub proof fn law_diff_of_same_tree(m: Map<Seq<u8>, Slot>)
    ensures
        no_descent(m, m),
        forall|q: PathView| !changed(m, m, q),
{
    assert forall|n: Seq<u8>| #[trigger] descent(slot_of(m, n), slot_of(m, n)) is None by {
        lemma_same_slot(slot_of(m, n), Seq::empty());
    }
    assert forall|q: PathView| !changed(m, m, q) by {
        if q.len() > 0 {
            lemma_same_slot(slot_of(m, q[0]), q.drop_first());
        }
    }
}

/// When only the mode of a name differs between the two trees, its own path
/// is reported, whether it is a file or a directory, and nothing below it is.
pub proof fn law_mode_only_change(
    l: Map<Seq<u8>, Slot>,
    r: Map<Seq<u8>, Slot>,
    n: Seq<u8>,
    q: PathView,
)
    requires
        l.contains_key(n),
        r.contains_key(n),
        l[n].0 == r[n].0,
        l[n].1 != r[n].1,
        tree_mode(l[n].1) == tree_mode(r[n].1),
        q.len() > 0,
    ensures
        changed(l, r, seq![n]),
        !changed(l, r, seq![n] + q),
{
    assert(seq![n].drop_first() =~= Seq::<Seq<u8>>::empty());
    assert((seq![n] + q)[0] == n);
    assert((seq![n] + q).drop_first() =~= q);
}

/// The path `p` leads through directories of mode `TREE_MODE` to an entry
/// that is not a directory.
pub open spec fn leaf_at(m: Map<Seq<u8>, Slot>, p: PathView) -> bool
    decreases p.len(),
{
    &&& p.len() > 0
    &&& m.contains_key(p[0])
    &&& if p.len() == 1 {
        !tree_mode(m[p[0]].1)
    } else {
        &&& m[p[0]].1 == TREE_MODE
        &&& !id_is_zero(m[p[0]].0)
        &&& leaf_at(stored_map(m[p[0]].0), p.drop_first())
    }
}

proof fn lemma_cons_eq(q: PathView, p: PathView)
    requires
        q.len() > 0,
        p.len() > 0,
        q[0] == p[0],
        q.drop_first() == p.drop_first(),
    ensures
        q == p,
{
    assert(q.drop_first().len() == q.len() - 1);
    assert(p.drop_first().len() == p.len() - 1);
    assert(q.len() == p.len());
    assert forall|i: int| 0 <= i < q.len() implies q[i] == p[i] by {
        if i > 0 {
            assert(q[i] == q.drop_first()[i - 1]);
            assert(p[i] == p.drop_first()[i - 1]);
        }
    }
    assert(q =~= p);
}

proof fn lemma_single_edit(p: PathView, n: Seq<u8>, base: Map<Seq<u8>, Slot>)
    requires
        p.len() > 0,
    ensures
        is_group_name(seq![(p, None::<Slot>)], n) <==> (p.len() >= 2 && p[0] == n),
        p.len() >= 2 ==> apply_direct(base, seq![(p, None::<Slot>)]) == base,
        p.len() == 1 ==> apply_direct(base, seq![(p, None::<Slot>)]) == base.remove(p[0]),
        p.len() >= 2 ==> group_of(seq![(p, None::<Slot>)], p[0]) == seq![(p.drop_first(), None::<Slot>)],
{
    let e: Seq<EditView> = seq![(p, None::<Slot>)];
    assert(e.drop_last() =~= Seq::<EditView>::empty());
    assert(apply_direct(base, e.drop_last()) == base);
    assert(e.last() == (p, None::<Slot>));
    if p.len() >= 2 && p[0] == n {
        assert(in_group(e[0], n));
    }
    if p.len() >= 2 {
        assert(group_of(e.drop_last(), p[0]) =~= Seq::<EditView>::empty());
        assert(seq![(p.drop_first(), None::<Slot>)] =~= Seq::<EditView>::empty().push(
            (p.drop_first(), None::<Slot>),
        ));
    }
}

proof fn lemma_deletion(base: Map<Seq<u8>, Slot>, p: PathView, out: Map<Seq<u8>, Slot>, depth: nat)
    requires
        rebuilds_to(base, seq![(p, None::<Slot>)], out, depth),
        leaf_at(base, p),
    ensures
        forall|q: PathView| changed(base, out, q) <==> q == p,
    decreases depth,
{
    let e: Seq<EditView> = seq![(p, None::<Slot>)];
    let n = p[0];
    lemma_single_edit(p, n, base);
    assert forall|x: Seq<u8>| x != n implies #[trigger] slot_of(out, x) == slot_of(base, x) by {
        lemma_single_edit(p, x, base);
        assert(name_rebuilt(apply_direct(base, e), e, out, x, depth));
    }
    assert(name_rebuilt(apply_direct(base, e), e, out, n, depth));
    if p.len() == 1 {
        assert(!out.contains_key(n));
        assert forall|q: PathView| changed(base, out, q) <==> q == p by {
            if q.len() > 0 {
                if q[0] != n {
                    lemma_same_slot(slot_of(base, q[0]), q.drop_first());
                } else if q.len() == 1 {
                    assert(q =~= p);
                }
            }
        }
    } else {
        let rest = p.drop_first();
        let d = base[n].0;
        let g: Seq<EditView> = seq![(rest, None::<Slot>)];
        assert(0o040000i32 & 0o170000i32 == 0o040000i32) by (bit_vector);
        assert(child_base(base, n) == stored_map(d));
        if out.contains_key(n) {
            let c = out[n].0;
            lemma_deletion(stored_map(d), rest, stored_map(c), (depth - 1) as nat);
            if d == c {
                law_diff_of_same_tree(stored_map(d));
                assert(changed(stored_map(d), stored_map(c), rest));
            }
            assert(tree_mode(base[n].1) && tree_mode(out[n].1));
            assert forall|q: PathView| changed(base, out, q) <==> q == p by {
                if q.len() > 0 {
                    if q[0] != n {
                        lemma_same_slot(slot_of(base, q[0]), q.drop_first());
                    } else if q.len() == 1 {
                        assert(q != p);
                    } else {
                        assert(descent(slot_of(base, n), slot_of(out, n)) == Some((d, Some(c))));
                        assert(changed(base, out, q) == changed(stored_map(d), stored_map(c), q.drop_first()));
                        if q.drop_first() == rest {
                            lemma_cons_eq(q, p);
                        }
                    }
                }
            }
        } else {
            lemma_deletion(stored_map(d), rest, Map::empty(), (depth - 1) as nat);
            assert(tree_mode(base[n].1));
            assert forall|q: PathView| changed(base, out, q) <==> q == p by {
                if q.len() > 0 {
                    if q[0] != n {
                        lemma_same_slot(slot_of(base, q[0]), q.drop_first());
                    } else if q.len() == 1 {
                        assert(q != p);
                    } else {
                        assert(descent(slot_of(base, n), slot_of(out, n)) == Some((d, None::<Seq<u8>>)));
                        assert(changed(base, out, q) == changed(stored_map(d), Map::empty(), q.drop_first()));
                        if q.drop_first() == rest {
                            lemma_cons_eq(q, p);
                        }
                    }
                }
            }
        }
    }
}

/// Deleting one file from a tree and diffing the result against the tree
/// reports exactly that file's path; directories that the deletion emptied
/// are pruned, not reported. The file must be reached through directories of
/// the plain directory mode, with ids that are not zero.
pub proof fn law_deletion_symmetry(base: Map<Seq<u8>, Slot>, p: PathView, r: Seq<u8>)
    requires
        leaf_at(base, p),
        rebuilt(base, seq![(p, None::<Slot>)], r),
    ensures
        forall|q: PathView| changed(base, stored_map(r), q) <==> q == p,
{
    lemma_deletion(base, p, stored_map(r), edit_depth(seq![(p, None::<Slot>)]));
}

/// Every edit below `n` appears in the group of `n`, with `n` taken off.
proof fn lemma_group_of_has(edits: Seq<EditView>, n: Seq<u8>, i: int)
    requires
        0 <= i < edits.len(),
        in_group(edits[i], n),
    ensures
        exists|k: int|
            0 <= k < group_of(edits, n).len() && #[trigger] group_of(edits, n)[k] == (
                edits[i].0.drop_first(),
                edits[i].1,
            ),
    decreases edits.len(),
{
    let g = group_of(edits, n);
    let prev = group_of(edits.drop_last(), n);
    if i == edits.len() - 1 {
        assert(g[prev.len() as int] == (edits[i].0.drop_first(), edits[i].1));
    } else {
        assert(edits.drop_last()[i] == edits[i]);
        lemma_group_of_has(edits.drop_last(), n, i);
        let k = choose|k: int|
            0 <= k < prev.len() && #[trigger] prev[k] == (edits[i].0.drop_first(), edits[i].1);
        assert(g[k] == prev[k]);
    }
}

/// The index of the edit that the `k`-th member of the group of `n` comes from.
pub open spec fn group_src(edits: Seq<EditView>, n: Seq<u8>, k: int) -> int
    decreases edits.len(),
{
    if edits.len() == 0 {
        0
    } else if k < group_of(edits.drop_last(), n).len() {
        group_src(edits.drop_last(), n, k)
    } else {
        edits.len() - 1
    }
}

/// Every member of the group of `n` comes from an edit below `n`.
proof fn lemma_group_of_from(edits: Seq<EditView>, n: Seq<u8>, k: int)
    requires
        0 <= k < group_of(edits, n).len(),
    ensures
        0 <= group_src(edits, n, k) < edits.len(),
        in_group(edits[group_src(edits, n, k)], n),
        group_of(edits, n)[k] == (
            edits[group_src(edits, n, k)].0.drop_first(),
            edits[group_src(edits, n, k)].1,
        ),
    decreases edits.len(),
{
    let g = group_of(edits, n);
    let t = edits.drop_last();
    let prev = group_of(t, n);
    let last = edits[edits.len() - 1];
    if in_group(last, n) {
        assert(g == prev.push((last.0.drop_first(), last.1)));
    } else {
        assert(g == prev);
    }
    if k < prev.len() {
        lemma_group_of_from(t, n, k);
        let i = group_src(t, n, k);
        assert(t[i] == edits[i]);
        assert(g[k] == prev[k]);
    }
}

/// Edits that are all removals leave a name exactly when the map had it and
/// no edit removes it.
proof fn lemma_apply_removals(m: Map<Seq<u8>, Slot>, g: Seq<EditView>, x: Seq<u8>)
    requires
        forall|i: int| 0 <= i < g.len() ==> (#[trigger] g[i]).1 is None,
    ensures
        apply_direct(m, g).contains_key(x) <==> m.contains_key(x) && !exists|i: int|
            0 <= i < g.len() && (#[trigger] g[i]).0 == seq![x],
        apply_direct(m, g).contains_key(x) ==> apply_direct(m, g)[x] == m[x],
    decreases g.len(),
{
    if g.len() > 0 {
        let t = g.drop_last();
        assert forall|i: int| 0 <= i < t.len() implies (#[trigger] t[i]).1 is None by {
            assert(t[i] == g[i]);
        }
        lemma_apply_removals(m, t, x);
        let last = g[g.len() - 1];
        if exists|i: int| 0 <= i < g.len() && (#[trigger] g[i]).0 == seq![x] {
            let i = choose|i: int| 0 <= i < g.len() && (#[trigger] g[i]).0 == seq![x];
            if i < g.len() - 1 {
                assert(t[i] == g[i]);
            } else {
                assert(last.0.len() == 1 && last.0[0] == x);
            }
        } else {
            assert forall|i: int| 0 <= i < t.len() implies (#[trigger] t[i]).0 != seq![x] by {
                assert(t[i] == g[i]);
            }
            if last.0.len() == 1 {
                assert(last.0 != seq![x]);
                assert(last.0[0] != x) by {
                    if last.0[0] == x {
                        assert(last.0 =~= seq![x]);
                    }
                }
            }
        }
    }
}

/// Edits that all reach below some name leave the single names alone.
proof fn lemma_no_direct(m: Map<Seq<u8>, Slot>, edits: Seq<EditView>)
    requires
        forall|i: int| 0 <= i < edits.len() ==> (#[trigger] edits[i]).0.len() >= 2,
    ensures
        apply_direct(m, edits) == m,
    decreases edits.len(),
{
    if edits.len() > 0 {
        let t = edits.drop_last();
        assert forall|i: int| 0 <= i < t.len() implies (#[trigger] t[i]).0.len() >= 2 by {
            assert(t[i] == edits[i]);
        }
        lemma_no_direct(m, t);
    }
}

proof fn lemma_prune_top(
    base: Map<Seq<u8>, Slot>,
    d: Seq<u8>,
    edits: Seq<EditView>,
    out: Map<Seq<u8>, Slot>,
    depth: nat,
)
    requires
        rebuilds_to(base, edits, out, depth),
        edits.len() > 0,
        forall|i: int|
            0 <= i < edits.len() ==> (#[trigger] edits[i]).0.len() == 2 && edits[i].0[0] == d
                && edits[i].1 is None,
        forall|x: Seq<u8>|
            #[trigger] child_base(base, d).contains_key(x) ==> exists|i: int|
                0 <= i < edits.len() && (#[trigger] edits[i]).0[1] == x,
    ensures
        !out.contains_key(d),
{
    lemma_no_direct(base, edits);
    assert(in_group(edits[0], d));
    assert(slot_of(out, d) == slot_of(out, d));
    assert(name_rebuilt(apply_direct(base, edits), edits, out, d, depth));
    if out.contains_key(d) {
        let c = out[d].0;
        let cb = child_base(base, d);
        let g = group_of(edits, d);
        let inner = stored_map(c);
        assert forall|k: int| 0 <= k < g.len() implies (#[trigger] g[k]).1 is None && g[k].0.len()
            == 1 by {
            lemma_group_of_from(edits, d, k);
        }
        assert(rebuilds_to(cb, g, inner, (depth - 1) as nat));
        assert forall|x: Seq<u8>| !inner.contains_key(x) by {
            assert(slot_of(inner, x) == slot_of(inner, x));
            assert(name_rebuilt(apply_direct(cb, g), g, inner, x, (depth - 1) as nat));
            assert(!is_group_name(g, x)) by {
                if is_group_name(g, x) {
                    let k = choose|k: int| 0 <= k < g.len() && in_group(#[trigger] g[k], x);
                }
            }
            lemma_apply_removals(cb, g, x);
            if cb.contains_key(x) {
                let i = choose|i: int| 0 <= i < edits.len() && (#[trigger] edits[i]).0[1] == x;
                assert(in_group(edits[i], d));
                lemma_group_of_has(edits, d, i);
                let k = choose|k: int|
                    0 <= k < g.len() && #[trigger] g[k] == (edits[i].0.drop_first(), edits[i].1);
                assert(g[k].0 =~= seq![x]);
            }
            assert(!apply_direct(cb, g).contains_key(x));
        }
        assert(inner =~= Map::<Seq<u8>, Slot>::empty());
        lemma_listing_map_empty(stored_tree(c));
    }
}


/// Removing every entry of the directory at `a` (however deep), through paths
/// one name below it, leaves nothing at `a` in the rebuilt tree: the emptied
/// directory is pruned from its parent.
proof fn lemma_prune_dir(
    base: Map<Seq<u8>, Slot>,
    a: PathView,
    edits: Seq<EditView>,
    out: Map<Seq<u8>, Slot>,
    depth: nat,
)
    requires
        rebuilds_to(base, edits, out, depth),
        a.len() > 0,
        edits.len() > 0,
        forall|i: int|
            0 <= i < edits.len() ==> (#[trigger] edits[i]).0.len() == a.len() + 1
                && edits[i].0.subrange(0, a.len() as int) == a && edits[i].1 is None,
        forall|x: Seq<u8>|
            #[trigger] map_at(base, a).contains_key(x) ==> exists|i: int|
                0 <= i < edits.len() && (#[trigger] edits[i]).0[a.len() as int] == x,
    ensures
        read_path(out, a) is None,
    decreases a.len(),
{
    let n = a[0];
    assert forall|i: int| 0 <= i < edits.len() implies (#[trigger] edits[i]).0[0] == n by {
        assert(edits[i].0.subrange(0, a.len() as int)[0] == edits[i].0[0]);
    }
    if a.len() == 1 {
        assert forall|x: Seq<u8>| #[trigger] child_base(base, n).contains_key(x) implies exists|i: int|
            0 <= i < edits.len() && (#[trigger] edits[i]).0[1] == x by {
            assert(base.contains_key(n));
            assert(a.drop_first().len() == 0);
            assert(map_at(stored_map(base[n].0), a.drop_first()) == stored_map(base[n].0));
            assert(map_at(base, a) == stored_map(base[n].0));
        }
        lemma_prune_top(base, n, edits, out, depth);
    } else {
        let rest = a.drop_first();
        lemma_no_direct(base, edits);
        assert(in_group(edits[0], n));
        assert(slot_of(out, n) == slot_of(out, n));
        assert(name_rebuilt(apply_direct(base, edits), edits, out, n, depth));
        if out.contains_key(n) {
            let c = out[n].0;
            let cb = child_base(base, n);
            let g = group_of(edits, n);
            assert(rebuilds_to(cb, g, stored_map(c), (depth - 1) as nat));
            lemma_group_of_has(edits, n, 0);
            assert forall|k: int| 0 <= k < g.len() implies (#[trigger] g[k]).0.len() == rest.len() + 1
                && g[k].0.subrange(0, rest.len() as int) == rest && g[k].1 is None by {
                lemma_group_of_from(edits, n, k);
                let i = group_src(edits, n, k);
                assert(edits[i].0.drop_first().subrange(0, rest.len() as int) =~= edits[i].0.subrange(
                    0,
                    a.len() as int,
                ).drop_first());
            }
            assert forall|x: Seq<u8>| #[trigger] map_at(cb, rest).contains_key(x) implies exists|k: int|
                0 <= k < g.len() && (#[trigger] g[k]).0[rest.len() as int] == x by {
                if cb.contains_key(x) || map_at(cb, rest).contains_key(x) {
                    if base.contains_key(n) && tree_mode(base[n].1) && !id_is_zero(base[n].0) {
                        assert(map_at(base, a) == map_at(cb, rest));
                    } else {
                        assert(cb == Map::<Seq<u8>, Slot>::empty());
                        assert(!cb.contains_key(rest[0]));
                    }
                }
                let i = choose|i: int| 0 <= i < edits.len() && (#[trigger] edits[i]).0[a.len() as int] == x;
                assert(in_group(edits[i], n));
                lemma_group_of_has(edits, n, i);
                let k = choose|k: int|
                    0 <= k < g.len() && #[trigger] g[k] == (edits[i].0.drop_first(), edits[i].1);
                assert(g[k].0[rest.len() as int] == x);
            }
            lemma_prune_dir(cb, rest, g, stored_map(c), (depth - 1) as nat);
            assert(0o040000i32 & 0o170000i32 == 0o040000i32) by (bit_vector);
            assert(read_path(out, a) == read_path(stored_map(c), rest));
        }
    }
}

/// Removing every entry of a directory, through paths one name below it,
/// leaves nothing at the directory's path in the rebuilt tree: the emptied
/// directory is pruned from its parent, however deep it lies.
pub proof fn law_pruning(base: Map<Seq<u8>, Slot>, a: PathView, edits: Seq<EditView>, r: Seq<u8>)
    requires
        rebuilt(base, edits, r),
        a.len() > 0,
        edits.len() > 0,
        forall|i: int|
            0 <= i < edits.len() ==> (#[trigger] edits[i]).0.len() == a.len() + 1
                && edits[i].0.subrange(0, a.len() as int) == a && edits[i].1 is None,
        forall|x: Seq<u8>|
            #[trigger] map_at(base, a).contains_key(x) ==> exists|i: int|
                0 <= i < edits.len() && (#[trigger] edits[i]).0[a.len() as int] == x,
    ensures
        read_path(stored_map(r), a) is None,
{
    lemma_prune_dir(base, a, edits, stored_map(r), edit_depth(edits));
}

/// What a tree whose names map as `m` holds at the path `p`, reading the
/// subtrees on the way from the store.
pub open spec fn read_path(m: Map<Seq<u8>, Slot>, p: PathView) -> Option<Slot>
    decreases p.len(),
{
    if p.len() == 0 {
        None
    } else if p.len() == 1 {
        slot_of(m, p[0])
    } else if m.contains_key(p[0]) && tree_mode(m[p[0]].1) {
        read_path(stored_map(m[p[0]].0), p.drop_first())
    } else {
        None
    }
}

/// No edit has an empty path, and no edit's path is a prefix of another's
/// (so no path is edited twice, and no edited entry lies inside another).
pub open spec fn prefix_free(edits: Seq<EditView>) -> bool {
    &&& forall|i: int| 0 <= i < edits.len() ==> (#[trigger] edits[i]).0.len() > 0
    &&& forall|i: int, j: int|
        0 <= i < edits.len() && 0 <= j < edits.len() && i != j ==> !(#[trigger] edits[i]).0.is_prefix_of(
            (#[trigger] edits[j]).0,
        )
}

proof fn lemma_read_empty(p: PathView)
    ensures
        read_path(Map::empty(), p) is None,
{
}

/// The single-name edit at index `i`, edited nowhere else, decides what the
/// map holds under its name.
proof fn lemma_apply_direct_at(m: Map<Seq<u8>, Slot>, edits: Seq<EditView>, i: int)
    requires
        0 <= i < edits.len(),
        edits[i].0.len() == 1,
        forall|j: int| 0 <= j < edits.len() && j != i ==> (#[trigger] edits[j]).0 != edits[i].0,
    ensures
        slot_of(apply_direct(m, edits), edits[i].0[0]) == edits[i].1,
    decreases edits.len(),
{
    let n = edits[i].0[0];
    let last = edits[edits.len() - 1];
    if i < edits.len() - 1 {
        let t = edits.drop_last();
        assert(t[i] == edits[i]);
        assert forall|j: int| 0 <= j < t.len() && j != i implies (#[trigger] t[j]).0 != t[i].0 by {
            assert(t[j] == edits[j]);
        }
        lemma_apply_direct_at(m, t, i);
        if last.0.len() == 1 && last.0[0] == n {
            assert(last.0 =~= edits[i].0);
        }
    }
}

proof fn lemma_prefix_tail(a: PathView, b: PathView)
    requires
        a.len() > 0,
        b.len() > 0,
        a[0] == b[0],
        a.drop_first().is_prefix_of(b.drop_first()),
    ensures
        a.is_prefix_of(b),
{
    assert forall|k: int| 0 <= k < a.len() implies a[k] == b.subrange(0, a.len() as int)[k] by {
        if k > 0 {
            assert(a[k] == a.drop_first()[k - 1]);
            assert(b[k] == b.drop_first()[k - 1]);
        }
    }
}

/// The group of a name keeps the edits prefix free.
proof fn lemma_group_prefix_free(edits: Seq<EditView>, n: Seq<u8>)
    requires
        prefix_free(edits),
    ensures
        prefix_free(group_of(edits, n)),
    decreases edits.len(),
{
    if edits.len() > 0 {
        let t = edits.drop_last();
        assert forall|i: int, j: int|
            0 <= i < t.len() && 0 <= j < t.len() && i != j implies !(#[trigger] t[i]).0.is_prefix_of(
            (#[trigger] t[j]).0) by {
            assert(t[i] == edits[i] && t[j] == edits[j]);
        }
        assert forall|i: int| 0 <= i < t.len() implies (#[trigger] t[i]).0.len() > 0 by {
            assert(t[i] == edits[i]);
        }
        lemma_group_prefix_free(t, n);
        let prev = group_of(t, n);
        let g = group_of(edits, n);
        let last = edits[edits.len() - 1];
        if in_group(last, n) {
            let nl = (last.0.drop_first(), last.1);
            assert(g == prev.push(nl));
            assert forall|k: int| 0 <= k < g.len() implies (#[trigger] g[k]).0.len() > 0 by {
                if k < prev.len() {
                    assert(g[k] == prev[k]);
                }
            }
            assert forall|k1: int, k2: int|
                0 <= k1 < g.len() && 0 <= k2 < g.len() && k1 != k2 implies !(#[trigger] g[k1]).0.is_prefix_of(
                (#[trigger] g[k2]).0) by {
                if k1 < prev.len() && k2 < prev.len() {
                    assert(g[k1] == prev[k1] && g[k2] == prev[k2]);
                } else if k1 < prev.len() {
                    assert(g[k1] == prev[k1]);
                    lemma_group_of_from(t, n, k1);
                    let i = group_src(t, n, k1);
                    assert(t[i] == edits[i]);
                    if g[k1].0.is_prefix_of(g[k2].0) {
                        lemma_prefix_tail(edits[i].0, last.0);
                        assert(!edits[i].0.is_prefix_of(edits[edits.len() - 1].0));
                    }
                } else {
                    assert(g[k2] == prev[k2]);
                    lemma_group_of_from(t, n, k2);
                    let i = group_src(t, n, k2);
                    assert(t[i] == edits[i]);
                    if g[k1].0.is_prefix_of(g[k2].0) {
                        lemma_prefix_tail(last.0, edits[i].0);
                        assert(!edits[edits.len() - 1].0.is_prefix_of(edits[i].0));
                    }
                }
            }
        }
    }
}

proof fn lemma_reads(base: Map<Seq<u8>, Slot>, edits: Seq<EditView>, out: Map<Seq<u8>, Slot>, depth: nat)
    requires
        rebuilds_to(base, edits, out, depth),
        prefix_free(edits),
    ensures
        forall|i: int| 0 <= i < edits.len() ==> read_path(out, (#[trigger] edits[i]).0) == edits[i].1,
    decreases depth,
{
    assert forall|i: int| 0 <= i < edits.len() implies read_path(out, (#[trigger] edits[i]).0)
        == edits[i].1 by {
        let p = edits[i].0;
        let n = p[0];
        assert(slot_of(out, n) == slot_of(out, n));
        let direct = apply_direct(base, edits);
        assert(name_rebuilt(direct, edits, out, n, depth));
        if p.len() == 1 {
            assert(!is_group_name(edits, n)) by {
                if is_group_name(edits, n) {
                    let j = choose|j: int| 0 <= j < edits.len() && in_group(#[trigger] edits[j], n);
                    assert(p.is_prefix_of(edits[j].0)) by {
                        assert(p =~= edits[j].0.subrange(0, 1));
                    }
                }
            }
            assert forall|j: int| 0 <= j < edits.len() && j != i implies (#[trigger] edits[j]).0
                != edits[i].0 by {
                if edits[j].0 == edits[i].0 {
                    assert(edits[i].0.is_prefix_of(edits[j].0)) by {
                        assert(edits[j].0.subrange(0, edits[i].0.len() as int) =~= edits[j].0);
                    }
                }
            }
            lemma_apply_direct_at(base, edits, i);
        } else {
            assert(in_group(edits[i], n));
            assert(depth > 0);
            let g = group_of(edits, n);
            lemma_group_prefix_free(edits, n);
            lemma_group_of_has(edits, n, i);
            let k = choose|k: int| 0 <= k < g.len() && #[trigger] g[k] == (p.drop_first(), edits[i].1);
            if out.contains_key(n) {
                assert(0o040000i32 & 0o170000i32 == 0o040000i32) by (bit_vector);
                lemma_reads(child_base(direct, n), g, stored_map(out[n].0), (depth - 1) as nat);
                assert(read_path(stored_map(out[n].0), g[k].0) == g[k].1);
            } else {
                lemma_reads(child_base(direct, n), g, Map::empty(), (depth - 1) as nat);
                assert(read_path(Map::empty(), g[k].0) == g[k].1);
                lemma_read_empty(g[k].0);
            }
        }
    }
}

/// Reading back, from a rebuilt tree, each path that was edited gives the
/// value of its edit (nothing, for a removal), provided no edited path is a
/// prefix of another.
pub proof fn law_round_trip(base: Map<Seq<u8>, Slot>, edits: Seq<EditView>, r: Seq<u8>)
    requires
        rebuilt(base, edits, r),
        prefix_free(edits),
    ensures
        forall|i: int|
            0 <= i < edits.len() ==> read_path(stored_map(r), (#[trigger] edits[i]).0) == edits[i].1,
{
    lemma_reads(base, edits, stored_map(r), edit_depth(edits));
}

/// The trees whose names map as `l` and `r` differ only in the mode of the
/// entry at `p`: every other name holds the same on both sides at each level
/// on the way, the directories on the way keep their mode (their ids differ,
/// since their content does), and the entry at `p` keeps its id and its kind
/// (file or directory) but not its mode.
pub open spec fn mode_change_at(l: Map<Seq<u8>, Slot>, r: Map<Seq<u8>, Slot>, p: PathView) -> bool
    decreases p.len(),
{
    &&& p.len() > 0
    &&& forall|n: Seq<u8>| n != p[0] ==> #[trigger] slot_of(l, n) == slot_of(r, n)
    &&& l.contains_key(p[0])
    &&& r.contains_key(p[0])
    &&& if p.len() == 1 {
        &&& l[p[0]].0 == r[p[0]].0
        &&& l[p[0]].1 != r[p[0]].1
        &&& tree_mode(l[p[0]].1) == tree_mode(r[p[0]].1)
    } else {
        &&& tree_mode(l[p[0]].1)
        &&& l[p[0]].1 == r[p[0]].1
        &&& l[p[0]].0 != r[p[0]].0
        &&& mode_change_at(stored_map(l[p[0]].0), stored_map(r[p[0]].0), p.drop_first())
    }
}

/// When two trees differ only in the mode of one entry, however deep, the
/// diff reports exactly that entry's path: a file's, or a directory's without
/// anything below it.
pub proof fn law_mode_only_change_at(l: Map<Seq<u8>, Slot>, r: Map<Seq<u8>, Slot>, p: PathView)
    requires
        mode_change_at(l, r, p),
    ensures
        forall|q: PathView| changed(l, r, q) <==> q == p,
    decreases p.len(),
{
    let n = p[0];
    if p.len() > 1 {
        law_mode_only_change_at(stored_map(l[n].0), stored_map(r[n].0), p.drop_first());
    }
    assert forall|q: PathView| changed(l, r, q) <==> q == p by {
        if q.len() > 0 {
            if q[0] != n {
                assert(slot_of(l, q[0]) == slot_of(r, q[0]));
                lemma_same_slot(slot_of(l, q[0]), q.drop_first());
            } else if q.len() == 1 {
                if p.len() == 1 {
                    assert(q =~= p);
                } else {
                    assert(q != p);
                }
            } else {
                if p.len() == 1 {
                    assert(q != p);
                } else {
                    assert(descent(slot_of(l, n), slot_of(r, n)) == Some((l[n].0, Some(r[n].0))));
                    assert(changed(l, r, q) == changed(
                        stored_map(l[n].0),
                        stored_map(r[n].0),
                        q.drop_first(),
                    ));
                    if q.drop_first() == p.drop_first() {
                        lemma_cons_eq(q, p);
                    }
                }
            }
        }
    }
}

/// Each requested path reads back from the filtered tree as the lookup found
/// it in the source tree (absent where it found nothing), provided no
/// requested path is empty or a prefix of another.
pub proof fn law_filter_keeps_paths(
    listing: Seq<crate::store::EntryView>,
    paths: Seq<PathView>,
    edits: Seq<EditView>,
    r: Seq<u8>,
)
    requires
        kept_paths(listing, paths, edits),
        rebuilt(Map::empty(), edits, r),
        forall|i: int| 0 <= i < paths.len() ==> (#[trigger] paths[i]).len() > 0,
        forall|i: int, j: int|
            0 <= i < paths.len() && 0 <= j < paths.len() && i != j ==> !(#[trigger] paths[i]).is_prefix_of(
                #[trigger] paths[j],
            ),
    ensures
        forall|i: int|
            0 <= i < paths.len() ==> read_path(stored_map(r), #[trigger] paths[i]) == path_lookup(
                listing,
                paths[i],
            ),
{
    assert forall|i: int| 0 <= i < edits.len() implies (#[trigger] edits[i]).0.len() > 0 by {
        assert(edits[i].0 == paths[i]);
    }
    assert forall|i: int, j: int|
        0 <= i < edits.len() && 0 <= j < edits.len() && i != j implies !(#[trigger] edits[i]).0.is_prefix_of(
        (#[trigger] edits[j]).0) by {
        assert(edits[i].0 == paths[i] && edits[j].0 == paths[j]);
    }
    law_round_trip(Map::empty(), edits, r);
    assert forall|i: int| 0 <= i < paths.len() implies read_path(stored_map(r), #[trigger] paths[i])
        == path_lookup(listing, paths[i]) by {
        assert(edits[i].0 == paths[i]);
    }
}

/// Something is left in the tree whose names map as `m` once the entry at `p`
/// is removed and every directory on the way that it empties is pruned: some
/// other name is there, or, below the first name, something is left in its
/// subtree.
pub open spec fn left_after_removal(m: Map<Seq<u8>, Slot>, p: PathView) -> bool
    decreases p.len(),
{
    &&& p.len() > 0
    &&& ((exists|x: Seq<u8>| x != p[0] && #[trigger] m.contains_key(x)) || (p.len() > 1
        && m.contains_key(p[0]) && left_after_removal(stored_map(m[p[0]].0), p.drop_first())))
}

/// The map of the subtree reached by the names `a`, or an empty map where
/// there is none.
pub open spec fn map_at(m: Map<Seq<u8>, Slot>, a: PathView) -> Map<Seq<u8>, Slot>
    decreases a.len(),
{
    if a.len() == 0 {
        m
    } else if m.contains_key(a[0]) {
        map_at(stored_map(m[a[0]].0), a.drop_first())
    } else {
        Map::empty()
    }
}

proof fn lemma_left_deeper(m: Map<Seq<u8>, Slot>, s: PathView, k: int)
    requires
        0 <= k < s.len(),
        leaf_at(m, s),
        left_after_removal(map_at(m, s.take(k)), s.skip(k)),
    ensures
        left_after_removal(m, s),
    decreases k,
{
    if k == 0 {
        assert(s.take(0) =~= Seq::<Seq<u8>>::empty());
        assert(s.skip(0) =~= s);
    } else {
        let t = s.drop_first();
        assert(s.take(k)[0] == s[0]);
        assert(s.take(k).drop_first() =~= t.take(k - 1));
        assert(s.skip(k) =~= t.skip(k - 1));
        lemma_left_deeper(stored_map(m[s[0]].0), t, k - 1);
    }
}

proof fn lemma_deletion_prunes(
    base: Map<Seq<u8>, Slot>,
    p: PathView,
    out: Map<Seq<u8>, Slot>,
    depth: nat,
)
    requires
        rebuilds_to(base, seq![(p, None::<Slot>)], out, depth),
        leaf_at(base, p),
    ensures
        (out == Map::<Seq<u8>, Slot>::empty()) <==> !left_after_removal(base, p),
        forall|j: int|
            1 <= j < p.len() ==> ((read_path(out, #[trigger] p.take(j)) is Some)
                <==> left_after_removal(map_at(base, p.take(j)), p.skip(j))),
    decreases depth,
{
    let e: Seq<EditView> = seq![(p, None::<Slot>)];
    let n = p[0];
    lemma_single_edit(p, n, base);
    assert forall|x: Seq<u8>| x != n implies #[trigger] slot_of(out, x) == slot_of(base, x) by {
        lemma_single_edit(p, x, base);
        assert(name_rebuilt(apply_direct(base, e), e, out, x, depth));
    }
    assert(name_rebuilt(apply_direct(base, e), e, out, n, depth));
    let others = exists|x: Seq<u8>| x != p[0] && #[trigger] base.contains_key(x);
    if p.len() == 1 {
        assert(!out.contains_key(n));
        if others {
            let x = choose|x: Seq<u8>| x != p[0] && #[trigger] base.contains_key(x);
            assert(slot_of(out, x) == slot_of(base, x));
            assert(out.contains_key(x));
        } else {
            assert forall|x: Seq<u8>| !out.contains_key(x) by {
                if x != n {
                    assert(slot_of(out, x) == slot_of(base, x));
                }
            }
            assert(out =~= Map::<Seq<u8>, Slot>::empty());
        }
    } else {
        let rest = p.drop_first();
        let d = base[n].0;
        let child = stored_map(d);
        assert(0o040000i32 & 0o170000i32 == 0o040000i32) by (bit_vector);
        assert(child_base(base, n) == child);
        let kept = left_after_removal(child, rest);
        if out.contains_key(n) {
            let c = out[n].0;
            lemma_deletion_prunes(child, rest, stored_map(c), (depth - 1) as nat);
            lemma_listing_map_empty(stored_tree(c));
            assert(kept);
            assert(tree_mode(out[n].1));
        } else {
            lemma_deletion_prunes(child, rest, Map::empty(), (depth - 1) as nat);
            assert(!kept);
        }
        // The first claim.
        if others {
            let x = choose|x: Seq<u8>| x != p[0] && #[trigger] base.contains_key(x);
            assert(slot_of(out, x) == slot_of(base, x));
            assert(out.contains_key(x));
        } else if !kept {
            assert forall|x: Seq<u8>| !out.contains_key(x) by {
                if x != n {
                    assert(slot_of(out, x) == slot_of(base, x));
                }
            }
            assert(out =~= Map::<Seq<u8>, Slot>::empty());
        } else {
            assert(out.contains_key(n));
        }
        // The ancestors.
        assert forall|j: int| 1 <= j < p.len() implies ((read_path(out, #[trigger] p.take(j))
            is Some) <==> left_after_removal(map_at(base, p.take(j)), p.skip(j))) by {
            let q = p.take(j);
            assert(q[0] == n);
            assert(q.drop_first() =~= rest.take(j - 1));
            assert(p.skip(j) =~= rest.skip(j - 1));
            assert(map_at(base, q) == map_at(child, rest.take(j - 1)));
            if j == 1 {
                assert(q.len() == 1);
                assert(rest.take(0) =~= Seq::<Seq<u8>>::empty());
                assert(rest.skip(0) =~= rest);
            } else if out.contains_key(n) {
                assert(read_path(out, q) == read_path(stored_map(out[n].0), rest.take(j - 1)));
            } else {
                assert(read_path(out, q) is None);
                if left_after_removal(map_at(child, rest.take(j - 1)), rest.skip(j - 1)) {
                    lemma_left_deeper(child, rest, j - 1);
                }
            }
        }
    }
}

/// Removing one file prunes exactly the directories that it leaves empty:
/// the rebuilt tree is empty when nothing else was in it, and each directory
/// on the file's path stays exactly when something other than the file is
/// left under it. The file must be reached through directories of the plain
/// directory mode, with ids that are not zero.
pub proof fn law_deletion_prunes(base: Map<Seq<u8>, Slot>, p: PathView, r: Seq<u8>)
    requires
        leaf_at(base, p),
        rebuilt(base, seq![(p, None::<Slot>)], r),
    ensures
        (stored_map(r) == Map::<Seq<u8>, Slot>::empty()) <==> !left_after_removal(base, p),
        forall|j: int|
            1 <= j < p.len() ==> ((read_path(stored_map(r), #[trigger] p.take(j)) is Some)
                <==> left_after_removal(map_at(base, p.take(j)), p.skip(j))),
{
    lemma_deletion_prunes(base, p, stored_map(r), edit_depth(seq![(p, None::<Slot>)]));
}

/// `p` leads, through subtrees with ids that are not zero, to an entry that
/// is not a subtree: the path of a file (or other non-tree entry).
pub open spec fn file_path(m: Map<Seq<u8>, Slot>, p: PathView) -> bool
    decreases p.len(),
{
    &&& p.len() > 0
    &&& m.contains_key(p[0])
    &&& if p.len() == 1 {
        !tree_mode(m[p[0]].1)
    } else {
        &&& tree_mode(m[p[0]].1)
        &&& !id_is_zero(m[p[0]].0)
        &&& file_path(stored_map(m[p[0]].0), p.drop_first())
    }
}

/// No directory of the tree is empty, down to `d` levels: every subtree entry
/// has an id that is not zero and a stored tree that is not empty, and no
/// directory lies more than `d` levels down.
pub open spec fn no_empty_dirs(m: Map<Seq<u8>, Slot>, d: nat) -> bool
    decreases d,
{
    forall|x: Seq<u8>|
        #[trigger] m.contains_key(x) && tree_mode(m[x].1) ==> d > 0 && !id_is_zero(m[x].0)
            && stored_map(m[x].0) != Map::<Seq<u8>, Slot>::empty() && no_empty_dirs(
            stored_map(m[x].0),
            (d - 1) as nat,
        )
}

/// Some edit is on the path `p`.
pub open spec fn has_key(edits: Seq<EditView>, p: PathView) -> bool {
    exists|i: int| 0 <= i < edits.len() && (#[trigger] edits[i]).0 == p
}

/// A tree that is not empty and has no empty directory holds a file.
proof fn lemma_some_file(m: Map<Seq<u8>, Slot>, d: nat, x: Seq<u8>)
    requires
        no_empty_dirs(m, d),
        m.contains_key(x),
    ensures
        exists|p: PathView| file_path(m, p) && p[0] == x,
    decreases d,
{
    if tree_mode(m[x].1) {
        let c = stored_map(m[x].0);
        assert(c != Map::<Seq<u8>, Slot>::empty());
        let y = choose|y: Seq<u8>| c.contains_key(y);
        if !(exists|y: Seq<u8>| c.contains_key(y)) {
            assert(c =~= Map::<Seq<u8>, Slot>::empty());
        }
        lemma_some_file(c, (d - 1) as nat, y);
        let q = choose|q: PathView| file_path(c, q) && q[0] == y;
        let p = seq![x] + q;
        assert(p[0] == x);
        assert(p.drop_first() =~= q);
        assert(file_path(m, p));
    } else {
        let p = seq![x];
        assert(p.drop_first().len() == 0);
        assert(file_path(m, p));
    }
}

proof fn lemma_remove_all_files(
    m: Map<Seq<u8>, Slot>,
    edits: Seq<EditView>,
    out: Map<Seq<u8>, Slot>,
    depth: nat,
)
    requires
        rebuilds_to(m, edits, out, depth),
        forall|i: int| 0 <= i < edits.len() ==> (#[trigger] edits[i]).1 is None,
        forall|p: PathView| #[trigger] has_key(edits, p) <==> file_path(m, p),
        no_empty_dirs(m, depth),
    ensures
        out == Map::<Seq<u8>, Slot>::empty(),
    decreases depth,
{
    let direct = apply_direct(m, edits);
    assert forall|x: Seq<u8>| !out.contains_key(x) by {
        assert(slot_of(out, x) == slot_of(out, x));
        assert(name_rebuilt(direct, edits, out, x, depth));
        lemma_apply_removals(m, edits, x);
        let is_dir = m.contains_key(x) && tree_mode(m[x].1);
        if is_group_name(edits, x) {
            let i = choose|i: int| 0 <= i < edits.len() && in_group(#[trigger] edits[i], x);
            assert(has_key(edits, edits[i].0));
            assert(file_path(m, edits[i].0));
            assert(is_dir);
            assert(!has_key(edits, seq![x])) by {
                if has_key(edits, seq![x]) {
                    assert(file_path(m, seq![x]));
                }
            }
            assert(direct.contains_key(x));
            assert(direct[x] == m[x]);
            assert(!id_is_zero(m[x].0));
            let c = stored_map(m[x].0);
            assert(child_base(direct, x) == c);
            let g = group_of(edits, x);
            assert forall|k: int| 0 <= k < g.len() implies (#[trigger] g[k]).1 is None by {
                lemma_group_of_from(edits, x, k);
            }
            assert forall|q: PathView| #[trigger] has_key(g, q) <==> file_path(c, q) by {
                if has_key(g, q) {
                    let k = choose|k: int| 0 <= k < g.len() && (#[trigger] g[k]).0 == q;
                    lemma_group_of_from(edits, x, k);
                    let j = group_src(edits, x, k);
                    assert(has_key(edits, edits[j].0));
                }
                if file_path(c, q) {
                    let p = seq![x] + q;
                    assert(p[0] == x);
                    assert(p.drop_first() =~= q);
                    assert(file_path(m, p));
                    assert(has_key(edits, p));
                    let j = choose|j: int| 0 <= j < edits.len() && (#[trigger] edits[j]).0 == p;
                    assert(in_group(edits[j], x));
                    lemma_group_of_has(edits, x, j);
                    let k = choose|k: int|
                        0 <= k < g.len() && #[trigger] g[k] == (edits[j].0.drop_first(), edits[j].1);
                    assert(g[k].0 == q);
                }
            }
            if out.contains_key(x) {
                let o = out[x].0;
                lemma_remove_all_files(c, g, stored_map(o), (depth - 1) as nat);
                lemma_listing_map_empty(stored_tree(o));
            }
        } else {
            if is_dir {
                lemma_some_file(m, depth, x);
                let p = choose|p: PathView| file_path(m, p) && p[0] == x;
                assert(has_key(edits, p));
                let i = choose|i: int| 0 <= i < edits.len() && (#[trigger] edits[i]).0 == p;
                assert(p.len() >= 2);
                assert(in_group(edits[i], x));
            } else if m.contains_key(x) {
                assert(file_path(m, seq![x]));
                assert(has_key(edits, seq![x]));
            }
            assert(!direct.contains_key(x));
        }
    }
    assert(out =~= Map::<Seq<u8>, Slot>::empty());
}

/// Removing every file of a tree that has no empty directory, and nothing
/// else, leaves the empty tree: each directory is pruned once its last file
/// goes, at every depth.
pub proof fn law_remove_all_files(base: Map<Seq<u8>, Slot>, edits: Seq<EditView>, r: Seq<u8>)
    requires
        rebuilt(base, edits, r),
        forall|i: int| 0 <= i < edits.len() ==> (#[trigger] edits[i]).1 is None,
        forall|p: PathView| #[trigger] has_key(edits, p) <==> file_path(base, p),
        no_empty_dirs(base, edit_depth(edits)),
    ensures
        stored_map(r) == Map::<Seq<u8>, Slot>::empty(),
{
    lemma_remove_all_files(base, edits, stored_map(r), edit_depth(edits));
}

/// `a` names a directory of the tree: each name on it holds a subtree with an
/// id that is not zero.
pub open spec fn dir_path(m: Map<Seq<u8>, Slot>, a: PathView) -> bool
    decreases a.len(),
{
    &&& a.len() > 0
    &&& m.contains_key(a[0])
    &&& tree_mode(m[a[0]].1)
    &&& !id_is_zero(m[a[0]].0)
    &&& (a.len() == 1 || dir_path(stored_map(m[a[0]].0), a.drop_first()))
}

/// A name that no edit sets or removes alone keeps what it held.
proof fn lemma_apply_direct_untouched(m: Map<Seq<u8>, Slot>, edits: Seq<EditView>, n: Seq<u8>)
    requires
        forall|i: int| 0 <= i < edits.len() ==> (#[trigger] edits[i]).0 != seq![n],
    ensures
        slot_of(apply_direct(m, edits), n) == slot_of(m, n),
    decreases edits.len(),
{
    if edits.len() > 0 {
        let t = edits.drop_last();
        assert forall|i: int| 0 <= i < t.len() implies (#[trigger] t[i]).0 != seq![n] by {
            assert(t[i] == edits[i]);
        }
        lemma_apply_direct_untouched(m, t, n);
        let last = edits[edits.len() - 1];
        if last.0.len() == 1 && last.0[0] == n {
            assert(last.0 =~= seq![n]);
        }
    }
}

/// The paths of the group of `n` are those of the edits below `n`, with `n`
/// taken off.
proof fn lemma_group_keys(edits: Seq<EditView>, n: Seq<u8>, p: PathView)
    ensures
        has_key(group_of(edits, n), p) <==> p.len() >= 1 && has_key(edits, seq![n] + p),
{
    let g = group_of(edits, n);
    if has_key(g, p) {
        let k = choose|k: int| 0 <= k < g.len() && (#[trigger] g[k]).0 == p;
        lemma_group_of_from(edits, n, k);
        let i = group_src(edits, n, k);
        assert(edits[i].0 =~= seq![n] + p);
        assert(has_key(edits, seq![n] + p));
    }
    if p.len() >= 1 && has_key(edits, seq![n] + p) {
        let i = choose|i: int| 0 <= i < edits.len() && (#[trigger] edits[i]).0 == seq![n] + p;
        assert(in_group(edits[i], n));
        lemma_group_of_has(edits, n, i);
        let k = choose|k: int|
            0 <= k < g.len() && #[trigger] g[k] == (edits[i].0.drop_first(), edits[i].1);
        assert((seq![n] + p).drop_first() =~= p);
        assert(has_key(g, p));
    }
}

proof fn lemma_prune_emptied_dir(
    m: Map<Seq<u8>, Slot>,
    a: PathView,
    edits: Seq<EditView>,
    out: Map<Seq<u8>, Slot>,
    depth: nat,
)
    requires
        rebuilds_to(m, edits, out, depth),
        prefix_free(edits),
        dir_path(m, a),
        map_at(m, a) != Map::<Seq<u8>, Slot>::empty(),
        forall|q: PathView| #[trigger] has_key(edits, a + q) <==> file_path(map_at(m, a), q),
        forall|i: int| 0 <= i < edits.len() && a.is_prefix_of(#[trigger] edits[i].0) ==> edits[i].1 is None,
        depth >= a.len(),
        no_empty_dirs(map_at(m, a), (depth - a.len()) as nat),
    ensures
        read_path(out, a) is None,
    decreases a.len(),
{
    let n = a[0];
    let rest = a.drop_first();
    let d = map_at(m, a);
    let x = choose|x: Seq<u8>| d.contains_key(x);
    if !(exists|x: Seq<u8>| d.contains_key(x)) {
        assert(d =~= Map::<Seq<u8>, Slot>::empty());
    }
    lemma_some_file(d, (depth - a.len()) as nat, x);
    let q0 = choose|q: PathView| file_path(d, q) && q[0] == x;
    assert(has_key(edits, a + q0));
    let i0 = choose|i: int| 0 <= i < edits.len() && (#[trigger] edits[i]).0 == a + q0;
    assert((a + q0)[0] == n);
    assert(in_group(edits[i0], n));
    assert forall|i: int| 0 <= i < edits.len() implies (#[trigger] edits[i]).0 != seq![n] by {
        if edits[i].0 == seq![n] && i != i0 {
            assert(edits[i].0.is_prefix_of(edits[i0].0)) by {
                assert(edits[i0].0.subrange(0, 1) =~= seq![n]);
            }
        }
    }
    let direct = apply_direct(m, edits);
    lemma_apply_direct_untouched(m, edits, n);
    let c = stored_map(m[n].0);
    assert(child_base(direct, n) == c);
    assert(map_at(m, a) == map_at(c, rest));
    assert(slot_of(out, n) == slot_of(out, n));
    assert(name_rebuilt(direct, edits, out, n, depth));
    let g = group_of(edits, n);
    if out.contains_key(n) {
        let o = stored_map(out[n].0);
        assert(rebuilds_to(c, g, o, (depth - 1) as nat));
        assert forall|k: int| 0 <= k < g.len() && rest.is_prefix_of(#[trigger] g[k].0) implies g[k].1
            is None by {
            lemma_group_of_from(edits, n, k);
            let i = group_src(edits, n, k);
            assert(edits[i].0 =~= seq![n] + g[k].0);
            assert(a =~= seq![n] + rest);
            assert(a.is_prefix_of(edits[i].0)) by {
                assert(edits[i].0.subrange(0, a.len() as int) =~= a);
            }
        }
        if a.len() == 1 {
            assert(rest.len() == 0);
            assert forall|k: int| 0 <= k < g.len() implies (#[trigger] g[k]).1 is None by {
                assert(rest.is_prefix_of(g[k].0)) by {
                    assert(g[k].0.subrange(0, 0) =~= rest);
                }
            }
            assert forall|q: PathView| #[trigger] has_key(g, q) <==> file_path(c, q) by {
                lemma_group_keys(edits, n, q);
                assert(a + q =~= seq![n] + q);
                assert(map_at(c, rest) == c);
                if file_path(c, q) {
                    assert(q.len() >= 1);
                }
            }
            assert(map_at(c, rest) == c);
            lemma_remove_all_files(c, g, o, (depth - 1) as nat);
            lemma_listing_map_empty(stored_tree(out[n].0));
        } else {
            lemma_group_prefix_free(edits, n);
            assert forall|q: PathView| #[trigger] has_key(g, rest + q) <==> file_path(map_at(c, rest), q) by {
                lemma_group_keys(edits, n, rest + q);
                assert(seq![n] + (rest + q) =~= a + q);
            }
            lemma_prune_emptied_dir(c, rest, g, o, (depth - 1) as nat);
            assert(0o040000i32 & 0o170000i32 == 0o040000i32) by (bit_vector);
            assert(read_path(out, a) == read_path(o, rest));
        }
    }
}

/// Removing every file inside a directory, at any depth, and nothing else
/// under it, prunes the directory: the rebuilt tree holds nothing at its path,
/// whatever the other edits do elsewhere. The directory must hold files and
/// no empty directory, and no edited path may be a prefix of another.
pub proof fn law_prune_emptied_dir(
    base: Map<Seq<u8>, Slot>,
    a: PathView,
    edits: Seq<EditView>,
    r: Seq<u8>,
)
    requires
        rebuilt(base, edits, r),
        prefix_free(edits),
        dir_path(base, a),
        map_at(base, a) != Map::<Seq<u8>, Slot>::empty(),
        forall|q: PathView| #[trigger] has_key(edits, a + q) <==> file_path(map_at(base, a), q),
        forall|i: int| 0 <= i < edits.len() && a.is_prefix_of(#[trigger] edits[i].0) ==> edits[i].1 is None,
        edit_depth(edits) >= a.len(),
        no_empty_dirs(map_at(base, a), (edit_depth(edits) - a.len()) as nat),
    ensures
        read_path(stored_map(r), a) is None,
{
    lemma_prune_emptied_dir(base, a, edits, stored_map(r), edit_depth(edits));
}

} // verus!

//! Lower-level tree operations: the paths that changed between two trees, and
//! trees rebuilt from a base tree and a set of path edits.
//!
//! Names are raw bytes throughout: a name that is not UTF-8 is compared,
//! edited and reported like any other, never skipped.
use vstd::prelude::*;

use crate::store::{
    builder_entries, builder_get, builder_insert, builder_remove, builder_write, entries_view,
    entry_by_path, find_tree, found_at, join_names, listing_map, name_fits, names_fit, new_builder,
    no_nul, path_lookup, stored_map, valid_name,
    stored_tree, tree_contents, tree_entries, tree_len, valid_path, Entry, EntryView, ObjectId,
};

verus! {

/// What a name holds within one tree: the id it points to and its raw mode.
pub type Slot = (Seq<u8>, i32);

/// A path as a sequence of name components.
pub type PathView = Seq<Seq<u8>>;

/// The mode that marks an entry pointing to a subtree.
pub const TREE_MODE: i32 = 0o040000;

/// The deepest path, in components, below which the diff still descends into
/// subtrees; it keeps the recursion within a thread's default stack.
pub const MAX_TREE_DEPTH: usize = 1024;

/// Why a tree operation failed.
#[derive(Debug)]
pub enum TreeError {
    /// A subtree that the operation needed could not be read from the store.
    LookupFailed { id: ObjectId, cause: git2::Error },
    /// The store refused to build or to write a tree.
    WriteFailed { cause: git2::Error },
    /// The diff would have to read subtrees more than `MAX_TREE_DEPTH` names
    /// deep: such trees are refused rather than risk the stack.
    TooDeep,
    /// Looking up a requested path failed for another reason than its absence.
    PathLookupFailed { cause: git2::Error },
    /// A name cannot stand in a tree entry: longer than 65535 bytes, or (for a
    /// path to look up) empty, ".", "..", or holding '/', '\' or a zero byte.
    InvalidPathComponent,
}

// ---------------------------------------------------------------------------
// The model
// ---------------------------------------------------------------------------

/// A raw mode denotes a subtree when its type bits are those of a directory.
pub open spec fn tree_mode(mode: i32) -> bool {
    mode & 0o170000i32 == 0o040000i32
}

pub open spec fn id_is_zero(id: Seq<u8>) -> bool {
    forall|i: int| 0 <= i < id.len() ==> id[i] == 0
}

pub open spec fn slot_of(m: Map<Seq<u8>, Slot>, n: Seq<u8>) -> Option<Slot> {
    if m.contains_key(n) {
        Some(m[n])
    } else {
        None
    }
}

/// The names of a tree value, mapped to what they hold; an absent tree has none.
pub open spec fn tree_map(t: Option<&git2::Tree<'_>>) -> Map<Seq<u8>, Slot> {
    match t {
        Some(t) => listing_map(tree_contents(*t)),
        None => Map::empty(),
    }
}

pub open spec fn opt_stored_map(id: Option<Seq<u8>>) -> Map<Seq<u8>, Slot> {
    match id {
        Some(id) => stored_map(id),
        None => Map::empty(),
    }
}

/// Whether the diff reports the path of a name itself, given what the name
/// holds on each side.
pub open spec fn reports_own_path(l: Option<Slot>, r: Option<Slot>) -> bool {
    match (l, r) {
        (None, None) => false,
        (Some(a), None) => !tree_mode(a.1),
        (None, Some(b)) => !tree_mode(b.1),
        (Some(a), Some(b)) => if tree_mode(a.1) && tree_mode(b.1) {
            a.1 != b.1
        } else if !tree_mode(a.1) && !tree_mode(b.1) {
            a != b
        } else {
            true
        },
    }
}

/// The subtrees that the diff descends into below a name: one subtree against
/// nothing, or two subtrees against each other.
pub open spec fn descent(l: Option<Slot>, r: Option<Slot>) -> Option<(Seq<u8>, Option<Seq<u8>>)> {
    match (l, r) {
        (None, None) => None,
        (Some(a), None) => if tree_mode(a.1) {
            Some((a.0, None))
        } else {
            None
        },
        (None, Some(b)) => if tree_mode(b.1) {
            Some((b.0, None))
        } else {
            None
        },
        (Some(a), Some(b)) => if tree_mode(a.1) && tree_mode(b.1) {
            if a.0 != b.0 {
                Some((a.0, Some(b.0)))
            } else {
                None
            }
        } else if tree_mode(a.1) {
            Some((a.0, None))
        } else if tree_mode(b.1) {
            Some((b.0, None))
        } else {
            None
        },
    }
}

/// Whether the path `p` is reported as changed between the trees whose names
/// map as `l` and `r`.
pub open spec fn changed(l: Map<Seq<u8>, Slot>, r: Map<Seq<u8>, Slot>, p: PathView) -> bool
    decreases p.len(), 0int,
{
    p.len() > 0 && changed_below(slot_of(l, p[0]), slot_of(r, p[0]), p.drop_first())
}

/// Whether the path `q`, taken below a name holding `l` and `r`, is reported.
pub open spec fn changed_below(l: Option<Slot>, r: Option<Slot>, q: PathView) -> bool
    decreases q.len(), 1int,
{
    if q.len() == 0 {
        reports_own_path(l, r)
    } else {
        match descent(l, r) {
            Some((a, b)) => changed(stored_map(a), opt_stored_map(b), q),
            None => false,
        }
    }
}

/// No name of the two trees makes the diff read a subtree.
pub open spec fn no_descent(l: Map<Seq<u8>, Slot>, r: Map<Seq<u8>, Slot>) -> bool {
    forall|n: Seq<u8>| #[trigger] descent(slot_of(l, n), slot_of(r, n)) is None
}

/// The diff must read a chain of `d + 1` nested subtrees, starting at the
/// trees whose names map as `l` and `r`: some name makes it read subtrees,
/// and (unless `d` is 0) those subtrees make it read `d` more levels.
pub open spec fn deep_descent(l: Map<Seq<u8>, Slot>, r: Map<Seq<u8>, Slot>, d: nat) -> bool
    decreases d,
{
    exists|n: Seq<u8>|
        #![trigger slot_of(l, n)]
        match descent(slot_of(l, n), slot_of(r, n)) {
            Some((a, b)) => if d == 0 {
                true
            } else {
                deep_descent(stored_map(a), opt_stored_map(b), (d - 1) as nat)
            },
            None => false,
        }
}

/// Below a name holding `l` and `r`, the diff must read a chain of `d + 1`
/// nested subtrees.
pub open spec fn deep_below(l: Option<Slot>, r: Option<Slot>, d: nat) -> bool {
    match descent(l, r) {
        Some((a, b)) => if d == 0 {
            true
        } else {
            deep_descent(stored_map(a), opt_stored_map(b), (d - 1) as nat)
        },
        None => false,
    }
}

pub open spec fn under(prefix: PathView, q: PathView) -> bool {
    prefix.len() <= q.len() && q.subrange(0, prefix.len() as int) == prefix
}

pub open spec fn path_view(p: Vec<Vec<u8>>) -> PathView {
    p@.map_values(|c: Vec<u8>| c@)
}

pub open spec fn paths_view(v: Seq<Vec<Vec<u8>>>) -> Seq<PathView> {
    v.map_values(|p: Vec<Vec<u8>>| path_view(p))
}

/// `out` lists, once each, the paths below `cur` that change between `l` and `r`.
pub open spec fn lists_changes(
    out: Seq<PathView>,
    cur: PathView,
    l: Map<Seq<u8>, Slot>,
    r: Map<Seq<u8>, Slot>,
) -> bool {
    &&& out.no_duplicates()
    &&& forall|q: PathView|
        #[trigger] out.contains(q) <==> under(cur, q) && changed(l, r, q.skip(cur.len() as int))
}

// ---------------------------------------------------------------------------
// Facts about the model
// ---------------------------------------------------------------------------

/// A name is in a listing's map when some entry has it, and it holds what the
/// last such entry holds.
pub proof fn lemma_listing_map(s: Seq<EntryView>, n: Seq<u8>)
    ensures
        listing_map(s).contains_key(n) <==> exists|k: int| 0 <= k < s.len() && (#[trigger] s[k]).0
            == n,
        forall|k: int|
            0 <= k < s.len() && (#[trigger] s[k]).0 == n && (forall|j: int|
                k < j < s.len() ==> s[j].0 != n) ==> listing_map(s)[n] == (s[k].1, s[k].2),
    decreases s.len(),
{
    if s.len() > 0 {
        let t = s.drop_last();
        lemma_listing_map(t, n);
        if s.last().0 != n {
            assert forall|k: int| 0 <= k < s.len() && (#[trigger] s[k]).0 == n implies 0 <= k
                < t.len() && t[k].0 == n by {}
            assert forall|k: int| 0 <= k < t.len() && (#[trigger] t[k]).0 == n implies 0 <= k
                < s.len() && s[k].0 == n by {}
        } else {
            assert(s[s.len() - 1].0 == n);
        }
    }
}

/// An empty listing is exactly one whose map has no names.
pub proof fn lemma_listing_map_empty(s: Seq<EntryView>)
    ensures
        (s.len() == 0) <==> (listing_map(s) == Map::<Seq<u8>, Slot>::empty()),
{
    if s.len() > 0 {
        lemma_listing_map(s, s[0].0);
        assert(listing_map(s).contains_key(s[0].0));
    }
}

proof fn lemma_no_dup_concat(a: Seq<PathView>, b: Seq<PathView>)
    requires
        a.no_duplicates(),
        b.no_duplicates(),
        forall|q: PathView| a.contains(q) ==> !b.contains(q),
    ensures
        (a + b).no_duplicates(),
{
    let c = a + b;
    assert forall|i: int, j: int| 0 <= i < c.len() && 0 <= j < c.len() && i != j implies c[i]
        != c[j] by {
        if i < a.len() && j >= a.len() {
            assert(a.contains(c[i]));
            assert(b.contains(b[j - a.len()]));
        } else if j < a.len() && i >= a.len() {
            assert(a.contains(c[j]));
            assert(b.contains(b[i - a.len()]));
        }
    }
}

/// Reading `p` below `cur` one name at a time.
proof fn lemma_changed_step(l: Map<Seq<u8>, Slot>, r: Map<Seq<u8>, Slot>, cur: PathView, q: PathView)
    requires
        under(cur, q),
        q.len() > cur.len(),
    ensures
        changed(l, r, q.skip(cur.len() as int)) == changed_below(
            slot_of(l, q[cur.len() as int]),
            slot_of(r, q[cur.len() as int]),
            q.skip(cur.len() + 1int),
        ),
{
    let p = q.skip(cur.len() as int);
    assert(p[0] == q[cur.len() as int]);
    assert(p.drop_first() =~= q.skip(cur.len() + 1int));
}

// ---------------------------------------------------------------------------
// Small executable pieces
// ---------------------------------------------------------------------------

pub fn same_bytes(a: &Vec<u8>, b: &Vec<u8>) -> (r: bool)
    ensures
        r == (a@ == b@),
{
    if a.len() != b.len() {
        return false;
    }
    let mut i: usize = 0;
    while i < a.len()
        invariant
            a.len() == b.len(),
            i <= a.len(),
            forall|j: int| 0 <= j < i ==> a@[j] == b@[j],
        decreases a.len() - i,
    {
        if a[i] != b[i] {
            return false;
        }
        i = i + 1;
    }
    assert(a@ =~= b@);
    true
}

impl ObjectId {
    pub fn same(&self, other: &ObjectId) -> (r: bool)
        ensures
            r == (self@ == other@),
    {
        let mut i: usize = 0;
        while i < 20
            invariant
                i <= 20,
                forall|j: int| 0 <= j < i ==> self.bytes@[j] == other.bytes@[j],
            decreases 20 - i,
        {
            if self.bytes[i] != other.bytes[i] {
                return false;
            }
            i = i + 1;
        }
        assert(self.bytes@ =~= other.bytes@);
        true
    }

    /// Whether every byte of the id is zero.
    pub fn is_zero(&self) -> (r: bool)
        ensures
            r == id_is_zero(self@),
    {
        let mut i: usize = 0;
        while i < 20
            invariant
                i <= 20,
                forall|j: int| 0 <= j < i ==> self.bytes@[j] == 0,
            decreases 20 - i,
        {
            if self.bytes[i] != 0 {
                return false;
            }
            i = i + 1;
        }
        true
    }
}

pub fn is_tree_mode(mode: i32) -> (r: bool)
    ensures
        r == tree_mode(mode),
{
    mode & 0o170000i32 == 0o040000i32
}

fn copy_bytes(v: &Vec<u8>) -> (r: Vec<u8>)
    ensures
        r@ == v@,
{
    let mut r: Vec<u8> = Vec::new();
    let mut i: usize = 0;
    while i < v.len()
        invariant
            i <= v.len(),
            r@ == v@.take(i as int),
        decreases v.len() - i,
    {
        r.push(v[i]);
        i = i + 1;
        assert(r@ =~= v@.take(i as int));
    }
    assert(v@.take(v.len() as int) =~= v@);
    r
}

/// A copy of `prefix` with `name` appended.
fn child_path(prefix: &Vec<Vec<u8>>, name: &Vec<u8>) -> (r: Vec<Vec<u8>>)
    ensures
        path_view(r) == path_view(*prefix).push(name@),
        r.len() == prefix.len() + 1,
{
    let mut r: Vec<Vec<u8>> = Vec::new();
    let mut i: usize = 0;
    while i < prefix.len()
        invariant
            i <= prefix.len(),
            r.len() == i,
            forall|k: int| 0 <= k < i ==> r@[k]@ == prefix@[k]@,
        decreases prefix.len() - i,
    {
        r.push(copy_bytes(&prefix[i]));
        i = i + 1;
    }
    r.push(copy_bytes(name));
    assert(path_view(r) =~= path_view(*prefix).push(name@));
    r
}

/// The last index below `hi` whose entry is named `name`.
///
/// Names are byte strings, and vstd specifies hash and ordered maps only for
/// keys whose hashing and order it models (integers), not for byte vectors:
/// the diff therefore finds names by scanning the listing, which makes each
/// directory level quadratic in its number of entries.
fn last_index_in(entries: &Vec<Entry>, name: &Vec<u8>, hi: usize) -> (r: Option<usize>)
    requires
        hi <= entries.len(),
    ensures
        r matches Some(k) ==> k < hi && entries@[k as int].name@ == name@ && forall|j: int|
            k < j < hi ==> entries@[j].name@ != name@,
        r is None ==> forall|j: int| 0 <= j < hi ==> entries@[j].name@ != name@,
{
    let mut i = hi;
    while i > 0
        invariant
            i <= hi <= entries.len(),
            forall|j: int| i <= j < hi ==> entries@[j].name@ != name@,
        decreases i,
    {
        i = i - 1;
        if same_bytes(&entries[i].name, name) {
            return Some(i);
        }
    }
    None
}

// ---------------------------------------------------------------------------
// Diff
// ---------------------------------------------------------------------------

/// Which subtrees the diff reads below one name.
pub enum Descend {
    No,
    One(ObjectId),
    Both(ObjectId, ObjectId),
}

/// What the diff does with one name, given its entry on each side.
pub struct Change {
    /// The name's own path is reported.
    pub report: bool,
    pub descend: Descend,
}

pub open spec fn entry_slot(e: Option<&Entry>) -> Option<Slot> {
    match e {
        Some(e) => Some((e.id@, e.mode)),
        None => None,
    }
}

pub open spec fn descend_view(d: Descend) -> Option<(Seq<u8>, Option<Seq<u8>>)> {
    match d {
        Descend::No => None,
        Descend::One(a) => Some((a@, None)),
        Descend::Both(a, b) => Some((a@, Some(b@))),
    }
}

/// The decision table of the diff for one name: absent, a subtree, or any
/// other entry on each side.
pub fn classify_change(lhs: Option<&Entry>, rhs: Option<&Entry>) -> (c: Change)
    ensures
        c.report == reports_own_path(entry_slot(lhs), entry_slot(rhs)),
        descend_view(c.descend) == descent(entry_slot(lhs), entry_slot(rhs)),
{
    match (lhs, rhs) {
        (None, None) => Change { report: false, descend: Descend::No },
        (Some(a), None) | (None, Some(a)) => {
            if is_tree_mode(a.mode) {
                Change { report: false, descend: Descend::One(a.id) }
            } else {
                Change { report: true, descend: Descend::No }
            }
        },
        (Some(a), Some(b)) => {
            let a_tree = is_tree_mode(a.mode);
            let b_tree = is_tree_mode(b.mode);
            if a_tree && b_tree {
                let same_id = a.id.same(&b.id);
                let descend = if same_id {
                    Descend::No
                } else {
                    Descend::Both(a.id, b.id)
                };
                Change { report: a.mode != b.mode, descend }
            } else if a_tree {
                Change { report: true, descend: Descend::One(a.id) }
            } else if b_tree {
                Change { report: true, descend: Descend::One(b.id) }
            } else {
                let same_id = a.id.same(&b.id);
                Change { report: !same_id || a.mode != b.mode, descend: Descend::No }
            }
        },
    }
}

fn lookup_entries(repo: &git2::Repository, id: &ObjectId) -> (r: Result<Vec<Entry>, TreeError>)
    ensures
        r matches Ok(v) ==> entries_view(v@) == stored_tree(id@),
        r matches Err(e) ==> e is LookupFailed,
{
    match find_tree(repo, id) {
        Ok(t) => Ok(tree_entries(&t)),
        Err(cause) => Err(TreeError::LookupFailed { id: *id, cause }),
    }
}

/// The changed paths below `current ++ [name]`, where `name` holds `lhs` and
/// `rhs` on the two sides.
fn diff_name(
    repo: &git2::Repository,
    current: &Vec<Vec<u8>>,
    name: &Vec<u8>,
    lhs: Option<&Entry>,
    rhs: Option<&Entry>,
) -> (r: Result<Vec<Vec<Vec<u8>>>, TreeError>)
    requires
        current.len() <= MAX_TREE_DEPTH,
    ensures
        r matches Ok(out) ==> {
            &&& paths_view(out@).no_duplicates()
            &&& forall|q: PathView| #[trigger]
                paths_view(out@).contains(q) <==> under(path_view(*current).push(name@), q)
                    && changed_below(
                    entry_slot(lhs),
                    entry_slot(rhs),
                    q.skip(current.len() + 1int),
                )
        },
        descent(entry_slot(lhs), entry_slot(rhs)) is None ==> r is Ok,
        r matches Err(e) ==> e is LookupFailed || e is TooDeep,
        r is Err && r->Err_0 is TooDeep ==> deep_below(
            entry_slot(lhs),
            entry_slot(rhs),
            (MAX_TREE_DEPTH - current.len()) as nat,
        ),
        deep_below(entry_slot(lhs), entry_slot(rhs), (MAX_TREE_DEPTH - current.len()) as nat)
            ==> r is Err,
    decreases MAX_TREE_DEPTH - current.len(), 0int,
{
    let ghost cur = path_view(*current);
    let ghost own = cur.push(name@);
    let ghost ls = entry_slot(lhs);
    let ghost rs = entry_slot(rhs);
    let change = classify_change(lhs, rhs);
    let mut out: Vec<Vec<Vec<u8>>> = Vec::new();
    let pair: Option<(ObjectId, Option<ObjectId>)> = match change.descend {
        Descend::No => None,
        Descend::One(a) => Some((a, None)),
        Descend::Both(a, b) => Some((a, Some(b))),
    };
    if let Some((a, b)) = pair {
        if current.len() >= MAX_TREE_DEPTH {
            return Err(TreeError::TooDeep);
        }
        let path = child_path(current, name);
        let left = lookup_entries(repo, &a)?;
        let right = match b {
            Some(b) => lookup_entries(repo, &b)?,
            None => Vec::new(),
        };
        proof {
            if b is None {
                assert(entries_view(right@) =~= Seq::<EntryView>::empty());
            }
        }
        out = diff_level(repo, &path, &left, &right)?;
        assert forall|q: PathView| #[trigger]
            paths_view(out@).contains(q) <==> under(own, q) && q.len() > own.len()
                && changed_below(ls, rs, q.skip(own.len() as int)) by {
            if under(own, q) && q.len() == own.len() {
                assert(q.skip(own.len() as int) =~= Seq::<Seq<u8>>::empty());
            }
        }
    } else {
        assert forall|q: PathView| #[trigger]
            paths_view(out@).contains(q) <==> under(own, q) && q.len() > own.len()
                && changed_below(ls, rs, q.skip(own.len() as int)) by {
            assert(paths_view(out@) =~= Seq::<PathView>::empty());
        }
    }
    let ghost before = paths_view(out@);
    assert(own.skip(own.len() as int) =~= Seq::<Seq<u8>>::empty());
    assert(own.subrange(0, own.len() as int) =~= own);
    if change.report {
        let own_path = child_path(current, name);
        out.push(own_path);
        assert(paths_view(out@) =~= before.push(own));
        assert(!before.contains(own));
        assert forall|q: PathView| #[trigger]
            paths_view(out@).contains(q) <==> under(own, q) && changed_below(
                ls,
                rs,
                q.skip(own.len() as int),
            ) by {
            if under(own, q) && q.len() == own.len() {
                assert(q =~= own);
            }
            if q == own {
                assert(paths_view(out@)[before.len() as int] == own);
            } else {
                if before.contains(q) {
                    let k = choose|k: int| 0 <= k < before.len() && before[k] == q;
                    assert(paths_view(out@)[k] == q);
                }
                if paths_view(out@).contains(q) {
                    let k = choose|k: int|
                        0 <= k < paths_view(out@).len() && paths_view(out@)[k] == q;
                    assert(before[k] == q);
                }
            }
        }
    } else {
        assert forall|q: PathView| #[trigger]
            paths_view(out@).contains(q) <==> under(own, q) && changed_below(
                ls,
                rs,
                q.skip(own.len() as int),
            ) by {
            if under(own, q) && q.len() == own.len() {
                assert(q =~= own);
            }
        }
    }
    Ok(out)
}

/// The paths of `out` are, once each, the changed paths below `cur` whose first
/// name after `cur` is in `done`.
pub open spec fn lists_changes_of(
    out: Seq<PathView>,
    cur: PathView,
    l: Map<Seq<u8>, Slot>,
    r: Map<Seq<u8>, Slot>,
    done: Set<Seq<u8>>,
) -> bool {
    &&& out.no_duplicates()
    &&& forall|q: PathView| #[trigger]
        out.contains(q) <==> under(cur, q) && q.len() > cur.len() && done.contains(
            q[cur.len() as int],
        ) && changed(l, r, q.skip(cur.len() as int))
}

/// Adds to `out` the changed paths below `current ++ [name]`.
fn diff_add_name(
    repo: &git2::Repository,
    current: &Vec<Vec<u8>>,
    name: &Vec<u8>,
    lhs: &Vec<Entry>,
    rhs: &Vec<Entry>,
    out: &mut Vec<Vec<Vec<u8>>>,
    Ghost(done): Ghost<Set<Seq<u8>>>,
) -> (r: Result<(), TreeError>)
    requires
        current.len() <= MAX_TREE_DEPTH,
        !done.contains(name@),
        lists_changes_of(
            paths_view(old(out)@),
            path_view(*current),
            listing_map(entries_view(lhs@)),
            listing_map(entries_view(rhs@)),
            done,
        ),
    ensures
        r is Ok ==> lists_changes_of(
            paths_view(final(out)@),
            path_view(*current),
            listing_map(entries_view(lhs@)),
            listing_map(entries_view(rhs@)),
            done.insert(name@),
        ),
        descent(
            slot_of(listing_map(entries_view(lhs@)), name@),
            slot_of(listing_map(entries_view(rhs@)), name@),
        ) is None ==> r is Ok,
        r matches Err(e) ==> e is LookupFailed || e is TooDeep,
        r is Err && r->Err_0 is TooDeep ==> deep_descent(
            listing_map(entries_view(lhs@)),
            listing_map(entries_view(rhs@)),
            (MAX_TREE_DEPTH - current.len()) as nat,
        ),
        deep_below(
            slot_of(listing_map(entries_view(lhs@)), name@),
            slot_of(listing_map(entries_view(rhs@)), name@),
            (MAX_TREE_DEPTH - current.len()) as nat,
        ) ==> r is Err,
    decreases MAX_TREE_DEPTH - current.len(), 1int,
{
    let ghost cur = path_view(*current);
    let ghost lv = entries_view(lhs@);
    let ghost rv = entries_view(rhs@);
    let ghost lm = listing_map(lv);
    let ghost rm = listing_map(rv);
    let li = last_index_in(lhs, name, lhs.len());
    let ri = last_index_in(rhs, name, rhs.len());
    let l_entry: Option<&Entry> = match li {
        Some(k) => Some(&lhs[k]),
        None => None,
    };
    let r_entry: Option<&Entry> = match ri {
        Some(k) => Some(&rhs[k]),
        None => None,
    };
    proof {
        lemma_listing_map(lv, name@);
        lemma_listing_map(rv, name@);
        if let Some(k) = li {
            assert(lv[k as int] == lhs@[k as int]@);
            assert forall|j: int| k < j < lv.len() implies lv[j].0 != name@ by {
                assert(lv[j] == lhs@[j]@);
            }
        } else {
            assert forall|k: int| 0 <= k < lv.len() implies lv[k].0 != name@ by {
                assert(lv[k] == lhs@[k]@);
            }
        }
        if let Some(k) = ri {
            assert(rv[k as int] == rhs@[k as int]@);
            assert forall|j: int| k < j < rv.len() implies rv[j].0 != name@ by {
                assert(rv[j] == rhs@[j]@);
            }
        } else {
            assert forall|k: int| 0 <= k < rv.len() implies rv[k].0 != name@ by {
                assert(rv[k] == rhs@[k]@);
            }
        }
        assert(entry_slot(l_entry) == slot_of(lm, name@));
        assert(entry_slot(r_entry) == slot_of(rm, name@));
    }
    let mut added = diff_name(repo, current, name, l_entry, r_entry)?;
    let ghost before = paths_view(out@);
    let ghost add = paths_view(added@);
    proof {
        assert forall|q: PathView| before.contains(q) implies !add.contains(q) by {
            if add.contains(q) {
                assert(q.subrange(0, cur.len() + 1int) == cur.push(name@));
                assert(q[cur.len() as int] == q.subrange(0, cur.len() + 1int)[cur.len() as int]);
            }
        }
        lemma_no_dup_concat(before, add);
    }
    out.append(&mut added);
    assert(paths_view(out@) =~= before + add);
    assert forall|q: PathView| #[trigger]
        paths_view(out@).contains(q) <==> under(cur, q) && q.len() > cur.len() && done.insert(
            name@,
        ).contains(q[cur.len() as int]) && changed(lm, rm, q.skip(cur.len() as int)) by {
        if add.contains(q) {
            assert(q.subrange(0, cur.len() + 1int) == cur.push(name@));
            assert(q[cur.len() as int] == q.subrange(0, cur.len() + 1int)[cur.len() as int]);
            assert(q.subrange(0, cur.len() as int) =~= q.subrange(0, cur.len() + 1int).subrange(
                0,
                cur.len() as int,
            ));
            assert(cur.push(name@).subrange(0, cur.len() as int) =~= cur);
            lemma_changed_step(lm, rm, cur, q);
        }
        if under(cur, q) && q.len() > cur.len() {
            if done.contains(q[cur.len() as int]) && changed(lm, rm, q.skip(cur.len() as int)) {
                assert(before.contains(q));
            }
            if q[cur.len() as int] == name@ {
                assert(q.subrange(0, cur.len() + 1int) =~= cur.push(name@));
                lemma_changed_step(lm, rm, cur, q);
                if changed(lm, rm, q.skip(cur.len() as int)) {
                    assert(add.contains(q));
                }
            }
        }
        if before.contains(q) || add.contains(q) {
            assert((before + add).contains(q)) by {
                if before.contains(q) {
                    let k = choose|k: int| 0 <= k < before.len() && before[k] == q;
                    assert((before + add)[k] == q);
                } else {
                    let k = choose|k: int| 0 <= k < add.len() && add[k] == q;
                    assert((before + add)[before.len() + k] == q);
                }
            }
        }
        if (before + add).contains(q) {
            let k = choose|k: int| 0 <= k < (before + add).len() && (before + add)[k] == q;
            if k < before.len() {
                assert(before.contains(before[k]));
            } else {
                assert(add.contains(add[k - before.len()]));
            }
        }
    }
    Ok(())
}

/// A changed path starts with a name of one of the two trees.
proof fn lemma_changed_name(l: Map<Seq<u8>, Slot>, r: Map<Seq<u8>, Slot>, p: PathView)
    requires
        changed(l, r, p),
    ensures
        l.contains_key(p[0]) || r.contains_key(p[0]),
{
}

/// The changed paths below `current` between the listings `lhs` and `rhs`.
fn diff_level(
    repo: &git2::Repository,
    current: &Vec<Vec<u8>>,
    lhs: &Vec<Entry>,
    rhs: &Vec<Entry>,
) -> (r: Result<Vec<Vec<Vec<u8>>>, TreeError>)
    requires
        current.len() <= MAX_TREE_DEPTH,
    ensures
        r matches Ok(out) ==> lists_changes(
            paths_view(out@),
            path_view(*current),
            listing_map(entries_view(lhs@)),
            listing_map(entries_view(rhs@)),
        ),
        no_descent(listing_map(entries_view(lhs@)), listing_map(entries_view(rhs@))) ==> r is Ok,
        r matches Err(e) ==> e is LookupFailed || e is TooDeep,
        r is Err && r->Err_0 is TooDeep ==> deep_descent(
            listing_map(entries_view(lhs@)),
            listing_map(entries_view(rhs@)),
            (MAX_TREE_DEPTH - current.len()) as nat,
        ),
        deep_descent(
            listing_map(entries_view(lhs@)),
            listing_map(entries_view(rhs@)),
            (MAX_TREE_DEPTH - current.len()) as nat,
        ) ==> r is Err,
    decreases MAX_TREE_DEPTH - current.len(), 2int,
{
    let ghost cur = path_view(*current);
    let ghost lv = entries_view(lhs@);
    let ghost rv = entries_view(rhs@);
    let ghost lm = listing_map(lv);
    let ghost rm = listing_map(rv);
    let mut out: Vec<Vec<Vec<u8>>> = Vec::new();
    let ghost mut done: Set<Seq<u8>> = Set::empty();
    assert(paths_view(out@) =~= Seq::<PathView>::empty());
    let mut i: usize = 0;
    while i < lhs.len()
        invariant
            current.len() <= MAX_TREE_DEPTH,
            i <= lhs.len(),
            cur == path_view(*current),
            lv == entries_view(lhs@),
            rv == entries_view(rhs@),
            lm == listing_map(lv),
            rm == listing_map(rv),
            lists_changes_of(paths_view(out@), cur, lm, rm, done),
            forall|n: Seq<u8>|
                #[trigger] done.contains(n) ==> !deep_below(
                    slot_of(lm, n),
                    slot_of(rm, n),
                    (MAX_TREE_DEPTH - current.len()) as nat,
                ),
            forall|n: Seq<u8>| #[trigger]
                done.contains(n) <==> exists|k: int| 0 <= k < i && lv[k].0 == n,
        decreases lhs.len() - i,
    {
        let name = &lhs[i].name;
        assert(lv[i as int] == lhs@[i as int]@);
        match last_index_in(lhs, name, i) {
            None => {
                assert(!done.contains(name@)) by {
                    if done.contains(name@) {
                        let k = choose|k: int| 0 <= k < i && lv[k].0 == name@;
                        assert(lv[k] == lhs@[k]@);
                    }
                }
                proof {
                    if no_descent(lm, rm) {
                        assert(descent(slot_of(lm, name@), slot_of(rm, name@)) is None);
                    }
                }
                diff_add_name(repo, current, name, lhs, rhs, &mut out, Ghost(done))?;
                proof {
                    done = done.insert(name@);
                }
            },
            Some(k) => {
                assert(lv[k as int] == lhs@[k as int]@);
            },
        }
        assert forall|n: Seq<u8>| #[trigger]
            done.contains(n) <==> exists|k: int| 0 <= k < i + 1 && lv[k].0 == n by {
            if exists|k: int| 0 <= k < i + 1 && lv[k].0 == n {
                let k = choose|k: int| 0 <= k < i + 1 && lv[k].0 == n;
                if k == i {
                    assert(n == name@);
                }
            }
        }
        i = i + 1;
    }
    let mut j: usize = 0;
    while j < rhs.len()
        invariant
            current.len() <= MAX_TREE_DEPTH,
            j <= rhs.len(),
            cur == path_view(*current),
            lv == entries_view(lhs@),
            rv == entries_view(rhs@),
            lm == listing_map(lv),
            rm == listing_map(rv),
            lists_changes_of(paths_view(out@), cur, lm, rm, done),
            forall|n: Seq<u8>|
                #[trigger] done.contains(n) ==> !deep_below(
                    slot_of(lm, n),
                    slot_of(rm, n),
                    (MAX_TREE_DEPTH - current.len()) as nat,
                ),
            forall|n: Seq<u8>| #[trigger]
                done.contains(n) <==> (exists|k: int| 0 <= k < lv.len() && lv[k].0 == n) || (exists|
                    k: int,
                | 0 <= k < j && rv[k].0 == n),
        decreases rhs.len() - j,
    {
        let name = &rhs[j].name;
        assert(rv[j as int] == rhs@[j as int]@);
        let in_lhs = last_index_in(lhs, name, lhs.len());
        let seen = last_index_in(rhs, name, j);
        if in_lhs.is_none() && seen.is_none() {
            assert(!done.contains(name@)) by {
                if done.contains(name@) {
                    if exists|k: int| 0 <= k < lv.len() && lv[k].0 == name@ {
                        let k = choose|k: int| 0 <= k < lv.len() && lv[k].0 == name@;
                        assert(lv[k] == lhs@[k]@);
                    } else {
                        let k = choose|k: int| 0 <= k < j && rv[k].0 == name@;
                        assert(rv[k] == rhs@[k]@);
                    }
                }
            }
            proof {
                if no_descent(lm, rm) {
                    assert(descent(slot_of(lm, name@), slot_of(rm, name@)) is None);
                }
            }
            diff_add_name(repo, current, name, lhs, rhs, &mut out, Ghost(done))?;
            proof {
                done = done.insert(name@);
            }
        } else {
            if let Some(k) = in_lhs {
                assert(lv[k as int] == lhs@[k as int]@);
            }
            if let Some(k) = seen {
                assert(rv[k as int] == rhs@[k as int]@);
            }
        }
        assert forall|n: Seq<u8>| #[trigger]
            done.contains(n) <==> (exists|k: int| 0 <= k < lv.len() && lv[k].0 == n) || (exists|
                k: int,
            | 0 <= k < j + 1 && rv[k].0 == n) by {
            if exists|k: int| 0 <= k < j + 1 && rv[k].0 == n {
                let k = choose|k: int| 0 <= k < j + 1 && rv[k].0 == n;
                if k == j {
                    assert(n == name@);
                }
            }
        }
        j = j + 1;
    }
    assert forall|q: PathView| #[trigger]
        paths_view(out@).contains(q) <==> under(cur, q) && changed(
            lm,
            rm,
            q.skip(cur.len() as int),
        ) by {
        if under(cur, q) && changed(lm, rm, q.skip(cur.len() as int)) {
            let p = q.skip(cur.len() as int);
            lemma_changed_name(lm, rm, p);
            lemma_listing_map(lv, p[0]);
            lemma_listing_map(rv, p[0]);
            assert(p[0] == q[cur.len() as int]);
        }
    }
    let ghost d = (MAX_TREE_DEPTH - current.len()) as nat;
    assert(!deep_descent(lm, rm, d)) by {
        if deep_descent(lm, rm, d) {
            let n = choose|n: Seq<u8>|
                #![trigger slot_of(lm, n)]
                match descent(slot_of(lm, n), slot_of(rm, n)) {
                    Some((a, b)) => if d == 0 {
                        true
                    } else {
                        deep_descent(stored_map(a), opt_stored_map(b), (d - 1) as nat)
                    },
                    None => false,
                };
            assert(deep_below(slot_of(lm, n), slot_of(rm, n), d));
            lemma_listing_map(lv, n);
            lemma_listing_map(rv, n);
            assert(lm.contains_key(n) || rm.contains_key(n));
            assert(done.contains(n));
        }
    }
    Ok(out)
}

/// Every path that differs between two trees, once each, as its sequence of
/// names. A path is reported when its entry differs in id or mode between the
/// trees, when it is a file on one side only, or when it is a file on one side
/// and a directory on the other; the paths inside a directory that exists on
/// one side only are all reported. A directory's own path is reported only
/// when its mode changed, or when the other side holds a file there.
///
/// Identical subtrees (same id and mode) are never read. Trees that would make
/// the diff read subtrees more than `MAX_TREE_DEPTH` (1024) names deep are
/// refused with `TooDeep`, and only those.
pub fn get_changed_paths_between_trees(
    repo: &git2::Repository,
    lhs: Option<&git2::Tree<'_>>,
    rhs: Option<&git2::Tree<'_>>,
) -> (r: Result<Vec<Vec<Vec<u8>>>, TreeError>)
    ensures
        r matches Ok(out) ==> paths_view(out@).no_duplicates() && forall|q: PathView| #[trigger]
            paths_view(out@).contains(q) <==> changed(tree_map(lhs), tree_map(rhs), q),
        no_descent(tree_map(lhs), tree_map(rhs)) ==> r is Ok,
        r matches Err(e) ==> e is LookupFailed || e is TooDeep,
        r is Err && r->Err_0 is TooDeep ==> deep_descent(
            tree_map(lhs),
            tree_map(rhs),
            MAX_TREE_DEPTH as nat,
        ),
        deep_descent(tree_map(lhs), tree_map(rhs), MAX_TREE_DEPTH as nat) ==> r is Err,
{
    let left = match lhs {
        Some(t) => tree_entries(t),
        None => Vec::new(),
    };
    let right = match rhs {
        Some(t) => tree_entries(t),
        None => Vec::new(),
    };
    proof {
        if lhs is None {
            assert(entries_view(left@) =~= Seq::<EntryView>::empty());
        }
        if rhs is None {
            assert(entries_view(right@) =~= Seq::<EntryView>::empty());
        }
    }
    let root: Vec<Vec<u8>> = Vec::new();
    assert(path_view(root) =~= Seq::<Seq<u8>>::empty());
    let out = diff_level(repo, &root, &left, &right)?;
    assert forall|q: PathView| #[trigger]
        paths_view(out@).contains(q) <==> changed(tree_map(lhs), tree_map(rhs), q) by {
        assert(q.skip(0) =~= q);
        assert(q.subrange(0, 0) =~= Seq::<Seq<u8>>::empty());
    }
    Ok(out)
}

// ---------------------------------------------------------------------------
// Rebuild
// ---------------------------------------------------------------------------

/// A path edit: the names leading to an entry, and the id and mode to put
/// there, or `None` to remove what is there.
pub type PathEdit = (Vec<Vec<u8>>, Option<(ObjectId, i32)>);

/// A path edit as a value.
pub type EditView = (PathView, Option<Slot>);

pub open spec fn value_view(v: Option<(ObjectId, i32)>) -> Option<Slot> {
    match v {
        Some((id, mode)) => Some((id@, mode)),
        None => None,
    }
}

pub open spec fn edit_view(e: PathEdit) -> EditView {
    (path_view(e.0), value_view(e.1))
}

pub open spec fn edits_view(v: Seq<PathEdit>) -> Seq<EditView> {
    v.map_values(|e: PathEdit| edit_view(e))
}

/// The map after the edits of single-name paths, applied in order.
pub open spec fn apply_direct(m: Map<Seq<u8>, Slot>, edits: Seq<EditView>) -> Map<Seq<u8>, Slot>
    decreases edits.len(),
{
    if edits.len() == 0 {
        m
    } else {
        let prev = apply_direct(m, edits.drop_last());
        let e = edits.last();
        if e.0.len() == 1 {
            match e.1 {
                Some(v) => prev.insert(e.0[0], v),
                None => prev.remove(e.0[0]),
            }
        } else {
            prev
        }
    }
}

/// The edit reaches below the name `n`.
pub open spec fn in_group(e: EditView, n: Seq<u8>) -> bool {
    e.0.len() >= 2 && e.0[0] == n
}

/// Some edit reaches below the name `n`.
pub open spec fn is_group_name(edits: Seq<EditView>, n: Seq<u8>) -> bool {
    exists|i: int| 0 <= i < edits.len() && in_group(#[trigger] edits[i], n)
}

/// The edits that reach below `n`, in order, with `n` taken off their paths.
pub open spec fn group_of(edits: Seq<EditView>, n: Seq<u8>) -> Seq<EditView>
    decreases edits.len(),
{
    if edits.len() == 0 {
        Seq::empty()
    } else {
        let g = group_of(edits.drop_last(), n);
        let e = edits.last();
        if in_group(e, n) {
            g.push((e.0.drop_first(), e.1))
        } else {
            g
        }
    }
}

/// The map that the edits below `n` start from: the subtree that `n` holds,
/// if it holds one, else nothing.
pub open spec fn child_base(m: Map<Seq<u8>, Slot>, n: Seq<u8>) -> Map<Seq<u8>, Slot> {
    if m.contains_key(n) && tree_mode(m[n].1) && !id_is_zero(m[n].0) {
        stored_map(m[n].0)
    } else {
        Map::empty()
    }
}

/// What the rebuilt tree holds under the name `n`, where `direct` is the base
/// after the single-name edits and `out` the rebuilt tree's map. A name that
/// edits reach below holds a subtree rebuilt from those edits, with mode
/// `TREE_MODE`, unless that subtree came out empty: then the name is absent.
pub open spec fn name_rebuilt(
    direct: Map<Seq<u8>, Slot>,
    edits: Seq<EditView>,
    out: Map<Seq<u8>, Slot>,
    n: Seq<u8>,
    depth: nat,
) -> bool
    decreases depth, 0int,
{
    if !is_group_name(edits, n) {
        slot_of(out, n) == slot_of(direct, n)
    } else if depth == 0 {
        false
    } else if out.contains_key(n) {
        &&& out[n].1 == TREE_MODE
        &&& stored_tree(out[n].0).len() > 0
        &&& rebuilds_to(child_base(direct, n), group_of(edits, n), stored_map(out[n].0), (depth - 1) as nat)
    } else {
        rebuilds_to(child_base(direct, n), group_of(edits, n), Map::empty(), (depth - 1) as nat)
    }
}

/// A tree whose names map as `out` is `base` with `edits` applied, looking at
/// most `depth` names deep below the edits' first names.
pub open spec fn rebuilds_to(
    base: Map<Seq<u8>, Slot>,
    edits: Seq<EditView>,
    out: Map<Seq<u8>, Slot>,
    depth: nat,
) -> bool
    decreases depth, 1int,
{
    forall|n: Seq<u8>| #![trigger slot_of(out, n)] name_rebuilt(apply_direct(base, edits), edits, out, n, depth)
}

/// The tree stored under `r` is `base` with `edits` applied, looking at most
/// `depth` names deep below the edits' first names.
pub open spec fn rebuild_ok(
    base: Map<Seq<u8>, Slot>,
    edits: Seq<EditView>,
    r: Seq<u8>,
    depth: nat,
) -> bool {
    rebuilds_to(base, edits, stored_map(r), depth)
}

/// The longest path of the edits, in names.
pub open spec fn edit_depth(edits: Seq<EditView>) -> nat
    decreases edits.len(),
{
    if edits.len() == 0 {
        0
    } else {
        let d = edit_depth(edits.drop_last());
        if edits.last().0.len() > d {
            edits.last().0.len()
        } else {
            d
        }
    }
}

/// The tree stored under `r` is `base` with `edits` applied.
pub open spec fn rebuilt(base: Map<Seq<u8>, Slot>, edits: Seq<EditView>, r: Seq<u8>) -> bool {
    rebuild_ok(base, edits, r, edit_depth(edits))
}

proof fn lemma_edit_depth(edits: Seq<EditView>)
    ensures
        forall|i: int| 0 <= i < edits.len() ==> (#[trigger] edits[i]).0.len() <= edit_depth(edits),
    decreases edits.len(),
{
    if edits.len() > 0 {
        lemma_edit_depth(edits.drop_last());
        assert forall|i: int| 0 <= i < edits.len() implies (#[trigger] edits[i]).0.len()
            <= edit_depth(edits) by {
            if i < edits.len() - 1 {
                assert(edits[i] == edits.drop_last()[i]);
            }
        }
    }
}

proof fn lemma_name_rebuilt_local(
    direct: Map<Seq<u8>, Slot>,
    edits: Seq<EditView>,
    o1: Map<Seq<u8>, Slot>,
    o2: Map<Seq<u8>, Slot>,
    n: Seq<u8>,
    depth: nat,
)
    requires
        slot_of(o1, n) == slot_of(o2, n),
    ensures
        name_rebuilt(direct, edits, o1, n, depth) == name_rebuilt(direct, edits, o2, n, depth),
{
    if o1.contains_key(n) {
        assert(o1[n] == o2[n]);
    }
}

/// Every name on the edits' paths fits in a tree entry.
pub open spec fn edit_names_fit(edits: Seq<EditView>) -> bool {
    forall|i: int, k: int|
        0 <= i < edits.len() && 0 <= k < edits[i].0.len() ==> name_fits(#[trigger] edits[i].0[k])
}

proof fn lemma_group_names_fit(edits: Seq<EditView>, n: Seq<u8>)
    requires
        edit_names_fit(edits),
    ensures
        edit_names_fit(group_of(edits, n)),
    decreases edits.len(),
{
    if edits.len() > 0 {
        let t = edits.drop_last();
        assert forall|i: int, k: int| 0 <= i < t.len() && 0 <= k < t[i].0.len() implies name_fits(
            #[trigger] t[i].0[k],
        ) by {
            assert(t[i] == edits[i]);
        }
        lemma_group_names_fit(t, n);
        let g = group_of(edits, n);
        let prev = group_of(t, n);
        let last = edits[edits.len() - 1];
        if in_group(last, n) {
            assert(g == prev.push((last.0.drop_first(), last.1)));
            assert forall|i: int, k: int| 0 <= i < g.len() && 0 <= k < g[i].0.len() implies name_fits(
                #[trigger] g[i].0[k],
            ) by {
                if i < prev.len() {
                    assert(g[i] == prev[i]);
                } else {
                    assert(g[i].0[k] == last.0[k + 1]);
                }
            }
        } else {
            assert(g == prev);
        }
    }
}

/// Removes `name` from the builder, if it is there.
fn remove_entry_if_exists(builder: &mut git2::TreeBuilder<'_>, name: &Vec<u8>) -> (r: Result<
    (),
    git2::Error,
>)
    ensures
        r is Ok ==> builder_entries(*final(builder)) == builder_entries(*old(builder)).remove(
            name@,
        ),
        no_nul(name@) ==> r is Ok,
{
    if builder_get(builder, name)?.is_some() {
        builder_remove(builder, name)?;
    } else {
        assert(builder_entries(*builder).remove(name@) =~= builder_entries(*builder));
    }
    Ok(())
}

fn copy_path_tail(p: &Vec<Vec<u8>>) -> (r: Vec<Vec<u8>>)
    requires
        p.len() >= 1,
    ensures
        path_view(r) == path_view(*p).drop_first(),
        r.len() + 1 == p.len(),
{
    let mut r: Vec<Vec<u8>> = Vec::new();
    let mut i: usize = 1;
    while i < p.len()
        invariant
            1 <= i <= p.len(),
            r.len() == i - 1,
            forall|k: int| 0 <= k < i - 1 ==> r@[k]@ == p@[k + 1]@,
        decreases p.len() - i,
    {
        r.push(copy_bytes(&p[i]));
        i = i + 1;
    }
    assert(path_view(r) =~= path_view(*p).drop_first());
    r
}

/// Some edit before index `i` reaches below `n`.
pub open spec fn group_seen(ev: Seq<EditView>, i: int, n: Seq<u8>) -> bool {
    exists|j: int| 0 <= j < i && in_group(#[trigger] ev[j], n)
}

/// `n` is among the first `k` names.
pub open spec fn listed_before(names: Seq<Vec<u8>>, k: int, n: Seq<u8>) -> bool {
    exists|j: int| 0 <= j < k && (#[trigger] names[j])@ == n
}

pub open spec fn distinct_names(names: Seq<Vec<u8>>) -> bool {
    forall|k1: int, k2: int|
        0 <= k1 < names.len() && 0 <= k2 < names.len() && k1 != k2 ==> names[k1]@ != names[k2]@
}

/// The distinct first names of the edits that reach below a name.
fn group_names(edits: &Vec<PathEdit>) -> (names: Vec<Vec<u8>>)
    ensures
        distinct_names(names@),
        forall|n: Seq<u8>|
            #![trigger is_group_name(edits_view(edits@), n)]
            #![trigger listed_before(names@, names.len() as int, n)]
            is_group_name(edits_view(edits@), n) <==> listed_before(names@, names.len() as int, n),
{
    let ghost ev = edits_view(edits@);
    let mut names: Vec<Vec<u8>> = Vec::new();
    let mut i: usize = 0;
    while i < edits.len()
        invariant
            i <= edits.len(),
            ev == edits_view(edits@),
            distinct_names(names@),
            forall|n: Seq<u8>|
                #![trigger group_seen(ev, i as int, n)]
                #![trigger listed_before(names@, names.len() as int, n)]
                group_seen(ev, i as int, n) <==> listed_before(names@, names.len() as int, n),
        decreases edits.len() - i,
    {
        let path = &edits[i].0;
        assert(ev[i as int] == edit_view(edits@[i as int]));
        let ghost old_names = names@;
        if path.len() >= 2 {
            let first = &path[0];
            let mut found = false;
            let mut k: usize = 0;
            while k < names.len()
                invariant
                    k <= names.len(),
                    found ==> listed_before(names@, names.len() as int, first@),
                    !found ==> forall|j: int| 0 <= j < k ==> names@[j]@ != first@,
                decreases names.len() - k,
            {
                if same_bytes(&names[k], first) {
                    found = true;
                }
                k = k + 1;
            }
            if !found {
                names.push(copy_bytes(first));
                assert forall|n: Seq<u8>|
                    group_seen(ev, i + 1int, n) <==> listed_before(names@, names.len() as int, n) by {
                    if listed_before(names@, names.len() as int, n) {
                        let k = choose|k: int| 0 <= k < names.len() && (#[trigger] names@[k])@ == n;
                        if k < old_names.len() {
                            assert(old_names[k] == names@[k]);
                            assert(listed_before(old_names, old_names.len() as int, n));
                        } else {
                            assert(in_group(ev[i as int], n));
                        }
                    }
                    if group_seen(ev, i + 1int, n) {
                        let j = choose|j: int| 0 <= j < i + 1 && in_group(#[trigger] ev[j], n);
                        if j < i {
                            assert(group_seen(ev, i as int, n));
                            let k = choose|k: int|
                                0 <= k < old_names.len() && (#[trigger] old_names[k])@ == n;
                            assert(names@[k] == old_names[k]);
                        } else {
                            assert(names@[old_names.len() as int]@ == n);
                        }
                    }
                }
            } else {
                assert forall|n: Seq<u8>|
                    group_seen(ev, i + 1int, n) <==> listed_before(names@, names.len() as int, n) by {
                    if group_seen(ev, i + 1int, n) {
                        let j = choose|j: int| 0 <= j < i + 1 && in_group(#[trigger] ev[j], n);
                        if j < i {
                            assert(group_seen(ev, i as int, n));
                        }
                    }
                    if listed_before(names@, names.len() as int, n) && !group_seen(ev, i as int, n) {
                        assert(false);
                    }
                }
            }
        } else {
            assert forall|n: Seq<u8>|
                group_seen(ev, i + 1int, n) <==> listed_before(names@, names.len() as int, n) by {
                if group_seen(ev, i + 1int, n) {
                    let j = choose|j: int| 0 <= j < i + 1 && in_group(#[trigger] ev[j], n);
                    assert(j != i);
                    assert(group_seen(ev, i as int, n));
                }
            }
        }
        i = i + 1;
    }
    assert forall|n: Seq<u8>|
        is_group_name(ev, n) <==> listed_before(names@, names.len() as int, n) by {
        assert(group_seen(ev, ev.len() as int, n) == is_group_name(ev, n));
    }
    names
}

/// The edits that reach below `name`, in order, with `name` taken off.
fn group_for(edits: &Vec<PathEdit>, name: &Vec<u8>) -> (g: Vec<PathEdit>)
    ensures
        edits_view(g@) == group_of(edits_view(edits@), name@),
        forall|j: int|
            0 <= j < g.len() ==> exists|i: int|
                0 <= i < edits.len() && (#[trigger] g@[j]).0.len() + 1 == edits@[i].0.len(),
{
    let ghost ev = edits_view(edits@);
    let mut g: Vec<PathEdit> = Vec::new();
    let mut i: usize = 0;
    while i < edits.len()
        invariant
            i <= edits.len(),
            ev == edits_view(edits@),
            edits_view(g@) == group_of(ev.take(i as int), name@),
            forall|j: int|
                0 <= j < g.len() ==> exists|i: int|
                    0 <= i < edits.len() && (#[trigger] g@[j]).0.len() + 1 == edits@[i].0.len(),
        decreases edits.len() - i,
    {
        assert(ev.take(i + 1int).drop_last() =~= ev.take(i as int));
        assert(ev[i as int] == edit_view(edits@[i as int]));
        let path = &edits[i].0;
        if path.len() >= 2 && same_bytes(&path[0], name) {
            let rest = copy_path_tail(path);
            let ghost before = g@;
            g.push((rest, edits[i].1));
            assert(edits_view(g@) =~= edits_view(before).push(edit_view(g@[g.len() - 1])));
            assert(g@[g.len() - 1].0.len() + 1 == edits@[i as int].0.len());
        }
        i = i + 1;
    }
    assert(ev.take(edits.len() as int) =~= ev);
    g
}

fn write_failed<T>(r: Result<T, git2::Error>) -> (out: Result<T, TreeError>)
    ensures
        r is Ok ==> out == Ok::<T, TreeError>(r->Ok_0),
        r is Err ==> out is Err && out->Err_0 is WriteFailed,
{
    match r {
        Ok(v) => Ok(v),
        Err(cause) => Err(TreeError::WriteFailed { cause }),
    }
}

fn lookup_failed<T>(r: Result<T, git2::Error>, id: &ObjectId) -> (out: Result<T, TreeError>)
    ensures
        r is Ok ==> out == Ok::<T, TreeError>(r->Ok_0),
        r is Err ==> out is Err && out->Err_0 is LookupFailed,
{
    match r {
        Ok(v) => Ok(v),
        Err(cause) => Err(TreeError::LookupFailed { id: *id, cause }),
    }
}

fn rebuild_at<'r>(
    repo: &'r git2::Repository,
    base: Option<&git2::Tree<'r>>,
    edits: &Vec<PathEdit>,
    Ghost(depth): Ghost<nat>,
) -> (r: Result<ObjectId, TreeError>)
    requires
        forall|i: int| 0 <= i < edits.len() ==> (#[trigger] edits@[i]).0.len() <= depth + 1,
        edit_names_fit(edits_view(edits@)),
    ensures
        r matches Ok(id) ==> rebuild_ok(tree_map(base), edits_view(edits@), id@, depth),
        r matches Err(e) ==> e is LookupFailed || e is WriteFailed,
    decreases depth,
{
    let ghost ev = edits_view(edits@);
    let ghost base_map = tree_map(base);
    let ghost direct = apply_direct(base_map, ev);
    let names = group_names(edits);
    let mut builder = write_failed(new_builder(repo, base))?;
    let mut i: usize = 0;
    while i < edits.len()
        invariant
            i <= edits.len(),
            ev == edits_view(edits@),
            edit_names_fit(ev),
            builder_entries(builder) == apply_direct(base_map, ev.take(i as int)),
            names_fit(builder_entries(builder)),
        decreases edits.len() - i,
    {
        assert(ev.take(i + 1int).drop_last() =~= ev.take(i as int));
        assert(ev[i as int] == edit_view(edits@[i as int]));
        let path = &edits[i].0;
        if path.len() == 1 {
            assert(ev[i as int].0[0] == path[0]@);
            assert(name_fits(ev[i as int].0[0]));
            match edits[i].1 {
                Some((id, mode)) => {
                    write_failed(builder_insert(&mut builder, &path[0], &id, mode))?;
                },
                None => {
                    write_failed(remove_entry_if_exists(&mut builder, &path[0]))?;
                },
            }
        }
        i = i + 1;
    }
    assert(ev.take(edits.len() as int) =~= ev);
    let mut k: usize = 0;
    while k < names.len()
        invariant
            k <= names.len(),
            ev == edits_view(edits@),
            edit_names_fit(ev),
            names_fit(builder_entries(builder)),
            direct == apply_direct(base_map, ev),
            distinct_names(names@),
            forall|n: Seq<u8>|
                #![trigger is_group_name(ev, n)]
                #![trigger listed_before(names@, names.len() as int, n)]
                is_group_name(ev, n) <==> listed_before(names@, names.len() as int, n),
            forall|i: int| 0 <= i < edits.len() ==> (#[trigger] edits@[i]).0.len() <= depth + 1,
            forall|n: Seq<u8>|
                #![trigger listed_before(names@, k as int, n)]
                #![trigger name_rebuilt(direct, ev, builder_entries(builder), n, depth)]
                listed_before(names@, k as int, n) ==> name_rebuilt(
                    direct,
                    ev,
                    builder_entries(builder),
                    n,
                    depth,
                ),
            forall|n: Seq<u8>|
                #![trigger listed_before(names@, k as int, n)]
                #![trigger slot_of(builder_entries(builder), n)]
                !listed_before(names@, k as int, n) ==> slot_of(builder_entries(builder), n)
                    == slot_of(direct, n),
        decreases names.len() - k,
    {
        let name = &names[k];
        let ghost bm = builder_entries(builder);
        proof {
            assert(is_group_name(ev, name@));
            let j = choose|j: int| 0 <= j < ev.len() && in_group(#[trigger] ev[j], name@);
            assert(ev[j] == edit_view(edits@[j]));
            assert(depth > 0);
            assert(name_fits(ev[j].0[0]));
        }
        assert(!listed_before(names@, k as int, name@)) by {
            if listed_before(names@, k as int, name@) {
                let j = choose|j: int| 0 <= j < k && (#[trigger] names@[j])@ == name@;
                assert(names@[j]@ != names@[k as int]@);
            }
        }
        assert(listed_before(names@, names.len() as int, name@));
        let existing = write_failed(builder_get(&builder, name))?;
        let sub: Option<git2::Tree<'r>> = match existing {
            Some((id, mode)) => {
                if !id.is_zero() && is_tree_mode(mode) {
                    Some(lookup_failed(find_tree(repo, &id), &id)?)
                } else {
                    None
                }
            },
            None => None,
        };
        let group = group_for(edits, name);
        proof {
            lemma_group_names_fit(ev, name@);
        }
        assert forall|i: int| 0 <= i < group.len() implies (#[trigger] group@[i]).0.len() <= (depth
            - 1) as nat + 1 by {
            let e = choose|e: int|
                0 <= e < edits.len() && group@[i].0.len() + 1 == (#[trigger] edits@[e]).0.len();
        }
        assert(slot_of(bm, name@) == slot_of(direct, name@));
        let child = match &sub {
            Some(t) => {
                let c = rebuild_at(repo, Some(t), &group, Ghost((depth - 1) as nat))?;
                assert(listing_map(tree_contents(*t)) == child_base(direct, name@));
                c
            },
            None => {
                let c = rebuild_at(repo, None, &group, Ghost((depth - 1) as nat))?;
                assert(Map::<Seq<u8>, Slot>::empty() == child_base(direct, name@));
                c
            },
        };
        assert(rebuild_ok(child_base(direct, name@), group_of(ev, name@), child@, (depth - 1) as nat));
        let child_tree = lookup_failed(find_tree(repo, &child), &child)?;
        assert(tree_contents(child_tree) == stored_tree(child@));
        if tree_len(&child_tree) == 0 {
            write_failed(remove_entry_if_exists(&mut builder, name))?;
            assert(!builder_entries(builder).contains_key(name@));
            proof {
                lemma_listing_map_empty(stored_tree(child@));
            }
            assert(name_rebuilt(direct, ev, builder_entries(builder), name@, depth));
        } else {
            write_failed(builder_insert(&mut builder, name, &child, TREE_MODE))?;
            assert(builder_entries(builder)[name@] == (child@, TREE_MODE));
            assert(name_rebuilt(direct, ev, builder_entries(builder), name@, depth));
        }
        let ghost nb = builder_entries(builder);
        assert forall|n: Seq<u8>|
            listed_before(names@, k + 1int, n) implies name_rebuilt(
                direct,
                ev,
                nb,
                n,
                depth,
            ) by {
            if n == name@ {
                assert(name_rebuilt(direct, ev, nb, n, depth));
            } else {
                let jj = choose|jj: int| 0 <= jj < k + 1 && (#[trigger] names@[jj])@ == n;
                assert(jj < k);
                assert(listed_before(names@, k as int, n));
                assert(slot_of(nb, n) == slot_of(bm, n));
                lemma_name_rebuilt_local(direct, ev, bm, nb, n, depth);
            }
        }
        assert forall|n: Seq<u8>|
            !listed_before(names@, k + 1int, n) implies slot_of(
                nb,
                n,
            ) == slot_of(direct, n) by {
            assert(n != names@[k as int]@);
            assert(slot_of(nb, n) == slot_of(bm, n));
            if listed_before(names@, k as int, n) {
                let jj = choose|jj: int| 0 <= jj < k && (#[trigger] names@[jj])@ == n;
                assert(listed_before(names@, k + 1int, n));
            }
        }
        k = k + 1;
    }
    let id = write_failed(builder_write(&builder))?;
    assert forall|n: Seq<u8>| #[trigger]
        name_rebuilt(direct, ev, stored_map(id@), n, depth) by {
        if is_group_name(ev, n) {
            assert(listed_before(names@, names.len() as int, n));
        } else {
            if listed_before(names@, k as int, n) {
                assert(listed_before(names@, names.len() as int, n));
            }
        }
    }
    Ok(id)
}

/// Rebuilds `tree` (or the empty tree) with the edits applied, and returns the
/// new tree's id. An edit of a single name sets or removes that entry; an edit
/// of a longer path rebuilds the subtree under its first name from the edits
/// below it (starting from nothing where that name holds no subtree), and a
/// subtree that comes out empty is removed from its parent.
pub fn rebuild_tree<'r>(
    repo: &'r git2::Repository,
    tree: Option<&git2::Tree<'r>>,
    entries: Vec<PathEdit>,
) -> (r: Result<ObjectId, TreeError>)
    ensures
        r matches Ok(id) ==> rebuilt(tree_map(tree), edits_view(entries@), id@),
        r matches Err(e) ==> e is LookupFailed || e is WriteFailed || e is InvalidPathComponent,
        (r is Err && r->Err_0 is InvalidPathComponent) <==> !edit_names_fit(edits_view(entries@)),
{
    let ghost ev = edits_view(entries@);
    let mut i: usize = 0;
    while i < entries.len()
        invariant
            i <= entries.len(),
            ev == edits_view(entries@),
            ev.len() == entries.len(),
            forall|j: int, k: int|
                0 <= j < i && 0 <= k < ev[j].0.len() ==> name_fits(#[trigger] ev[j].0[k]),
        decreases entries.len() - i,
    {
        assert(ev[i as int] == edit_view(entries@[i as int]));
        let path = &entries[i].0;
        let mut k: usize = 0;
        while k < path.len()
            invariant
                k <= path.len(),
                i < entries.len(),
                ev == edits_view(entries@),
                ev.len() == entries.len(),
                ev[i as int].0 == path_view(*path),
                forall|j: int, k: int|
                    0 <= j < i && 0 <= k < ev[j].0.len() ==> name_fits(#[trigger] ev[j].0[k]),
                forall|m: int| 0 <= m < k ==> name_fits(#[trigger] ev[i as int].0[m]),
            decreases path.len() - k,
        {
            assert(ev[i as int].0[k as int] == path[k as int]@);
            if path[k].len() > 65535 {
                assert(!name_fits(ev[i as int].0[k as int]));
                return Err(TreeError::InvalidPathComponent);
            }
            k = k + 1;
        }
        i = i + 1;
    }
    proof {
        lemma_edit_depth(edits_view(entries@));
        assert forall|i: int| 0 <= i < entries.len() implies (#[trigger] entries@[i]).0.len()
            <= edit_depth(edits_view(entries@)) + 1 by {
            assert(edits_view(entries@)[i] == edit_view(entries@[i]));
        }
    }
    rebuild_at(repo, tree, &entries, Ghost(edit_depth(edits_view(entries@))))
}

// ---------------------------------------------------------------------------
// Filter
// ---------------------------------------------------------------------------

/// The names of `names` joined by '/'.
fn join_path(names: &Vec<Vec<u8>>) -> (r: Vec<u8>)
    ensures
        r@ == join_names(path_view(*names)),
{
    let ghost p = path_view(*names);
    let mut r: Vec<u8> = Vec::new();
    let mut i: usize = 0;
    while i < names.len()
        invariant
            i <= names.len(),
            p == path_view(*names),
            r@ == join_names(p.take(i as int)),
        decreases names.len() - i,
    {
        let ghost before = r@;
        if i > 0 {
            r.push(47u8);
        }
        let part = &names[i];
        let mut j: usize = 0;
        let ghost mid = r@;
        while j < part.len()
            invariant
                j <= part.len(),
                r@ == mid + part@.take(j as int),
            decreases part.len() - j,
        {
            r.push(part[j]);
            j = j + 1;
            assert(r@ =~= mid + part@.take(j as int));
        }
        assert(part@.take(part.len() as int) =~= part@);
        proof {
            let t = p.take(i + 1int);
            assert(t.drop_last() =~= p.take(i as int));
            assert(t.last() == part@);
            if i == 0 {
                assert(r@ =~= part@);
            } else {
                assert(r@ =~= before + seq![47u8] + part@);
            }
        }
        i = i + 1;
    }
    assert(p.take(names.len() as int) =~= p);
    r
}

/// `edits` keeps from the tree listed as `listing` the entries at `paths`:
/// one edit per path, in order, on that path, whose value is what a lookup of
/// the path finds (nothing, for a path not in the tree); for a well-formed
/// path, a value found is an entry reached by the path's names.
pub open spec fn kept_paths(listing: Seq<EntryView>, paths: Seq<PathView>, edits: Seq<EditView>) -> bool {
    &&& edits.len() == paths.len()
    &&& forall|i: int|
        0 <= i < paths.len() ==> (#[trigger] edits[i]).0 == paths[i] && edits[i].1 == path_lookup(
            listing,
            paths[i],
        ) && (edits[i].1 matches Some(v) ==> (valid_path(paths[i]) ==> found_at(
            listing,
            paths[i],
            v,
        )))
}

/// Whether the name may stand in a looked-up path (see `valid_name`).
pub fn is_valid_name(n: &Vec<u8>) -> (r: bool)
    ensures
        r == valid_name(n@),
{
    if n.len() == 0 || n.len() > 65535 {
        return false;
    }
    if n.len() == 1 && n[0] == 46u8 {
        assert(n@ =~= seq![46u8]);
        return false;
    }
    if n.len() == 2 && n[0] == 46u8 && n[1] == 46u8 {
        assert(n@ =~= seq![46u8, 46u8]);
        return false;
    }
    let mut i: usize = 0;
    while i < n.len()
        invariant
            i <= n@.len(),
            forall|j: int| 0 <= j < i ==> n@[j] != 47u8 && n@[j] != 92u8 && n@[j] != 0u8,
        decreases n@.len() - i,
    {
        if n[i] == 47u8 || n[i] == 92u8 || n[i] == 0u8 {
            return false;
        }
        i = i + 1;
    }
    assert(n@ != seq![46u8]) by {
        if n@ == seq![46u8] {
            assert(n@[0] == 46u8);
        }
    }
    assert(n@ != seq![46u8, 46u8]) by {
        if n@ == seq![46u8, 46u8] {
            assert(n@[0] == 46u8 && n@[1] == 46u8);
        }
    }
    true
}

/// Whether the names form a path that may be looked up (see `valid_path`).
pub fn is_valid_path(names: &Vec<Vec<u8>>) -> (r: bool)
    ensures
        r == valid_path(path_view(*names)),
{
    if names.len() == 0 {
        return false;
    }
    let mut i: usize = 0;
    while i < names.len()
        invariant
            i <= names@.len(),
            forall|j: int| 0 <= j < i ==> valid_name(#[trigger] path_view(*names)[j]),
        decreases names@.len() - i,
    {
        if !is_valid_name(&names[i]) {
            assert(path_view(*names)[i as int] == names@[i as int]@);
            return false;
        }
        assert(path_view(*names)[i as int] == names@[i as int]@);
        i = i + 1;
    }
    true
}

/// A tree holding, of `tree`, only the entries at `paths` (with the
/// directories that lead to them). A path that is not in the tree is left out.
/// The paths are checked strictly: a path with a name that `valid_name`
/// refuses, or with no name, makes the whole call fail with
/// `InvalidPathComponent`, before anything is looked up.
pub fn filter_tree<'r>(
    repo: &'r git2::Repository,
    tree: &git2::Tree<'r>,
    paths: &Vec<Vec<Vec<u8>>>,
) -> (r: Result<ObjectId, TreeError>)
    ensures
        r matches Ok(id) ==> exists|edits: Seq<EditView>|
            kept_paths(tree_contents(*tree), paths_view(paths@), edits) && #[trigger] rebuilt(
                Map::empty(),
                edits,
                id@,
            ),
        r matches Err(e) ==> e is LookupFailed || e is WriteFailed || e is PathLookupFailed
            || e is InvalidPathComponent,
        (r is Err && r->Err_0 is InvalidPathComponent) <==> exists|i: int|
            0 <= i < paths.len() && !valid_path(#[trigger] paths_view(paths@)[i]),
{
    let ghost pv = paths_view(paths@);
    let ghost listing = tree_contents(*tree);
    let mut c: usize = 0;
    while c < paths.len()
        invariant
            c <= paths.len(),
            pv == paths_view(paths@),
            forall|j: int| 0 <= j < c ==> valid_path(#[trigger] pv[j]),
        decreases paths.len() - c,
    {
        assert(pv[c as int] == path_view(paths@[c as int]));
        if !is_valid_path(&paths[c]) {
            return Err(TreeError::InvalidPathComponent);
        }
        c = c + 1;
    }
    assert(!exists|i: int| 0 <= i < paths.len() && !valid_path(#[trigger] paths_view(paths@)[i]));
    let mut edits: Vec<PathEdit> = Vec::new();
    let mut i: usize = 0;
    while i < paths.len()
        invariant
            i <= paths.len(),
            pv == paths_view(paths@),
            forall|j: int| 0 <= j < pv.len() ==> valid_path(#[trigger] pv[j]),
            listing == tree_contents(*tree),
            edits.len() == i,
            kept_paths(listing, pv.take(i as int), edits_view(edits@)),
        decreases paths.len() - i,
    {
        assert(pv[i as int] == path_view(paths@[i as int]));
        let path = &paths[i];
        let joined = join_path(path);
        let value = match entry_by_path(tree, path, &joined) {
            Ok(v) => v,
            Err(cause) => {
                return Err(TreeError::PathLookupFailed { cause });
            },
        };
        let ghost before = edits@;
        edits.push((child_path_copy(path), value));
        proof {
            assert(pv[i as int] == path_view(*path));
            assert(edits_view(edits@) =~= edits_view(before).push(edit_view(edits@[i as int])));
            assert forall|k: int| 0 <= k < i + 1 implies #[trigger] edits_view(edits@)[k].0 == pv.take(
                i + 1int,
            )[k] && edits_view(edits@)[k].1 == path_lookup(listing, pv.take(i + 1int)[k]) && (
            edits_view(edits@)[k].1 matches Some(v) ==> (valid_path(pv.take(i + 1int)[k])
                ==> found_at(listing, pv.take(i + 1int)[k], v))) by {
                if k < i {
                    assert(edits_view(edits@)[k] == edits_view(before)[k]);
                    assert(pv.take(i as int)[k] == pv.take(i + 1int)[k]);
                }
            }
        }
        i = i + 1;
    }
    assert(pv.take(paths.len() as int) =~= pv);
    let ghost ev = edits_view(edits@);
    assert(edit_names_fit(ev)) by {
        assert forall|j: int, k: int| 0 <= j < ev.len() && 0 <= k < ev[j].0.len() implies name_fits(
            #[trigger] ev[j].0[k],
        ) by {
            assert(ev[j].0 == pv[j]);
            assert(valid_path(pv[j]));
            assert(valid_name(pv[j][k]));
        }
    }
    let r = rebuild_tree(repo, None, edits);
    proof {
        if let Ok(id) = r {
            assert(tree_map(None) == Map::<Seq<u8>, Slot>::empty());
        }
    }
    r
}

/// A copy of a path.
fn child_path_copy(p: &Vec<Vec<u8>>) -> (r: Vec<Vec<u8>>)
    ensures
        path_view(r) == path_view(*p),
{
    let mut r: Vec<Vec<u8>> = Vec::new();
    let mut i: usize = 0;
    while i < p.len()
        invariant
            i <= p.len(),
            r.len() == i,
            forall|k: int| 0 <= k < i ==> r@[k]@ == p@[k]@,
        decreases p.len() - i,
    {
        r.push(copy_bytes(&p[i]));
        i = i + 1;
    }
    assert(path_view(r) =~= path_view(*p));
    r
}

} // verus!

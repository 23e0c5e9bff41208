//! The object store as this library sees it: git2's repository, trees and tree
//! builders, with the contracts that the tree algorithms rely on.
use bstr::ByteSlice;
use vstd::prelude::*;

verus! {

#[verifier::external_type_specification]
#[verifier::external_body]
pub struct ExRepository(git2::Repository);

#[verifier::external_type_specification]
#[verifier::external_body]
pub struct ExError(git2::Error);

#[verifier::external_type_specification]
#[verifier::external_body]
pub struct ExTree<'repo>(git2::Tree<'repo>);

#[verifier::external_type_specification]
#[verifier::external_body]
pub struct ExTreeBuilder<'repo>(git2::TreeBuilder<'repo>);

/// The raw bytes of an object id (a SHA-1 content hash).
#[derive(Clone, Copy, Debug, PartialEq, Eq)]
pub struct ObjectId {
    pub bytes: [u8; 20],
}

impl View for ObjectId {
    type V = Seq<u8>;

    open spec fn view(&self) -> Seq<u8> {
        self.bytes@
    }
}

/// One entry of a tree: its name, the id of what it points to, and its raw mode.
#[derive(Debug)]
pub struct Entry {
    pub name: Vec<u8>,
    pub id: ObjectId,
    pub mode: i32,
}

/// An entry as a value: name, id and raw mode.
pub type EntryView = (Seq<u8>, Seq<u8>, i32);

impl View for Entry {
    type V = EntryView;

    open spec fn view(&self) -> EntryView {
        (self.name@, self.id@, self.mode)
    }
}

pub open spec fn entries_view(v: Seq<Entry>) -> Seq<EntryView> {
    v.map_values(|e: Entry| e@)
}

/// The entries of a tree value, in the order in which the tree lists them.
pub uninterp spec fn tree_contents(t: git2::Tree<'_>) -> Seq<EntryView>;

/// The entries of the tree stored under an id. A tree's id is the hash of its
/// content, so the entries found under an id are the same wherever it is found.
pub uninterp spec fn stored_tree(id: Seq<u8>) -> Seq<EntryView>;

/// The entries of a tree builder: each name with the id and raw mode it holds.
pub uninterp spec fn builder_entries(b: git2::TreeBuilder<'_>) -> Map<Seq<u8>, (Seq<u8>, i32)>;

/// The map from names to (id, mode) that a listing gives when its entries are
/// put into a map one after the other, so that a later entry of a repeated
/// name replaces an earlier one.
pub open spec fn listing_map(s: Seq<EntryView>) -> Map<Seq<u8>, (Seq<u8>, i32)>
    decreases s.len(),
{
    if s.len() == 0 {
        Map::empty()
    } else {
        let e = s.last();
        listing_map(s.drop_last()).insert(e.0, (e.1, e.2))
    }
}

/// The longest name that a tree entry can hold: libgit2 records a name's
/// length in 16 bits.
pub open spec fn name_fits(n: Seq<u8>) -> bool {
    n.len() <= 65535
}

/// Every name of the map fits in a tree entry.
pub open spec fn names_fit(m: Map<Seq<u8>, (Seq<u8>, i32)>) -> bool {
    forall|k: Seq<u8>| #[trigger] m.contains_key(k) ==> name_fits(k)
}

/// The name has no zero byte, so git2 can hand it to libgit2.
pub open spec fn no_nul(n: Seq<u8>) -> bool {
    forall|i: int| 0 <= i < n.len() ==> n[i] != 0u8
}

/// The map of names of the tree stored under `id`.
pub open spec fn stored_map(id: Seq<u8>) -> Map<Seq<u8>, (Seq<u8>, i32)> {
    listing_map(stored_tree(id))
}

/// Relies on git2::Repository::find_tree: on success, the tree stored under `id`.
#[verifier::external_body]
pub(crate) fn find_tree<'r>(repo: &'r git2::Repository, id: &ObjectId) -> (r: Result<
    git2::Tree<'r>,
    git2::Error,
>)
    ensures
        r is Ok ==> tree_contents(r->Ok_0) == stored_tree(id@),
{
    repo.find_tree(git2::Oid::from_bytes(&id.bytes)?)
}

/// Relies on git2::Tree::iter and git2::TreeEntry's name_bytes, id and
/// filemode_raw: the entries of the tree, in its order.
#[verifier::external_body]
pub(crate) fn tree_entries(t: &git2::Tree<'_>) -> (r: Vec<Entry>)
    ensures
        entries_view(r@) == tree_contents(*t),
{
    let mut out = Vec::new();
    for e in t.iter() {
        let mut id = [0u8; 20];
        id.copy_from_slice(e.id().as_bytes());
        out.push(Entry { name: e.name_bytes().to_vec(), id: ObjectId { bytes: id }, mode: e.filemode_raw() });
    }
    out
}

/// Relies on git2::Tree::len: the number of entries of the tree.
#[verifier::external_body]
pub(crate) fn tree_len(t: &git2::Tree<'_>) -> (r: usize)
    ensures
        r == tree_contents(*t).len(),
{
    t.len()
}

/// Relies on git2::Repository::treebuilder: a builder seeded with the entries
/// of `base` in order, a later entry of a repeated name replacing an earlier one.
/// A tree's names were read by libgit2's tree parser, which refuses names
/// longer than 65535 bytes.
#[verifier::external_body]
pub(crate) fn new_builder<'r>(repo: &'r git2::Repository, base: Option<&git2::Tree<'r>>) -> (r:
    Result<git2::TreeBuilder<'r>, git2::Error>)
    ensures
        r is Ok ==> builder_entries(r->Ok_0) == match base {
            Some(t) => listing_map(tree_contents(*t)),
            None => Map::empty(),
        },
        r is Ok ==> names_fit(builder_entries(r->Ok_0)),
{
    repo.treebuilder(base)
}

/// Relies on git2::TreeBuilder::get: the id and raw mode held under `name`;
/// it fails only where the name holds a zero byte.
#[verifier::external_body]
pub(crate) fn builder_get(b: &git2::TreeBuilder<'_>, name: &Vec<u8>) -> (r: Result<
    Option<(ObjectId, i32)>,
    git2::Error,
>)
    ensures
        r matches Ok(found) ==> match found {
            Some(v) => builder_entries(*b).contains_key(name@) && builder_entries(*b)[name@] == (
            v.0@, v.1),
            None => !builder_entries(*b).contains_key(name@),
        },
        no_nul(name@) ==> r is Ok,
{
    Ok(b.get(name.as_slice())?.map(|e| {
        let mut id = [0u8; 20];
        id.copy_from_slice(e.id().as_bytes());
        (ObjectId { bytes: id }, e.filemode_raw())
    }))
}

/// Relies on git2::TreeBuilder::insert: on success the builder maps `name` to
/// `(id, mode)` and is otherwise unchanged. libgit2 does not check a name's
/// length, but records it in 16 bits, so longer names are not passed to it.
#[verifier::external_body]
pub(crate) fn builder_insert(b: &mut git2::TreeBuilder<'_>, name: &Vec<u8>, id: &ObjectId, mode: i32) -> (r:
    Result<(), git2::Error>)
    requires
        name_fits(name@),
    ensures
        r is Ok ==> builder_entries(*final(b)) == builder_entries(*old(b)).insert(name@, (id@, mode)),
{
    b.insert(name.as_slice(), git2::Oid::from_bytes(&id.bytes)?, mode)?;
    Ok(())
}

/// Relies on git2::TreeBuilder::remove: on success `name` is gone from the
/// builder, which is otherwise unchanged; it fails only on a name that the
/// builder does not hold, or that holds a zero byte.
#[verifier::external_body]
pub(crate) fn builder_remove(b: &mut git2::TreeBuilder<'_>, name: &Vec<u8>) -> (r: Result<
    (),
    git2::Error,
>)
    ensures
        r is Ok ==> builder_entries(*final(b)) == builder_entries(*old(b)).remove(name@),
        builder_entries(*old(b)).contains_key(name@) && no_nul(name@) ==> r is Ok,
{
    b.remove(name.as_slice())
}

/// Relies on git2::TreeBuilder::write: on success, the id of a stored tree
/// whose entries are exactly those of the builder, all of whose names fit
/// the 16-bit length that libgit2 writes.
#[verifier::external_body]
pub(crate) fn builder_write(b: &git2::TreeBuilder<'_>) -> (r: Result<ObjectId, git2::Error>)
    requires
        names_fit(builder_entries(*b)),
    ensures
        r is Ok ==> stored_map(r->Ok_0@) == builder_entries(*b),
{
    let oid = b.write()?;
    let mut id = [0u8; 20];
    id.copy_from_slice(oid.as_bytes());
    Ok(ObjectId { bytes: id })
}

/// The mode that git2's TreeEntry::filemode reports for a raw mode: the raw
/// mode brought to one of the five modes that git writes.
pub open spec fn normalized_mode(m: i32) -> i32 {
    if m & 0o170000i32 == 0o040000i32 {
        0o040000
    } else if m & 0o100i32 != 0 {
        0o100755
    } else if m & 0o170000i32 == 0o160000i32 {
        0o160000
    } else if m & 0o170000i32 == 0o120000i32 {
        0o120000
    } else {
        0o100644
    }
}

/// A name that a looked-up path may hold: not empty, at most 65535 bytes, no
/// '/', '\\' (which git2 turns into '/' on Windows) or zero byte, and
/// neither "." nor "..".
pub open spec fn valid_name(n: Seq<u8>) -> bool {
    &&& n.len() > 0
    &&& n.len() <= 65535
    &&& forall|i: int| 0 <= i < n.len() ==> n[i] != 47u8 && n[i] != 92u8 && n[i] != 0u8
    &&& n != seq![46u8]
    &&& n != seq![46u8, 46u8]
}

pub open spec fn valid_path(p: Seq<Seq<u8>>) -> bool {
    p.len() > 0 && forall|i: int| 0 <= i < p.len() ==> valid_name(#[trigger] p[i])
}

/// The names of a path joined by '/'.
pub open spec fn join_names(p: Seq<Seq<u8>>) -> Seq<u8>
    decreases p.len(),
{
    if p.len() == 0 {
        Seq::empty()
    } else if p.len() == 1 {
        p[0]
    } else {
        join_names(p.drop_last()) + seq![47u8] + p.last()
    }
}

/// An entry that a lookup of `path` in the listing may find, as its id and
/// normalized mode: the listing has an entry of the path's first name, and
/// either the path ends there or that entry is a subtree in which the rest of
/// the path is found.
pub open spec fn found_at(listing: Seq<EntryView>, path: Seq<Seq<u8>>, v: (Seq<u8>, i32)) -> bool
    decreases path.len(),
{
    path.len() > 0 && exists|i: int|
        0 <= i < listing.len() && (#[trigger] listing[i]).0 == path[0] && if path.len() == 1 {
            v == (listing[i].1, normalized_mode(listing[i].2))
        } else {
            listing[i].2 & 0o170000i32 == 0o040000i32 && found_at(
                stored_tree(listing[i].1),
                path.drop_first(),
                v,
            )
        }
}

/// What a lookup of the names `path` (a well-formed path, see `valid_path`)
/// in a tree listed as `listing` finds: the entry's id and normalized mode,
/// or nothing. Subtrees on the way are read from the store, whose trees depend
/// on their ids alone, and such a path reads the same on every platform, so
/// the result depends on the listing and the names alone.
pub uninterp spec fn path_lookup(listing: Seq<EntryView>, path: Seq<Seq<u8>>) -> Option<(Seq<u8>, i32)>;

/// Relies on git2::Tree::get_path, given the path's names joined by '/' and
/// made a path by bstr's `to_path`: on success, the entry found, as its id and
/// normalized mode; a lookup that finds nothing (git2's `NotFound`) gives
/// `None`. A subtree on the way that cannot be read, or a path that git2
/// refuses, gives an error.
#[verifier::external_body]
pub(crate) fn entry_by_path(t: &git2::Tree<'_>, names: &Vec<Vec<u8>>, joined: &Vec<u8>) -> (r:
    Result<Option<(ObjectId, i32)>, git2::Error>)
    requires
        joined@ == join_names(names@.map_values(|c: Vec<u8>| c@)),
        valid_path(names@.map_values(|c: Vec<u8>| c@)),
    ensures
        r matches Ok(v) ==> path_lookup(tree_contents(*t), names@.map_values(|c: Vec<u8>| c@))
            == match v {
            Some(e) => Some((e.0@, e.1)),
            None => None::<(Seq<u8>, i32)>,
        },
        r matches Ok(Some(v)) ==> found_at(
            tree_contents(*t),
            names@.map_values(|c: Vec<u8>| c@),
            (v.0@, v.1),
        ),
{
    let path = joined.as_slice().to_path().map_err(|e| git2::Error::from_str(&e.to_string()))?;
    match t.get_path(path) {
        Ok(e) => {
            let mut id = [0u8; 20];
            id.copy_from_slice(e.id().as_bytes());
            Ok(Some((ObjectId { bytes: id }, e.filemode())))
        },
        Err(e) if e.code() == git2::ErrorCode::NotFound => Ok(None),
        Err(e) => Err(e),
    }
}

} // verus!

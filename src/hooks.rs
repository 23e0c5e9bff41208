//! Git hooks: where they live, and the input that the rewrite and
//! reference-transaction hooks read. Running them is left to the caller.
use vstd::prelude::*;

use crate::bytes::bytes_equal;
use vstd::utf8::encode_utf8;
use crate::store::ObjectId;

verus! {

#[verifier::external_type_specification]
#[verifier::external_body]
pub struct ExPathBuf(std::path::PathBuf);

/// The hooks of a repository, found under one directory.
#[derive(Debug)]
pub struct Hooks {
    root: std::path::PathBuf,
}

impl Hooks {
    /// The directory that holds the hooks.
    pub closed spec fn root_path(&self) -> std::path::PathBuf {
        self.root
    }

    pub fn new(hook_root: std::path::PathBuf) -> (r: Self)
        ensures
            r.root_path() == hook_root,
    {
        Hooks { root: hook_root }
    }

    pub fn root(&self) -> (r: &std::path::PathBuf)
        ensures
            *r == self.root_path(),
    {
        &self.root
    }
}

/// The hooks that git runs in the repository's git directory even where the
/// repository has a working tree: those run during a push.
pub open spec fn push_hook_names() -> Seq<Seq<u8>> {
    seq![
        seq![112u8, 114u8, 101u8, 45u8, 114u8, 101u8, 99u8, 101u8, 105u8, 118u8, 101u8],
        seq![117u8, 112u8, 100u8, 97u8, 116u8, 101u8],
        seq![112u8, 111u8, 115u8, 116u8, 45u8, 114u8, 101u8, 99u8, 101u8, 105u8, 118u8, 101u8],
        seq![112u8, 111u8, 115u8, 116u8, 45u8, 117u8, 112u8, 100u8, 97u8, 116u8, 101u8],
        seq![
            112u8, 117u8, 115u8, 104u8, 45u8, 116u8, 111u8, 45u8, 99u8, 104u8, 101u8, 99u8, 107u8,
            111u8, 117u8, 116u8,
        ],
    ]
}

/// Whether the hook of this name is one that runs during a push
/// (pre-receive, update, post-receive, post-update, push-to-checkout).
pub fn is_push_hook(name: &[u8]) -> (r: bool)
    ensures
        r == push_hook_names().contains(name@),
{
    let names: Vec<Vec<u8>> = vec![
        vec![112u8, 114u8, 101u8, 45u8, 114u8, 101u8, 99u8, 101u8, 105u8, 118u8, 101u8],
        vec![117u8, 112u8, 100u8, 97u8, 116u8, 101u8],
        vec![112u8, 111u8, 115u8, 116u8, 45u8, 114u8, 101u8, 99u8, 101u8, 105u8, 118u8, 101u8],
        vec![112u8, 111u8, 115u8, 116u8, 45u8, 117u8, 112u8, 100u8, 97u8, 116u8, 101u8],
        vec![
            112u8, 117u8, 115u8, 104u8, 45u8, 116u8, 111u8, 45u8, 99u8, 104u8, 101u8, 99u8, 107u8,
            111u8, 117u8, 116u8,
        ],
    ];
    let ghost expected = push_hook_names();
    assert(names@.len() == expected.len());
    assert forall|k: int| 0 <= k < expected.len() implies names@[k]@ == expected[k] by {
        assert(names@[0]@ == expected[0]);
        assert(names@[1]@ == expected[1]);
        assert(names@[2]@ == expected[2]);
        assert(names@[3]@ == expected[3]);
        assert(names@[4]@ == expected[4]);
    }
    let mut k: usize = 0;
    while k < names.len()
        invariant
            k <= names@.len(),
            expected == push_hook_names(),
            names@.len() == expected.len(),
            forall|j: int| 0 <= j < expected.len() ==> names@[j]@ == expected[j],
            forall|j: int| 0 <= j < k ==> expected[j] != name@,
        decreases names@.len() - k,
    {
        if bytes_equal(names[k].as_slice(), name) {
            assert(expected[k as int] == name@);
            assert(expected.contains(name@));
            return true;
        }
        k = k + 1;
    }
    assert(!expected.contains(name@)) by {
        if expected.contains(name@) {
            let j = choose|j: int| 0 <= j < expected.len() && expected[j] == name@;
        }
    }
    false
}

/// The lower-case hexadecimal digit of a value below 16.
pub open spec fn hex_digit(n: u8) -> u8 {
    if n < 10 {
        (48 + n) as u8
    } else {
        (87 + n) as u8
    }
}

/// The bytes written as lower-case hexadecimal, two digits each.
pub open spec fn hex_of(b: Seq<u8>) -> Seq<u8>
    decreases b.len(),
{
    if b.len() == 0 {
        Seq::empty()
    } else {
        hex_of(b.drop_last()) + seq![hex_digit(b.last() / 16), hex_digit(b.last() % 16)]
    }
}

fn append_bytes(out: &mut Vec<u8>, b: &[u8])
    ensures
        final(out)@ == old(out)@ + b@,
{
    let ghost start = out@;
    let mut i: usize = 0;
    while i < b.len()
        invariant
            i <= b@.len(),
            out@ == start + b@.subrange(0, i as int),
        decreases b@.len() - i,
    {
        out.push(b[i]);
        i = i + 1;
        assert(out@ =~= start + b@.subrange(0, i as int));
    }
    assert(b@.subrange(0, b@.len() as int) =~= b@);
}

fn append_hex(out: &mut Vec<u8>, id: &ObjectId)
    ensures
        final(out)@ == old(out)@ + hex_of(id@),
{
    let ghost start = out@;
    let mut i: usize = 0;
    while i < 20
        invariant
            i <= 20,
            out@ == start + hex_of(id@.subrange(0, i as int)),
        decreases 20 - i,
    {
        let b = id.bytes[i];
        let hi = b / 16;
        let lo = b % 16;
        let h = if hi < 10 { 48 + hi } else { 87 + hi };
        let l = if lo < 10 { 48 + lo } else { 87 + lo };
        out.push(h);
        out.push(l);
        proof {
            let s = id@.subrange(0, i + 1int);
            assert(s.drop_last() =~= id@.subrange(0, i as int));
            assert(s.last() == b);
            assert(out@ =~= start + hex_of(s));
        }
        i = i + 1;
    }
    assert(id@.subrange(0, 20) =~= id@);
}

/// The input of the post-rewrite hook: one line "old new" per rewritten
/// commit, ids in hexadecimal.
pub open spec fn rewrite_lines(pairs: Seq<(Seq<u8>, Seq<u8>)>) -> Seq<u8>
    decreases pairs.len(),
{
    if pairs.len() == 0 {
        Seq::empty()
    } else {
        rewrite_lines(pairs.drop_last()) + hex_of(pairs.last().0) + seq![32u8] + hex_of(
            pairs.last().1,
        ) + seq![10u8]
    }
}

pub open spec fn id_pairs(v: Seq<(ObjectId, ObjectId)>) -> Seq<(Seq<u8>, Seq<u8>)> {
    v.map_values(|p: (ObjectId, ObjectId)| (p.0@, p.1@))
}

/// What the post-rewrite hook reads, for `git rebase`: one line per
/// rewritten commit, its old and its new id.
pub fn post_rewrite_stdin(changed: &Vec<(ObjectId, ObjectId)>) -> (r: Vec<u8>)
    ensures
        r@ == rewrite_lines(id_pairs(changed@)),
{
    let ghost pairs = id_pairs(changed@);
    let mut out: Vec<u8> = Vec::new();
    let mut i: usize = 0;
    while i < changed.len()
        invariant
            i <= changed@.len(),
            pairs == id_pairs(changed@),
            out@ == rewrite_lines(pairs.subrange(0, i as int)),
        decreases changed@.len() - i,
    {
        let (old_id, new_id) = &changed[i];
        append_hex(&mut out, old_id);
        out.push(32u8);
        append_hex(&mut out, new_id);
        out.push(10u8);
        proof {
            let s = pairs.subrange(0, i + 1int);
            assert(s.drop_last() =~= pairs.subrange(0, i as int));
            assert(s.last() == (old_id@, new_id@));
        }
        i = i + 1;
    }
    assert(pairs.subrange(0, changed@.len() as int) =~= pairs);
    out
}

/// The input of the reference-transaction hook: one line "old new name" per
/// reference, ids in hexadecimal.
pub open spec fn ref_lines(refs: Seq<(Seq<u8>, Seq<u8>, Seq<u8>)>) -> Seq<u8>
    decreases refs.len(),
{
    if refs.len() == 0 {
        Seq::empty()
    } else {
        ref_lines(refs.drop_last()) + hex_of(refs.last().0) + seq![32u8] + hex_of(refs.last().1)
            + seq![32u8] + refs.last().2 + seq![10u8]
    }
}

pub open spec fn ref_triples(v: Seq<(ObjectId, ObjectId, String)>) -> Seq<(Seq<u8>, Seq<u8>, Seq<u8>)> {
    v.map_values(|t: (ObjectId, ObjectId, String)| (t.0@, t.1@, encode_utf8(t.2@)))
}

/// What the reference-transaction hook reads: one line per reference, its
/// old id, its new id and its full name.
pub fn reference_transaction_stdin(changed: &Vec<(ObjectId, ObjectId, String)>) -> (r: Vec<u8>)
    ensures
        r@ == ref_lines(ref_triples(changed@)),
{
    let ghost refs = ref_triples(changed@);
    let mut out: Vec<u8> = Vec::new();
    let mut i: usize = 0;
    while i < changed.len()
        invariant
            i <= changed@.len(),
            refs == ref_triples(changed@),
            out@ == ref_lines(refs.subrange(0, i as int)),
        decreases changed@.len() - i,
    {
        let (old_id, new_id, name) = &changed[i];
        append_hex(&mut out, old_id);
        out.push(32u8);
        append_hex(&mut out, new_id);
        out.push(32u8);
        append_bytes(&mut out, name.as_str().as_bytes());
        out.push(10u8);
        proof {
            let s = refs.subrange(0, i + 1int);
            assert(s.drop_last() =~= refs.subrange(0, i as int));
            assert(s.last() == (old_id@, new_id@, encode_utf8(name@)));
        }
        i = i + 1;
    }
    assert(refs.subrange(0, changed@.len() as int) =~= refs);
    out
}

} // verus!

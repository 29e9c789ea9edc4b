//! Relative paths as byte strings, and the prefix join used by the mount
//! wrapper to re-root a sub-tree's output.

use vstd::prelude::*;

verus! {

/// The byte that separates path segments (`/`).
pub const SEPARATOR: u8 = 47;

/// The path obtained by placing `child` under `prefix`: the two joined with a
/// single separator byte, or `child` alone when the prefix is empty.
pub open spec fn spec_join(prefix: Seq<u8>, child: Seq<u8>) -> Seq<u8> {
    if prefix.len() == 0 {
        child
    } else {
        prefix + seq![SEPARATOR] + child
    }
}

/// Joins `child` under `prefix` with a single separator byte.
pub fn join_path(prefix: &Vec<u8>, child: &Vec<u8>) -> (joined: Vec<u8>)
    ensures
        joined@ == spec_join(prefix@, child@),
{
    let mut joined: Vec<u8> = Vec::new();
    let mut i: usize = 0;
    while i < prefix.len()
        invariant
            i <= prefix.len(),
            joined@ == prefix@.take(i as int),
        decreases prefix.len() - i,
    {
        joined.push(prefix[i]);
        i = i + 1;
    }
    assert(joined@ == prefix@);
    if joined.len() > 0 {
        joined.push(SEPARATOR);
    }
    let mut j: usize = 0;
    while j < child.len()
        invariant
            j <= child.len(),
            prefix@.len() == 0 ==> joined@ == child@.take(j as int),
            prefix@.len() > 0 ==> joined@ == prefix@ + seq![SEPARATOR] + child@.take(j as int),
        decreases child.len() - j,
    {
        joined.push(child[j]);
        j = j + 1;
    }
    proof {
        assert(child@.take(child@.len() as int) == child@);
    }
    joined
}

/// Copies a byte string.
pub fn clone_bytes(bytes: &Vec<u8>) -> (copy: Vec<u8>)
    ensures
        copy@ == bytes@,
{
    let mut copy: Vec<u8> = Vec::new();
    let mut i: usize = 0;
    while i < bytes.len()
        invariant
            i <= bytes.len(),
            copy@ == bytes@.take(i as int),
        decreases bytes.len() - i,
    {
        copy.push(bytes[i]);
        i = i + 1;
    }
    proof {
        assert(bytes@.take(bytes@.len() as int) == bytes@);
    }
    copy
}

/// Joining is associative: mounting under `a` and then under `b` re-roots a
/// path exactly as mounting once under the joined prefix does, as long as the
/// inner prefix is not empty.
pub proof fn lemma_join_assoc(a: Seq<u8>, b: Seq<u8>, c: Seq<u8>)
    requires
        b.len() > 0,
    ensures
        spec_join(a, spec_join(b, c)) == spec_join(spec_join(a, b), c),
{
    if a.len() == 0 {
    } else {
        assert(spec_join(a, spec_join(b, c)) =~= spec_join(spec_join(a, b), c));
    }
}

/// A joined path stays under its prefix: it begins with the prefix and the
/// separator, and what follows them is exactly the original child path.
pub proof fn lemma_join_keeps_prefix(prefix: Seq<u8>, child: Seq<u8>)
    requires
        prefix.len() > 0,
    ensures
        spec_join(prefix, child).len() == prefix.len() + 1 + child.len(),
        spec_join(prefix, child).take(prefix.len() + 1 as int) == prefix + seq![SEPARATOR],
        spec_join(prefix, child).skip(prefix.len() + 1 as int) == child,
{
    assert(spec_join(prefix, child).take(prefix.len() + 1 as int) =~= prefix + seq![SEPARATOR]);
    assert(spec_join(prefix, child).skip(prefix.len() + 1 as int) =~= child);
}

/// Two children joined under one prefix collide exactly when the children
/// themselves are equal: the join neither creates nor hides duplicates.
pub proof fn lemma_join_injective(prefix: Seq<u8>, a: Seq<u8>, b: Seq<u8>)
    ensures
        (spec_join(prefix, a) == spec_join(prefix, b)) == (a == b),
{
    if prefix.len() == 0 {
    } else {
        if spec_join(prefix, a) == spec_join(prefix, b) {
            lemma_join_keeps_prefix(prefix, a);
            lemma_join_keeps_prefix(prefix, b);
            assert(a == spec_join(prefix, a).skip(prefix.len() + 1 as int));
        }
        if a == b {
            assert(spec_join(prefix, a) =~= spec_join(prefix, b));
        }
    }
}

} // verus!

//! Paths as byte strings: parent prefix, file name, suffix, and the
//! suffix tests the lifecycle engine dispatches on.

use vstd::prelude::*;

verus! {

pub const DOT: u8 = 0x2e;

pub const SLASH: u8 = 0x2f;

/// The prefix of `p` up to and including its last `/`; empty if `p` holds no `/`.
pub open spec fn parent_prefix(p: Seq<u8>) -> Seq<u8>
    decreases p.len(),
{
    if p.len() == 0 {
        p
    } else if p.last() == SLASH {
        p
    } else {
        parent_prefix(p.drop_last())
    }
}

/// The file-name component of `p`: everything after its last `/`.
pub open spec fn file_name(p: Seq<u8>) -> Seq<u8> {
    p.subrange(parent_prefix(p).len() as int, p.len() as int)
}

/// The suffix of a file name from its last `.` onward (the `.` included);
/// `None` when the name holds no `.`.
pub open spec fn find_suffix(n: Seq<u8>) -> Option<Seq<u8>>
    decreases n.len(),
{
    if n.len() == 0 {
        Option::None
    } else if n.last() == DOT {
        Option::Some(seq![DOT])
    } else {
        match find_suffix(n.drop_last()) {
            Option::Some(s) => Option::Some(s.push(n.last())),
            Option::None => Option::None,
        }
    }
}

pub open spec fn ends_with(s: Seq<u8>, sfx: Seq<u8>) -> bool {
    &&& sfx.len() <= s.len()
    &&& s.subrange(s.len() - sfx.len(), s.len() as int) == sfx
}

pub open spec fn ncsum_suffix() -> Seq<u8> {
    seq![DOT, 0x6e, 0x63, 0x73, 0x75, 0x6d]
}

pub open spec fn pncsum_suffix() -> Seq<u8> {
    seq![DOT, 0x70, 0x6e, 0x63, 0x73, 0x75, 0x6d]
}

pub open spec fn tncsum_suffix() -> Seq<u8> {
    seq![DOT, 0x74, 0x6e, 0x63, 0x73, 0x75, 0x6d]
}

pub fn ncsum_suffix_bytes() -> (r: Vec<u8>)
    ensures
        r@ == ncsum_suffix(),
{
    let mut v: Vec<u8> = Vec::new();
    v.push(0x2e);
    v.push(0x6e);
    v.push(0x63);
    v.push(0x73);
    v.push(0x75);
    v.push(0x6d);
    proof {
        assert(v@ =~= ncsum_suffix());
    }
    v
}

pub fn pncsum_suffix_bytes() -> (r: Vec<u8>)
    ensures
        r@ == pncsum_suffix(),
{
    let mut v: Vec<u8> = Vec::new();
    v.push(0x2e);
    v.push(0x70);
    v.push(0x6e);
    v.push(0x63);
    v.push(0x73);
    v.push(0x75);
    v.push(0x6d);
    proof {
        assert(v@ =~= pncsum_suffix());
    }
    v
}

pub fn tncsum_suffix_bytes() -> (r: Vec<u8>)
    ensures
        r@ == tncsum_suffix(),
{
    let mut v: Vec<u8> = Vec::new();
    v.push(0x2e);
    v.push(0x74);
    v.push(0x6e);
    v.push(0x63);
    v.push(0x73);
    v.push(0x75);
    v.push(0x6d);
    proof {
        assert(v@ =~= tncsum_suffix());
    }
    v
}

/// `parent_prefix` is exactly the bytes before and including the last slash.
proof fn lemma_parent_prefix_at(p: Seq<u8>, i: int)
    requires
        0 <= i <= p.len(),
        i > 0 ==> p[i - 1] == SLASH,
        forall|k: int| i <= k < p.len() ==> p[k] != SLASH,
    ensures
        parent_prefix(p) == p.subrange(0, i),
    decreases p.len(),
{
    if p.len() == i {
        if i == 0 {
            assert(parent_prefix(p) =~= p.subrange(0, i));
        } else {
            assert(p.last() == SLASH);
            assert(parent_prefix(p) =~= p.subrange(0, i));
        }
    } else {
        assert(p[p.len() - 1] != SLASH);
        lemma_parent_prefix_at(p.drop_last(), i);
        assert(p.drop_last().subrange(0, i) =~= p.subrange(0, i));
    }
}

/// `find_suffix` succeeds exactly from the last dot onward.
proof fn lemma_find_suffix_at(n: Seq<u8>, j: int)
    requires
        0 <= j < n.len(),
        n[j] == DOT,
        forall|k: int| j < k < n.len() ==> n[k] != DOT,
    ensures
        find_suffix(n) == Option::Some(n.subrange(j, n.len() as int)),
    decreases n.len(),
{
    if j == n.len() - 1 {
        assert(n.last() == DOT);
        assert(n.subrange(j, n.len() as int) =~= seq![DOT]);
    } else {
        assert(n[n.len() - 1] != DOT);
        lemma_find_suffix_at(n.drop_last(), j);
        assert(n.drop_last().subrange(j, n.len() - 1).push(n.last()) =~= n.subrange(
            j,
            n.len() as int,
        ));
    }
}

/// A name without any dot has no suffix.
proof fn lemma_find_suffix_none(n: Seq<u8>)
    requires
        forall|k: int| 0 <= k < n.len() ==> n[k] != DOT,
    ensures
        find_suffix(n) is None,
    decreases n.len(),
{
    if n.len() > 0 {
        lemma_find_suffix_none(n.drop_last());
    }
}

/// The parent prefix never exceeds the path itself.
pub proof fn lemma_parent_prefix_len(p: Seq<u8>)
    ensures
        parent_prefix(p).len() <= p.len(),
    decreases p.len(),
{
    if p.len() > 0 && p.last() != SLASH {
        lemma_parent_prefix_len(p.drop_last());
    }
}

/// A suffix starts with the dot, holds no other dot, is no longer than the
/// name, and the name ends with it.
pub proof fn lemma_find_suffix_props(n: Seq<u8>)
    requires
        find_suffix(n) is Some,
    ensures
        1 <= find_suffix(n).unwrap().len() <= n.len(),
        find_suffix(n).unwrap()[0] == DOT,
        forall|i: int| 0 < i < find_suffix(n).unwrap().len() ==> find_suffix(n).unwrap()[i] != DOT,
        ends_with(n, find_suffix(n).unwrap()),
    decreases n.len(),
{
    let s = find_suffix(n).unwrap();
    if n.last() == DOT {
        assert(s =~= seq![DOT]);
        assert(n.subrange(n.len() - 1, n.len() as int) =~= s);
    } else {
        lemma_find_suffix_props(n.drop_last());
        let t = find_suffix(n.drop_last()).unwrap();
        assert(s == t.push(n.last()));
        assert(n.drop_last().subrange(n.len() - 1 - t.len(), n.len() - 1) == t);
        assert(n.subrange(n.len() - s.len(), n.len() as int) =~= s) by {
            assert(forall|i: int|
                0 <= i < t.len() ==> #[trigger] n.drop_last().subrange(
                    n.len() - 1 - t.len(),
                    n.len() - 1,
                )[i] == n[n.len() - 1 - t.len() + i]);
        }
    }
}

/// Split a path into its parent prefix (through the last slash) and its
/// file-name component.
pub fn split_parent(p: &Vec<u8>) -> (r: (Vec<u8>, Vec<u8>))
    ensures
        r.0@ == parent_prefix(p@),
        r.1@ == file_name(p@),
{
    let mut i: usize = p.len();
    while i > 0 && *vstd::slice::slice_index_get(p.as_slice(), i - 1) != SLASH
        invariant
            0 <= i <= p.len(),
            forall|k: int| i <= k < p.len() ==> p@[k] != SLASH,
        decreases i,
    {
        i = i - 1;
    }
    proof {
        lemma_parent_prefix_at(p@, i as int);
    }
    let parent = vstd::slice::slice_to_vec(vstd::slice::slice_subrange(p.as_slice(), 0, i));
    let name = vstd::slice::slice_to_vec(vstd::slice::slice_subrange(p.as_slice(), i, p.len()));
    (parent, name)
}

/// The suffix of a file name from its last `.` onward, if any.
pub fn name_suffix(n: &Vec<u8>) -> (r: Option<Vec<u8>>)
    ensures
        r is Some <==> find_suffix(n@) is Some,
        r is Some ==> r.unwrap()@ == find_suffix(n@).unwrap(),
{
    let mut i: usize = n.len();
    while i > 0 && *vstd::slice::slice_index_get(n.as_slice(), i - 1) != DOT
        invariant
            0 <= i <= n.len(),
            forall|k: int| i <= k < n.len() ==> n@[k] != DOT,
        decreases i,
    {
        i = i - 1;
    }
    if i == 0 {
        proof {
            lemma_find_suffix_none(n@);
        }
        Option::None
    } else {
        proof {
            lemma_find_suffix_at(n@, i - 1);
        }
        Option::Some(
            vstd::slice::slice_to_vec(vstd::slice::slice_subrange(n.as_slice(), i - 1, n.len())),
        )
    }
}

/// Whether `s` ends with the byte suffix `sfx`.
pub fn bytes_end_with(s: &Vec<u8>, sfx: &Vec<u8>) -> (r: bool)
    ensures
        r == ends_with(s@, sfx@),
{
    if sfx.len() > s.len() {
        return false;
    }
    let start: usize = s.len() - sfx.len();
    let mut k: usize = 0;
    while k < sfx.len()
        invariant
            0 <= k <= sfx.len(),
            sfx.len() <= s.len(),
            start == s.len() - sfx.len(),
            forall|j: int| 0 <= j < k ==> s@[start + j] == sfx@[j],
        decreases sfx.len() - k,
    {
        if *vstd::slice::slice_index_get(s.as_slice(), start + k) != *vstd::slice::slice_index_get(
            sfx.as_slice(),
            k,
        ) {
            proof {
                let ki = k as int;
                assert(s@.subrange(s@.len() - sfx@.len(), s@.len() as int)[ki] != sfx@[ki]);
            }
            return false;
        }
        k = k + 1;
    }
    proof {
        assert(s@.subrange(s@.len() - sfx@.len(), s@.len() as int) =~= sfx@);
    }
    true
}

/// Whether two byte strings hold the same bytes.
pub fn bytes_eq(a: &Vec<u8>, b: &Vec<u8>) -> (r: bool)
    ensures
        r == (a@ == b@),
{
    if a.len() != b.len() {
        return false;
    }
    let mut k: usize = 0;
    while k < a.len()
        invariant
            0 <= k <= a@.len(),
            a@.len() == b@.len(),
            forall|j: int| 0 <= j < k ==> a@[j] == b@[j],
        decreases a@.len() - k,
    {
        if a[k] != b[k] {
            return false;
        }
        k = k + 1;
    }
    proof {
        assert(a@ =~= b@);
    }
    true
}

/// Replace the suffix `from`, which `s` must end with, by `to`.
pub fn replace_suffix(s: &Vec<u8>, from: &Vec<u8>, to: &Vec<u8>) -> (r: Vec<u8>)
    requires
        ends_with(s@, from@),
    ensures
        r@ == s@.subrange(0, s@.len() - from@.len()) + to@,
{
    let mut r = vstd::slice::slice_to_vec(
        vstd::slice::slice_subrange(s.as_slice(), 0, s.len() - from.len()),
    );
    r.extend_from_slice(to.as_slice());
    r
}

} // verus!

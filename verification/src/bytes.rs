//! Byte strings: comparison and copying.
use vstd::prelude::*;

verus! {

/// Whether two byte strings hold the same bytes.
pub fn same_bytes(left: &[u8], right: &[u8]) -> (same: bool)
    ensures
        same == (left@ == right@),
{
    if left.len() != right.len() {
        return false;
    }
    let mut index: usize = 0;
    while index < left.len()
        invariant
            index <= left@.len(),
            left@.len() == right@.len(),
            forall|i: int| 0 <= i < index ==> left@[i] == right@[i],
        decreases left@.len() - index,
    {
        if left[index] != right[index] {
            return false;
        }
        index = index + 1;
    }
    assert(left@ =~= right@);
    true
}

/// Whether two digests of thirty-two bytes are equal.
pub fn same_digest(left: &[u8; 32], right: &[u8; 32]) -> (same: bool)
    ensures
        same == (*left == *right),
{
    let same: bool = same_bytes(left.as_slice(), right.as_slice());
    if same {
        assert(left@ =~= right@);
        assert(*left =~= *right);
    }
    same
}

/// A copy of a byte string.
pub fn copied(source: &Vec<u8>) -> (copy: Vec<u8>)
    ensures
        copy@ == source@,
{
    let copy: Vec<u8> = source.clone();
    assert(copy@ =~= source@);
    copy
}

} // verus!

//! Lookup in a trie whose branch nodes are read in line: a branch node gives a jump
//! length, and each ASCII byte after it either leads on (the key's byte sorts before it)
//! or is passed by jumping over the rest of the branch.

use crate::varintx::{read_varint2, spec_read_varint2};
use vstd::prelude::*;

verus! {

/// The kinds of trie byte, by their top three bits.
pub enum ByteType {
    Ascii,
    IntermediateValue,
    FinalValue,
    Branch,
    BranchFinal,
}

/// The kind of the trie byte `b`.
pub open spec fn spec_byte_type(b: u8) -> ByteType {
    if b / 32 == 4 {
        ByteType::IntermediateValue
    } else if b / 32 == 5 {
        ByteType::FinalValue
    } else if b / 32 == 6 {
        ByteType::Branch
    } else if b / 32 == 7 {
        ByteType::BranchFinal
    } else {
        ByteType::Ascii
    }
}

/// The kind of the trie byte `b`.
pub fn byte_type(b: u8) -> (res: ByteType)
    ensures
        res == spec_byte_type(b),
{
    match b / 32 {
        4 => ByteType::IntermediateValue,
        5 => ByteType::FinalValue,
        6 => ByteType::Branch,
        7 => ByteType::BranchFinal,
        _ => ByteType::Ascii,
    }
}

/// What `read_varint2` leaves is a suffix of what it was given, after a value below 2^32.
pub proof fn lemma_read_suffix(b: u8, t: Seq<u8>)
    ensures
        spec_read_varint2(b, t) matches Some((x, r)) ==> r.len() <= t.len() && 0 <= x
            < 0x1_0000_0000,
{
    if spec_read_varint2(b, t) is Some {
        crate::varintx::lemma_read_bound(3, b, t);
    }
}

/// The value the trie `trie` holds for `key`, as `get` computes it, given whether the
/// last branch node was a final one and the jump it set (0 when none is pending).
pub open spec fn spec_get(trie: Seq<u8>, key: Seq<u8>, branch_final: bool, branch_jump: int) -> Option<
    usize,
>
    decreases trie.len(),
{
    if trie.len() == 0 {
        None
    } else {
        let b = trie[0];
        let t = trie.drop_first();
        let bt = spec_byte_type(b);
        let read = if bt is Ascii {
            Some((0int, t))
        } else {
            spec_read_varint2(b, t)
        };
        match read {
            None => None,
            Some((x, t2)) => {
                proof {
                    lemma_read_suffix(b, t);
                }
                if key.len() > 0 {
                    let c = key[0];
                    match bt {
                        ByteType::Ascii => {
                            if branch_jump == 0 {
                                if c == b {
                                    spec_get(t2, key.drop_first(), branch_final, 0)
                                } else {
                                    None
                                }
                            } else if c < b {
                                spec_get(t2, key, branch_final, 0)
                            } else if branch_jump < 0 || branch_jump > t2.len() {
                                None
                            } else if !branch_final {
                                spec_get(t2.skip(branch_jump), key, branch_final, 0)
                            } else {
                                spec_get(t2.skip(branch_jump), key.drop_first(), branch_final, 0)
                            }
                        },
                        ByteType::IntermediateValue => spec_get(t2, key, branch_final, branch_jump),
                        ByteType::FinalValue => None,
                        ByteType::Branch => spec_get(t2, key, false, x),
                        ByteType::BranchFinal => spec_get(t2, key, true, x),
                    }
                } else if bt is IntermediateValue || bt is FinalValue {
                    Some(x as usize)
                } else {
                    None
                }
            },
        }
    }
}

/// Looks up `ascii` in the trie `trie`: ASCII bytes are matched in turn; after a branch
/// node, an ASCII byte that the key's byte does not sort before is passed by jumping the
/// branch's length (taking the key's byte along after a final branch). Returns the value
/// of the value node reached when the key is used up, or `None`.
pub fn get(trie: &[u8], ascii: &[u8]) -> (res: Option<usize>)
    ensures
        res == spec_get(trie@, ascii@, false, 0),
{
    let mut branch_final = false;
    let mut branch_jump: usize = 0;
    let mut cur = trie;
    let mut key = ascii;
    loop
        invariant
            spec_get(cur@, key@, branch_final, branch_jump as int) == spec_get(
                trie@,
                ascii@,
                false,
                0,
            ),
        decreases cur@.len(),
    {
        if cur.len() == 0 {
            return None;
        }
        let b = cur[0];
        let t = vstd::slice::slice_subrange(cur, 1, cur.len());
        proof {
            assert(t@ =~= cur@.drop_first());
            lemma_read_suffix(b, t@);
        }
        let bt = byte_type(b);
        let (x, t2) = match bt {
            ByteType::Ascii => (0usize, t),
            _ => match read_varint2(b, t) {
                Some(r) => r,
                None => {
                    return None;
                },
            },
        };
        if key.len() == 0 {
            return match bt {
                ByteType::IntermediateValue => Some(x),
                ByteType::FinalValue => Some(x),
                _ => None,
            };
        }
        let c = key[0];
        let rest = vstd::slice::slice_subrange(key, 1, key.len());
        proof {
            assert(rest@ =~= key@.drop_first());
        }
        match bt {
            ByteType::Ascii => {
                if branch_jump == 0 {
                    if c == b {
                        cur = t2;
                        key = rest;
                        continue ;
                    } else {
                        return None;
                    }
                }
                if c < b {
                    cur = t2;
                } else {
                    if branch_jump > t2.len() {
                        return None;
                    }
                    cur = vstd::slice::slice_subrange(t2, branch_jump, t2.len());
                    proof {
                        assert(cur@ =~= t2@.skip(branch_jump as int));
                    }
                    if branch_final {
                        key = rest;
                    }
                }
                branch_jump = 0;
            },
            ByteType::IntermediateValue => {
                cur = t2;
            },
            ByteType::FinalValue => {
                return None;
            },
            ByteType::Branch => {
                branch_jump = x;
                branch_final = false;
                cur = t2;
            },
            ByteType::BranchFinal => {
                branch_jump = x;
                branch_final = true;
                cur = t2;
            },
        }
    }
}

} // verus!

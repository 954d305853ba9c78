//! The data of UAX 14 line breaking: the break property of each code point, and the
//! break state of each pair of properties.

use vstd::prelude::*;

verus! {

/// UAX 14 line break property table: one property for each code point, 128 of each block
/// of 1024 kept.
pub struct LineBreakPropertyTable<'data>(pub &'data [u8]);

/// Where the property of `codepoint` lies in the table.
pub open spec fn property_index(codepoint: u32) -> int {
    (codepoint / 1024) * 128 + (codepoint % 1024)
}

/// The first block of 1024 code points is kept whole: the property of a code point below
/// 1024 is at the code point itself.
pub proof fn lemma_property_index_first_block(codepoint: u32)
    ensures
        codepoint < 1024 ==> property_index(codepoint) == codepoint,
{
}

/// Each block of 1024 code points keeps 128 entries: a code point 1024 further on has its
/// property 128 entries further on, and within a block the entries follow the code points.
pub proof fn lemma_property_index_blocks(codepoint: u32)
    ensures
        codepoint + 1024 <= u32::MAX ==> property_index((codepoint + 1024) as u32) == property_index(
            codepoint,
        ) + 128,
        codepoint % 1024 != 1023 ==> property_index((codepoint + 1) as u32) == property_index(
            codepoint,
        ) + 1,
{
}

impl LineBreakPropertyTable<'_> {
    /// The break property of `codepoint`; 0 past the end of the table.
    pub fn get_prop_for_code_point(&self, codepoint: u32) -> (res: u8)
        ensures
            res == if property_index(codepoint) < self.0@.len() {
                self.0@[property_index(codepoint)]
            } else {
                0u8
            },
            codepoint < 1024 && codepoint < self.0@.len() ==> res == self.0@[codepoint as int],
    {
        proof {
            lemma_property_index_first_block(codepoint);
        }
        proof {
            assert(codepoint & 0x3ff == codepoint % 1024) by (bit_vector);
        }
        let index = (codepoint / 1024 * 128) + (codepoint & 0x3ff);
        if (index as usize) < self.0.len() {
            self.0[index as usize]
        } else {
            0
        }
    }
}

/// The data of UAX 14 line breaking.
pub struct LineBreakDataV1<'data> {
    pub property_table: LineBreakPropertyTable<'data>,
    pub rule_table: LineBreakRuleTable<'data>,
}

/// UAX 14 line break rule table: one state for each pair of properties, the left one
/// choosing the row.
pub struct LineBreakRuleTable<'data>(pub &'data [i8]);

/// Where the state of the properties `left` and `right` (both counted from 1) lies in a
/// table of `property_count` columns.
pub open spec fn state_index(property_count: int, left: int, right: int) -> int {
    (left - 1) * property_count + right - 1
}

impl LineBreakRuleTable<'_> {
    /// The break state of the properties `left` and `right`, both counted from 1, in a
    /// table of `property_count` columns; 0 past the end of the table.
    pub fn get_break_state_from_table(&self, property_count: usize, left: u8, right: u8) -> (res: i8)
        requires
            left >= 1,
            right >= 1,
            state_index(property_count as int, left as int, right as int) < usize::MAX,
        ensures
            res == if state_index(property_count as int, left as int, right as int) < self.0@.len() {
                self.0@[state_index(property_count as int, left as int, right as int)]
            } else {
                0i8
            },
    {
        proof {
            assert((left - 1) * property_count <= state_index(property_count as int, left as int, right as int))
                by (nonlinear_arith)
                requires
                    right >= 1,
            ;
            assert(0 <= (left - 1) * property_count) by (nonlinear_arith)
                requires
                    left >= 1,
            ;
        }
        let index = ((left as usize) - 1) * property_count + (right as usize) - 1;
        if index < self.0.len() {
            self.0[index]
        } else {
            0
        }
    }
}

} // verus!

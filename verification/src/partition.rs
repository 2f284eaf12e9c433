//! The partition table: a pure, total, deterministic mapping from a word's
//! leading character to the output partition that owns the word.
//!
//! Lowercase ASCII letters are split into five fixed ranges; any other
//! character (digits, punctuation, and so on) falls to the default
//! partition. Downstream consumers rely on this placement being exact and
//! stable across runs.

use vstd::prelude::*;

use crate::text::spec_dec_digits;
use crate::text::u32_to_dec;

verus! {

/// Partition ids run from 1 through this value.
pub const NUM_PARTITIONS: u8 = 5;

/// The partition that owns keys whose leading character matches no letter
/// range.
pub const DEFAULT_PARTITION: u8 = 5;

/// Whether `c` is a lowercase ASCII letter.
pub open spec fn is_lowercase_letter(c: char) -> bool {
    'a' as u32 <= c as u32 && c as u32 <= 'z' as u32
}

/// The partition owning a given leading character: `a`-`f` map to 1,
/// `g`-`l` to 2, `m`-`r` to 3, `s`-`x` to 4, `y`-`z` to 5, and every other
/// character to the default partition.
pub open spec fn spec_partition_of(c: char) -> u8 {
    if 'a' as u32 <= c as u32 && c as u32 <= 'f' as u32 {
        1
    } else if 'g' as u32 <= c as u32 && c as u32 <= 'l' as u32 {
        2
    } else if 'm' as u32 <= c as u32 && c as u32 <= 'r' as u32 {
        3
    } else if 's' as u32 <= c as u32 && c as u32 <= 'x' as u32 {
        4
    } else {
        DEFAULT_PARTITION
    }
}

/// Resolves the partition for a leading character.
pub fn partition_of(c: char) -> (r: u8)
    ensures
        r == spec_partition_of(c),
{
    let x = c as u32;
    if 'a' as u32 <= x && x <= 'f' as u32 {
        1
    } else if 'g' as u32 <= x && x <= 'l' as u32 {
        2
    } else if 'm' as u32 <= x && x <= 'r' as u32 {
        3
    } else if 's' as u32 <= x && x <= 'x' as u32 {
        4
    } else {
        DEFAULT_PARTITION
    }
}

/// The partition owning a whole key: decided by the key's leading
/// character, with the default partition for an empty key.
pub open spec fn spec_key_partition(word: Seq<char>) -> u8 {
    if word.len() == 0 {
        DEFAULT_PARTITION
    } else {
        spec_partition_of(word[0])
    }
}

/// Resolves the partition for a whole key.
pub fn key_partition(word: &str) -> (r: u8)
    ensures
        r == spec_key_partition(word@),
{
    if word.unicode_len() == 0 {
        DEFAULT_PARTITION
    } else {
        partition_of(word.get_char(0))
    }
}

/// The deterministic path of a partition's shard file.
pub open spec fn spec_shard_path(id: u8) -> Seq<char> {
    "./tmp/"@ + spec_dec_digits(id as int) + ".txt"@
}

/// Builds the path of a partition's shard file.
pub fn shard_path(id: u8) -> (r: String)
    ensures
        r@ == spec_shard_path(id),
{
    let mut r = String::from_str("./tmp/");
    let digits = u32_to_dec(id as u32);
    r.append(digits.as_str());
    r.append(".txt");
    proof {
        assert(r@ =~= spec_shard_path(id));
    }
    r
}

/// The partition table is total and deterministic: every character is
/// assigned exactly one partition id in the valid range, and a character
/// that is not a lowercase ASCII letter is assigned the default partition.
pub proof fn lemma_partition_total(c: char)
    ensures
        1 <= spec_partition_of(c) <= NUM_PARTITIONS,
        !is_lowercase_letter(c) ==> spec_partition_of(c) == DEFAULT_PARTITION,
{
}

} // verus!

//! Block colours: every path gets the same colour at the same depth each
//! time, drawn from a band of medium-to-full saturation and brightness.

use vstd::prelude::*;
use vstd::bytes::{spec_u64_to_le_bytes, u64_to_le_bytes};
use vstd::std_specs::hash::DefaultHasherAdditionalSpecFns;
use std::collections::hash_map::DefaultHasher;
use std::hash::Hasher;

verus! {

/// A colour by hue in degrees and by saturation and value in percent.
#[derive(Clone, Copy, Debug, PartialEq, Eq, Structural)]
pub struct Hsv {
    pub hue: u16,
    pub saturation: u8,
    pub value: u8,
}

/// The colour that a hash stands for: its residue modulo 360 is the hue,
/// the bits above the lowest byte pick a saturation from 50 to 99 percent,
/// and the bits above the lowest two bytes a value from 40 to 99 percent.
pub open spec fn hsv_of_hash(hash: u64) -> Hsv {
    Hsv {
        hue: (hash % 360) as u16,
        saturation: (50 + (hash >> 8) % 50) as u8,
        value: (40 + (hash >> 16) % 60) as u8,
    }
}

/// The hash of a path taken at a depth: the standard hasher's result after
/// it was fed the path's bytes and then the depth as eight bytes, lowest first.
pub open spec fn path_depth_hash(path: Seq<char>, depth: usize) -> u64 {
    DefaultHasher::spec_finish(seq![vstd::utf8::encode_utf8(path), spec_u64_to_le_bytes(depth as u64)])
}

/// The colour for `hash`.
pub fn color_of_hash(hash: u64) -> (color: Hsv)
    ensures
        color == hsv_of_hash(hash),
        color.hue < 360,
        50 <= color.saturation <= 99,
        40 <= color.value <= 99,
{
    let hue = (hash % 360) as u16;
    let saturation = (50 + (hash >> 8) % 50) as u8;
    let value = (40 + (hash >> 16) % 60) as u8;
    Hsv { hue, saturation, value }
}

/// The fill colour of the block of `path` at `depth`.
pub fn color_for_path(path: &String, depth: usize) -> (color: Hsv)
    ensures
        color == hsv_of_hash(path_depth_hash(path@, depth)),
        color.hue < 360,
        50 <= color.saturation <= 99,
        40 <= color.value <= 99,
{
    let mut hasher = DefaultHasher::new();
    hasher.write(path.as_str().as_bytes());
    let depth_bytes = u64_to_le_bytes(depth as u64);
    hasher.write(depth_bytes.as_slice());
    let hash = hasher.finish();
    proof {
        assert(hasher@ =~= seq![
            vstd::utf8::encode_utf8(path@),
            spec_u64_to_le_bytes(depth as u64),
        ]);
    }
    color_of_hash(hash)
}

} // verus!

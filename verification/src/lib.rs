//! A lossless text compressor built on canonical prefix codes.
//!
//! A text is turned into a frequency table, the table into a prefix tree,
//! the tree into code lengths, and the lengths into canonical codes. The
//! codes and the encoded text are laid out in a self-describing container,
//! which the decoder parses back into the text.
//!
//! [`compress`] and [`decompress`] run the whole way. The modules hold the
//! steps: [`encoder`] counts characters and writes containers, [`huffman`]
//! builds the prefix tree, [`canonical`] gives out the canonical codes, and
//! [`decoder`] reads containers. [`codec`] states what the steps achieve
//! together.

pub mod bits;
pub mod canonical;
pub mod codec;
pub mod container;
pub mod decoder;
pub mod encoder;
pub mod error;
pub mod frequency;
pub mod huffman;
pub mod kraft;
pub mod lookup;
pub mod std_specs;
pub mod symbol_map;
pub mod tree_shape;
pub mod utils;

pub use crate::codec::{compress, decompress};

use crate::canonical::{canonical_code_list, canonical_codes};
use crate::encoder::{codes_view, Code};
use crate::huffman::{tree_codes, HuffNode};
use vstd::prelude::*;

verus! {

/// Walks the tree below `node` and appends the code of each leaf to
/// `base_codes`, from left to right, where `code` leads to `node`: a step
/// to the left adds `'0'`, a step to the right `'1'`. The one leaf of a
/// tree without inner nodes gets the code `"0"`.
pub fn generate_base_codes(node: HuffNode, base_codes: &mut Vec<Code>, code: String)
    ensures
        codes_view(final(base_codes)@) == codes_view(old(base_codes)@) + tree_codes(node, code@),
    decreases node,
{
    let ghost prefix = code@;
    match node {
        HuffNode::Leaf { character, .. } => {
            let mut code = code;
            if code.as_str().is_empty() {
                code.push('0');
            }
            assert(code@ =~= tree_codes(node, prefix)[0].1);
            base_codes.push(Code::new(code, character));
            assert(codes_view(base_codes@) =~= codes_view(old(base_codes)@) + tree_codes(
                node,
                prefix,
            ));
        },
        HuffNode::Internal { left, right, .. } => {
            let mut left_code = code.clone();
            left_code.push('0');
            let mut right_code = code;
            right_code.push('1');
            generate_base_codes(*left, base_codes, left_code);
            generate_base_codes(*right, base_codes, right_code);
            assert(codes_view(base_codes@) =~= codes_view(old(base_codes)@) + tree_codes(
                node,
                prefix,
            ));
        },
    }
}

/// The canonical codes for `base_codes`, in canonical order: codes are
/// given out by rising length and, within one length, by rising code
/// point. Of the base codes only the lengths count.
pub fn generate_canonical_codes(base_codes: Vec<Code>) -> (codes: Vec<Code>)
    ensures
        codes_view(codes@) == canonical_codes(codes_view(base_codes@)),
{
    canonical_code_list(&base_codes)
}

} // verus!

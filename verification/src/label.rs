//! A short name for the digest that a node holds, for those who draw the
//! tree.

use crate::node::Node;
use vstd::prelude::*;

verus! {

/// The sixteen digits, by their value.
pub open spec fn hex_digits() -> Seq<char> {
    seq!['0', '1', '2', '3', '4', '5', '6', '7', '8', '9', 'a', 'b', 'c', 'd', 'e', 'f']
}

/// The bytes written in base sixteen, two lower-case digits for each byte,
/// the high one first.
pub open spec fn hex_of(bytes: Seq<u8>) -> Seq<char> {
    Seq::new(
        2 * bytes.len(),
        |i: int|
            if i % 2 == 0 {
                hex_digits()[(bytes[i / 2] / 16) as int]
            } else {
                hex_digits()[(bytes[i / 2] % 16) as int]
            },
    )
}

/// Calls `hex::encode`, which writes each byte as two lower-case digits of
/// base sixteen, the high one first.
#[verifier::external_body]
pub(crate) fn hex_encode(bytes: &[u8]) -> (out: String)
    ensures
        out@ == hex_of(bytes@),
{
    hex::encode(bytes)
}

impl<K, V> Node<K, V> {
    /// How many bytes of its digest name a node: four for an inner node,
    /// three for a leaf.
    pub open spec fn label_len(self) -> int {
        match self {
            Node::Inner { .. } => 4,
            Node::Leaf { .. } => 3,
        }
    }

    /// The first bytes of the digest that the node holds, in base sixteen;
    /// nothing while the node holds no digest.
    pub fn hash_label(&self) -> (label: Option<String>)
        ensures
            self.cached_hash() is None ==> label is None,
            self.cached_hash() matches Some(h) ==> label matches Some(text) && text@ == hex_of(
                h@.subrange(0, self.label_len()),
            ),
    {
        let (held, len) = match self {
            Node::Inner { hash, .. } => (hash, 4usize),
            Node::Leaf { hash, .. } => (hash, 3usize),
        };
        match held {
            None => None,
            Some(h) => {
                let mut first: Vec<u8> = Vec::new();
                let mut i: usize = 0;
                while i < len
                    invariant
                        i <= len <= 4,
                        first@ == h@.subrange(0, i as int),
                    decreases len - i,
                {
                    first.push(h[i]);
                    i = i + 1;
                    assert(first@ =~= h@.subrange(0, i as int));
                }
                Some(hex_encode(first.as_slice()))
            },
        }
    }
}

} // verus!

//! Hash codes of the values that may serve as map keys.

use vstd::prelude::*;
use vstd::string::*;
use crate::equality::tree_eq;
use crate::object::StackObject;
use crate::store::{content, holds, Heap, Tree};

verus! {

/// The hash code of the empty text.
pub const TEXT_SEED: u64 = 7;

/// One step of the text hash: 31 times the code so far plus the character,
/// in 64 bits.
pub open spec fn mix(code: u64, c: char) -> u64 {
    ((code as int * 31 + c as u32 as int) % 0x1_0000_0000_0000_0000) as u64
}

/// The hash code of a text, taken over its characters from the first on.
pub open spec fn text_hash(s: Seq<char>) -> u64
    decreases s.len(),
{
    if s.len() == 0 {
        TEXT_SEED
    } else {
        mix(text_hash(s.drop_last()), s.last())
    }
}

/// Whether a content is one of those that have a hash code.
pub open spec fn tree_hashable(t: Tree) -> bool {
    t is Integer || t is Boolean || t is Text
}

/// The hash code of a content: an integer moved up by 2^63, 0 and 1 for the
/// booleans, the text hash for a text.
pub open spec fn tree_hash(t: Tree) -> u64 {
    match t {
        Tree::Integer(x) => (x as int + 0x8000_0000_0000_0000) as u64,
        Tree::Boolean(b) => if b {
            1
        } else {
            0
        },
        Tree::Text(s) => text_hash(s),
        _ => 0,
    }
}

/// Equal contents that have a hash code have the same one.
pub proof fn lemma_equal_contents_hash_alike(a: Tree, b: Tree)
    requires
        tree_eq(a, b),
        tree_hashable(a),
    ensures
        tree_hashable(b),
        tree_hash(a) == tree_hash(b),
{
}

fn mix_step(code: u64, c: char) -> (r: u64)
    ensures
        r == mix(code, c),
{
    let wide: u128 = (code as u128) * 31 + (c as u32 as u128);
    (wide % 0x1_0000_0000_0000_0000u128) as u64
}

impl StackObject {
    /// The hash code of an integer, a boolean or a text. A list or a map has
    /// none.
    pub fn hash(&self, heap: &Heap) -> (r: u64)
        requires
            heap.wf(),
            holds(heap@, *self),
            self.hashable(),
        ensures
            r == tree_hash(content(heap@, *self)),
    {
        match self {
            StackObject::Integer(x) => ((*x as i128) + 0x8000_0000_0000_0000i128) as u64,
            StackObject::Boolean(b) => if *b {
                1
            } else {
                0
            },
            StackObject::String(h) => {
                let s = heap.text(*h).as_str();
                let n = s.unicode_len();
                let mut code: u64 = TEXT_SEED;
                let mut i: usize = 0;
                while i < n
                    invariant
                        n == s@.len(),
                        i <= n,
                        code == text_hash(s@.subrange(0, i as int)),
                    decreases n - i,
                {
                    let c = s.get_char(i);
                    assert(s@.subrange(0, i + 1).drop_last() =~= s@.subrange(0, i as int));
                    code = mix_step(code, c);
                    i = i + 1;
                }
                assert(s@.subrange(0, n as int) =~= s@);
                code
            },
            _ => 0,
        }
    }
}

} // verus!

use vstd::prelude::*;
use crate::tree::Node;
use crate::wire::{extends, lemma_ptr_stable, lemma_str_stable, lemma_word_stable, ptr_ok, str_at, str_ok, target, word};

verus! {

/// Position of the slot of node `j` in the block at `o`: a block is a count
/// word followed by one 16-byte slot per node.
pub open spec fn slot(o: int, j: int) -> int {
    o + 4 + 16 * j
}

/// Slot layout: label pointer, payload tag, payload pointer (zero when the tag
/// is zero), children pointer. The children pointer leads to a block placed
/// before the block `o` that holds the slot.
pub open spec fn slot_holds(b: Seq<u8>, s: int, o: int, n: Node) -> bool {
    &&& ptr_ok(b, s)
    &&& str_ok(b, target(b, s))
    &&& str_at(b, target(b, s)) == n.label@
    &&& match n.payload {
        None => word(b, s + 4) == 0 && word(b, s + 8) == 0,
        Some(p) => {
            &&& word(b, s + 4) == 1
            &&& ptr_ok(b, s + 8)
            &&& str_ok(b, target(b, s + 8))
            &&& str_at(b, target(b, s + 8)) == p@
        },
    }
    &&& ptr_ok(b, s + 12)
    &&& target(b, s + 12) < o
}

/// Position of the list that node `j` of the block at `o` points to.
pub open spec fn child_at(b: Seq<u8>, o: int, j: int) -> int {
    target(b, slot(o, j) + 12)
}

/// The block at `o` holds `nodes`, with labels and payloads, leaving aside
/// which lists their handles name.
pub open spec fn block_shape(b: Seq<u8>, o: int, nodes: Seq<Node>) -> bool {
    &&& 0 <= o
    &&& o % 4 == 0
    &&& o + 4 + 16 * nodes.len() <= b.len()
    &&& word(b, o) == nodes.len()
    &&& forall|j: int| 0 <= j < nodes.len() ==> #[trigger] slot_holds(b, slot(o, j), o, nodes[j])
}

/// The block at `o` holds list `h` of `lists`, and the block that each of its
/// children pointers leads to holds that node's children list, all the way
/// down.
pub open spec fn holds_tree(b: Seq<u8>, o: int, lists: Seq<Vec<Node>>, h: int) -> bool
    decreases h,
{
    &&& 0 <= h < lists.len()
    &&& block_shape(b, o, lists[h]@)
    &&& forall|j: int|
        0 <= j < lists[h]@.len() ==> {
            &&& 0 <= (#[trigger] lists[h]@[j]).children < h
            &&& holds_tree(b, child_at(b, o, j), lists, lists[h]@[j].children as int)
        }
}

pub proof fn lemma_slot_stable(b1: Seq<u8>, b2: Seq<u8>, s: int, o: int, n: Node)
    requires
        extends(b1, b2),
        slot_holds(b1, s, o, n),
        s + 16 <= b1.len(),
    ensures
        slot_holds(b2, s, o, n),
        target(b2, s + 12) == target(b1, s + 12),
{
    lemma_ptr_stable(b1, b2, s);
    lemma_str_stable(b1, b2, target(b1, s));
    lemma_word_stable(b1, b2, s + 4);
    lemma_word_stable(b1, b2, s + 8);
    match n.payload {
        None => {},
        Some(p) => {
            lemma_ptr_stable(b1, b2, s + 8);
            lemma_str_stable(b1, b2, target(b1, s + 8));
        },
    }
    lemma_ptr_stable(b1, b2, s + 12);
}

/// A block read in a prefix reads the same in any extension of it.
pub proof fn lemma_block_stable(b1: Seq<u8>, b2: Seq<u8>, o: int, nodes: Seq<Node>)
    requires
        extends(b1, b2),
        block_shape(b1, o, nodes),
    ensures
        block_shape(b2, o, nodes),
        forall|j: int| 0 <= j < nodes.len() ==> #[trigger] child_at(b2, o, j) == child_at(b1, o, j),
{
    lemma_word_stable(b1, b2, o);
    assert forall|j: int| 0 <= j < nodes.len() implies #[trigger] slot_holds(b2, slot(o, j), o, nodes[j])
        && child_at(b2, o, j) == child_at(b1, o, j) by {
        assert(slot_holds(b1, slot(o, j), o, nodes[j]));
        assert(slot(o, j) + 16 <= b1.len()) by (nonlinear_arith)
            requires
                0 <= j < nodes.len(),
                o + 4 + 16 * nodes.len() <= b1.len(),
        ;
        lemma_slot_stable(b1, b2, slot(o, j), o, nodes[j]);
    }
}

} // verus!

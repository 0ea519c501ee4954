use vstd::prelude::*;
use crate::layout::{block_shape, child_at, holds_tree, lemma_block_stable, slot, slot_holds};
use crate::reader::{dec_entry, Deserializer};
use crate::tree::{Node, Pool};
use crate::wire::{extends, target};
use crate::writer::{enc_entry, Serializer};

verus! {

/// Two payloads hold the same bytes, or are both absent.
pub open spec fn same_payload(a: Option<Vec<u8>>, b: Option<Vec<u8>>) -> bool {
    match (a, b) {
        (None, None) => true,
        (Some(x), Some(y)) => x@ == y@,
        _ => false,
    }
}

/// List `h1` of `l1` and list `h2` of `l2` unfold into equal trees: as many
/// nodes, equal labels and payloads, and children lists that unfold into equal
/// trees in turn. Which lists the handles name, and so which ones are shared,
/// plays no part.
pub open spec fn same_tree(l1: Seq<Vec<Node>>, h1: int, l2: Seq<Vec<Node>>, h2: int) -> bool
    decreases h1,
{
    &&& 0 <= h1 < l1.len()
    &&& 0 <= h2 < l2.len()
    &&& l1[h1]@.len() == l2[h2]@.len()
    &&& forall|j: int|
        0 <= j < l1[h1]@.len() ==> {
            &&& (#[trigger] l1[h1]@[j]).label@ == l2[h2]@[j].label@
            &&& same_payload(l1[h1]@[j].payload, l2[h2]@[j].payload)
            &&& 0 <= l1[h1]@[j].children < h1
            &&& same_tree(l1, l1[h1]@[j].children as int, l2, l2[h2]@[j].children as int)
        }
}

/// The list that the reader rebuilt from the block where the writer archived
/// handle `h`.
pub open spec fn image(ser: &Serializer, de: &Deserializer, h: usize) -> usize {
    de.registry@[ser.registry@[h]]
}

/// Round trip: a list that was archived and then read back, from the whole
/// buffer or from any prefix of it that the reader accepted, has as many nodes
/// as the original, with equal labels and payloads, and each node's children
/// list was read back too, as the image of the original children list. The
/// handles that were archived and read back thus map onto the rebuilt lists
/// with labels, payloads and child links kept.
pub proof fn lemma_round_trip(pool: &Pool, ser: &Serializer, bytes: Seq<u8>, de: &Deserializer, h: usize)
    requires
        ser.inv(pool),
        de.inv(bytes),
        extends(bytes, ser.buf@),
        ser.registry@.contains_key(h),
        de.registry@.contains_key(ser.registry@[h]),
    ensures
        image(ser, de, h) < de.pool.lists@.len(),
        de.pool.lists@[image(ser, de, h) as int]@.len() == pool.lists@[h as int]@.len(),
        forall|j: int|
            0 <= j < pool.lists@[h as int]@.len() ==> {
                let n1 = #[trigger] pool.lists@[h as int]@[j];
                let n2 = de.pool.lists@[image(ser, de, h) as int]@[j];
                &&& n2.label@ == n1.label@
                &&& same_payload(n1.payload, n2.payload)
                &&& ser.registry@.contains_key(n1.children)
                &&& de.registry@.contains_key(ser.registry@[n1.children])
                &&& n2.children == image(ser, de, n1.children)
            },
{
    let b = ser.buf@;
    let o = ser.registry@[h];
    let l1 = pool.lists@[h as int]@;
    let h2 = image(ser, de, h);
    let l2 = de.pool.lists@[h2 as int]@;
    assert(enc_entry(b, ser.registry@, o as int, l1));
    assert(dec_entry(bytes, de.registry@, o as int, l2));
    lemma_block_stable(bytes, b, o as int, l2);
    assert forall|j: int| 0 <= j < l1.len() implies {
        let n1 = #[trigger] pool.lists@[h as int]@[j];
        let n2 = de.pool.lists@[h2 as int]@[j];
        &&& n2.label@ == n1.label@
        &&& same_payload(n1.payload, n2.payload)
        &&& ser.registry@.contains_key(n1.children)
        &&& de.registry@.contains_key(ser.registry@[n1.children])
        &&& n2.children == image(ser, de, n1.children)
    } by {
        let s = slot(o as int, j);
        assert(slot_holds(b, s, o as int, l1[j]));
        assert(slot_holds(b, s, o as int, l2[j]));
        assert(ser.registry@.contains_key(l1[j].children));
        assert(de.registry@.contains_key(child_at(bytes, o as int, j) as usize));
        assert(child_at(b, o as int, j) == child_at(bytes, o as int, j));
    }
}

/// Round trip, as trees: a list that was archived and read back unfolds into
/// the same tree as the original.
pub proof fn lemma_round_trip_tree(pool: &Pool, ser: &Serializer, bytes: Seq<u8>, de: &Deserializer, h: usize)
    requires
        ser.inv(pool),
        de.inv(bytes),
        extends(bytes, ser.buf@),
        ser.registry@.contains_key(h),
        de.registry@.contains_key(ser.registry@[h]),
    ensures
        same_tree(pool.lists@, h as int, de.pool.lists@, image(ser, de, h) as int),
    decreases h,
{
    lemma_round_trip(pool, ser, bytes, de, h);
    let l1 = pool.lists@;
    let l2 = de.pool.lists@;
    let h2 = image(ser, de, h) as int;
    assert forall|j: int| 0 <= j < l1[h as int]@.len() implies {
        &&& (#[trigger] l1[h as int]@[j]).label@ == l2[h2]@[j].label@
        &&& same_payload(l1[h as int]@[j].payload, l2[h2]@[j].payload)
        &&& 0 <= l1[h as int]@[j].children < h
        &&& same_tree(l1, l1[h as int]@[j].children as int, l2, l2[h2]@[j].children as int)
    } by {
        let c = l1[h as int]@[j].children;
        assert(pool.lists@[h as int]@[j] == l1[h as int]@[j]);
        assert(c < h);
        lemma_round_trip_tree(pool, ser, bytes, de, c);
    }
}

/// Two trees held by one block are equal: so what `deserialize` rebuilds
/// from the bytes that `archive` wrote is the tree that was archived.
pub proof fn lemma_archive_round_trip(b: Seq<u8>, l1: Seq<Vec<Node>>, h1: int, l2: Seq<Vec<Node>>, h2: int)
    requires
        b.len() >= 4,
        holds_tree(b, target(b, b.len() - 4), l1, h1),
        holds_tree(b, target(b, b.len() - 4), l2, h2),
    ensures
        same_tree(l1, h1, l2, h2),
{
    lemma_same_block_same_tree(b, target(b, b.len() - 4), l1, h1, l2, h2);
}

proof fn lemma_same_block_same_tree(b: Seq<u8>, o: int, l1: Seq<Vec<Node>>, h1: int, l2: Seq<Vec<Node>>, h2: int)
    requires
        holds_tree(b, o, l1, h1),
        holds_tree(b, o, l2, h2),
    ensures
        same_tree(l1, h1, l2, h2),
    decreases h1,
{
    let n1 = l1[h1]@;
    let n2 = l2[h2]@;
    assert(block_shape(b, o, n1));
    assert(block_shape(b, o, n2));
    assert forall|j: int| 0 <= j < n1.len() implies {
        &&& (#[trigger] l1[h1]@[j]).label@ == l2[h2]@[j].label@
        &&& same_payload(l1[h1]@[j].payload, l2[h2]@[j].payload)
        &&& 0 <= l1[h1]@[j].children < h1
        &&& same_tree(l1, l1[h1]@[j].children as int, l2, l2[h2]@[j].children as int)
    } by {
        assert(slot_holds(b, slot(o, j), o, n1[j]));
        assert(slot_holds(b, slot(o, j), o, n2[j]));
        assert(l2[h2]@[j] == n2[j]);
        assert(0 <= l2[h2]@[j].children < h2);
        lemma_same_block_same_tree(b, child_at(b, o, j), l1, n1[j].children as int, l2, n2[j].children as int);
    }
}

/// Sharing is kept: two archived nodes that hold one children list are read
/// back as two nodes that hold one children list.
pub proof fn lemma_sharing_preserved(
    pool: &Pool,
    ser: &Serializer,
    bytes: Seq<u8>,
    de: &Deserializer,
    h1: usize,
    j1: int,
    h2: usize,
    j2: int,
)
    requires
        ser.inv(pool),
        de.inv(bytes),
        extends(bytes, ser.buf@),
        ser.registry@.contains_key(h1),
        de.registry@.contains_key(ser.registry@[h1]),
        ser.registry@.contains_key(h2),
        de.registry@.contains_key(ser.registry@[h2]),
        0 <= j1 < pool.lists@[h1 as int]@.len(),
        0 <= j2 < pool.lists@[h2 as int]@.len(),
        pool.lists@[h1 as int]@[j1].children == pool.lists@[h2 as int]@[j2].children,
    ensures
        de.pool.lists@[image(ser, de, h1) as int]@[j1].children
            == de.pool.lists@[image(ser, de, h2) as int]@[j2].children,
{
    lemma_round_trip(pool, ser, bytes, de, h1);
    lemma_round_trip(pool, ser, bytes, de, h2);
    assert(pool.lists@[h1 as int]@[j1] == pool.lists@[h1 as int]@[j1]);
    assert(pool.lists@[h2 as int]@[j2] == pool.lists@[h2 as int]@[j2]);
}

/// Distinct lists stay distinct: two lists that were archived and read back
/// are rebuilt as two lists, even where their contents are equal. Only true
/// sharing is kept as sharing.
pub proof fn lemma_distinct_lists_stay_distinct(
    pool: &Pool,
    ser: &Serializer,
    bytes: Seq<u8>,
    de: &Deserializer,
    h1: usize,
    h2: usize,
)
    requires
        ser.inv(pool),
        de.inv(bytes),
        ser.registry@.contains_key(h1),
        de.registry@.contains_key(ser.registry@[h1]),
        ser.registry@.contains_key(h2),
        de.registry@.contains_key(ser.registry@[h2]),
        h1 != h2,
    ensures
        image(ser, de, h1) != image(ser, de, h2),
{
    assert(ser.registry@[h1] != ser.registry@[h2]);
}

} // verus!

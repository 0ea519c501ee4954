use shared_archive::offset_from;
use shared_archive::reader::{deserialize, Deserializer};
use shared_archive::tree::{Node, Pool};
use shared_archive::wire::ArchiveError;
use shared_archive::writer::{archive, Serializer};

fn node(label: &str, payload: Option<&str>, children: usize) -> Node {
    Node {
        label: label.as_bytes().to_vec(),
        payload: payload.map(|p| p.as_bytes().to_vec()),
        children,
    }
}

fn count(hay: &[u8], needle: &[u8]) -> usize {
    hay.windows(needle.len()).filter(|w| *w == needle).count()
}

/// A pool with one list holding a node "foo", and a root list of `k` nodes
/// that all share it. Returns the pool, the shared list and the root list.
fn shared_foo(k: usize) -> (Pool, usize, usize) {
    let mut pool = Pool::new();
    let empty = pool.add_list(vec![]);
    let foo = pool.add_list(vec![node("foo", None, empty)]);
    let items: Vec<Node> = (0..k).map(|i| node(&format!("h{}", i), None, foo)).collect();
    let root = pool.add_list(items);
    (pool, foo, root)
}

fn set_word(buf: &mut [u8], p: usize, w: u32) {
    buf[p..p + 4].copy_from_slice(&w.to_le_bytes());
}

fn word_at(buf: &[u8], p: usize) -> u32 {
    u32::from_le_bytes([buf[p], buf[p + 1], buf[p + 2], buf[p + 3]])
}

fn root_block(buf: &[u8]) -> usize {
    let p = buf.len() - 4;
    p - (4294967296u64 - word_at(buf, p) as u64) as usize
}

#[test]
fn offset_from_counts_forward() {
    assert_eq!(offset_from(8, 20), 12);
    assert_eq!(offset_from(5, 5), 0);
}

#[test]
fn ten_handles_share_one_string() {
    let (pool, _foo, root) = shared_foo(10);
    let bytes = archive(&pool, root).unwrap();
    assert_eq!(count(&bytes, b"foo"), 1);
    let (back, r) = deserialize(&bytes).unwrap();
    let items = &back.lists[r];
    assert_eq!(items.len(), 10);
    let shared = items[0].children;
    for (i, it) in items.iter().enumerate() {
        assert_eq!(it.label, format!("h{}", i).into_bytes());
        assert_eq!(it.children, shared);
    }
    assert_eq!(back.lists[shared].len(), 1);
    assert_eq!(back.lists[shared][0].label, b"foo".to_vec());
    assert_eq!(back.lists[shared][0].payload, None);
}

#[test]
fn shared_grandchild_round_trip() {
    let mut pool = Pool::new();
    let empty = pool.add_list(vec![]);
    let grand = pool.add_list(vec![node("", None, empty)]);
    let bc = pool.add_list(vec![node("b", None, grand), node("c", None, grand)]);
    let root = pool.add_list(vec![node("a", None, bc)]);
    let bytes = archive(&pool, root).unwrap();
    let (back, r) = deserialize(&bytes).unwrap();
    assert_eq!(back.lists[r].len(), 1);
    let a = &back.lists[r][0];
    assert_eq!(a.label, b"a".to_vec());
    let kids = &back.lists[a.children];
    assert_eq!(kids.len(), 2);
    assert_eq!(kids[0].label, b"b".to_vec());
    assert_eq!(kids[1].label, b"c".to_vec());
    assert_ne!(a.children, r);
    assert_eq!(kids[0].children, kids[1].children);
    let g = &back.lists[kids[0].children];
    assert_eq!(g.len(), 1);
    assert_eq!(g[0].label, Vec::<u8>::new());
    assert_eq!(g[0].payload, None);
    assert!(back.lists[g[0].children].is_empty());
    // four lists were archived, four are rebuilt
    assert_eq!(back.len(), 4);
}

#[test]
fn payloads_round_trip() {
    let mut pool = Pool::new();
    let empty = pool.add_list(vec![]);
    let root = pool.add_list(vec![node("k", Some("value"), empty), node("m", None, empty), node("n", Some(""), empty)]);
    let bytes = archive(&pool, root).unwrap();
    let (back, r) = deserialize(&bytes).unwrap();
    let l = &back.lists[r];
    assert_eq!(l[0].payload, Some(b"value".to_vec()));
    assert_eq!(l[1].payload, None);
    assert_eq!(l[2].payload, Some(Vec::new()));
    assert_eq!(l[2].label, b"n".to_vec());
}

#[test]
fn distinct_lists_with_equal_contents_stay_distinct() {
    let mut pool = Pool::new();
    let empty = pool.add_list(vec![]);
    let x = pool.add_list(vec![node("same", None, empty)]);
    let y = pool.add_list(vec![node("same", None, empty)]);
    let root = pool.add_list(vec![node("p", None, x), node("q", None, y)]);
    let bytes = archive(&pool, root).unwrap();
    assert_eq!(count(&bytes, b"same"), 2);
    let (back, r) = deserialize(&bytes).unwrap();
    assert_ne!(back.lists[r][0].children, back.lists[r][1].children);
}

#[test]
fn layout_of_a_single_node() {
    let mut pool = Pool::new();
    let empty = pool.add_list(vec![]);
    let root = pool.add_list(vec![node("ab", None, empty)]);
    let bytes = archive(&pool, root).unwrap();
    // label "ab" (4 + 2 + 2 padding), empty block (4), block (4 + 16), root pointer (4)
    assert_eq!(bytes.len(), 36);
    assert_eq!(word_at(&bytes, 0), 2);
    assert_eq!(&bytes[4..6], b"ab");
    assert_eq!(word_at(&bytes, 8), 0);
    assert_eq!(word_at(&bytes, 12), 1);
    // label pointer at 16 leads back 16 bytes, to 0
    assert_eq!(word_at(&bytes, 16), (-16i32) as u32);
    assert_eq!(word_at(&bytes, 20), 0);
    assert_eq!(word_at(&bytes, 24), 0);
    // children pointer at 28 leads back to 8
    assert_eq!(word_at(&bytes, 28), (-20i32) as u32);
    // root pointer at 32 leads back to 12
    assert_eq!(word_at(&bytes, 32), (-20i32) as u32);
}

#[test]
fn second_pass_appends_and_reuses_shared_list() {
    let (mut pool, foo, root1) = shared_foo(10);
    let mut ser = Serializer::new();
    ser.serialize_root(&pool, root1).unwrap();
    let (bytes1, registry) = ser.into_parts();
    let items: Vec<Node> = (0..10).map(|i| node(&format!("g{}", i), None, foo)).collect();
    let root2 = pool.add_list(items);
    let mut ser = Serializer::resume(bytes1.clone(), registry);
    ser.serialize_root(&pool, root2).unwrap();
    let (bytes2, _) = ser.into_parts();
    assert!(bytes2.len() > bytes1.len());
    assert_eq!(&bytes2[..bytes1.len()], &bytes1[..]);
    assert_eq!(count(&bytes2, b"foo"), 1);

    let (back1, r1) = deserialize(&bytes2[..bytes1.len()].to_vec()).unwrap();
    assert_eq!(back1.lists[r1].len(), 10);
    assert_eq!(back1.lists[r1][3].label, b"h3".to_vec());
    let (back2, r2) = deserialize(&bytes2).unwrap();
    assert_eq!(back2.lists[r2].len(), 10);
    assert_eq!(back2.lists[r2][3].label, b"g3".to_vec());
    let shared = back2.lists[r2][0].children;
    assert!(back2.lists[r2].iter().all(|n| n.children == shared));
    assert_eq!(back2.lists[shared][0].label, b"foo".to_vec());
}

#[test]
fn archiving_a_list_twice_writes_it_once() {
    let (pool, foo, _root) = shared_foo(3);
    let mut ser = Serializer::new();
    let o1 = ser.serialize_list(&pool, foo).unwrap();
    let len = ser.buf.len();
    let o2 = ser.serialize_list(&pool, foo).unwrap();
    assert_eq!(o1, o2);
    assert_eq!(ser.buf.len(), len);
}

#[test]
fn rejects_empty_buffer() {
    assert_eq!(deserialize(&vec![]).err(), Some(ArchiveError::OutOfBounds));
    assert_eq!(deserialize(&vec![1, 2, 3]).err(), Some(ArchiveError::OutOfBounds));
}

#[test]
fn rejects_root_pointer_out_of_bounds() {
    let (pool, _foo, root) = shared_foo(2);
    let mut bytes = archive(&pool, root).unwrap();
    let p = bytes.len() - 4;
    set_word(&mut bytes, p, 16);
    assert_eq!(deserialize(&bytes).err(), Some(ArchiveError::OutOfBounds));
    set_word(&mut bytes, p, 0x8000_0000);
    assert_eq!(deserialize(&bytes).err(), Some(ArchiveError::OutOfBounds));
}

#[test]
fn rejects_root_pointer_misaligned() {
    let (pool, _foo, root) = shared_foo(2);
    let mut bytes = archive(&pool, root).unwrap();
    let p = bytes.len() - 4;
    let w = word_at(&bytes, p);
    set_word(&mut bytes, p, w + 1);
    assert_eq!(deserialize(&bytes).err(), Some(ArchiveError::Misaligned));
}

#[test]
fn rejects_corrupt_slot_pointers() {
    let (pool, _foo, root) = shared_foo(2);
    let good = archive(&pool, root).unwrap();
    let slot = root_block(&good) + 4;

    let mut bytes = good.clone();
    bytes[slot] ^= 0x01;
    assert_eq!(deserialize(&bytes).err(), Some(ArchiveError::Misaligned));

    let mut bytes = good.clone();
    bytes[slot + 3] ^= 0x80;
    assert_eq!(deserialize(&bytes).err(), Some(ArchiveError::OutOfBounds));

    let mut bytes = good.clone();
    bytes[slot + 12] ^= 0x02;
    assert_eq!(deserialize(&bytes).err(), Some(ArchiveError::Misaligned));

    let mut bytes = good.clone();
    set_word(&mut bytes, slot + 12, 0xffff_fffc);
    assert_eq!(deserialize(&bytes).err(), Some(ArchiveError::OutOfBounds));
}

#[test]
fn rejects_bad_tag_and_lengths() {
    let (pool, _foo, root) = shared_foo(1);
    let good = archive(&pool, root).unwrap();
    let block = root_block(&good);

    let mut bytes = good.clone();
    set_word(&mut bytes, block + 8, 7);
    assert_eq!(deserialize(&bytes).err(), Some(ArchiveError::BadTag));

    let mut bytes = good.clone();
    set_word(&mut bytes, block, 1000);
    assert_eq!(deserialize(&bytes).err(), Some(ArchiveError::OutOfBounds));
}

#[test]
fn reader_registry_reuses_lists() {
    let (pool, _foo, root) = shared_foo(4);
    let bytes = archive(&pool, root).unwrap();
    let mut de = Deserializer::new();
    let h1 = de.read_root(&bytes).unwrap();
    let n = de.pool.len();
    let h2 = de.read_root(&bytes).unwrap();
    assert_eq!(h1, h2);
    assert_eq!(de.pool.len(), n);
}

#[test]
fn shared_list_bytes_do_not_grow_with_handles() {
    let (pool1, _, root1) = shared_foo(1);
    let (pool50, _, root50) = shared_foo(50);
    let b1 = archive(&pool1, root1).unwrap();
    let b50 = archive(&pool50, root50).unwrap();
    assert_eq!(count(&b1, b"foo"), 1);
    assert_eq!(count(&b50, b"foo"), 1);
    // each extra handle costs its own slot and label ("hN", 8 bytes) only
    assert_eq!(b50.len() - b1.len(), 49 * (16 + 8));
}

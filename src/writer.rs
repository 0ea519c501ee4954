use vstd::prelude::*;
use vstd::hash_map::HashMapWithView;
use crate::offset_from;
use crate::layout::{block_shape, child_at, holds_tree, lemma_block_stable, slot, slot_holds};
use crate::tree::{Node, Pool};
use crate::wire::{
    extends, lemma_extends_trans, lemma_str_stable, lemma_word_stable, push_str, push_word, ptr_ok,
    str_at, str_ok, target, word, ArchiveError, LIMIT,
};

verus! {

broadcast use vstd::std_specs::hash::group_hash_axioms;

/// The block at `o` holds `nodes`, and each children pointer leads to the
/// block that the registry records for that node's handle.
pub open spec fn enc_entry(b: Seq<u8>, reg: Map<usize, usize>, o: int, nodes: Seq<Node>) -> bool {
    &&& block_shape(b, o, nodes)
    &&& forall|j: int|
        0 <= j < nodes.len() ==> reg.contains_key(#[trigger] nodes[j].children) && child_at(b, o, j)
            == reg[nodes[j].children] as int
}

/// Write-side registry invariant: each recorded handle names a list of `lists`
/// whose block sits at the recorded position.
pub open spec fn enc_inv(b: Seq<u8>, reg: Map<usize, usize>, lists: Seq<Vec<Node>>) -> bool {
    &&& b.len() % 4 == 0
    &&& b.len() <= LIMIT
    &&& forall|h: usize|
        #[trigger] reg.contains_key(h) ==> h < lists.len() && reg[h] < b.len() && enc_entry(
            b,
            reg,
            reg[h] as int,
            lists[h as int]@,
        )
    &&& forall|h1: usize, h2: usize|
        #[trigger] reg.contains_key(h1) && #[trigger] reg.contains_key(h2) && h1 != h2 ==> reg[h1] != reg[h2]
}

/// `r2` keeps every entry of `r1`.
pub open spec fn grows(r1: Map<usize, usize>, r2: Map<usize, usize>) -> bool {
    forall|k: usize| #[trigger] r1.contains_key(k) ==> r2.contains_key(k) && r2[k] == r1[k]
}

proof fn lemma_enc_extend(b1: Seq<u8>, b2: Seq<u8>, reg: Map<usize, usize>, lists: Seq<Vec<Node>>)
    requires
        enc_inv(b1, reg, lists),
        extends(b1, b2),
        b2.len() % 4 == 0,
        b2.len() <= LIMIT,
    ensures
        enc_inv(b2, reg, lists),
{
    assert forall|h: usize| #[trigger] reg.contains_key(h) implies h < lists.len() && reg[h] < b2.len()
        && enc_entry(b2, reg, reg[h] as int, lists[h as int]@) by {
        let nodes = lists[h as int]@;
        lemma_block_stable(b1, b2, reg[h] as int, nodes);
        assert forall|j: int| 0 <= j < nodes.len() implies reg.contains_key(#[trigger] nodes[j].children)
            && child_at(b2, reg[h] as int, j) == reg[nodes[j].children] as int by {
            assert(child_at(b2, reg[h] as int, j) == child_at(b1, reg[h] as int, j));
        }
    }
}

/// Every handle the registry records names a list whose whole tree is
/// archived at the recorded position.
pub proof fn lemma_enc_holds(b: Seq<u8>, reg: Map<usize, usize>, pool: &Pool, h: usize)
    requires
        pool.wf(),
        enc_inv(b, reg, pool.lists@),
        reg.contains_key(h),
    ensures
        holds_tree(b, reg[h] as int, pool.lists@, h as int),
    decreases h,
{
    let nodes = pool.lists@[h as int]@;
    assert(enc_entry(b, reg, reg[h] as int, nodes));
    assert forall|j: int| 0 <= j < nodes.len() implies {
        &&& 0 <= (#[trigger] pool.lists@[h as int]@[j]).children < h
        &&& holds_tree(b, child_at(b, reg[h] as int, j), pool.lists@, pool.lists@[h as int]@[j].children as int)
    } by {
        let c = nodes[j].children;
        assert(pool.lists@[h as int]@[j] == nodes[j]);
        assert(reg.contains_key(c));
        lemma_enc_holds(b, reg, pool, c);
    }
}

proof fn lemma_enc_insert(b: Seq<u8>, reg: Map<usize, usize>, lists: Seq<Vec<Node>>, h: usize, o: usize)
    requires
        enc_inv(b, reg, lists),
        !reg.contains_key(h),
        h < lists.len(),
        o < b.len(),
        enc_entry(b, reg, o as int, lists[h as int]@),
        forall|k: usize| #[trigger] reg.contains_key(k) ==> reg[k] < o,
    ensures
        enc_inv(b, reg.insert(h, o), lists),
{
    let reg2 = reg.insert(h, o);
    assert forall|k: usize| #[trigger] reg2.contains_key(k) implies k < lists.len() && reg2[k] < b.len()
        && enc_entry(b, reg2, reg2[k] as int, lists[k as int]@) by {
        let nodes = lists[k as int]@;
        assert(enc_entry(b, reg, reg2[k] as int, nodes));
        assert forall|j: int| 0 <= j < nodes.len() implies reg2.contains_key(#[trigger] nodes[j].children)
            && child_at(b, reg2[k] as int, j) == reg2[nodes[j].children] as int by {
            assert(reg.contains_key(nodes[j].children));
        }
    }
}

/// What the writer keeps of node `n` until its slot is written: where its
/// label, its payload (zero if none) and its children list were archived.
pub open spec fn res_ok(b: Seq<u8>, reg: Map<usize, usize>, r: (usize, usize, usize), n: Node) -> bool {
    &&& r.0 % 4 == 0
    &&& r.0 < b.len()
    &&& str_ok(b, r.0 as int)
    &&& str_at(b, r.0 as int) == n.label@
    &&& match n.payload {
        None => r.1 == 0,
        Some(p) => r.1 % 4 == 0 && r.1 < b.len() && str_ok(b, r.1 as int) && str_at(b, r.1 as int) == p@,
    }
    &&& reg.contains_key(n.children)
    &&& r.2 == reg[n.children]
    &&& r.2 % 4 == 0
    &&& r.2 < b.len()
}

proof fn lemma_res_stable(
    b1: Seq<u8>,
    b2: Seq<u8>,
    reg1: Map<usize, usize>,
    reg2: Map<usize, usize>,
    r: (usize, usize, usize),
    n: Node,
)
    requires
        extends(b1, b2),
        grows(reg1, reg2),
        res_ok(b1, reg1, r, n),
    ensures
        res_ok(b2, reg2, r, n),
{
    lemma_str_stable(b1, b2, r.0 as int);
    match n.payload {
        None => {},
        Some(p) => {
            lemma_str_stable(b1, b2, r.1 as int);
        },
    }
    assert(reg1.contains_key(n.children));
}

/// Room that a byte string may take: length word, bytes, padding.
pub open spec fn str_cost(s: Seq<u8>) -> int {
    s.len() + 8int
}

pub open spec fn node_cost(n: Node) -> int {
    str_cost(n.label@) + match n.payload {
        None => 0,
        Some(p) => str_cost(p@),
    }
}

/// Room that the strings of `ns[j..]` may take.
pub open spec fn nodes_cost(ns: Seq<Node>, j: int) -> int
    decreases ns.len() - j,
{
    if j < 0 || j >= ns.len() {
        0
    } else {
        node_cost(ns[j]) + nodes_cost(ns, j + 1)
    }
}

/// Room that archiving one list may take, its children lists aside.
pub open spec fn list_cost(ns: Seq<Node>) -> int {
    nodes_cost(ns, 0) + 8 + 16 * ns.len()
}

/// Room that the lists with handles below `k` that the registry does not
/// record yet may take.
pub open spec fn pending(lists: Seq<Vec<Node>>, reg: Map<usize, usize>, k: nat) -> int
    decreases k,
{
    if k == 0 {
        0
    } else {
        pending(lists, reg, (k - 1) as nat) + if reg.contains_key((k - 1) as usize) {
            0
        } else {
            list_cost(lists[k - 1]@)
        }
    }
}

proof fn lemma_nodes_cost_nonneg(ns: Seq<Node>, j: int)
    ensures
        nodes_cost(ns, j) >= 0,
    decreases ns.len() - j,
{
    if 0 <= j < ns.len() {
        lemma_nodes_cost_nonneg(ns, j + 1);
    }
}

proof fn lemma_pending_mono(lists: Seq<Vec<Node>>, reg: Map<usize, usize>, k1: nat, k2: nat)
    requires
        k1 <= k2,
    ensures
        0 <= pending(lists, reg, k1) <= pending(lists, reg, k2),
    decreases k2,
{
    if k2 > 0 {
        lemma_nodes_cost_nonneg(lists[k2 - 1]@, 0);
        if k1 < k2 {
            lemma_pending_mono(lists, reg, k1, (k2 - 1) as nat);
        } else {
            lemma_pending_mono(lists, reg, (k1 - 1) as nat, (k2 - 1) as nat);
        }
    }
}

/// Entries outside `[k1, k2)` do not change the room pending inside it.
proof fn lemma_pending_frame(
    lists: Seq<Vec<Node>>,
    r1: Map<usize, usize>,
    r2: Map<usize, usize>,
    k1: nat,
    k2: nat,
)
    requires
        k1 <= k2,
        k2 <= usize::MAX + 1,
        forall|i: usize| k1 <= i < k2 ==> (#[trigger] r1.contains_key(i) <==> r2.contains_key(i)),
    ensures
        pending(lists, r2, k2) - pending(lists, r2, k1) == pending(lists, r1, k2) - pending(lists, r1, k1),
    decreases k2,
{
    if k1 < k2 {
        lemma_pending_frame(lists, r1, r2, k1, (k2 - 1) as nat);
        let i = (k2 - 1) as usize;
        assert(r1.contains_key(i) <==> r2.contains_key(i));
    }
}

/// The word that a pointer stored at `s` holds to reach `t`.
fn rel(t: usize, s: usize) -> (w: u32)
    requires
        t < s,
        s - t <= LIMIT,
    ensures
        w == 4294967296 - (s - t),
        w >= 2147483648,
{
    (4294967296u64 - (offset_from(t, s) as u64)) as u32
}

proof fn lemma_old_slot(b0: Seq<u8>, b4: Seq<u8>, pos: int, j: int, k: int, n: Node, c: int)
    requires
        extends(b0, b4),
        0 <= k < j,
        b0.len() == pos + 4 + 16 * j,
        slot_holds(b0, slot(pos, k), pos, n),
        child_at(b0, pos, k) == c,
    ensures
        slot_holds(b4, slot(pos, k), pos, n),
        child_at(b4, pos, k) == c,
{
    assert(slot(pos, k) + 16 <= b0.len()) by (nonlinear_arith)
        requires
            0 <= k < j,
            b0.len() == pos + 4 + 16 * j,
    ;
    crate::layout::lemma_slot_stable(b0, b4, slot(pos, k), pos, n);
}

/// Writer of archives: the bytes written so far, and the shared-list registry
/// that maps a list's handle to the position of its block.
pub struct Serializer {
    pub buf: Vec<u8>,
    pub registry: HashMapWithView<usize, usize>,
}

impl Serializer {
    /// The pool is acyclic and every registry entry names a list of it that is
    /// archived, with its whole tree, at the recorded position.
    pub open spec fn inv(&self, pool: &Pool) -> bool {
        &&& pool.wf()
        &&& enc_inv(self.buf@, self.registry@, pool.lists@)
    }

    /// An empty archive with an empty registry.
    pub fn new() -> (r: Serializer)
        ensures
            r.buf@.len() == 0,
            r.registry@ == Map::<usize, usize>::empty(),
    {
        Serializer { buf: Vec::new(), registry: HashMapWithView::new() }
    }

    /// Starts a new pass that appends to the bytes and registry of earlier
    /// passes.
    pub fn resume(bytes: Vec<u8>, registry: HashMapWithView<usize, usize>) -> (r: Serializer)
        ensures
            r.buf@ == bytes@,
            r.registry@ == registry@,
    {
        Serializer { buf: bytes, registry }
    }

    /// Archives list `h` of `pool` unless the registry already records it:
    /// first the labels, payloads and children lists of its nodes, in order,
    /// then its block. Returns the block's position.
    pub fn serialize_list(&mut self, pool: &Pool, h: usize) -> (r: Result<usize, ArchiveError>)
        requires
            old(self).inv(pool),
            h < pool.lists@.len(),
        ensures
            final(self).inv(pool),
            extends(old(self).buf@, final(self).buf@),
            grows(old(self).registry@, final(self).registry@),
            forall|k: usize|
                #[trigger] final(self).registry@.contains_key(k) && !old(self).registry@.contains_key(k) ==> k <= h,
            r matches Ok(o) ==> final(self).registry@.contains_key(h) && final(self).registry@[h] == o,
            old(self).registry@.contains_key(h) ==> r == Ok::<usize, ArchiveError>(old(self).registry@[h])
                && final(self).buf@ == old(self).buf@ && final(self).registry@ == old(self).registry@,
            r matches Err(e) ==> e == ArchiveError::EncodingOverflow,
            old(self).buf@.len() + pending(pool.lists@, old(self).registry@, (h + 1) as nat) <= LIMIT ==> r is Ok
                && final(self).buf@.len() + pending(pool.lists@, final(self).registry@, (h + 1) as nat)
                <= old(self).buf@.len() + pending(pool.lists@, old(self).registry@, (h + 1) as nat),
        decreases h,
    {
        if let Some(o) = self.registry.get(&h) {
            return Ok(*o);
        }
        let ghost start = self.buf@;
        let ghost reg0 = self.registry@;
        let nodes = &pool.lists[h];
        let n = nodes.len();
        let ghost budget = start.len() + pending(pool.lists@, reg0, (h + 1) as nat);
        assert(pending(pool.lists@, reg0, (h + 1) as nat) == pending(pool.lists@, reg0, h as nat) + list_cost(nodes@));
        let mut res: Vec<(usize, usize, usize)> = Vec::new();
        let mut j: usize = 0;
        while j < n
            invariant
                self.inv(pool),
                h < pool.lists@.len(),
                nodes@ == pool.lists@[h as int]@,
                n == nodes@.len(),
                j <= n,
                res@.len() == j,
                !reg0.contains_key(h),
                reg0 == old(self).registry@,
                start == old(self).buf@,
                extends(start, self.buf@),
                grows(reg0, self.registry@),
                forall|k: usize| #[trigger] self.registry@.contains_key(k) && !reg0.contains_key(k) ==> k < h,
                forall|k: int| 0 <= k < j ==> res_ok(self.buf@, self.registry@, #[trigger] res@[k], nodes@[k]),
                budget == start.len() + pending(pool.lists@, reg0, (h + 1) as nat),
                budget <= LIMIT ==> self.buf@.len() + pending(pool.lists@, self.registry@, h as nat) + nodes_cost(nodes@, j as int)
                    + 8 + 16 * n <= budget,
            decreases n - j,
        {
            let node = &nodes[j];
            let ghost b0 = self.buf@;
            let ghost r0 = self.registry@;
            proof {
                lemma_pending_mono(pool.lists@, r0, 0, h as nat);
                lemma_nodes_cost_nonneg(nodes@, j + 1);
                assert(nodes_cost(nodes@, j as int) == node_cost(nodes@[j as int]) + nodes_cost(nodes@, j + 1));
            }
            if self.buf.len() > LIMIT - 8 || node.label.len() > LIMIT - 8 - self.buf.len() {
                return Err(ArchiveError::EncodingOverflow);
            }
            let l = push_str(&mut self.buf, &node.label);
            proof {
                lemma_enc_extend(b0, self.buf@, r0, pool.lists@);
            }
            let ghost b1 = self.buf@;
            let p = match &node.payload {
                None => 0,
                Some(s) => {
                    if self.buf.len() > LIMIT - 8 || s.len() > LIMIT - 8 - self.buf.len() {
                        return Err(ArchiveError::EncodingOverflow);
                    }
                    let p = push_str(&mut self.buf, s);
                    proof {
                        lemma_enc_extend(b1, self.buf@, r0, pool.lists@);
                    }
                    p
                },
            };
            let ghost b2 = self.buf@;
            assert(node.children < h);
            proof {
                lemma_pending_mono(pool.lists@, r0, (node.children + 1) as nat, h as nat);
            }
            let c = match self.serialize_list(pool, node.children) {
                Ok(c) => c,
                Err(e) => {
                    return Err(e);
                },
            };
            proof {
                let b3 = self.buf@;
                let r3 = self.registry@;
                lemma_extends_trans(start, b0, b1);
                lemma_extends_trans(start, b1, b2);
                lemma_extends_trans(start, b2, b3);
                lemma_extends_trans(b1, b2, b3);
                lemma_str_stable(b1, b3, l as int);
                match node.payload {
                    None => {},
                    Some(_) => {
                        lemma_str_stable(b2, b3, p as int);
                    },
                }
                assert(r3.contains_key(node.children));
                assert(enc_entry(b3, r3, c as int, pool.lists@[node.children as int]@));
                assert forall|k: int| 0 <= k < j implies res_ok(b3, r3, #[trigger] res@[k], nodes@[k]) by {
                    lemma_extends_trans(b0, b2, b3);
                    lemma_res_stable(b0, b3, r0, r3, res@[k], nodes@[k]);
                }
                assert forall|k: usize| #[trigger] r3.contains_key(k) && !reg0.contains_key(k) implies k < h by {}
                assert forall|i: usize| node.children + 1 <= i < h implies (#[trigger] r0.contains_key(i) <==> r3.contains_key(i)) by {
                    if r3.contains_key(i) && !r0.contains_key(i) {
                        assert(i <= node.children);
                    }
                }
                lemma_pending_frame(pool.lists@, r0, r3, (node.children + 1) as nat, h as nat);
            }
            res.push((l, p, c));
            j = j + 1;
        }
        proof {
            lemma_pending_mono(pool.lists@, self.registry@, 0, h as nat);
            if budget <= LIMIT {
                assert(self.buf@.len() + 8 + 16 * n <= LIMIT);
                assert(n <= (LIMIT - 8 - self.buf@.len()) / 16) by (nonlinear_arith)
                    requires
                        self.buf@.len() + 8 + 16 * n <= LIMIT,
                ;
            }
        }
        if self.buf.len() > LIMIT - 8 || n > (LIMIT - 8 - self.buf.len()) / 16 {
            return Err(ArchiveError::EncodingOverflow);
        }
        let pos = self.buf.len();
        let ghost bb = self.buf@;
        let ghost reg = self.registry@;
        push_word(&mut self.buf, n as u32);
        let mut j: usize = 0;
        while j < n
            invariant
                pos == bb.len(),
                pos % 4 == 0,
                pos + 8 + 16 * n <= LIMIT,
                self.registry@ == reg,
                enc_inv(bb, reg, pool.lists@),
                nodes@ == pool.lists@[h as int]@,
                n == nodes@.len(),
                res@.len() == n,
                j <= n,
                self.buf@.len() == pos + 4 + 16 * j,
                extends(bb, self.buf@),
                word(self.buf@, pos as int) == n,
                forall|k: int| 0 <= k < n ==> res_ok(bb, reg, #[trigger] res@[k], nodes@[k]),
                forall|k: int|
                    0 <= k < j ==> #[trigger] slot_holds(self.buf@, slot(pos as int, k), pos as int, nodes@[k]),
                forall|k: int| 0 <= k < j ==> #[trigger] child_at(self.buf@, pos as int, k) == res@[k].2,
            decreases n - j,
        {
            let node = &nodes[j];
            let (l, p, c) = res[j];
            let s = self.buf.len();
            let ghost b0 = self.buf@;
            assert(res_ok(bb, reg, res@[j as int], nodes@[j as int]));
            push_word(&mut self.buf, rel(l, s));
            let ghost b1 = self.buf@;
            let p_word: u32 = match &node.payload {
                None => 0,
                Some(_) => 1,
            };
            push_word(&mut self.buf, p_word);
            let ghost b2 = self.buf@;
            let pp: u32 = match &node.payload {
                None => 0,
                Some(_) => rel(p, s + 8),
            };
            push_word(&mut self.buf, pp);
            let ghost b3 = self.buf@;
            push_word(&mut self.buf, rel(c, s + 12));
            proof {
                let b4 = self.buf@;
                lemma_extends_trans(b0, b1, b2);
                lemma_extends_trans(b0, b2, b3);
                lemma_extends_trans(b0, b3, b4);
                lemma_extends_trans(b1, b2, b3);
                lemma_extends_trans(b1, b3, b4);
                lemma_extends_trans(b2, b3, b4);
                lemma_extends_trans(bb, b0, b4);
                lemma_word_stable(b1, b4, s as int);
                lemma_word_stable(b2, b4, s as int + 4);
                lemma_word_stable(b3, b4, s as int + 8);
                lemma_word_stable(b0, b4, pos as int);
                lemma_str_stable(bb, b4, l as int);
                match node.payload {
                    None => {},
                    Some(_) => {
                        lemma_str_stable(bb, b4, p as int);
                    },
                }
                assert(s == slot(pos as int, j as int));
                assert(slot_holds(b4, slot(pos as int, j as int), pos as int, nodes@[j as int]));
                assert(child_at(b4, pos as int, j as int) == c);
                assert forall|k: int| 0 <= k < j implies #[trigger] slot_holds(b4, slot(pos as int, k), pos as int, nodes@[k])
                    && child_at(b4, pos as int, k) == res@[k].2 by {
                    lemma_old_slot(b0, b4, pos as int, j as int, k, nodes@[k], res@[k].2 as int);
                }
                assert forall|k: int| 0 <= k < j + 1 implies #[trigger] child_at(b4, pos as int, k) == res@[k].2 by {
                    if k < j {
                        lemma_old_slot(b0, b4, pos as int, j as int, k, nodes@[k], res@[k].2 as int);
                    }
                }
            }
            j = j + 1;
        }
        proof {
            let b = self.buf@;
            lemma_extends_trans(start, bb, b);
            lemma_enc_extend(bb, b, reg, pool.lists@);
            assert(block_shape(b, pos as int, nodes@));
            assert forall|k: int| 0 <= k < nodes@.len() implies reg.contains_key(#[trigger] nodes@[k].children)
                && child_at(b, pos as int, k) == reg[nodes@[k].children] as int by {
                assert(res_ok(bb, reg, res@[k], nodes@[k]));
                assert(slot_holds(b, slot(pos as int, k), pos as int, nodes@[k]));
            }
            lemma_enc_insert(b, reg, pool.lists@, h, pos);
            let reg4 = reg.insert(h, pos);
            assert forall|i: usize| 0 <= i < h implies (#[trigger] reg.contains_key(i) <==> reg4.contains_key(i)) by {}
            lemma_pending_frame(pool.lists@, reg, reg4, 0, h as nat);
            assert(pending(pool.lists@, reg4, (h + 1) as nat) == pending(pool.lists@, reg4, h as nat));
        }
        self.registry.insert(h, pos);
        Ok(pos)
    }

    /// Archives the list `root` and appends the archive's root pointer to it.
    /// A list already archived, here or in an earlier pass, is not written
    /// again: only the root pointer is appended.
    pub fn serialize_root(&mut self, pool: &Pool, root: usize) -> (r: Result<usize, ArchiveError>)
        requires
            old(self).inv(pool),
            root < pool.lists@.len(),
        ensures
            final(self).inv(pool),
            extends(old(self).buf@, final(self).buf@),
            grows(old(self).registry@, final(self).registry@),
            r matches Ok(o) ==> {
                &&& final(self).registry@.contains_key(root)
                &&& final(self).registry@[root] == o
                &&& final(self).buf@.len() >= 4
                &&& ptr_ok(final(self).buf@, final(self).buf@.len() - 4)
                &&& target(final(self).buf@, final(self).buf@.len() - 4) == o
            },
            old(self).registry@.contains_key(root) && old(self).buf@.len() + 4 <= LIMIT ==> r is Ok
                && final(self).buf@.len() == old(self).buf@.len() + 4,
            old(self).buf@.len() + pending(pool.lists@, old(self).registry@, (root + 1) as nat) + 4 <= LIMIT ==> r is Ok,
            r matches Err(e) ==> e == ArchiveError::EncodingOverflow,
    {
        let o = match self.serialize_list(pool, root) {
            Ok(o) => o,
            Err(e) => {
                return Err(e);
            },
        };
        let pos = self.buf.len();
        proof {
            lemma_pending_mono(pool.lists@, self.registry@, 0, (root + 1) as nat);
        }
        if pos > LIMIT - 4 {
            return Err(ArchiveError::EncodingOverflow);
        }
        let ghost b0 = self.buf@;
        push_word(&mut self.buf, rel(o, pos));
        proof {
            lemma_enc_extend(b0, self.buf@, self.registry@, pool.lists@);
            lemma_extends_trans(old(self).buf@, b0, self.buf@);
        }
        Ok(o)
    }

    /// The bytes and registry, to resume from later.
    pub fn into_parts(self) -> (r: (Vec<u8>, HashMapWithView<usize, usize>))
        ensures
            r.0@ == self.buf@,
            r.1@ == self.registry@,
    {
        (self.buf, self.registry)
    }
}

/// Archives the list `root` of `pool` into a new buffer.
pub fn archive(pool: &Pool, root: usize) -> (r: Result<Vec<u8>, ArchiveError>)
    requires
        pool.wf(),
        root < pool.lists@.len(),
    ensures
        r matches Ok(b) ==> b@.len() >= 4 && ptr_ok(b@, b@.len() - 4) && holds_tree(
            b@,
            target(b@, b@.len() - 4),
            pool.lists@,
            root as int,
        ),
        r matches Err(e) ==> e == ArchiveError::EncodingOverflow,
        pending(pool.lists@, Map::empty(), (root + 1) as nat) + 4 <= LIMIT ==> r is Ok,
{
    let mut ser = Serializer::new();
    match ser.serialize_root(pool, root) {
        Ok(_) => {
            proof {
                lemma_enc_holds(ser.buf@, ser.registry@, pool, root);
            }
            Ok(ser.buf)
        },
        Err(e) => Err(e),
    }
}

} // verus!

use vstd::prelude::*;
use vstd::hash_map::HashMapWithView;
use crate::layout::{block_shape, child_at, holds_tree, slot, slot_holds};
use crate::tree::{Node, Pool};
use crate::wire::{ptr_ok, read_word, str_at, str_ok, target, word, ArchiveError};

verus! {

broadcast use vstd::std_specs::hash::group_hash_axioms;

/// The block at `o` holds `nodes`, and the registry maps each children
/// pointer's target to that node's handle.
pub open spec fn dec_entry(b: Seq<u8>, reg: Map<usize, usize>, o: int, nodes: Seq<Node>) -> bool {
    &&& block_shape(b, o, nodes)
    &&& forall|j: int|
        0 <= j < nodes.len() ==> reg.contains_key(#[trigger] child_at(b, o, j) as usize) && reg[child_at(
            b,
            o,
            j,
        ) as usize] == nodes[j].children
}

/// Read-side registry invariant: each recorded position holds a block whose
/// rebuilt list is the one the registry names.
pub open spec fn dec_inv(b: Seq<u8>, reg: Map<usize, usize>, lists: Seq<Vec<Node>>) -> bool {
    &&& forall|o: usize|
        #[trigger] reg.contains_key(o) ==> reg[o] < lists.len() && o < b.len() && dec_entry(
            b,
            reg,
            o as int,
            lists[reg[o] as int]@,
        )
    &&& forall|o1: usize, o2: usize|
        #[trigger] reg.contains_key(o1) && #[trigger] reg.contains_key(o2) && o1 != o2 ==> reg[o1] != reg[o2]
}

/// Every position the registry records holds the whole tree of the list it
/// was rebuilt into.
pub proof fn lemma_dec_holds(b: Seq<u8>, reg: Map<usize, usize>, pool: &Pool, o: usize)
    requires
        pool.wf(),
        dec_inv(b, reg, pool.lists@),
        reg.contains_key(o),
    ensures
        holds_tree(b, o as int, pool.lists@, reg[o] as int),
    decreases reg[o],
{
    let h = reg[o];
    let nodes = pool.lists@[h as int]@;
    assert(dec_entry(b, reg, o as int, nodes));
    assert forall|j: int| 0 <= j < nodes.len() implies {
        &&& 0 <= (#[trigger] pool.lists@[h as int]@[j]).children < h
        &&& holds_tree(b, child_at(b, o as int, j), pool.lists@, pool.lists@[h as int]@[j].children as int)
    } by {
        let c = child_at(b, o as int, j) as usize;
        assert(pool.lists@[h as int]@[j] == nodes[j]);
        assert(reg.contains_key(c));
        assert(slot_holds(b, slot(o as int, j), o as int, nodes[j]));
        assert(c as int == child_at(b, o as int, j));
        lemma_dec_holds(b, reg, pool, c);
    }
}

/// Some tree is archived at `o`.
pub open spec fn valid_at(b: Seq<u8>, o: int) -> bool {
    exists|lists: Seq<Vec<Node>>, h: int| #[trigger] holds_tree(b, o, lists, h)
}

/// `l2` begins with the lists of `l1`.
pub open spec fn lists_extend(l1: Seq<Vec<Node>>, l2: Seq<Vec<Node>>) -> bool {
    &&& l1.len() <= l2.len()
    &&& forall|i: int| 0 <= i < l1.len() ==> #[trigger] l2[i] == l1[i]
}

/// Reads the relative pointer stored at `p` and returns its target.
pub fn read_ptr(buf: &Vec<u8>, p: usize) -> (r: Result<usize, ArchiveError>)
    requires
        p + 4 <= buf@.len(),
    ensures
        r matches Ok(t) ==> ptr_ok(buf@, p as int) && t == target(buf@, p as int),
        r == Err::<usize, ArchiveError>(ArchiveError::OutOfBounds) <==> !(word(buf@, p as int) >= 2147483648
            && target(buf@, p as int) >= 0),
        r == Err::<usize, ArchiveError>(ArchiveError::Misaligned) <==> (word(buf@, p as int) >= 2147483648
            && target(buf@, p as int) >= 0 && target(buf@, p as int) % 4 != 0),
        r matches Err(e) ==> e == ArchiveError::OutOfBounds || e == ArchiveError::Misaligned,
{
    let w = read_word(buf, p);
    if w < 2147483648 {
        return Err(ArchiveError::OutOfBounds);
    }
    let d = (4294967296u64 - w as u64) as usize;
    if d > p {
        return Err(ArchiveError::OutOfBounds);
    }
    let t = p - d;
    if t % 4 != 0 {
        return Err(ArchiveError::Misaligned);
    }
    Ok(t)
}

/// Copies out the length-prefixed byte string at `t`.
pub fn read_str(buf: &Vec<u8>, t: usize) -> (r: Result<Vec<u8>, ArchiveError>)
    ensures
        r matches Ok(v) ==> str_ok(buf@, t as int) && v@ == str_at(buf@, t as int),
        r is Err <==> !str_ok(buf@, t as int),
        r matches Err(e) ==> e == ArchiveError::OutOfBounds,
{
    let len = buf.len();
    if len < 4 || t > len - 4 {
        return Err(ArchiveError::OutOfBounds);
    }
    let n = read_word(buf, t) as usize;
    if n > len - 4 - t {
        return Err(ArchiveError::OutOfBounds);
    }
    let mut v: Vec<u8> = Vec::new();
    let mut i: usize = 0;
    while i < n
        invariant
            t + 4 + n <= buf@.len(),
            len == buf@.len(),
            n == word(buf@, t as int),
            i <= n,
            v@ == buf@.subrange(t + 4, t + 4 + i),
        decreases n - i,
    {
        v.push(buf[t + 4 + i]);
        i = i + 1;
        assert(v@ =~= buf@.subrange(t + 4, t + 4 + i));
    }
    Ok(v)
}

/// Reader of archives: the lists rebuilt so far, and the registry that maps a
/// block's position to the handle of the list rebuilt from it, so that every
/// pointer to one block yields one shared list.
pub struct Deserializer {
    pub pool: Pool,
    pub registry: HashMapWithView<usize, usize>,
}

impl Deserializer {
    /// The rebuilt pool is acyclic and every registry entry names the list
    /// rebuilt from the block at the recorded position.
    pub open spec fn inv(&self, b: Seq<u8>) -> bool {
        &&& self.pool.wf()
        &&& dec_inv(b, self.registry@, self.pool.lists@)
    }

    /// A reader with no lists and an empty registry.
    pub fn new() -> (r: Deserializer)
        ensures
            r.pool.lists@.len() == 0,
            r.registry@ == Map::<usize, usize>::empty(),
            r.inv(Seq::empty()),
    {
        Deserializer { pool: Pool::new(), registry: HashMapWithView::new() }
    }

    /// Checks the block at `off` and everything it points to, and rebuilds it
    /// as a list of the pool, unless the registry already records it.
    pub fn read_list(&mut self, buf: &Vec<u8>, off: usize) -> (r: Result<usize, ArchiveError>)
        requires
            old(self).inv(buf@),
        ensures
            final(self).inv(buf@),
            lists_extend(old(self).pool.lists@, final(self).pool.lists@),
            forall|k: usize| #[trigger] old(self).registry@.contains_key(k) ==> final(self).registry@.contains_key(k)
                && final(self).registry@[k] == old(self).registry@[k],
            forall|k: usize|
                #[trigger] final(self).registry@.contains_key(k) && !old(self).registry@.contains_key(k) ==> k <= off,
            r matches Ok(h) ==> final(self).registry@.contains_key(off) && final(self).registry@[off] == h,
            old(self).registry@.contains_key(off) ==> r == Ok::<usize, ArchiveError>(old(self).registry@[off]),
            valid_at(buf@, off as int) ==> r is Ok,
        decreases off,
    {
        if let Some(h) = self.registry.get(&off) {
            return Ok(*h);
        }
        let len = buf.len();
        if off % 4 != 0 {
            return Err(ArchiveError::Misaligned);
        }
        if len < 4 || off > len - 4 {
            return Err(ArchiveError::OutOfBounds);
        }
        let n = read_word(buf, off) as usize;
        if n > (len - 4 - off) / 16 {
            return Err(ArchiveError::OutOfBounds);
        }
        let ghost reg0 = self.registry@;
        let ghost lists0 = self.pool.lists@;
        let ghost valid = valid_at(buf@, off as int);
        let ghost w: (Seq<Vec<Node>>, int) = if valid {
            choose|l: Seq<Vec<Node>>, k: int| #[trigger] holds_tree(buf@, off as int, l, k)
        } else {
            (Seq::empty(), 0)
        };
        let ghost wl = w.0;
        let ghost wh = w.1;
        let mut nodes: Vec<Node> = Vec::new();
        let mut j: usize = 0;
        while j < n
            invariant
                self.inv(buf@),
                len == buf@.len(),
                off % 4 == 0,
                off + 4 + 16 * n <= len,
                n == word(buf@, off as int),
                j <= n,
                nodes@.len() == j,
                reg0 == old(self).registry@,
                lists0 == old(self).pool.lists@,
                !reg0.contains_key(off),
                lists_extend(lists0, self.pool.lists@),
                forall|k: usize| #[trigger] reg0.contains_key(k) ==> self.registry@.contains_key(k)
                    && self.registry@[k] == reg0[k],
                forall|k: usize| #[trigger] self.registry@.contains_key(k) && !reg0.contains_key(k) ==> k < off,
                forall|k: int| 0 <= k < j ==> #[trigger] slot_holds(buf@, slot(off as int, k), off as int, nodes@[k]),
                forall|k: int|
                    0 <= k < j ==> self.registry@.contains_key(#[trigger] child_at(buf@, off as int, k) as usize)
                        && self.registry@[child_at(buf@, off as int, k) as usize] == nodes@[k].children
                        && nodes@[k].children < self.pool.lists@.len(),
                valid == valid_at(buf@, off as int),
                valid ==> holds_tree(buf@, off as int, wl, wh) && n == wl[wh]@.len(),
            decreases n - j,
        {
            let s = off + 4 + 16 * j;
            assert(s + 16 <= len) by (nonlinear_arith)
                requires
                    s == off + 4 + 16 * j,
                    j < n,
                    off + 4 + 16 * n <= len,
            ;
            proof {
                if valid {
                    assert(block_shape(buf@, off as int, wl[wh]@));
                    assert(slot_holds(buf@, slot(off as int, j as int), off as int, wl[wh]@[j as int]));
                    assert(s == slot(off as int, j as int));
                    let cw = wl[wh]@[j as int];
                    assert(0 <= cw.children < wh);
                    assert(holds_tree(buf@, child_at(buf@, off as int, j as int), wl, cw.children as int));
                }
            }
            let l = match read_ptr(buf, s) {
                Ok(l) => l,
                Err(e) => {
                    return Err(e);
                },
            };
            let label = match read_str(buf, l) {
                Ok(v) => v,
                Err(e) => {
                    return Err(e);
                },
            };
            let tag = read_word(buf, s + 4);
            let payload = if tag == 0 {
                if read_word(buf, s + 8) != 0 {
                    return Err(ArchiveError::BadTag);
                }
                None
            } else if tag == 1 {
                let p = match read_ptr(buf, s + 8) {
                    Ok(p) => p,
                    Err(e) => {
                        return Err(e);
                    },
                };
                match read_str(buf, p) {
                    Ok(v) => Some(v),
                    Err(e) => {
                        return Err(e);
                    },
                }
            } else {
                return Err(ArchiveError::BadTag);
            };
            let c = match read_ptr(buf, s + 12) {
                Ok(c) => c,
                Err(e) => {
                    return Err(e);
                },
            };
            if c >= off {
                return Err(ArchiveError::OutOfBounds);
            }
            let ghost reg1 = self.registry@;
            let ghost lists1 = self.pool.lists@;
            let ch = match self.read_list(buf, c) {
                Ok(ch) => ch,
                Err(e) => {
                    return Err(e);
                },
            };
            let node = Node { label, payload, children: ch };
            proof {
                assert(s == slot(off as int, j as int));
                assert(slot_holds(buf@, s as int, off as int, node));
                assert(ch < self.pool.lists@.len());
                assert forall|k: int| 0 <= k < j implies self.registry@.contains_key(
                    #[trigger] child_at(buf@, off as int, k) as usize)
                    && self.registry@[child_at(buf@, off as int, k) as usize] == nodes@[k].children
                    && nodes@[k].children < self.pool.lists@.len() by {
                    assert(reg1.contains_key(child_at(buf@, off as int, k) as usize));
                }
                assert forall|k: usize| #[trigger] self.registry@.contains_key(k) && !reg0.contains_key(k) implies k < off by {}
                assert forall|i: int| 0 <= i < lists0.len() implies #[trigger] self.pool.lists@[i] == lists0[i] by {
                    assert(lists1[i] == lists0[i]);
                }
            }
            nodes.push(node);
            j = j + 1;
            proof {
                assert forall|k: int| 0 <= k < j implies #[trigger] slot_holds(buf@, slot(off as int, k), off as int, nodes@[k]) by {
                    if k < j - 1 {
                        assert(slot_holds(buf@, slot(off as int, k), off as int, nodes@[k]));
                    }
                }
            }
        }
        let ghost lists2 = self.pool.lists@;
        let ghost reg2 = self.registry@;
        assert forall|k: int| 0 <= k < nodes@.len() implies (#[trigger] nodes@[k]).children < self.pool.lists@.len() by {
            assert(self.registry@.contains_key(child_at(buf@, off as int, k) as usize));
        }
        let h = self.pool.add_list(nodes);
        proof {
            assert(block_shape(buf@, off as int, nodes@));
            assert(dec_entry(buf@, reg2, off as int, nodes@));
        }
        self.registry.insert(off, h);
        proof {
            let reg3 = self.registry@;
            let lists3 = self.pool.lists@;
            assert forall|o: usize| #[trigger] reg3.contains_key(o) implies reg3[o] < lists3.len() && o < buf@.len()
                && dec_entry(buf@, reg3, o as int, lists3[reg3[o] as int]@) by {
                let nodes_o = lists3[reg3[o] as int]@;
                if o != off {
                    assert(reg2.contains_key(o));
                    assert(lists3[reg3[o] as int] == lists2[reg2[o] as int]);
                    assert(dec_entry(buf@, reg2, o as int, nodes_o));
                }
                assert forall|q: int| 0 <= q < nodes_o.len() implies reg3.contains_key(#[trigger] child_at(buf@, o as int, q) as usize)
                    && reg3[child_at(buf@, o as int, q) as usize] == nodes_o[q].children by {
                    assert(reg2.contains_key(child_at(buf@, o as int, q) as usize));
                }
            }
            assert forall|i: int| 0 <= i < lists0.len() implies #[trigger] lists3[i] == lists0[i] by {
                assert(lists2[i] == lists0[i]);
            }
        }
        Ok(h)
    }
}

impl Deserializer {
    /// Reads the root pointer at the end of `buf` and rebuilds the list it
    /// leads to, checking every pointer on the way. Returns the list's handle.
    pub fn read_root(&mut self, buf: &Vec<u8>) -> (r: Result<usize, ArchiveError>)
        requires
            old(self).inv(buf@),
        ensures
            final(self).inv(buf@),
            lists_extend(old(self).pool.lists@, final(self).pool.lists@),
            r matches Ok(h) ==> {
                &&& buf@.len() >= 4
                &&& ptr_ok(buf@, buf@.len() - 4)
                &&& final(self).registry@.contains_key(target(buf@, buf@.len() - 4) as usize)
                &&& final(self).registry@[target(buf@, buf@.len() - 4) as usize] == h
            },
            buf@.len() < 4 ==> r == Err::<usize, ArchiveError>(ArchiveError::OutOfBounds),
            buf@.len() >= 4 && !(word(buf@, buf@.len() - 4) >= 2147483648 && target(buf@, buf@.len() - 4) >= 0)
                ==> r == Err::<usize, ArchiveError>(ArchiveError::OutOfBounds),
            buf@.len() >= 4 && word(buf@, buf@.len() - 4) >= 2147483648 && target(buf@, buf@.len() - 4) >= 0
                && target(buf@, buf@.len() - 4) % 4 != 0 ==> r == Err::<usize, ArchiveError>(ArchiveError::Misaligned),
            buf@.len() >= 4 && ptr_ok(buf@, buf@.len() - 4) && valid_at(buf@, target(buf@, buf@.len() - 4)) ==> r is Ok,
    {
        let len = buf.len();
        if len < 4 {
            return Err(ArchiveError::OutOfBounds);
        }
        let t = match read_ptr(buf, len - 4) {
            Ok(t) => t,
            Err(e) => {
                return Err(e);
            },
        };
        self.read_list(buf, t)
    }
}

/// Checks `buf` and rebuilds the value whose root pointer ends it: the pool of
/// rebuilt lists and the handle of the root list.
pub fn deserialize(buf: &Vec<u8>) -> (r: Result<(Pool, usize), ArchiveError>)
    ensures
        r matches Ok((pool, h)) ==> pool.wf() && h < pool.lists@.len() && buf@.len() >= 4 && ptr_ok(
            buf@,
            buf@.len() - 4,
        ) && holds_tree(buf@, target(buf@, buf@.len() - 4), pool.lists@, h as int),
        buf@.len() < 4 ==> r is Err,
        buf@.len() >= 4 && !ptr_ok(buf@, buf@.len() - 4) ==> r is Err,
        buf@.len() >= 4 && ptr_ok(buf@, buf@.len() - 4) && valid_at(buf@, target(buf@, buf@.len() - 4)) ==> r is Ok,
{
    let _len = buf.len();
    let mut de = Deserializer::new();
    proof {
        assert(dec_inv(buf@, de.registry@, de.pool.lists@));
    }
    match de.read_root(buf) {
        Ok(h) => {
            proof {
                let t = target(buf@, buf@.len() - 4) as usize;
                assert(de.registry@.contains_key(t));
                assert(target(buf@, buf@.len() - 4) < buf@.len());
                lemma_dec_holds(buf@, de.registry@, &de.pool, t);
            }
            Ok((de.pool, h))
        },
        Err(e) => Err(e),
    }
}

} // verus!

use vstd::prelude::*;

verus! {

/// Largest buffer length a writer may produce; keeps every relative distance
/// representable as a negative 32-bit offset.
pub const LIMIT: usize = 0x7fff_fff0;

/// Errors of writing or reading an archive.
#[derive(Debug, Clone, Copy, PartialEq, Eq)]
pub enum ArchiveError {
    /// The archive would grow past what a 32-bit relative pointer can address.
    EncodingOverflow,
    /// A pointer or a length leads outside the region it may address.
    OutOfBounds,
    /// A pointer target is not on a 4-byte boundary.
    Misaligned,
    /// A tag holds a value that no variant has.
    BadTag,
}

/// Little-endian 32-bit word stored at `p`.
pub open spec fn word(b: Seq<u8>, p: int) -> int {
    b[p] as int + b[p + 1] as int * 256 + b[p + 2] as int * 65536 + b[p + 3] as int * 16777216
}

/// Target of the relative pointer stored at `p`: the stored word is the
/// two's-complement form of the (negative) offset from `p` to the target.
pub open spec fn target(b: Seq<u8>, p: int) -> int {
    p - (4294967296 - word(b, p))
}

/// The pointer at `p` lies in the buffer, is negative, and leads to an aligned
/// position inside the buffer.
pub open spec fn ptr_ok(b: Seq<u8>, p: int) -> bool {
    &&& 0 <= p
    &&& p + 4 <= b.len()
    &&& word(b, p) >= 2147483648
    &&& target(b, p) >= 0
    &&& target(b, p) % 4 == 0
}

/// A length-prefixed byte string starts at `t` and ends inside the buffer.
pub open spec fn str_ok(b: Seq<u8>, t: int) -> bool {
    &&& 0 <= t
    &&& t + 4 <= b.len()
    &&& t + 4 + word(b, t) <= b.len()
}

/// The bytes of the string that starts at `t`.
pub open spec fn str_at(b: Seq<u8>, t: int) -> Seq<u8> {
    b.subrange(t + 4, t + 4 + word(b, t))
}

/// `b2` begins with the bytes of `b1`.
pub open spec fn extends(b1: Seq<u8>, b2: Seq<u8>) -> bool {
    &&& b1.len() <= b2.len()
    &&& forall|i: int| 0 <= i < b1.len() ==> #[trigger] b2[i] == b1[i]
}

pub proof fn lemma_extends_trans(b1: Seq<u8>, b2: Seq<u8>, b3: Seq<u8>)
    requires
        extends(b1, b2),
        extends(b2, b3),
    ensures
        extends(b1, b3),
{
    assert forall|i: int| 0 <= i < b1.len() implies #[trigger] b3[i] == b1[i] by {
        assert(b3[i] == b2[i]);
    }
}

/// A word read inside the prefix reads the same in an extension.
pub proof fn lemma_word_stable(b1: Seq<u8>, b2: Seq<u8>, p: int)
    requires
        extends(b1, b2),
        0 <= p,
        p + 4 <= b1.len(),
    ensures
        word(b2, p) == word(b1, p),
        target(b2, p) == target(b1, p),
{
    assert(b2[p] == b1[p]);
    assert(b2[p + 1] == b1[p + 1]);
    assert(b2[p + 2] == b1[p + 2]);
    assert(b2[p + 3] == b1[p + 3]);
}

pub proof fn lemma_ptr_stable(b1: Seq<u8>, b2: Seq<u8>, p: int)
    requires
        extends(b1, b2),
        ptr_ok(b1, p),
    ensures
        ptr_ok(b2, p),
        target(b2, p) == target(b1, p),
{
    lemma_word_stable(b1, b2, p);
}

pub proof fn lemma_str_stable(b1: Seq<u8>, b2: Seq<u8>, t: int)
    requires
        extends(b1, b2),
        str_ok(b1, t),
    ensures
        str_ok(b2, t),
        str_at(b2, t) == str_at(b1, t),
{
    lemma_word_stable(b1, b2, t);
    assert(str_at(b2, t) =~= str_at(b1, t));
}

/// Appends `w` as a little-endian word.
pub fn push_word(buf: &mut Vec<u8>, w: u32)
    ensures
        final(buf)@.len() == old(buf)@.len() + 4,
        extends(old(buf)@, final(buf)@),
        word(final(buf)@, old(buf)@.len() as int) == w,
{
    let b0 = (w % 256) as u8;
    let q1 = w / 256;
    let b1 = (q1 % 256) as u8;
    let q2 = q1 / 256;
    let b2 = (q2 % 256) as u8;
    let b3 = (q2 / 256) as u8;
    buf.push(b0);
    buf.push(b1);
    buf.push(b2);
    buf.push(b3);
    let ghost p = old(buf)@.len() as int;
    assert(final(buf)@[p] == b0);
    assert(final(buf)@[p + 1] == b1);
    assert(final(buf)@[p + 2] == b2);
    assert(final(buf)@[p + 3] == b3);
}

/// Reads the little-endian word at `p`.
pub fn read_word(buf: &Vec<u8>, p: usize) -> (r: u32)
    requires
        p + 4 <= buf@.len(),
    ensures
        r == word(buf@, p as int),
{
    let _n = buf.len();
    let b0 = buf[p] as u32;
    let b1 = buf[p + 1] as u32;
    let b2 = buf[p + 2] as u32;
    let b3 = buf[p + 3] as u32;
    b0 + b1 * 256 + b2 * 65536 + b3 * 16777216
}

/// Appends zero bytes until the length is a multiple of four.
pub fn pad(buf: &mut Vec<u8>)
    ensures
        final(buf)@.len() % 4 == 0,
        old(buf)@.len() <= final(buf)@.len() < old(buf)@.len() + 4,
        extends(old(buf)@, final(buf)@),
{
    let n: usize = (4 - buf.len() % 4) % 4;
    let mut k: usize = 0;
    while k < n
        invariant
            n == (4 - old(buf)@.len() % 4) % 4,
            k <= n,
            buf@.len() == old(buf)@.len() + k,
            extends(old(buf)@, buf@),
        decreases n - k,
    {
        buf.push(0);
        k = k + 1;
    }
}

/// Appends a length-prefixed byte string followed by zero padding, and returns
/// the position where it starts.
pub fn push_str(buf: &mut Vec<u8>, s: &Vec<u8>) -> (t: usize)
    requires
        old(buf)@.len() % 4 == 0,
        old(buf)@.len() + s@.len() + 8 <= LIMIT,
    ensures
        t == old(buf)@.len(),
        extends(old(buf)@, final(buf)@),
        final(buf)@.len() % 4 == 0,
        final(buf)@.len() <= old(buf)@.len() + s@.len() + 8,
        str_ok(final(buf)@, t as int),
        str_at(final(buf)@, t as int) == s@,
{
    let t = buf.len();
    push_word(buf, s.len() as u32);
    let mut i: usize = 0;
    while i < s.len()
        invariant
            t == old(buf)@.len(),
            buf@.len() == t + 4 + i,
            i <= s@.len(),
            extends(old(buf)@, buf@),
            word(buf@, t as int) == s@.len(),
            forall|k: int| 0 <= k < i ==> #[trigger] buf@[t + 4 + k] == s@[k],
        decreases s@.len() - i,
    {
        let ghost prev = buf@;
        buf.push(s[i]);
        proof {
            lemma_word_stable(prev, buf@, t as int);
        }
        i = i + 1;
    }
    let ghost before_pad = buf@;
    pad(buf);
    proof {
        lemma_extends_trans(old(buf)@, before_pad, buf@);
        lemma_word_stable(before_pad, buf@, t as int);
        assert(str_at(buf@, t as int) =~= s@) by {
            assert forall|k: int| 0 <= k < s@.len() implies #[trigger] str_at(buf@, t as int)[k] == s@[k] by {
                assert(buf@[t + 4 + k] == before_pad[t + 4 + k]);
            }
        }
    }
    t
}

} // verus!

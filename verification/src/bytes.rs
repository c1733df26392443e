//! Byte strings: comparison, big-endian numbers, and the length-prefixed
//! fields that archives are made of.

use vstd::prelude::*;

verus! {

/// The number that `s` spells in base 256, most significant byte first.
pub open spec fn be(s: Seq<u8>) -> nat
    decreases s.len(),
{
    if s.len() == 0 {
        0
    } else {
        be(s.drop_last()) * 256 + s.last() as nat
    }
}

/// `x` written in `width` bytes, most significant byte first.
pub open spec fn be_bytes(x: nat, width: nat) -> Seq<u8>
    decreases width,
{
    if width == 0 {
        Seq::empty()
    } else {
        be_bytes(x / 256, (width - 1) as nat).push((x % 256) as u8)
    }
}

/// How many numbers fit in `width` bytes.
pub open spec fn be_limit(width: nat) -> nat
    decreases width,
{
    if width == 0 {
        1
    } else {
        256 * be_limit((width - 1) as nat)
    }
}

pub proof fn lemma_be_bytes(x: nat, width: nat)
    requires
        x < be_limit(width),
    ensures
        be(be_bytes(x, width)) == x,
        be_bytes(x, width).len() == width,
    decreases width,
{
    if width > 0 {
        lemma_be_bytes(x / 256, (width - 1) as nat);
        let s = be_bytes(x, width);
        assert(s.drop_last() =~= be_bytes(x / 256, (width - 1) as nat));
    }
}

pub proof fn lemma_be(s: Seq<u8>)
    ensures
        be_bytes(be(s), s.len()) == s,
        be(s) < be_limit(s.len()),
    decreases s.len(),
{
    if s.len() > 0 {
        lemma_be(s.drop_last());
        assert(be(s) / 256 == be(s.drop_last()));
        assert(be(s) % 256 == s.last() as nat);
        assert(be_bytes(be(s), s.len()) =~= s);
    }
}

pub proof fn lemma_be_limits()
    ensures
        be_limit(1) == 0x100,
        be_limit(2) == 0x1_0000,
        be_limit(4) == 0x1_0000_0000,
        be_limit(8) == 0x1_0000_0000_0000_0000,
{
    reveal_with_fuel(be_limit, 9);
}

proof fn lemma_be_limit_grows(a: nat, b: nat)
    requires
        a <= b,
    ensures
        be_limit(a) <= be_limit(b),
    decreases b,
{
    if a < b {
        lemma_be_limit_grows(a, (b - 1) as nat);
    }
}

/// Whether two byte strings are the same.
pub fn same_bytes(a: &[u8], b: &[u8]) -> (r: bool)
    ensures
        r == (a@ == b@),
{
    if a.len() != b.len() {
        return false;
    }
    let mut i: usize = 0;
    while i < a.len()
        invariant
            a.len() == b.len(),
            i <= a.len(),
            forall|j: int| 0 <= j < i ==> a@[j] == b@[j],
        decreases a.len() - i,
    {
        if a[i] != b[i] {
            return false;
        }
        i += 1;
    }
    assert(a@ =~= b@);
    true
}

/// Whether every byte of `a` is zero.
pub fn all_zero(a: &[u8]) -> (r: bool)
    ensures
        r == (forall|i: int| 0 <= i < a@.len() ==> a@[i] == 0),
{
    let mut i: usize = 0;
    while i < a.len()
        invariant
            i <= a.len(),
            forall|j: int| 0 <= j < i ==> a@[j] == 0,
        decreases a.len() - i,
    {
        if a[i] != 0 {
            return false;
        }
        i += 1;
    }
    true
}

/// Whether two 32-byte identifiers are the same.
pub fn same_id(a: &[u8; 32], b: &[u8; 32]) -> (r: bool)
    ensures
        r == (*a == *b),
{
    let r = same_bytes(a, b);
    proof {
        if a@ == b@ {
            assert forall|i: int| 0 <= i < 32 implies a[i] == b[i] by {
                assert(a@[i] == b@[i]);
            }
            assert(*a =~= *b);
        }
    }
    r
}

/// Whether two 16-byte identifiers are the same.
pub fn same_id16(a: &[u8; 16], b: &[u8; 16]) -> (r: bool)
    ensures
        r == (*a == *b),
{
    let r = same_bytes(a, b);
    proof {
        if a@ == b@ {
            assert forall|i: int| 0 <= i < 16 implies a[i] == b[i] by {
                assert(a@[i] == b@[i]);
            }
            assert(*a =~= *b);
        }
    }
    r
}

proof fn lemma_be_split(s: Seq<u8>, k: int)
    requires
        0 <= k <= s.len(),
    ensures
        be(s) == be(s.take(k)) * be_limit((s.len() - k) as nat) + be(s.skip(k)),
    decreases s.len() - k,
{
    if k == s.len() {
        assert(s.take(k) =~= s);
        assert(s.skip(k) =~= Seq::<u8>::empty());
        let l = be_limit(0);
        assert(be(s) * l == be(s)) by (nonlinear_arith)
            requires
                l == 1,
        ;
    } else {
        let t = s.drop_last();
        lemma_be_split(t, k);
        assert(t.take(k) =~= s.take(k));
        assert(s.skip(k).drop_last() =~= t.skip(k));
        assert(s.skip(k).last() == s.last());
        let a = be(s.take(k));
        let l = be_limit((t.len() - k) as nat);
        assert(be_limit((s.len() - k) as nat) == 256 * l);
        assert((a * l + be(t.skip(k))) * 256 == a * (256 * l) + be(t.skip(k)) * 256) by (nonlinear_arith);
    }
}

/// Which of two identifiers is the smaller number, by the first byte in which
/// they differ.
pub fn id_less(a: &[u8; 32], b: &[u8; 32]) -> (r: bool)
    ensures
        r == (be(a@) < be(b@)),
{
    let mut i: usize = 0;
    while i < 32
        invariant
            i <= 32,
            forall|j: int| 0 <= j < i ==> a@[j] == b@[j],
        decreases 32 - i,
    {
        if a[i] != b[i] {
            proof {
                lemma_first_difference(a@, b@, i as int);
                lemma_first_difference(b@, a@, i as int);
            }
            return a[i] < b[i];
        }
        i += 1;
    }
    assert(a@ =~= b@);
    false
}

proof fn lemma_first_difference(a: Seq<u8>, b: Seq<u8>, k: int)
    requires
        a.len() == b.len(),
        0 <= k < a.len(),
        forall|j: int| 0 <= j < k ==> a[j] == b[j],
    ensures
        a[k] < b[k] ==> be(a) < be(b),
{
    if a[k] < b[k] {
        lemma_be_split(a, k + 1);
        lemma_be_split(b, k + 1);
        assert(a.take(k + 1).drop_last() =~= b.take(k + 1).drop_last());
        let x = be(a.take(k + 1));
        let y = be(b.take(k + 1));
        assert(x < y);
        let l = be_limit((a.len() - k - 1) as nat);
        lemma_be(a.skip(k + 1));
        assert(x * l + l <= y * l) by (nonlinear_arith)
            requires
                x < y,
                l >= 0,
        ;
    }
}

/// Whether an identifier is in a list.
pub fn has_id(ids: &Vec<[u8; 32]>, id: &[u8; 32]) -> (r: bool)
    ensures
        r == ids@.contains(*id),
{
    let mut i: usize = 0;
    while i < ids.len()
        invariant
            i <= ids.len(),
            forall|j: int| 0 <= j < i ==> ids@[j] != *id,
        decreases ids.len() - i,
    {
        if same_id(&ids[i], id) {
            assert(ids@[i as int] == *id);
            return true;
        }
        i += 1;
    }
    false
}

/// The length of a text's UTF-8 form.
pub fn text_len(s: &str) -> (r: usize)
    ensures
        r == vstd::utf8::encode_utf8(s@).len(),
{
    s.as_bytes().len()
}

pub fn copy_bytes(s: &[u8]) -> (r: Vec<u8>)
    ensures
        r@ == s@,
{
    let mut r: Vec<u8> = Vec::with_capacity(s.len());
    put_bytes(&mut r, s);
    assert(r@ =~= s@);
    r
}

pub fn put_bytes(v: &mut Vec<u8>, s: &[u8])
    ensures
        final(v)@ == old(v)@ + s@,
{
    v.extend_from_slice(s);
    assert(v@ =~= old(v)@ + s@);
}

/// Overwrites a buffer with zeros.
pub fn wipe(v: &mut Vec<u8>)
    ensures
        final(v)@ == Seq::new(old(v)@.len(), |i: int| 0u8),
{
    let n: usize = v.len();
    let mut i: usize = 0;
    while i < n
        invariant
            i <= n,
            v@.len() == n,
            n == old(v)@.len(),
            forall|j: int| 0 <= j < i ==> v@[j] == 0,
        decreases n - i,
    {
        v.set(i, 0);
        i += 1;
    }
    assert(v@ =~= Seq::new(old(v)@.len(), |i: int| 0u8));
}

/// Appends `x` in `width` big-endian bytes.
pub fn put_be(v: &mut Vec<u8>, x: u64, width: usize)
    ensures
        final(v)@ == old(v)@ + be_bytes(x as nat, width as nat),
    decreases width,
{
    if width > 0 {
        put_be(v, x / 256, width - 1);
        v.push((x % 256) as u8);
    }
    assert(v@ =~= old(v)@ + be_bytes(x as nat, width as nat));
}

/// Reads a big-endian number; the caller has checked that it is there.
pub fn get_be(buf: &[u8], at: usize, width: usize) -> (r: u64)
    requires
        at + width <= buf.len(),
        width <= 8,
    ensures
        r as nat == be(buf@.subrange(at as int, at + width)),
        r < be_limit(width as nat),
{
    let mut r: u64 = 0;
    let mut i: usize = 0;
    proof {
        lemma_be_limits();
    }
    while i < width
        invariant
            i <= width <= 8,
            at + width <= buf.len(),
            r as nat == be(buf@.subrange(at as int, at + i)),
            r < be_limit(i as nat),
        decreases width - i,
    {
        proof {
            lemma_be_limits();
            lemma_be_limit_grows((i + 1) as nat, 8);
            assert(be_limit((i + 1) as nat) == 256 * be_limit(i as nat));
            let s = buf@.subrange(at as int, at + i + 1);
            assert(s.drop_last() =~= buf@.subrange(at as int, at + i));
        }
        r = r * 256 + buf[at + i] as u64;
        i += 1;
    }
    r
}

} // verus!

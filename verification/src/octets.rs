//! Byte sequences: comparing, copying, and numbers in network byte order.

use vstd::prelude::*;

verus! {

/// The `k` bytes of `n` in network byte order, the most significant first.
pub open spec fn be(n: int, k: nat) -> Seq<u8>
    decreases k,
{
    if k == 0 {
        Seq::empty()
    } else {
        be(n / 256, (k - 1) as nat).push((n % 256) as u8)
    }
}

/// The number that bytes in network byte order denote.
pub open spec fn be_value(s: Seq<u8>) -> int
    decreases s.len(),
{
    if s.len() == 0 {
        0
    } else {
        be_value(s.drop_last()) * 256 + s.last()
    }
}

/// `k` bytes are `k` bytes long.
pub broadcast proof fn be_len(n: int, k: nat)
    ensures
        #[trigger] be(n, k).len() == k,
    decreases k,
{
    if k > 0 {
        be_len(n / 256, (k - 1) as nat);
    }
}

/// How many numbers `k` bytes tell apart.
pub open spec fn span(k: nat) -> int
    decreases k,
{
    if k == 0 {
        1
    } else {
        256 * span((k - 1) as nat)
    }
}

/// Bytes give back the number that was written in them.
pub proof fn be_round_trip(n: int, k: nat)
    requires
        0 <= n < span(k),
    ensures
        be(n, k).len() == k,
        be_value(be(n, k)) == n,
    decreases k,
{
    if k > 0 {
        be_round_trip(n / 256, (k - 1) as nat);
        assert(be(n, k).drop_last() =~= be(n / 256, (k - 1) as nat));
    }
}

/// A number in `k` bytes is one of those that they tell apart.
pub proof fn be_value_bound(s: Seq<u8>)
    ensures
        0 <= be_value(s) < span(s.len()),
    decreases s.len(),
{
    if s.len() > 0 {
        be_value_bound(s.drop_last());
    }
}

/// Two, four and eight bytes hold the machine integers of that size.
pub proof fn spans()
    ensures
        span(2) == 0x1_0000,
        span(4) == 0x1_0000_0000,
        span(8) == 0x1_0000_0000_0000_0000,
{
    reveal_with_fuel(span, 9);
}

/// The number in the two bytes from `i` on, the most significant first.
pub open spec fn two(s: Seq<u8>, i: int) -> int {
    s[i] * 0x100 + s[i + 1]
}

/// The number in the four bytes from `i` on, the most significant first.
pub open spec fn four(s: Seq<u8>, i: int) -> int {
    s[i] * 0x100_0000 + s[i + 1] * 0x1_0000 + s[i + 2] * 0x100 + s[i + 3]
}

/// The number in the eight bytes from `i` on, the most significant first.
pub open spec fn eight(s: Seq<u8>, i: int) -> int {
    four(s, i) * 0x1_0000_0000 + four(s, i + 4)
}

/// Bytes of a sequence denote the number that stands in them, place by place.
pub proof fn places(s: Seq<u8>, i: int)
    requires
        0 <= i,
    ensures
        i + 2 <= s.len() ==> be_value(s.subrange(i, i + 2)) == two(s, i),
        i + 4 <= s.len() ==> be_value(s.subrange(i, i + 4)) == four(s, i),
        i + 8 <= s.len() ==> be_value(s.subrange(i, i + 8)) == eight(s, i),
{
    if i + 2 <= s.len() {
        prefix_value(s, i, 0);
        prefix_value(s, i, 1);
    }
    if i + 4 <= s.len() {
        prefix_value(s, i, 2);
        prefix_value(s, i, 3);
    }
    if i + 8 <= s.len() {
        prefix_value(s, i, 4);
        prefix_value(s, i, 5);
        prefix_value(s, i, 6);
        prefix_value(s, i, 7);
    }
}

proof fn prefix_value(s: Seq<u8>, i: int, k: int)
    requires
        0 <= i,
        0 <= k,
        i + k < s.len(),
    ensures
        be_value(s.subrange(i, i + k + 1)) == be_value(s.subrange(i, i + k)) * 256 + s[i + k],
        k == 0 ==> be_value(s.subrange(i, i + k)) == 0,
{
    let longer = s.subrange(i, i + k + 1);
    assert(longer.drop_last() =~= s.subrange(i, i + k));
    assert(longer.last() == s[i + k]);
}

/// A number stands in the bytes that are written for it, place by place.
pub proof fn written_places(s: Seq<u8>, i: int, n: int)
    requires
        0 <= i,
    ensures
        i + 2 <= s.len() && s.subrange(i, i + 2) == be(n, 2) && 0 <= n <= u16::MAX ==> two(s, i) == n,
        i + 4 <= s.len() && s.subrange(i, i + 4) == be(n, 4) && 0 <= n <= u32::MAX ==> four(s, i)
            == n,
        i + 8 <= s.len() && s.subrange(i, i + 8) == be(n, 8) && 0 <= n <= u64::MAX ==> eight(s, i)
            == n,
{
    spans();
    places(s, i);
    if 0 <= n <= u16::MAX {
        be_round_trip(n, 2);
    }
    if 0 <= n <= u32::MAX {
        be_round_trip(n, 4);
    }
    if 0 <= n <= u64::MAX {
        be_round_trip(n, 8);
    }
}

/// Whether two byte sequences are the same.
pub fn same_bytes(a: &[u8], b: &[u8]) -> (same: bool)
    ensures
        same == (a@ == b@),
{
    if a.len() != b.len() {
        return false;
    }
    let mut i: usize = 0;
    while i < a.len()
        invariant
            i <= a.len(),
            a@.len() == b@.len(),
            forall|k: int| 0 <= k < i ==> a@[k] == b@[k],
        decreases a.len() - i,
    {
        if a[i] != b[i] {
            return false;
        }
        i += 1;
    }
    assert(a@ =~= b@);
    true
}

/// The bytes from `from` up to `to`.
pub fn copy_range(bytes: &[u8], from: usize, to: usize) -> (res: Vec<u8>)
    requires
        from <= to <= bytes.len(),
    ensures
        res@ == bytes@.subrange(from as int, to as int),
{
    vstd::slice::slice_to_vec(vstd::slice::slice_subrange(bytes, from, to))
}

/// Twenty bytes from `from` on.
pub fn copy_twenty(bytes: &[u8], from: usize) -> (res: [u8; 20])
    requires
        from + 20 <= bytes.len(),
    ensures
        res@ == bytes@.subrange(from as int, from + 20),
{
    let mut res: [u8; 20] = [0u8; 20];
    let mut i: usize = 0;
    while i < 20
        invariant
            i <= 20,
            from + 20 <= bytes.len(),
            forall|k: int| 0 <= k < i ==> res@[k] == bytes@[from + k],
        decreases 20 - i,
    {
        res[i] = bytes[from + i];
        i += 1;
    }
    assert(res@ =~= bytes@.subrange(from as int, from + 20));
    res
}

/// Appends bytes.
pub fn push_bytes(out: &mut Vec<u8>, bytes: &[u8])
    ensures
        final(out)@ == old(out)@ + bytes@,
{
    let mut i: usize = 0;
    assert(bytes@.take(0) =~= Seq::empty());
    while i < bytes.len()
        invariant
            i <= bytes.len(),
            out@ == old(out)@ + bytes@.take(i as int),
        decreases bytes.len() - i,
    {
        assert(bytes@.take(i + 1) =~= bytes@.take(i as int).push(bytes@[i as int]));
        out.push(bytes[i]);
        i += 1;
    }
    assert(bytes@.take(i as int) =~= bytes@);
}

/// The number in the `k` bytes from `at` on.
fn read_be(bytes: &[u8], at: usize, k: usize) -> (n: u64)
    requires
        at + k <= bytes.len(),
        k <= 8,
    ensures
        n == be_value(bytes@.subrange(at as int, at + k)),
        n < span(k as nat),
    decreases k,
{
    proof {
        let s = bytes@.subrange(at as int, at + k);
        be_value_bound(s);
        spans();
        reveal_with_fuel(span, 9);
        if k > 0 {
            assert(s.drop_last() =~= bytes@.subrange(at as int, at + k - 1));
        }
    }
    if k == 0 {
        0
    } else {
        read_be(bytes, at, k - 1) * 256 + bytes[at + (k - 1)] as u64
    }
}

/// The number in two bytes.
pub fn read_u16(bytes: &[u8], at: usize) -> (n: u16)
    requires
        at + 2 <= bytes.len(),
    ensures
        n == be_value(bytes@.subrange(at as int, at + 2)),
{
    proof {
        spans();
    }
    read_be(bytes, at, 2) as u16
}

/// The number in four bytes.
pub fn read_u32(bytes: &[u8], at: usize) -> (n: u32)
    requires
        at + 4 <= bytes.len(),
    ensures
        n == be_value(bytes@.subrange(at as int, at + 4)),
{
    proof {
        spans();
    }
    read_be(bytes, at, 4) as u32
}

/// The number in eight bytes.
pub fn read_u64(bytes: &[u8], at: usize) -> (n: u64)
    requires
        at + 8 <= bytes.len(),
    ensures
        n == be_value(bytes@.subrange(at as int, at + 8)),
{
    read_be(bytes, at, 8)
}

/// Appends the `k` bytes of `n`.
fn push_be(out: &mut Vec<u8>, n: u64, k: usize)
    ensures
        final(out)@ == old(out)@ + be(n as int, k as nat),
    decreases k,
{
    if k > 0 {
        push_be(out, n / 256, k - 1);
        out.push((n % 256) as u8);
    }
    assert(final(out)@ =~= old(out)@ + be(n as int, k as nat));
}

/// Appends two bytes.
pub fn push_u16(out: &mut Vec<u8>, n: u16)
    ensures
        final(out)@ == old(out)@ + be(n as int, 2),
{
    push_be(out, n as u64, 2);
}

/// Appends four bytes.
pub fn push_u32(out: &mut Vec<u8>, n: u32)
    ensures
        final(out)@ == old(out)@ + be(n as int, 4),
{
    push_be(out, n as u64, 4);
}

/// Appends eight bytes.
pub fn push_u64(out: &mut Vec<u8>, n: u64)
    ensures
        final(out)@ == old(out)@ + be(n as int, 8),
{
    push_be(out, n, 8);
}

} // verus!

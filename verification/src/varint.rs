//! Minecraft-style variable-length integers.
//!
//! A VarInt holds a 32-bit two's complement number in groups of seven bits, the
//! lowest group first. Every byte but the last has its top bit set, and there are
//! at most five bytes.

use vstd::prelude::*;

verus! {

/// Most bytes a VarInt may have.
pub const MAX_VARINT_LEN: usize = 5;

/// The end of the VarInt whose bytes before `from` are continued: one past its
/// first byte with a clear top bit, if that byte is there and within the limit.
pub open spec fn varint_end(s: Seq<u8>, from: nat) -> Option<nat>
    decreases MAX_VARINT_LEN - from,
{
    if from >= MAX_VARINT_LEN || from >= s.len() {
        None
    } else if s[from as int] < 0x80 {
        Some(from + 1)
    } else {
        varint_end(s, from + 1)
    }
}

/// The number written in the low seven bits of each byte, lowest group first.
pub open spec fn groups_value(s: Seq<u8>) -> nat
    decreases s.len(),
{
    if s.len() == 0 {
        0
    } else {
        (s[0] % 128) as nat + 128 * groups_value(s.drop_first())
    }
}

/// The 32-bit two's complement number with the low 32 bits of `n`.
pub open spec fn low_i32(n: nat) -> i32 {
    let m = n % 0x1_0000_0000;
    if m < 0x8000_0000 {
        m as i32
    } else {
        (m - 0x1_0000_0000) as i32
    }
}

/// The VarInt at the start of `s`: its value and its number of bytes. `None` where
/// `s` ends inside it or where it has more than five bytes.
pub open spec fn varint(s: Seq<u8>) -> Option<(i32, nat)> {
    match varint_end(s, 0) {
        Some(n) => Some((low_i32(groups_value(s.take(n as int))), n)),
        None => None,
    }
}

/// The shortest VarInt of a number.
pub open spec fn varint_bytes(n: nat) -> Seq<u8>
    decreases n,
{
    if n < 128 {
        seq![n as u8]
    } else {
        seq![(128 + n % 128) as u8] + varint_bytes(n / 128)
    }
}

/// 128 to the power of `k`.
pub open spec fn pow128(k: nat) -> nat
    decreases k,
{
    if k == 0 {
        1
    } else {
        128 * pow128((k - 1) as nat)
    }
}

proof fn lemma_groups_push(s: Seq<u8>, b: u8)
    ensures
        groups_value(s.push(b)) == groups_value(s) + pow128(s.len()) * (b % 128),
    decreases s.len(),
{
    reveal_with_fuel(groups_value, 2);
    if s.len() == 0 {
        assert(s.push(b).drop_first() =~= Seq::<u8>::empty());
        let p = pow128(s.len());
        assert(p * (b % 128) == b % 128) by (nonlinear_arith)
            requires
                p == 1,
        ;
    } else {
        let t = s.drop_first();
        assert(s.push(b).drop_first() =~= t.push(b));
        lemma_groups_push(t, b);
        let p = pow128(t.len());
        let x = (b % 128) as nat;
        assert(s.push(b)[0] == s[0]);
        assert(pow128(s.len()) == 128 * p);
        assert(128 * (groups_value(t) + p * x) == 128 * groups_value(t) + (128 * p) * x)
            by (nonlinear_arith);
    }
}

proof fn lemma_groups_bound(s: Seq<u8>)
    ensures
        groups_value(s) < pow128(s.len()),
    decreases s.len(),
{
    if s.len() > 0 {
        lemma_groups_bound(s.drop_first());
    }
}

proof fn lemma_end_range(s: Seq<u8>, from: nat)
    ensures
        varint_end(s, from) matches Some(n) ==> from < n <= MAX_VARINT_LEN && n <= s.len()
            && s[n - 1] < 0x80 && (forall|i: int| from <= i < n - 1 ==> #[trigger] s[i] >= 0x80),
    decreases MAX_VARINT_LEN - from,
{
    if from < MAX_VARINT_LEN && from < s.len() && s[from as int] >= 0x80 {
        lemma_end_range(s, from + 1);
    }
}

/// A VarInt has between one and five bytes, all of them inside the sequence.
pub proof fn lemma_varint_range(s: Seq<u8>)
    ensures
        varint(s) matches Some((_, n)) ==> 1 <= n <= MAX_VARINT_LEN && n <= s.len(),
{
    lemma_end_range(s, 0);
}

proof fn lemma_end_append(s: Seq<u8>, t: Seq<u8>, from: nat)
    requires
        varint_end(s, from) is Some,
    ensures
        varint_end(s + t, from) == varint_end(s, from),
    decreases MAX_VARINT_LEN - from,
{
    if s[from as int] >= 0x80 {
        lemma_end_append(s, t, from + 1);
    }
}

/// Bytes after a complete VarInt do not change what it reads as.
pub proof fn lemma_varint_append(s: Seq<u8>, t: Seq<u8>)
    requires
        varint(s) is Some,
    ensures
        varint(s + t) == varint(s),
{
    lemma_end_append(s, t, 0);
    lemma_varint_range(s);
    let n = varint(s).unwrap().1;
    assert((s + t).take(n as int) =~= s.take(n as int));
}

proof fn lemma_end_overlong(s: Seq<u8>, t: Seq<u8>, from: nat)
    requires
        varint_end(s, from) is None,
        s.len() >= MAX_VARINT_LEN,
    ensures
        varint_end(s + t, from) is None,
    decreases MAX_VARINT_LEN - from,
{
    if from < MAX_VARINT_LEN {
        lemma_end_overlong(s, t, from + 1);
    }
}

/// A VarInt of more than five bytes stays malformed, whatever follows.
pub proof fn lemma_overlong_stays(s: Seq<u8>, t: Seq<u8>)
    requires
        varint(s) is None,
        s.len() >= MAX_VARINT_LEN,
    ensures
        varint(s + t) is None,
{
    lemma_end_overlong(s, t, 0);
}

/// The shortest VarInt of a number of up to 35 bits: its bytes but the last are
/// continued, and its groups give the number back.
proof fn lemma_bytes_shape(n: nat, k: nat)
    requires
        n < pow128(k),
        k <= MAX_VARINT_LEN,
    ensures
        1 <= varint_bytes(n).len(),
        n == 0 || varint_bytes(n).len() <= k,
        varint_bytes(n).last() < 0x80,
        forall|i: int|
            0 <= i < varint_bytes(n).len() - 1 ==> #[trigger] varint_bytes(n)[i] >= 0x80,
        groups_value(varint_bytes(n)) == n,
    decreases n,
{
    reveal_with_fuel(groups_value, 2);
    reveal_with_fuel(pow128, 2);
    let b = varint_bytes(n);
    if n < 128 {
        assert(b.drop_first() =~= Seq::<u8>::empty());
    } else {
        let rest = varint_bytes(n / 128);
        lemma_bytes_shape(n / 128, (k - 1) as nat);
        assert(b.drop_first() =~= rest);
        assert(b.last() == rest.last());
        assert forall|i: int| 0 <= i < b.len() - 1 implies #[trigger] b[i] >= 0x80 by {
            if i > 0 {
                assert(b[i] == rest[i - 1]);
            }
        }
    }
}

proof fn lemma_end_of_shape(s: Seq<u8>, from: nat)
    requires
        from < s.len() <= MAX_VARINT_LEN,
        s.last() < 0x80,
        forall|i: int| 0 <= i < s.len() - 1 ==> #[trigger] s[i] >= 0x80,
    ensures
        varint_end(s, from) == Some(s.len()),
    decreases s.len() - from,
{
    if from + 1 < s.len() {
        assert(s[from as int] >= 0x80);
        lemma_end_of_shape(s, from + 1);
    }
}

/// Reading gives back what writing wrote, whatever follows: the VarInt of a 32-bit
/// number reads as that number in two's complement, and takes exactly the bytes
/// written.
pub proof fn law_varint_round_trip(n: nat, rest: Seq<u8>)
    requires
        n < 0x1_0000_0000,
    ensures
        varint(varint_bytes(n) + rest) == Some((low_i32(n), varint_bytes(n).len())),
        1 <= varint_bytes(n).len() <= MAX_VARINT_LEN,
{
    let b = varint_bytes(n);
    assert(pow128(5) == 34359738368) by {
        reveal_with_fuel(pow128, 6);
    }
    lemma_bytes_shape(n, 5);
    lemma_end_of_shape(b, 0);
    assert(b.take(b.len() as int) =~= b);
    lemma_varint_append(b, rest);
}

/// Reads the VarInt at `*pos`, moving `*pos` past it on success. Returns `None`,
/// leaving `*pos`, where the buffer ends inside the VarInt or where it has more than
/// five bytes.
pub fn read_varint(buf: &[u8], pos: &mut usize) -> (res: Option<i32>)
    ensures
        *old(pos) <= buf@.len() ==> match varint(buf@.skip(*old(pos) as int)) {
            Some((value, n)) => res == Some(value) && *final(pos) == *old(pos) + n,
            None => res is None && *final(pos) == *old(pos),
        },
        *old(pos) > buf@.len() ==> res is None && *final(pos) == *old(pos),
{
    let start: usize = *pos;
    if start > buf.len() {
        return None;
    }
    let ghost s = buf@.skip(start as int);
    let mut acc: u64 = 0;
    let mut scale: u64 = 1;
    let mut i: usize = 0;
    assert(s.take(0) =~= Seq::<u8>::empty());
    while i < MAX_VARINT_LEN
        invariant
            start <= buf@.len(),
            s == buf@.skip(start as int),
            start == *pos,
            *pos == *old(pos),
            i <= MAX_VARINT_LEN,
            i <= s.len(),
            scale == pow128(i as nat),
            scale <= 34359738368,
            acc == groups_value(s.take(i as int)),
            acc < scale,
            varint_end(s, 0) == varint_end(s, i as nat),
        decreases MAX_VARINT_LEN - i,
    {
        if i >= buf.len() - start {
            return None;
        }
        let byte: u8 = buf[start + i];
        assert(byte == s[i as int]);
        proof {
            assert(s.take(i + 1) =~= s.take(i as int).push(byte));
            lemma_groups_push(s.take(i as int), byte);
            reveal_with_fuel(pow128, 7);
            lemma_groups_bound(s.take(i + 1));
        }
        assert((byte % 128) as u64 * scale <= 127 * 268435456) by (nonlinear_arith)
            requires
                byte % 128 <= 127,
                scale <= 268435456,
        ;
        assert((byte % 128) as u64 * scale == scale * (byte % 128)) by (nonlinear_arith);
        acc = acc + (byte % 128) as u64 * scale;
        scale = scale * 128;
        i = i + 1;
        if byte < 0x80 {
            let bits: u32 = (acc % 0x1_0000_0000) as u32;
            let value: i32 = bits as i32;
            assert(value == low_i32(acc as nat)) by {
                assert(bits < 0x8000_0000 ==> bits as i32 == bits) by (bit_vector);
                assert(bits >= 0x8000_0000 ==> bits as i32 == bits - 0x1_0000_0000)
                    by (bit_vector);
            }
            *pos = start + i;
            return Some(value);
        }
    }
    None
}

proof fn lemma_groups_step(s: Seq<u8>, j: int, k: int)
    requires
        0 <= j < k <= s.len(),
    ensures
        groups_value(s.subrange(j, k)) == (s[j] % 128) as nat + 128 * groups_value(
            s.subrange(j + 1, k),
        ),
{
    assert(s.subrange(j, k).drop_first() =~= s.subrange(j + 1, k));
}

proof fn lemma_no_end(s: Seq<u8>, from: nat)
    requires
        varint_end(s, from) is None,
    ensures
        forall|i: int| from <= i < s.len() && i < MAX_VARINT_LEN ==> #[trigger] s[i] >= 0x80,
    decreases MAX_VARINT_LEN - from,
{
    if from < MAX_VARINT_LEN && from < s.len() {
        lemma_no_end(s, from + 1);
    }
}

/// The part of a VarInt's number that its byte at `i` holds, of `k` bytes.
pub open spec fn group(s: Seq<u8>, k: int, i: int) -> int {
    if i < k {
        (s[i] % 128) as int
    } else {
        0
    }
}

/// A VarInt ends with its first byte below 128, which is among the first five, and holds
/// seven bits of a number in each byte, the lowest ones first; what is read is that number
/// up to multiples of 2 to the power of 32. Where nothing is read, all of the first five
/// bytes that are there are 128 or more.
pub proof fn law_varint_is_its_groups(s: Seq<u8>)
    ensures
        match varint(s) {
            Some((value, k)) => {
                &&& 1 <= k <= 5
                &&& k <= s.len()
                &&& s[k - 1] < 128
                &&& forall|i: int| 0 <= i < k - 1 ==> #[trigger] s[i] >= 128
                &&& (group(s, k as int, 0) + 128 * group(s, k as int, 1) + 16384 * group(
                    s,
                    k as int,
                    2,
                ) + 2097152 * group(s, k as int, 3) + 268435456 * group(s, k as int, 4) - value)
                    % 0x1_0000_0000 == 0
            },
            None => forall|i: int| 0 <= i < s.len() && i < 5 ==> #[trigger] s[i] >= 128,
        },
{
    match varint(s) {
        Some((_, k)) => {
            let n = k as int;
            lemma_end_range(s, 0);
            assert(s.take(n) =~= s.subrange(0, n));
            assert(s.subrange(n, n) =~= Seq::empty());
            lemma_groups_step(s, 0, n);
            if n > 1 {
                lemma_groups_step(s, 1, n);
            }
            if n > 2 {
                lemma_groups_step(s, 2, n);
            }
            if n > 3 {
                lemma_groups_step(s, 3, n);
            }
            if n > 4 {
                lemma_groups_step(s, 4, n);
            }
        },
        None => {
            lemma_no_end(s, 0);
        },
    }
}

} // verus!

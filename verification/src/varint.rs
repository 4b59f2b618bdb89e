//! Variable-length integers: seven bits to a byte, least significant group
//! first, the top bit of a byte saying that another byte follows.

use vstd::prelude::*;

verus! {

/// The number that the low seven bits of each byte of `s` spell, least
/// significant group first.
pub open spec fn le128(s: Seq<u8>) -> nat
    decreases s.len(),
{
    if s.len() == 0 {
        0
    } else {
        (s[0] % 128) as nat + 128 * le128(s.drop_first())
    }
}

/// The index of the first byte of `s` whose top bit is clear, or the length of
/// `s` where every byte has it set.
pub open spec fn first_low(s: Seq<u8>) -> nat
    decreases s.len(),
{
    if s.len() == 0 {
        0
    } else if s[0] < 128 {
        0
    } else {
        1 + first_low(s.drop_first())
    }
}

/// The bytes that encode `n`.
pub open spec fn varint_encode(n: nat) -> Seq<u8>
    decreases n,
{
    if n < 128 {
        seq![n as u8]
    } else {
        seq![(128 + n % 128) as u8] + varint_encode(n / 128)
    }
}

/// The most bytes that a length prefix may take: as many groups of seven bits
/// as the machine word needs.
pub open spec fn varint_max_len() -> nat {
    ((usize::BITS + 7) / 7) as nat
}

/// What reading one length prefix at the start of `s` comes to.
pub enum VarintRead {
    /// A prefix of `len` bytes that spells `value`.
    Value { value: usize, len: nat },
    /// The bytes ran out before a byte with a clear top bit was seen.
    Eof,
    /// More bytes with the top bit set than a prefix may have.
    Unterminated,
}

/// Reading a length prefix from the bytes `s`.
///
/// The prefix ends at the first byte whose top bit is clear. Its value is
/// taken modulo the range of the machine word.
pub open spec fn varint_read(s: Seq<u8>) -> VarintRead {
    let k = first_low(s);
    if k < s.len() && k < varint_max_len() {
        VarintRead::Value {
            value: (le128(s.take(k as int + 1)) % (usize::MAX as nat + 1)) as usize,
            len: k + 1,
        }
    } else if s.len() <= varint_max_len() {
        VarintRead::Eof
    } else {
        VarintRead::Unterminated
    }
}

/// How many bytes reading a length prefix at the start of `s` takes from the
/// stream: the prefix, or all bytes where they run out, or one more than a
/// prefix may have where it does not end.
pub open spec fn varint_consumed(s: Seq<u8>) -> nat {
    match varint_read(s) {
        VarintRead::Value { value, len } => len,
        VarintRead::Eof => s.len(),
        VarintRead::Unterminated => varint_max_len() + 1,
    }
}

/// 128 to the power `k`.
pub open spec fn pow128(k: nat) -> nat
    decreases k,
{
    if k == 0 {
        1
    } else {
        128 * pow128((k - 1) as nat)
    }
}

/// An encoding is never empty, its last byte has the top bit clear and all
/// bytes before it have the top bit set.
pub proof fn lemma_varint_encode_shape(n: nat)
    ensures
        varint_encode(n).len() >= 1,
        first_low(varint_encode(n)) == varint_encode(n).len() - 1,
        le128(varint_encode(n)) == n,
    decreases n,
{
    let e = varint_encode(n);
    if n < 128 {
        assert(e.drop_first() =~= Seq::<u8>::empty());
        assert(le128(e.drop_first()) == 0);
    } else {
        lemma_varint_encode_shape(n / 128);
        assert(e.drop_first() =~= varint_encode(n / 128));
        assert(e[0] == (128 + n % 128) as u8);
        assert(e[0] % 128 == n % 128);
    }
}

/// A number below 128 to the power `k` is encoded in at most `k` bytes.
pub proof fn lemma_varint_encode_len(n: nat, k: nat)
    requires
        k >= 1,
        n < pow128(k),
    ensures
        varint_encode(n).len() <= k,
    decreases k,
{
    if n >= 128 {
        assert(k >= 2) by {
            assert(pow128(1) == 128) by {
                reveal_with_fuel(pow128, 2);
            }
        }
        lemma_varint_encode_len(n / 128, (k - 1) as nat);
    }
}

/// Every machine word is encoded in no more bytes than a prefix may take.
pub proof fn lemma_varint_encode_fits(n: usize)
    ensures
        1 <= varint_encode(n as nat).len() <= varint_max_len(),
{
    lemma_varint_encode_shape(n as nat);
    reveal_with_fuel(pow128, 11);
    if usize::BITS == 32 {
        assert(usize::MAX == 0xffff_ffff);
        assert(pow128(5) == 34359738368);
        lemma_varint_encode_len(n as nat, 5);
    } else {
        assert(usize::BITS == 64);
        assert(usize::MAX == 0xffff_ffff_ffff_ffff);
        assert(pow128(10) == 1180591620717411303424);
        lemma_varint_encode_len(n as nat, 10);
    }
}

/// The first low byte of a sequence that starts with an encoding is the
/// last byte of that encoding, and the digits up to it spell the number.
pub proof fn lemma_varint_prefix(n: nat, rest: Seq<u8>)
    ensures
        first_low(varint_encode(n) + rest) == varint_encode(n).len() - 1,
        (varint_encode(n) + rest).take(varint_encode(n).len() as int) == varint_encode(n),
    decreases n,
{
    let e = varint_encode(n);
    let s = e + rest;
    assert(s.take(e.len() as int) =~= e);
    if n < 128 {
        assert(s[0] == e[0]);
    } else {
        lemma_varint_prefix(n / 128, rest);
        assert(e.drop_first() =~= varint_encode(n / 128));
        assert(s.drop_first() =~= varint_encode(n / 128) + rest);
        assert(s[0] == e[0]);
    }
}

/// The last byte of an encoding of two or more bytes is not zero.
pub proof fn lemma_varint_encode_last(n: nat)
    ensures
        varint_encode(n).len() > 1 ==> varint_encode(n).last() != 0,
        varint_encode(n).len() > 1 <==> n >= 128,
    decreases n,
{
    let e = varint_encode(n);
    if n >= 128 {
        lemma_varint_encode_shape(n / 128);
        lemma_varint_encode_last(n / 128);
        let t = varint_encode(n / 128);
        assert(e.last() == t.last());
        if n / 128 < 128 {
            assert(t[0] == (n / 128) as u8);
        }
    }
}

/// Reading back what encodes a machine word gives that word and the length of
/// its encoding, whatever follows.
pub proof fn lemma_varint_roundtrip(n: usize, rest: Seq<u8>)
    ensures
        varint_read(varint_encode(n as nat) + rest) == (VarintRead::Value {
            value: n,
            len: varint_encode(n as nat).len(),
        }),
{
    lemma_varint_encode_shape(n as nat);
    lemma_varint_encode_fits(n);
    lemma_varint_prefix(n as nat, rest);
    let e = varint_encode(n as nat);
    let s = e + rest;
    let k = first_low(s);
    assert(k + 1 == e.len());
    assert(s.take(k as int + 1) == e);
    assert(le128(e) % (usize::MAX as nat + 1) == n as nat) by {
        vstd::arithmetic::div_mod::lemma_small_mod(n as nat, usize::MAX as nat + 1);
    }
}

/// Bytes that follow do not move the first low byte of a sequence that has
/// one.
pub proof fn lemma_first_low_prefix(s: Seq<u8>, t: Seq<u8>)
    requires
        first_low(s) < s.len(),
    ensures
        first_low(s + t) == first_low(s),
    decreases s.len(),
{
    if s.len() > 0 {
        assert((s + t)[0] == s[0]);
        if s[0] >= 128 {
            assert((s + t).drop_first() =~= s.drop_first() + t);
            lemma_first_low_prefix(s.drop_first(), t);
        }
    }
}

/// A length prefix that was read is read again, the same, whatever bytes
/// are added behind the stream.
pub proof fn lemma_varint_read_prefix(s: Seq<u8>, t: Seq<u8>)
    requires
        varint_read(s) is Value,
    ensures
        varint_read(s + t) == varint_read(s),
{
    let k = first_low(s);
    lemma_first_low_prefix(s, t);
    assert((s + t).take(k as int + 1) =~= s.take(k as int + 1));
}

} // verus!

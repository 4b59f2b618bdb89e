//! A first look at bytes in the CBOR form: whether every length that they
//! announce lies within them, and how deep their lists and maps are nested.

use vstd::prelude::*;

verus! {

/// How deep lists and maps may be nested.
pub const MAX_DEPTH: usize = 128;

/// The number that bytes hold, the highest byte first.
pub open spec fn be_value(s: Seq<u8>) -> nat
    decreases s.len(),
{
    if s.len() == 0 {
        0
    } else {
        be_value(s.drop_last()) * 256 + s.last() as nat
    }
}

/// How many bytes hold the number that belongs to the first byte of an
/// item with the low bits `info`; none where the bits say so.
pub open spec fn arg_width(info: int) -> Option<int> {
    if info < 24 {
        Some(0)
    } else if info == 24 {
        Some(1)
    } else if info == 25 {
        Some(2)
    } else if info == 26 {
        Some(4)
    } else if info == 27 {
        Some(8)
    } else {
        None
    }
}

/// The number that belongs to the first byte of an item, and the position
/// behind it: the low bits themselves, or the bytes that follow.
pub open spec fn arg_at(bytes: Seq<u8>, pos: int, info: int) -> Option<(nat, int)> {
    match arg_width(info) {
        None => None,
        Some(w) => if w == 0 {
            Some((info as nat, pos))
        } else if pos + w <= bytes.len() {
            Some((be_value(bytes.subrange(pos, pos + w)), pos + w))
        } else {
            None
        },
    }
}

/// The position behind the item that starts at `pos`, where the item and
/// all in it lie within the bytes and are nested no deeper than `depth`.
///
/// Numbers take the bytes that their first byte announces. Bytes and text
/// take as many bytes as their length says. A list or map takes its items:
/// as many as its length says, which must not be more than the bytes that
/// are left, or all up to the byte `0xff`. A link is the tag 42 before bytes
/// of a length of one byte.
pub open spec fn item_end(bytes: Seq<u8>, pos: int, depth: nat) -> Option<int>
    decreases depth, 0nat, 0nat,
{
    if depth == 0 || pos < 0 || pos >= bytes.len() {
        None
    } else {
        let head = bytes[pos] as int;
        let major = head / 32;
        let info = head % 32;
        if major == 0 || major == 1 {
            match arg_at(bytes, pos + 1, info) {
                Some((n, p)) => Some(p),
                None => None,
            }
        } else if major == 2 || major == 3 {
            match arg_at(bytes, pos + 1, info) {
                Some((n, p)) => if p + n <= bytes.len() {
                    Some(p + n)
                } else {
                    None
                },
                None => None,
            }
        } else if major == 4 || major == 5 {
            if info == 31 {
                items_until_break(bytes, pos + 1, (depth - 1) as nat)
            } else {
                match arg_at(bytes, pos + 1, info) {
                    Some((n, p)) => if (major - 3) * n <= bytes.len() - p {
                        items_end(bytes, p, ((major - 3) * n) as nat, (depth - 1) as nat)
                    } else {
                        None
                    },
                    None => None,
                }
            }
        } else if major == 6 {
            if head == 0xd8 && pos + 4 <= bytes.len() && bytes[pos + 1] == 42 && bytes[pos + 2]
                == 0x58 && pos + 4 + bytes[pos + 3] <= bytes.len() {
                Some(pos + 4 + bytes[pos + 3])
            } else {
                None
            }
        } else if 0xf4 <= head <= 0xf7 {
            Some(pos + 1)
        } else if head == 0xfa && pos + 5 <= bytes.len() {
            Some(pos + 5)
        } else if head == 0xfb && pos + 9 <= bytes.len() {
            Some(pos + 9)
        } else {
            None
        }
    }
}

/// The position behind `count` items that start at `pos`.
pub open spec fn items_end(bytes: Seq<u8>, pos: int, count: nat, depth: nat) -> Option<int>
    decreases depth, 1nat, count,
{
    if count == 0 {
        Some(pos)
    } else {
        match item_end(bytes, pos, depth) {
            Some(p) => items_end(bytes, p, (count - 1) as nat, depth),
            None => None,
        }
    }
}

/// The position behind the byte `0xff` that ends the items that start at
/// `pos`.
pub open spec fn items_until_break(bytes: Seq<u8>, pos: int, depth: nat) -> Option<int>
    decreases depth, 1nat, bytes.len() - pos,
{
    if pos < 0 || pos >= bytes.len() {
        None
    } else if bytes[pos] == 0xff {
        Some(pos + 1)
    } else {
        match item_end(bytes, pos, depth) {
            Some(p) => if pos < p <= bytes.len() {
                items_until_break(bytes, p, depth)
            } else {
                None
            },
            None => None,
        }
    }
}

/// The bytes start with an item that lies within them, with all in it, and
/// is nested no deeper than lists and maps may be.
pub open spec fn framed(bytes: Seq<u8>) -> bool {
    item_end(bytes, 0, MAX_DEPTH as nat) is Some
}

/// An item that lies within the bytes ends behind its first byte and not
/// behind the last byte.
pub proof fn lemma_item_end_bounds(bytes: Seq<u8>, pos: int, depth: nat)
    ensures
        item_end(bytes, pos, depth) matches Some(p) ==> pos < p <= bytes.len(),
    decreases depth, 0nat, 0nat,
{
    if depth > 0 && 0 <= pos < bytes.len() {
        let head = bytes[pos] as int;
        let major = head / 32;
        let info = head % 32;
        if major == 4 || major == 5 {
            if info == 31 {
                lemma_until_break_bounds(bytes, pos + 1, (depth - 1) as nat);
            } else {
                match arg_at(bytes, pos + 1, info) {
                    Some((n, p)) => {
                        lemma_items_end_bounds(
                            bytes,
                            p,
                            ((major - 3) * n) as nat,
                            (depth - 1) as nat,
                        );
                    },
                    None => {},
                }
            }
        }
    }
}

/// Items that lie within the bytes end behind their start or at it, and not
/// behind the last byte.
pub proof fn lemma_items_end_bounds(bytes: Seq<u8>, pos: int, count: nat, depth: nat)
    requires
        pos <= bytes.len(),
    ensures
        items_end(bytes, pos, count, depth) matches Some(p) ==> pos <= p <= bytes.len(),
    decreases depth, 1nat, count,
{
    if count > 0 {
        lemma_item_end_bounds(bytes, pos, depth);
        match item_end(bytes, pos, depth) {
            Some(p) => {
                lemma_items_end_bounds(bytes, p, (count - 1) as nat, depth);
            },
            None => {},
        }
    }
}

/// Items up to a byte `0xff` end behind their start and not behind the last
/// byte.
pub proof fn lemma_until_break_bounds(bytes: Seq<u8>, pos: int, depth: nat)
    ensures
        items_until_break(bytes, pos, depth) matches Some(p) ==> pos < p <= bytes.len(),
    decreases depth, 1nat, bytes.len() - pos,
{
    if 0 <= pos < bytes.len() && bytes[pos] != 0xff {
        lemma_item_end_bounds(bytes, pos, depth);
        match item_end(bytes, pos, depth) {
            Some(p) => {
                if pos < p <= bytes.len() {
                    lemma_until_break_bounds(bytes, p, depth);
                }
            },
            None => {},
        }
    }
}

/// The number that the `w` bytes from `pos` on hold, the highest byte first.
fn read_be(bytes: &[u8], pos: usize, w: usize) -> (v: u64)
    requires
        w <= 8,
        pos + w <= bytes@.len(),
    ensures
        v == be_value(bytes@.subrange(pos as int, pos + w)),
{
    let total = bytes.len();
    let mut v: u64 = 0;
    let mut i: usize = 0;
    proof {
        assert(bytes@.subrange(pos as int, pos as int) =~= Seq::<u8>::empty());
    }
    while i < w
        invariant
            i <= w <= 8,
            pos + w <= bytes@.len(),
            total == bytes@.len(),
            v == be_value(bytes@.subrange(pos as int, pos + i)),
            v < pow256(i as nat),
        decreases w - i,
    {
        proof {
            let s = bytes@.subrange(pos as int, pos + i + 1);
            assert(s.drop_last() =~= bytes@.subrange(pos as int, pos + i));
            assert(s.last() == bytes@[pos + i]);
            lemma_pow256(i as nat);
        }
        v = v * 256 + bytes[pos + i] as u64;
        i = i + 1;
    }
    v
}

/// 256 to the power `k`.
pub open spec fn pow256(k: nat) -> nat
    decreases k,
{
    if k == 0 {
        1
    } else {
        256 * pow256((k - 1) as nat)
    }
}

/// The powers of 256 up to the eighth fit in 64 bits.
pub proof fn lemma_pow256(k: nat)
    requires
        k < 8,
    ensures
        pow256(k) <= 0x0100_0000_0000_0000,
        pow256(k + 1) == 256 * pow256(k),
{
    reveal_with_fuel(pow256, 9);
}

/// The number that belongs to the first byte of an item, and the position
/// behind it.
fn read_arg(bytes: &[u8], pos: usize, info: u8) -> (r: Option<(u64, usize)>)
    requires
        pos <= bytes@.len(),
        info < 32,
    ensures
        match arg_at(bytes@, pos as int, info as int) {
            Some((n, p)) => r == Some((n as u64, p as usize)) && n <= u64::MAX && pos <= p
                <= bytes@.len(),
            None => r is None,
        },
{
    let w: usize = if info < 24 {
        return Some((info as u64, pos));
    } else if info == 24 {
        1
    } else if info == 25 {
        2
    } else if info == 26 {
        4
    } else if info == 27 {
        8
    } else {
        return None;
    };
    if w > bytes.len() - pos {
        return None;
    }
    Some((read_be(bytes, pos, w), pos + w))
}

/// The position behind the item that starts at `pos`.
fn check_item(bytes: &[u8], pos: usize, depth: usize) -> (r: Option<usize>)
    ensures
        match item_end(bytes@, pos as int, depth as nat) {
            Some(p) => r == Some(p as usize) && pos < p <= bytes@.len(),
            None => r is None,
        },
    decreases depth, 0nat, 0nat,
{
    proof {
        lemma_item_end_bounds(bytes@, pos as int, depth as nat);
    }
    if depth == 0 || pos >= bytes.len() {
        return None;
    }
    let head = bytes[pos];
    let major = head / 32;
    let info = head % 32;
    if major == 0 || major == 1 {
        match read_arg(bytes, pos + 1, info) {
            Some((n, p)) => Some(p),
            None => None,
        }
    } else if major == 2 || major == 3 {
        match read_arg(bytes, pos + 1, info) {
            Some((n, p)) => if n <= (bytes.len() - p) as u64 {
                Some(p + n as usize)
            } else {
                None
            },
            None => None,
        }
    } else if major == 4 || major == 5 {
        if info == 31 {
            check_until_break(bytes, pos + 1, depth - 1)
        } else {
            match read_arg(bytes, pos + 1, info) {
                Some((n, p)) => {
                    let left = (bytes.len() - p) as u64;
                    let each: u64 = if major == 4 {
                        1
                    } else {
                        2
                    };
                    if n <= left / each {
                        assert(each * n <= left) by (nonlinear_arith)
                            requires
                                n <= left / each,
                                each == 1 || each == 2,
                        ;
                        check_items(bytes, p, each * n, depth - 1)
                    } else {
                        assert(each * n > left) by (nonlinear_arith)
                            requires
                                n > left / each,
                                each == 1 || each == 2,
                        ;
                        None
                    }
                },
                None => None,
            }
        }
    } else if major == 6 {
        if head == 0xd8 && bytes.len() - pos >= 4 && bytes[pos + 1] == 42 && bytes[pos + 2] == 0x58
            && bytes[pos + 3] as usize <= bytes.len() - pos - 4 {
            Some(pos + 4 + bytes[pos + 3] as usize)
        } else {
            None
        }
    } else if 0xf4 <= head && head <= 0xf7 {
        Some(pos + 1)
    } else if head == 0xfa && bytes.len() - pos >= 5 {
        Some(pos + 5)
    } else if head == 0xfb && bytes.len() - pos >= 9 {
        Some(pos + 9)
    } else {
        None
    }
}

/// The position behind `count` items that start at `pos`.
fn check_items(bytes: &[u8], pos: usize, count: u64, depth: usize) -> (r: Option<usize>)
    requires
        pos <= bytes@.len(),
    ensures
        match items_end(bytes@, pos as int, count as nat, depth as nat) {
            Some(p) => r == Some(p as usize) && pos <= p <= bytes@.len(),
            None => r is None,
        },
    decreases depth, 1nat, count,
{
    proof {
        lemma_items_end_bounds(bytes@, pos as int, count as nat, depth as nat);
    }
    if count == 0 {
        return Some(pos);
    }
    let total = bytes.len();
    match check_item(bytes, pos, depth) {
        Some(p) => check_items(bytes, p, count - 1, depth),
        None => None,
    }
}

/// The position behind the byte `0xff` that ends the items that start at
/// `pos`.
fn check_until_break(bytes: &[u8], pos: usize, depth: usize) -> (r: Option<usize>)
    ensures
        match items_until_break(bytes@, pos as int, depth as nat) {
            Some(p) => r == Some(p as usize) && pos < p <= bytes@.len(),
            None => r is None,
        },
    decreases depth, 1nat, bytes@.len() - pos,
{
    proof {
        lemma_until_break_bounds(bytes@, pos as int, depth as nat);
    }
    let total = bytes.len();
    if pos >= total {
        return None;
    }
    if bytes[pos] == 0xff {
        return Some(pos + 1);
    }
    match check_item(bytes, pos, depth) {
        Some(p) => check_until_break(bytes, p, depth),
        None => None,
    }
}

/// Whether the bytes start with an item that lies within them, with all in
/// it, and is nested no deeper than lists and maps may be.
pub fn well_framed(bytes: &[u8]) -> (ok: bool)
    ensures
        ok == framed(bytes@),
{
    check_item(bytes, 0, MAX_DEPTH).is_some()
}

} // verus!

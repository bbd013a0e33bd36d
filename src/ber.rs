//! BER building blocks: lengths, tag-length-value framing, two's complement
//! integers and base-128 sub-identifiers. Each reader is the exact
//! executable counterpart of a spec reader, and each writer of a spec writer.
use vstd::prelude::*;

verus! {

pub open spec fn pow256(k: nat) -> nat
    decreases k,
{
    if k == 0 { 1 } else { 256 * pow256((k - 1) as nat) }
}

// ---------------------------------------------------------------- lengths

/// Definite-length octets of `n` (short form below 128, else long form).
pub open spec fn len_bytes(n: nat) -> Seq<u8> {
    if n < 128 {
        seq![n as u8]
    } else if n < 256 {
        seq![0x81u8, n as u8]
    } else {
        seq![0x82u8, (n / 256) as u8, (n % 256) as u8]
    }
}

/// Reads a definite length: its value and how many octets it took. The
/// long form may use one to four length octets, minimal or not; the
/// indefinite form (`0x80`) is refused.
#[verifier::opaque]
pub open spec fn read_len(s: Seq<u8>) -> Option<(nat, nat)> {
    if s.len() >= 1 && s[0] < 128 {
        Some((s[0] as nat, 1))
    } else if s.len() >= 1 && 0x81 <= s[0] <= 0x84 && s.len() >= 1 + (s[0] - 0x80) {
        let k = (s[0] - 0x80) as nat;
        Some((be_value(s.subrange(1, 1 + k as int)), 1 + k))
    } else {
        None
    }
}

/// One tag-length-value element.
pub open spec fn tlv(tag: u8, c: Seq<u8>) -> Seq<u8> {
    seq![tag] + len_bytes(c.len()) + c
}

/// Reads one element: its tag, its content and how many octets it took.
pub open spec fn read_tlv(s: Seq<u8>) -> Option<(u8, Seq<u8>, nat)> {
    if s.len() == 0 {
        None
    } else {
        match read_len(s.drop_first()) {
            Some((n, k)) => if 1 + k + n <= s.len() {
                Some((s[0], s.subrange(1 + k as int, 1 + k + n as int), 1 + k + n))
            } else {
                None
            },
            None => None,
        }
    }
}

pub proof fn lemma_read_tlv(tag: u8, c: Seq<u8>, rest: Seq<u8>)
    requires
        c.len() < 65536,
    ensures
        read_tlv(tlv(tag, c) + rest) == Some((tag, c, tlv(tag, c).len())),
        tlv(tag, c).len() == 1 + len_bytes(c.len()).len() + c.len(),
{
    let s = tlv(tag, c) + rest;
    let l = len_bytes(c.len());
    assert(s.drop_first() == l + c + rest);
    let n = c.len();
    let t = s.drop_first();
    reveal(read_len);
    if n >= 256 {
        assert((n / 256) * 256 + n % 256 == n) by (nonlinear_arith);
        assert(n / 256 < 256) by (nonlinear_arith)
            requires n < 65536;
        let d = t.subrange(1, 3);
        assert(d == seq![(n / 256) as u8, (n % 256) as u8]);
        assert(d.drop_last() == seq![(n / 256) as u8]);
        assert(d.drop_last().drop_last().len() == 0);
        assert(be_value(d.drop_last().drop_last()) == 0);
        assert(be_value(d.drop_last()) == be_value(d.drop_last().drop_last()) * 256 + d.drop_last().last());
        assert(be_value(d.drop_last()) == n / 256);
        assert(be_value(d) == be_value(d.drop_last()) * 256 + d.last());
        assert(be_value(d) == n);
    } else if n >= 128 {
        let d = t.subrange(1, 2);
        assert(d == seq![n as u8]);
        assert(d.drop_last().len() == 0);
        assert(be_value(d.drop_last()) == 0);
        assert(be_value(d) == be_value(d.drop_last()) * 256 + d.last());
        assert(be_value(d) == n);
    }
    assert(read_len(t) == Some((n, l.len())));
    assert(s.subrange(1 + l.len() as int, 1 + l.len() + n as int) == c);
}

/// Reads the length at `pos` within `b[..end]`: its value and octets taken.
fn read_len_at(b: &Vec<u8>, pos: usize, end: usize) -> (r: Option<(u64, usize)>)
    requires
        pos <= end <= b@.len(),
    ensures
        read_len(b@.subrange(pos as int, end as int)) == (match r {
            Some((n, k)) => Some((n as nat, k as nat)),
            None => None,
        }),
        r matches Some((n, k)) ==> 1 <= k <= end - pos,
{
    let ghost s = b@.subrange(pos as int, end as int);
    proof {
        reveal(read_len);
    }
    if end - pos < 1 {
        return None;
    }
    let first = b[pos];
    assert(s[0] == first);
    if first < 128 {
        return Some((first as u64, 1));
    }
    if first < 0x81 || first > 0x84 || end - pos < 1 + (first - 0x80) as usize {
        return None;
    }
    let k: usize = (first - 0x80) as usize;
    let mut acc: u64 = 0;
    let mut i: usize = 0;
    while i < k
        invariant
            1 <= k <= 4,
            pos + 1 + k <= end <= b@.len(),
            i <= k,
            s == b@.subrange(pos as int, end as int),
            acc == be_value(s.subrange(1, 1 + i as int)),
        decreases k - i,
    {
        proof {
            let t = s.subrange(1, 1 + i as int);
            lemma_be_bound(t);
            lemma_pow256_le9(i as nat);
            assert(pow256(i as nat) <= pow256(3)) by {
                reveal_with_fuel(pow256, 5);
            }
            lemma_pow256_small();
            assert(s.subrange(1, 2 + i as int).drop_last() == t);
            assert(s.subrange(1, 2 + i as int).last() == b@[pos + 1 + i]);
        }
        acc = acc * 256 + b[pos + 1 + i] as u64;
        i = i + 1;
    }
    Some((acc, 1 + k))
}

/// Reads the element at `start` within `b[..end]`: tag, content start, content end.
pub fn read_tlv_at(b: &Vec<u8>, start: usize, end: usize) -> (r: Option<(u8, usize, usize)>)
    requires
        start <= end <= b@.len(),
    ensures
        read_tlv(b@.subrange(start as int, end as int)) == (match r {
            Some((t, cs, ce)) => Some((t, b@.subrange(cs as int, ce as int), (ce - start) as nat)),
            None => None,
        }),
        r matches Some((t, cs, ce)) ==> start < cs <= ce <= end,
{
    let ghost s = b@.subrange(start as int, end as int);
    if start >= end {
        return None;
    }
    let tag = b[start];
    proof {
        assert(s.drop_first() == b@.subrange(start + 1, end as int));
    }
    match read_len_at(b, start + 1, end) {
        Some((n64, k)) => {
            if n64 <= (end - start - 1 - k) as u64 {
                let n = n64 as usize;
                let cs = start + 1 + k;
                proof {
                    assert(s.subrange(1 + k as int, 1 + k + n as int) == b@.subrange(cs as int, cs + n as int));
                }
                Some((tag, cs, cs + n))
            } else {
                None
            }
        },
        None => None,
    }
}

/// Appends one element.
pub fn push_tlv(tag: u8, c: &Vec<u8>, out: &mut Vec<u8>)
    requires
        c@.len() < 65536,
    ensures
        final(out)@ == old(out)@ + tlv(tag, c@),
{
    let n = c.len();
    out.push(tag);
    if n < 128 {
        out.push(n as u8);
    } else if n < 256 {
        out.push(0x81);
        out.push(n as u8);
    } else {
        out.push(0x82);
        out.push((n / 256) as u8);
        out.push((n % 256) as u8);
    }
    let ghost mid = out@;
    let mut i: usize = 0;
    while i < n
        invariant
            i <= n == c@.len(),
            out@ == mid + c@.take(i as int),
        decreases n - i,
    {
        out.push(c[i]);
        proof {
            assert(c@.take(i + 1 as int) == c@.take(i as int).push(c@[i as int]));
        }
        i = i + 1;
    }
    proof {
        assert(c@.take(n as int) == c@);
        assert(mid == old(out)@ + seq![tag] + len_bytes(c@.len()));
    }
}

// ---------------------------------------------------------------- integers

/// Unsigned big-endian value of octets.
pub open spec fn be_value(s: Seq<u8>) -> nat
    decreases s.len(),
{
    if s.len() == 0 { 0 } else { be_value(s.drop_last()) * 256 + s.last() as nat }
}

/// The value of two's complement big-endian content octets.
pub open spec fn signed_value(s: Seq<u8>) -> int {
    if be_value(s) * 2 >= pow256(s.len()) {
        be_value(s) - pow256(s.len())
    } else {
        be_value(s) as int
    }
}

/// The `k` low octets of `u`, big-endian.
pub open spec fn nat_bytes(u: nat, k: nat) -> Seq<u8>
    decreases k,
{
    if k == 0 { Seq::empty() } else { nat_bytes(u / 256, (k - 1) as nat).push((u % 256) as u8) }
}

/// `v` fits in `k` octets of two's complement.
pub open spec fn fits(v: int, k: nat) -> bool {
    -(pow256(k) as int) <= 2 * v < pow256(k)
}

pub open spec fn int_len_from(v: int, k: nat) -> nat
    decreases 9 - k,
{
    if k >= 9 || fits(v, k) { k } else { int_len_from(v, k + 1) }
}

/// The fewest octets (at least one) that hold `v`.
pub open spec fn int_len(v: int) -> nat {
    int_len_from(v, 1)
}

/// `v` in `k` octets of two's complement, as an unsigned number.
pub open spec fn twos(v: int, k: nat) -> nat {
    if v >= 0 { v as nat } else { (v + pow256(k)) as nat }
}

/// Minimal two's complement content octets of an integer.
pub open spec fn int_content(v: int) -> Seq<u8> {
    nat_bytes(twos(v, int_len(v)), int_len(v))
}

/// Integers that this codec carries: from `i32::MIN` to `u64::MAX`.
pub open spec fn int_in_range(v: int) -> bool {
    i32::MIN <= v <= u64::MAX
}

/// Reads the content of an INTEGER of at most nine octets.
pub open spec fn read_int(c: Seq<u8>) -> Option<int> {
    if 1 <= c.len() <= 9 { Some(signed_value(c)) } else { None }
}

proof fn lemma_pow256_small()
    ensures
        pow256(1) == 256,
        pow256(2) == 0x1_0000,
        pow256(3) == 0x100_0000,
        pow256(4) == 0x1_0000_0000,
        pow256(5) == 0x100_0000_0000,
        pow256(6) == 0x1_0000_0000_0000,
        pow256(7) == 0x100_0000_0000_0000,
        pow256(8) == 0x1_0000_0000_0000_0000,
        pow256(9) == 0x100_0000_0000_0000_0000,
{
    reveal_with_fuel(pow256, 10);
}

proof fn lemma_pow256_le9(k: nat)
    requires
        k <= 9,
    ensures
        1 <= pow256(k) <= 0x100_0000_0000_0000_0000,
{
    lemma_pow256_small();
    if k == 0 {
    } else if k == 1 {
    } else if k == 2 {
    } else if k == 3 {
    } else if k == 4 {
    } else if k == 5 {
    } else if k == 6 {
    } else if k == 7 {
    } else if k == 8 {
    } else {
        assert(k == 9);
    }
}

proof fn lemma_pow256_pos(k: nat)
    ensures
        pow256(k) >= 1,
    decreases k,
{
    if k > 0 {
        lemma_pow256_pos((k - 1) as nat);
    }
}

proof fn lemma_be_bound(s: Seq<u8>)
    ensures
        be_value(s) < pow256(s.len()),
    decreases s.len(),
{
    if s.len() > 0 {
        lemma_be_bound(s.drop_last());
        let b = be_value(s.drop_last());
        let p = pow256(s.drop_last().len());
        let l = s.last() as nat;
        assert(b * 256 + l < 256 * p) by (nonlinear_arith)
            requires b < p, l < 256;
    }
}

proof fn lemma_nat_bytes(u: nat, k: nat)
    requires
        u < pow256(k),
    ensures
        be_value(nat_bytes(u, k)) == u,
        nat_bytes(u, k).len() == k,
    decreases k,
{
    if k > 0 {
        let p = pow256((k - 1) as nat);
        assert(u / 256 < p) by (nonlinear_arith)
            requires u < 256 * p;
        lemma_nat_bytes(u / 256, (k - 1) as nat);
        let s = nat_bytes(u, k);
        assert(s.drop_last() == nat_bytes(u / 256, (k - 1) as nat));
        assert((u / 256) * 256 + u % 256 == u) by (nonlinear_arith);
    } else {
        assert(u == 0);
    }
}

proof fn lemma_int_len_from(v: int, k: nat)
    requires
        1 <= k <= 9,
        int_in_range(v),
    ensures
        k <= int_len_from(v, k) <= 9,
        fits(v, int_len_from(v, k)),
    decreases 9 - k,
{
    lemma_pow256_small();
    if !(k >= 9 || fits(v, k)) {
        lemma_int_len_from(v, k + 1);
    }
}

/// Integer content octets read back as the integer they were made from.
pub proof fn lemma_int_round_trip(v: int)
    requires
        int_in_range(v),
    ensures
        read_int(int_content(v)) == Some(v),
        1 <= int_content(v).len() <= 9,
{
    lemma_int_len_from(v, 1);
    let k = int_len(v);
    let p = pow256(k);
    lemma_pow256_pos(k);
    let u = twos(v, k);
    assert(u < p);
    lemma_nat_bytes(u, k);
}

/// `256^k` for `k <= 9`.
fn pow256_exec(k: usize) -> (r: u128)
    requires
        k <= 9,
    ensures
        r == pow256(k as nat),
{
    let mut r: u128 = 1;
    let mut i: usize = 0;
    proof {
        lemma_pow256_small();
    }
    while i < k
        invariant
            i <= k <= 9,
            r == pow256(i as nat),
        decreases k - i,
    {
        proof {
            lemma_pow256_small();
            assert(pow256((i + 1) as nat) == 256 * pow256(i as nat));
        }
        r = r * 256;
        i = i + 1;
    }
    r
}

/// The integer held by the content `b[start..end]`, if it has one to nine octets.
pub fn decode_int(b: &Vec<u8>, start: usize, end: usize) -> (r: Option<i128>)
    requires
        start <= end <= b@.len(),
    ensures
        read_int(b@.subrange(start as int, end as int)) == (match r {
            Some(v) => Some(v as int),
            None => None,
        }),
{
    let ghost s = b@.subrange(start as int, end as int);
    if end - start < 1 || end - start > 9 {
        return None;
    }
    let mut u: u128 = 0;
    let mut i: usize = start;
    while i < end
        invariant
            start <= i <= end <= b@.len(),
            end - start <= 9,
            u == be_value(b@.subrange(start as int, i as int)),
        decreases end - i,
    {
        proof {
            let t = b@.subrange(start as int, i as int);
            lemma_be_bound(t);
            lemma_pow256_small();
            assert(pow256(t.len()) <= pow256(8)) by {
                reveal_with_fuel(pow256, 10);
            }
            assert(b@.subrange(start as int, i + 1 as int).drop_last() == t);
        }
        u = u * 256 + b[i] as u128;
        i = i + 1;
    }
    let p = pow256_exec(end - start);
    proof {
        lemma_be_bound(s);
        lemma_pow256_small();
        assert(pow256(s.len()) <= pow256(9)) by {
            reveal_with_fuel(pow256, 10);
        }
    }
    if u * 2 >= p {
        Some(u as i128 - p as i128)
    } else {
        Some(u as i128)
    }
}

/// Appends the `k` low octets of `u`, big-endian.
fn push_nat_bytes(u: u128, k: usize, out: &mut Vec<u8>)
    ensures
        final(out)@ == old(out)@ + nat_bytes(u as nat, k as nat),
    decreases k,
{
    if k > 0 {
        push_nat_bytes(u / 256, k - 1, out);
        out.push((u % 256) as u8);
    }
}

/// Appends the minimal content octets of `v`.
pub fn push_int_content(v: i128, out: &mut Vec<u8>)
    requires
        int_in_range(v as int),
    ensures
        final(out)@ == old(out)@ + int_content(v as int),
{
    let mut k: usize = 1;
    proof {
        lemma_pow256_small();
    }
    loop
        invariant
            1 <= k <= 9,
            int_len(v as int) == int_len_from(v as int, k as nat),
            int_in_range(v as int),
        ensures
            1 <= k <= 9,
            int_len(v as int) == k,
        decreases 9 - k,
    {
        let p = pow256_exec(k);
        proof {
            lemma_pow256_le9(k as nat);
        }
        if k >= 9 || (-(p as i128) <= 2 * v && 2 * v < p as i128) {
            proof {
                assert(int_len_from(v as int, k as nat) == k);
            }
            break;
        }
        proof {
            assert(int_len_from(v as int, k as nat) == int_len_from(v as int, k as nat + 1));
        }
        k = k + 1;
    }
    proof {
        lemma_int_len_from(v as int, 1);
        lemma_pow256_le9(k as nat);
    }
    let p = pow256_exec(k);
    proof {
        assert(fits(v as int, k as nat));
    }
    let u: u128 = if v >= 0 { v as u128 } else { (v + p as i128) as u128 };
    push_nat_bytes(u, k, out);
}

// ---------------------------------------------------------------- sub-identifiers

/// Base-128 octets of `a`, high group first, every octet but the last with bit 8 set.
pub open spec fn b128(a: nat) -> Seq<u8>
    decreases a,
{
    if a < 128 { seq![a as u8] } else { b128_high(a / 128).push((a % 128) as u8) }
}

pub open spec fn b128_high(a: nat) -> Seq<u8>
    decreases a,
{
    if a < 128 { seq![(a + 128) as u8] } else { b128_high(a / 128).push((a % 128 + 128) as u8) }
}

/// The number that base-128 groups spell, ignoring bit 8 of each.
pub open spec fn b128_value(g: Seq<u8>) -> nat
    decreases g.len(),
{
    if g.len() == 0 { 0 } else { b128_value(g.drop_last()) * 128 + (g.last() % 128) as nat }
}

/// Index of the first octet without bit 8.
pub open spec fn first_stop(s: Seq<u8>) -> Option<nat>
    decreases s.len(),
{
    if s.len() == 0 {
        None
    } else if s[0] < 128 {
        Some(0)
    } else {
        match first_stop(s.drop_first()) {
            Some(p) => Some(p + 1),
            None => None,
        }
    }
}

/// Reads one sub-identifier of at most five octets that fits in `u32`.
pub open spec fn read_subid(s: Seq<u8>) -> Option<(nat, nat)> {
    match first_stop(s) {
        Some(p) => if p < 5 && b128_value(s.take(p + 1 as int)) <= u32::MAX {
            Some((b128_value(s.take(p + 1 as int)), p + 1))
        } else {
            None
        },
        None => None,
    }
}

proof fn lemma_first_stop(s: Seq<u8>, p: nat)
    requires
        p < s.len(),
        s[p as int] < 128,
        forall|q: int| 0 <= q < p ==> s[q] >= 128,
    ensures
        first_stop(s) == Some(p),
    decreases p,
{
    if p > 0 {
        lemma_first_stop(s.drop_first(), (p - 1) as nat);
    }
}

proof fn lemma_first_stop_bound(s: Seq<u8>)
    ensures
        first_stop(s) matches Some(p) ==> p < s.len(),
    decreases s.len(),
{
    if s.len() > 0 {
        lemma_first_stop_bound(s.drop_first());
    }
}

proof fn lemma_first_stop_late(s: Seq<u8>, j: nat)
    requires
        j <= s.len(),
        forall|q: int| 0 <= q < j ==> s[q] >= 128,
    ensures
        first_stop(s) matches Some(p) ==> p >= j,
    decreases j,
{
    if j > 0 {
        lemma_first_stop_late(s.drop_first(), (j - 1) as nat);
    }
}

proof fn lemma_b128_high(a: nat)
    ensures
        b128_value(b128_high(a)) == a,
        b128_high(a).len() >= 1,
        forall|q: int| 0 <= q < b128_high(a).len() ==> #[trigger] b128_high(a)[q] >= 128,
    decreases a,
{
    let g = b128_high(a);
    assert(b128_value(g) == b128_value(g.drop_last()) * 128 + (g.last() % 128) as nat);
    if a >= 128 {
        lemma_b128_high(a / 128);
        assert(g.drop_last() == b128_high(a / 128));
        assert((a / 128) * 128 + a % 128 == a) by (nonlinear_arith);
        assert(((a % 128 + 128) as u8) % 128 == a % 128);
    } else {
        assert(g.drop_last().len() == 0);
        assert(b128_value(g.drop_last()) == 0);
        assert(((a + 128) as u8) % 128 == a);
    }
}

proof fn lemma_b128_high_len(a: nat, k: nat)
    requires
        a < pow128(k),
        k >= 1,
    ensures
        b128_high(a).len() <= k,
    decreases a,
{
    if a >= 128 {
        if k <= 1 {
            reveal_with_fuel(pow128, 2);
        } else {
            let p = pow128((k - 1) as nat);
            assert(a / 128 < p) by (nonlinear_arith)
                requires a < 128 * p;
            lemma_b128_high_len(a / 128, (k - 1) as nat);
        }
    } else {
        if k == 0 {
            assert(pow128(0) == 1);
        }
    }
}

pub open spec fn pow128(k: nat) -> nat
    decreases k,
{
    if k == 0 { 1 } else { 128 * pow128((k - 1) as nat) }
}

/// Base-128 octets read back as the sub-identifier they were made from.
pub proof fn lemma_subid_round_trip(a: nat, rest: Seq<u8>)
    requires
        a <= u32::MAX,
    ensures
        read_subid(b128(a) + rest) == Some((a, b128(a).len())),
        b128(a).len() >= 1,
{
    let g = b128(a);
    let s = g + rest;
    if a >= 128 {
        lemma_b128_high(a / 128);
        reveal_with_fuel(pow128, 5);
        assert(a / 128 < pow128(4));
        lemma_b128_high_len(a / 128, 4);
        assert(g.drop_last() == b128_high(a / 128));
        assert((a / 128) * 128 + a % 128 == a) by (nonlinear_arith);
        assert forall|q: int| 0 <= q < g.len() - 1 implies s[q] >= 128 by {
            assert(s[q] == b128_high(a / 128)[q]);
        }
        assert(b128_value(g) == b128_value(b128_high(a / 128)) * 128 + a % 128);
    } else {
        assert(g.drop_last().len() == 0);
        assert(b128_value(g.drop_last()) == 0);
        assert(g.last() == a as u8);
        assert(b128_value(g) == b128_value(g.drop_last()) * 128 + (g.last() % 128) as nat);
    }
    assert(b128_value(g) == a);
    assert(s[g.len() - 1] == g.last());
    lemma_first_stop(s, (g.len() - 1) as nat);
    assert(s.take(g.len() as int) == g);
}

/// Reads the sub-identifier at `pos` within `b[..end]`: value and octets taken.
pub fn read_subid_at(b: &Vec<u8>, pos: usize, end: usize) -> (r: Option<(u32, usize)>)
    requires
        pos <= end <= b@.len(),
    ensures
        read_subid(b@.subrange(pos as int, end as int)) == (match r {
            Some((v, k)) => Some((v as nat, k as nat)),
            None => None,
        }),
{
    let ghost s = b@.subrange(pos as int, end as int);
    let mut acc: u64 = 0;
    let mut i: usize = pos;
    while i < end && i - pos < 5
        invariant
            pos <= i <= end <= b@.len(),
            i - pos <= 5,
            s == b@.subrange(pos as int, end as int),
            forall|q: int| 0 <= q < i - pos ==> s[q] >= 128,
            acc == b128_value(s.take(i - pos)),
            acc < pow128((i - pos) as nat),
        decreases end - i,
    {
        let o = b[i];
        proof {
            reveal_with_fuel(pow128, 6);
            assert(s[i - pos] == o);
            assert(s.take(i - pos + 1).drop_last() == s.take(i - pos));
            let p = pow128((i - pos) as nat);
            let d = (o % 128) as nat;
            assert(acc * 128 + d < 128 * p) by (nonlinear_arith)
                requires acc < p, d < 128;
            assert(pow128((i - pos) as nat) <= pow128(4)) by {
                reveal_with_fuel(pow128, 6);
            }
        }
        acc = acc * 128 + (o % 128) as u64;
        if o < 128 {
            proof {
                lemma_first_stop(s, (i - pos) as nat);
            }
            if acc > 0xffff_ffff {
                return None;
            }
            return Some((acc as u32, i + 1 - pos));
        }
        i = i + 1;
    }
    proof {
        lemma_first_stop_late(s, (i - pos) as nat);
        lemma_first_stop_bound(s);
    }
    None
}

/// Appends the base-128 octets of `a`.
pub fn push_b128(a: u32, out: &mut Vec<u8>)
    ensures
        final(out)@ == old(out)@ + b128(a as nat),
{
    if a >= 128 {
        push_b128_high(a / 128, out);
    }
    out.push((a % 128) as u8);
    proof {
        if a < 128 {
            assert(a % 128 == a);
        }
    }
}

fn push_b128_high(a: u32, out: &mut Vec<u8>)
    ensures
        final(out)@ == old(out)@ + b128_high(a as nat),
    decreases a,
{
    if a >= 128 {
        push_b128_high(a / 128, out);
    }
    out.push((a % 128 + 128) as u8);
    proof {
        if a < 128 {
            assert(a % 128 == a);
        }
    }
}

proof fn lemma_pow256_le8(k: nat)
    requires
        1 <= k <= 8,
    ensures
        pow256(k) <= 0x1_0000_0000_0000_0000,
{
    lemma_pow256_small();
    if k == 1 {
    } else if k == 2 {
    } else if k == 3 {
    } else if k == 4 {
    } else if k == 5 {
    } else if k == 6 {
    } else if k == 7 {
    } else {
        assert(k == 8);
    }
}

/// The number that INTEGER content octets hold, when there are one to eight
/// of them, so that it fits in `i64`.
pub fn integer_as_i64(b: &Vec<u8>) -> (r: Option<i64>)
    ensures
        r is Some <==> 1 <= b@.len() <= 8,
        r matches Some(v) ==> v == signed_value(b@),
{
    if b.len() < 1 || b.len() > 8 {
        return None;
    }
    proof {
        assert(b@.subrange(0, b@.len() as int) == b@);
        lemma_be_bound(b@);
        lemma_pow256_le8(b@.len());
    }
    match decode_int(b, 0, b.len()) {
        Some(v) => Some(v as i64),
        None => None,
    }
}

} // verus!

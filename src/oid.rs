//! Object identifiers: numeric paths, their dotted text form and the prefix relation.
use vstd::prelude::*;

use crate::error::Error;

verus! {

/// The characters of one decimal digit, by value.
pub open spec fn digit_char(d: nat) -> char {
    seq!['0', '1', '2', '3', '4', '5', '6', '7', '8', '9'][d as int]
}

pub open spec fn is_digit(c: char) -> bool {
    '0' <= c && c <= '9'
}

pub open spec fn digit_value(c: char) -> nat {
    (c as int - '0' as int) as nat
}

/// Decimal rendering of `n`, most significant digit first, without leading zeros.
pub open spec fn decimal(n: nat) -> Seq<char>
    decreases n,
{
    if n < 10 {
        seq![digit_char(n)]
    } else {
        decimal(n / 10).push(digit_char(n % 10))
    }
}

/// The value of a run of decimal digits (0 for the empty run).
pub open spec fn decimal_value(seg: Seq<char>) -> nat
    decreases seg.len(),
{
    if seg.len() == 0 {
        0
    } else {
        decimal_value(seg.drop_last()) * 10 + digit_value(seg.last())
    }
}

/// The pieces of `s` between dots, left to right; `s` with no dot is one piece.
pub open spec fn split_dots(s: Seq<char>) -> Seq<Seq<char>>
    decreases s.len(),
{
    if s.len() == 0 {
        seq![Seq::empty()]
    } else {
        let prev = split_dots(s.drop_last());
        if s.last() == '.' {
            prev.push(Seq::empty())
        } else {
            prev.update(prev.len() - 1, prev.last().push(s.last()))
        }
    }
}

/// Pieces joined with a dot between each two.
pub open spec fn join_dots(segs: Seq<Seq<char>>) -> Seq<char>
    decreases segs.len(),
{
    if segs.len() <= 1 {
        if segs.len() == 1 { segs[0] } else { Seq::empty() }
    } else {
        join_dots(segs.drop_last()) + seq!['.'] + segs.last()
    }
}

/// A piece that reads as a sub-identifier: digits only, at least one, within `u32`.
pub open spec fn segment_ok(seg: Seq<char>) -> bool {
    &&& seg.len() > 0
    &&& forall|k: int| 0 <= k < seg.len() ==> is_digit(#[trigger] seg[k])
    &&& decimal_value(seg) <= u32::MAX
}

/// A piece in canonical form: no leading zero unless it is `0` itself.
pub open spec fn segment_canonical(seg: Seq<char>) -> bool {
    segment_ok(seg) && (seg.len() == 1 || seg[0] != '0')
}

/// `s` is a dotted list of numbers that `parse` accepts.
pub open spec fn text_ok(s: Seq<char>) -> bool {
    forall|j: int| 0 <= j < split_dots(s).len() ==> segment_ok(#[trigger] split_dots(s)[j])
}

/// `s` is the canonical text of an identifier.
pub open spec fn text_canonical(s: Seq<char>) -> bool {
    forall|j: int| 0 <= j < split_dots(s).len() ==> segment_canonical(#[trigger] split_dots(s)[j])
}

/// The sub-identifiers that the text `s` denotes.
pub open spec fn text_value(s: Seq<char>) -> Seq<u32> {
    split_dots(s).map_values(|seg: Seq<char>| decimal_value(seg) as u32)
}

/// Canonical text of a sub-identifier sequence.
pub open spec fn text_of(arcs: Seq<u32>) -> Seq<char> {
    join_dots(arcs.map_values(|a: u32| decimal(a as nat)))
}

/// `prefix` is a literal prefix of `arcs`.
pub open spec fn is_prefix(prefix: Seq<u32>, arcs: Seq<u32>) -> bool {
    prefix.len() <= arcs.len() && arcs.subrange(0, prefix.len() as int) == prefix
}

/// `a` comes before `b` in the lexicographic order of sub-identifiers, a
/// proper prefix first.
pub open spec fn oid_before(a: Seq<u32>, b: Seq<u32>) -> bool
    decreases a.len(),
{
    if b.len() == 0 {
        false
    } else if a.len() == 0 {
        true
    } else if a[0] != b[0] {
        a[0] < b[0]
    } else {
        oid_before(a.drop_first(), b.drop_first())
    }
}

/// An object identifier: a non-empty sequence of sub-identifiers, never
/// reordered; equal exactly when the sequences are equal.
#[derive(Debug)]
pub struct ObjectIdentifier {
    arcs: Vec<u32>,
}

impl View for ObjectIdentifier {
    type V = Seq<u32>;

    closed spec fn view(&self) -> Seq<u32> {
        self.arcs@
    }
}

impl ObjectIdentifier {
    /// An identifier always has at least one sub-identifier.
    #[verifier::type_invariant]
    spec fn non_empty(&self) -> bool {
        self.arcs@.len() > 0
    }

    /// The sub-identifiers, in order.
    pub fn arcs(&self) -> (r: &Vec<u32>)
        ensures
            r@ == self@,
            r@.len() > 0,
    {
        proof {
            use_type_invariant(self);
        }
        &self.arcs
    }

    /// A copy with the same sub-identifiers.
    pub fn duplicate(&self) -> (r: ObjectIdentifier)
        ensures
            r@ == self@,
    {
        proof {
            use_type_invariant(self);
        }
        ObjectIdentifier { arcs: self.arcs.clone() }
    }

    /// Builds an identifier from its sub-identifiers; `None` for an empty list.
    pub fn from_arcs(arcs: Vec<u32>) -> (r: Option<ObjectIdentifier>)
        ensures
            r is Some <==> arcs@.len() > 0,
            r matches Some(o) ==> o@ == arcs@,
    {
        if arcs.len() == 0 {
            None
        } else {
            Some(ObjectIdentifier { arcs })
        }
    }

    /// Parses the dotted decimal form, e.g. `1.3.6.1.2.1.1.1.0`.
    pub fn parse(text: &str) -> (r: Result<ObjectIdentifier, Error>)
        ensures
            r is Ok <==> text_ok(text@),
            r matches Ok(o) ==> o@ == text_value(text@),
            r matches Err(e) ==> e == Error::MalformedIdentifier,
    {
        let n = text.unicode_len();
        let mut arcs: Vec<u32> = Vec::new();
        let mut cur: u64 = 0;
        let mut cur_len: usize = 0;
        let mut i: usize = 0;
        while i < n
            invariant
                n == text@.len(),
                i <= n,
                cur_len <= i,
                ({
                    let sd = split_dots(text@.take(i as int));
                    &&& sd.len() >= 1
                    &&& arcs@ == sd.drop_last().map_values(|seg: Seq<char>| decimal_value(seg) as u32)
                    &&& forall|j: int| 0 <= j < sd.len() - 1 ==> segment_ok(#[trigger] sd[j])
                    &&& sd.last().len() == cur_len
                    &&& forall|k: int| 0 <= k < sd.last().len() ==> is_digit(#[trigger] sd.last()[k])
                    &&& cur == decimal_value(sd.last())
                    &&& cur <= u32::MAX
                }),
            decreases n - i,
        {
            let c = text.get_char(i);
            let ghost p = text@.take(i as int);
            let ghost pn = text@.take(i + 1);
            proof {
                assert(pn.drop_last() == p);
                lemma_split_len(p);
            }
            if c == '.' {
                if cur_len == 0 {
                    proof {
                        lemma_split_prefix(pn, text@);
                        assert(split_dots(pn)[split_dots(p).len() - 1] == split_dots(p).last());
                    }
                    return Err(Error::MalformedIdentifier);
                }
                arcs.push(cur as u32);
                cur = 0;
                cur_len = 0;
                proof {
                    let sd = split_dots(p);
                    let sd1 = split_dots(pn);
                    assert(sd1.drop_last() == sd);
                    assert(sd.drop_last().map_values(|seg: Seq<char>| decimal_value(seg) as u32).push(last_segment_arc(sd))
                        == sd.map_values(|seg: Seq<char>| decimal_value(seg) as u32));
                }
            } else if '0' <= c && c <= '9' {
                let d: u64 = (c as u32 - '0' as u32) as u64;
                let next: u64 = cur * 10 + d;
                proof {
                    let sd = split_dots(p);
                    let sd1 = split_dots(pn);
                    assert(sd1.last() == sd.last().push(c));
                    assert(sd1.last().drop_last() == sd.last());
                    assert(sd1.drop_last() == sd.drop_last());
                }
                if next > 0xffff_ffff {
                    proof {
                        lemma_split_prefix(pn, text@);
                        let sd1 = split_dots(pn);
                        let whole = split_dots(text@)[sd1.len() - 1];
                        if forall|k: int| 0 <= k < whole.len() ==> is_digit(#[trigger] whole[k]) {
                            lemma_value_grows(whole, sd1.last().len() as int);
                        }
                    }
                    return Err(Error::MalformedIdentifier);
                }
                cur = next;
                cur_len = cur_len + 1;
            } else {
                proof {
                    let sd = split_dots(p);
                    let sd1 = split_dots(pn);
                    assert(sd1.last() == sd.last().push(c));
                    lemma_split_prefix(pn, text@);
                    let whole = split_dots(text@)[sd1.len() - 1];
                    assert(whole.subrange(0, sd1.last().len() as int) == sd1.last());
                    assert(sd1.last()[sd1.last().len() - 1] == c);
                    assert(whole.subrange(0, sd1.last().len() as int)[sd1.last().len() - 1]
                        == whole[sd1.last().len() - 1]);
                    assert(!is_digit(whole[sd1.last().len() - 1]));
                }
                return Err(Error::MalformedIdentifier);
            }
            i = i + 1;
        }
        proof {
            assert(text@.take(n as int) == text@);
        }
        if cur_len == 0 {
            return Err(Error::MalformedIdentifier);
        }
        arcs.push(cur as u32);
        proof {
            let sd = split_dots(text@);
            assert(sd.drop_last().push(sd.last()) == sd);
            assert(arcs@ == sd.map_values(|seg: Seq<char>| decimal_value(seg) as u32));
            assert(forall|j: int| 0 <= j < sd.len() ==> segment_ok(#[trigger] sd[j])) by {
                assert forall|j: int| 0 <= j < sd.len() implies segment_ok(#[trigger] sd[j]) by {
                    if j == sd.len() - 1 {
                        assert(sd[j] == sd.last());
                    }
                }
            }
        }
        Ok(ObjectIdentifier { arcs })
    }


    /// The canonical dotted decimal text, e.g. `1.3.6.1.2.1.1.1.0`.
    pub fn to_text(&self) -> (r: String)
        ensures
            r@ == text_of(self@),
    {
        let mut out = String::new();
        proof {
            use_type_invariant(self);
        }
        push_decimal(self.arcs[0], &mut out);
        proof {
            assert(self@.take(1).map_values(|a: u32| decimal(a as nat)) == seq![decimal(self@[0] as nat)]);
        }
        let mut i: usize = 1;
        while i < self.arcs.len()
            invariant
                1 <= i <= self.arcs@.len(),
                out@ == text_of(self@.take(i as int)),
            decreases self.arcs@.len() - i,
        {
            let dot = ".";
            proof {
                reveal_strlit(".");
            }
            out.append(dot);
            push_decimal(self.arcs[i], &mut out);
            proof {
                let m1 = self@.take(i + 1 as int).map_values(|a: u32| decimal(a as nat));
                assert(m1.drop_last() == self@.take(i as int).map_values(|a: u32| decimal(a as nat)));
                assert(m1.last() == decimal(self@[i as int] as nat));
            }
            i = i + 1;
        }
        proof {
            assert(self@.take(i as int) == self@);
        }
        out
    }

    /// Whether this identifier comes before `other` in lexicographic order.
    pub fn precedes(&self, other: &ObjectIdentifier) -> (r: bool)
        ensures
            r == oid_before(self@, other@),
    {
        let a = &self.arcs;
        let b = &other.arcs;
        let mut i: usize = 0;
        proof {
            assert(a@.skip(0) == a@);
            assert(b@.skip(0) == b@);
        }
        while i < a.len() && i < b.len()
            invariant
                i <= a@.len(),
                i <= b@.len(),
                a == &self.arcs,
                b == &other.arcs,
                oid_before(a@, b@) == oid_before(a@.skip(i as int), b@.skip(i as int)),
            decreases a@.len() - i,
        {
            if a[i] != b[i] {
                return a[i] < b[i];
            }
            proof {
                assert(a@.skip(i as int).drop_first() == a@.skip(i + 1 as int));
                assert(b@.skip(i as int).drop_first() == b@.skip(i + 1 as int));
            }
            i = i + 1;
        }
        i < b.len()
    }

    /// Whether `prefix`'s sub-identifiers are a literal prefix of this one's.
    pub fn starts_with(&self, prefix: &ObjectIdentifier) -> (r: bool)
        ensures
            r == is_prefix(prefix@, self@),
    {
        if prefix.arcs.len() > self.arcs.len() {
            return false;
        }
        let mut i: usize = 0;
        while i < prefix.arcs.len()
            invariant
                prefix.arcs@.len() <= self.arcs@.len(),
                i <= prefix.arcs@.len(),
                forall|k: int| 0 <= k < i ==> self.arcs@[k] == prefix.arcs@[k],
            decreases prefix.arcs@.len() - i,
        {
            if self.arcs[i] != prefix.arcs[i] {
                proof {
                    assert(self@.subrange(0, prefix@.len() as int)[i as int] != prefix@[i as int]);
                }
                return false;
            }
            i = i + 1;
        }
        proof {
            assert(self@.subrange(0, prefix@.len() as int) == prefix@);
        }
        true
    }
}

/// The one-character text of the digit `d`.
fn digit_str(d: u32) -> (r: &'static str)
    requires
        d < 10,
    ensures
        r@ == seq![digit_char(d as nat)],
{
    if d == 0 {
        proof {
            reveal_strlit("0");
        }
        "0"
    } else if d == 1 {
        proof {
            reveal_strlit("1");
        }
        "1"
    } else if d == 2 {
        proof {
            reveal_strlit("2");
        }
        "2"
    } else if d == 3 {
        proof {
            reveal_strlit("3");
        }
        "3"
    } else if d == 4 {
        proof {
            reveal_strlit("4");
        }
        "4"
    } else if d == 5 {
        proof {
            reveal_strlit("5");
        }
        "5"
    } else if d == 6 {
        proof {
            reveal_strlit("6");
        }
        "6"
    } else if d == 7 {
        proof {
            reveal_strlit("7");
        }
        "7"
    } else if d == 8 {
        proof {
            reveal_strlit("8");
        }
        "8"
    } else {
        proof {
            reveal_strlit("9");
        }
        "9"
    }
}

/// Appends the decimal digits of `n`.
fn push_decimal(n: u32, out: &mut String)
    ensures
        final(out)@ == old(out)@ + decimal(n as nat),
    decreases n,
{
    if n >= 10 {
        push_decimal(n / 10, out);
    }
    out.append(digit_str(n % 10));
    proof {
        if n < 10 {
            assert(n % 10 == n);
        }
    }
}

impl Clone for ObjectIdentifier {
    fn clone(&self) -> (r: ObjectIdentifier)
        ensures
            r@ == self@,
    {
        self.duplicate()
    }
}

impl std::str::FromStr for ObjectIdentifier {
    type Err = Error;

    fn from_str(s: &str) -> (r: Result<ObjectIdentifier, Error>)
        ensures
            r is Ok <==> text_ok(s@),
            r matches Ok(o) ==> o@ == text_value(s@),
            r matches Err(e) ==> e == Error::MalformedIdentifier,
    {
        ObjectIdentifier::parse(s)
    }
}

/// An identifier is a prefix of itself.
pub proof fn lemma_starts_with_self(a: Seq<u32>)
    ensures
        is_prefix(a, a),
{
    assert(a.subrange(0, a.len() as int) == a);
}

/// Reading a canonical text and writing the identifier back gives the same text.
pub proof fn lemma_text_round_trip(s: Seq<char>)
    requires
        text_canonical(s),
    ensures
        text_ok(s),
        text_of(text_value(s)) == s,
{
    let sd = split_dots(s);
    assert(text_ok(s)) by {
        assert forall|j: int| 0 <= j < sd.len() implies segment_ok(#[trigger] sd[j]) by {
            assert(segment_canonical(sd[j]));
        }
    }
    let m = text_value(s).map_values(|a: u32| decimal(a as nat));
    assert forall|j: int| 0 <= j < sd.len() implies #[trigger] m[j] == sd[j] by {
        assert(segment_canonical(sd[j]));
        lemma_decimal_of_value(sd[j]);
    }
    assert(m == sd);
    lemma_join_split(s);
}

proof fn lemma_join_split(s: Seq<char>)
    ensures
        join_dots(split_dots(s)) == s,
    decreases s.len(),
{
    if s.len() > 0 {
        let p = s.drop_last();
        lemma_join_split(p);
        lemma_split_len(p);
        let a = split_dots(p);
        let b = split_dots(s);
        if s.last() == '.' {
            assert(b.drop_last() == a);
            assert(s == p + seq!['.'] + Seq::<char>::empty());
        } else if a.len() == 1 {
            assert(b[0] == a[0].push(s.last()));
            assert(s == p.push(s.last()));
        } else {
            assert(b.drop_last() == a.drop_last());
            assert(b.last() == a.last().push(s.last()));
            assert(join_dots(a) == join_dots(a.drop_last()) + seq!['.'] + a.last());
            assert(s == p.push(s.last()));
            assert(join_dots(b) == join_dots(a).push(s.last()));
        }
    }
}

proof fn lemma_digit_char_value(c: char)
    requires
        is_digit(c),
    ensures
        digit_char(digit_value(c)) == c,
        digit_value(c) < 10,
{
}

proof fn lemma_value_positive(seg: Seq<char>)
    requires
        seg.len() > 0,
        seg[0] != '0',
        forall|k: int| 0 <= k < seg.len() ==> is_digit(#[trigger] seg[k]),
    ensures
        decimal_value(seg) >= 1,
    decreases seg.len(),
{
    if seg.len() > 1 {
        lemma_value_positive(seg.drop_last());
    } else {
        assert(seg.drop_last().len() == 0);
    }
}

/// A run of digits without a leading zero is the decimal rendering of its value.
proof fn lemma_decimal_of_value(seg: Seq<char>)
    requires
        seg.len() > 0,
        seg.len() == 1 || seg[0] != '0',
        forall|k: int| 0 <= k < seg.len() ==> is_digit(#[trigger] seg[k]),
    ensures
        decimal(decimal_value(seg)) == seg,
    decreases seg.len(),
{
    let d = digit_value(seg.last());
    lemma_digit_char_value(seg.last());
    if seg.len() == 1 {
        assert(seg.drop_last().len() == 0);
        assert(seg == seq![seg.last()]);
        assert(decimal_value(seg.drop_last()) == 0);
        assert(decimal_value(seg) == decimal_value(seg.drop_last()) * 10 + d);
        assert(decimal_value(seg) == d);
        assert(decimal(d) == seq![digit_char(d)]);
    } else {
        let q = seg.drop_last();
        lemma_decimal_of_value(q);
        lemma_value_positive(q);
        let w = decimal_value(q);
        let v = decimal_value(seg);
        assert(v == w * 10 + d);
        assert(v / 10 == w && v % 10 == d) by (nonlinear_arith)
            requires v == w * 10 + d, d < 10, w >= 1;
        assert(seg == q.push(seg.last()));
        assert(v >= 10);
        assert(decimal(v) == decimal(w).push(digit_char(d)));
    }
}

/// The sub-identifier that the last piece denotes.
pub open spec fn last_segment_arc(sd: Seq<Seq<char>>) -> u32 {
    decimal_value(sd.last()) as u32
}

pub proof fn lemma_split_len(s: Seq<char>)
    ensures
        split_dots(s).len() >= 1,
    decreases s.len(),
{
    if s.len() > 0 {
        lemma_split_len(s.drop_last());
    }
}

/// Splitting a longer text keeps the finished pieces of a prefix, and extends
/// its last piece.
proof fn lemma_split_prefix(p: Seq<char>, s: Seq<char>)
    requires
        p.len() <= s.len(),
        s.take(p.len() as int) == p,
    ensures
        split_dots(p).len() <= split_dots(s).len(),
        forall|j: int| 0 <= j < split_dots(p).len() - 1 ==> split_dots(s)[j] == split_dots(p)[j],
        split_dots(p).last().len() <= split_dots(s)[split_dots(p).len() - 1].len(),
        split_dots(s)[split_dots(p).len() - 1].subrange(0, split_dots(p).last().len() as int)
            == split_dots(p).last(),
    decreases s.len() - p.len(),
{
    lemma_split_len(p);
    lemma_split_len(s);
    if p.len() == s.len() {
        assert(s == p);
        assert(split_dots(p).last().subrange(0, split_dots(p).last().len() as int) == split_dots(p).last());
    } else {
        let pn = s.take(p.len() + 1 as int);
        assert(pn.drop_last() == p);
        assert(pn.take(p.len() as int) == p);
        assert(s.take(pn.len() as int) == pn);
        lemma_split_prefix(pn, s);
        lemma_split_len(pn);
        let a = split_dots(p);
        let b = split_dots(pn);
        let c = split_dots(s);
        if pn.last() == '.' {
            assert(b == a.push(Seq::empty()));
            assert(c[a.len() - 1] == b[a.len() - 1]);
        } else {
            assert(b == a.update(a.len() - 1, a.last().push(pn.last())));
            let w = c[a.len() - 1];
            assert(w.subrange(0, b.last().len() as int) == b.last());
            assert(w.subrange(0, a.last().len() as int) == b.last().subrange(0, a.last().len() as int));
        }
    }
}

/// A longer run of digits is worth at least as much as its prefix.
proof fn lemma_value_grows(seg: Seq<char>, k: int)
    requires
        0 <= k <= seg.len(),
    ensures
        decimal_value(seg) >= decimal_value(seg.subrange(0, k)),
    decreases seg.len(),
{
    if k < seg.len() {
        lemma_value_grows(seg.drop_last(), k);
        assert(seg.drop_last().subrange(0, k) == seg.subrange(0, k));
    } else {
        assert(seg.subrange(0, k) == seg);
    }
}

proof fn lemma_digit_char(d: nat)
    requires
        d < 10,
    ensures
        is_digit(digit_char(d)),
        digit_value(digit_char(d)) == d,
{
    if d == 0 {
    } else if d == 1 {
    } else if d == 2 {
    } else if d == 3 {
    } else if d == 4 {
    } else if d == 5 {
    } else if d == 6 {
    } else if d == 7 {
    } else if d == 8 {
    } else {
        assert(d == 9);
    }
}

/// The decimal rendering of `n` is a non-empty run of digits worth `n`.
proof fn lemma_decimal(n: nat)
    ensures
        decimal(n).len() >= 1,
        forall|k: int| 0 <= k < decimal(n).len() ==> is_digit(#[trigger] decimal(n)[k]),
        decimal_value(decimal(n)) == n,
    decreases n,
{
    lemma_digit_char(n % 10);
    if n < 10 {
        assert(decimal(n).drop_last().len() == 0);
        assert(decimal_value(decimal(n).drop_last()) == 0);
    } else {
        lemma_decimal(n / 10);
        let d = decimal(n);
        assert(d.drop_last() == decimal(n / 10));
        assert((n / 10) * 10 + n % 10 == n) by (nonlinear_arith);
    }
}

/// Appending dot-free text extends the last piece.
proof fn lemma_split_append(x: Seq<char>, y: Seq<char>)
    requires
        forall|k: int| 0 <= k < y.len() ==> y[k] != '.',
    ensures
        split_dots(x + y) == split_dots(x).update(
            split_dots(x).len() - 1,
            split_dots(x).last() + y,
        ),
    decreases y.len(),
{
    lemma_split_len(x);
    let a = split_dots(x);
    if y.len() == 0 {
        assert(x + y == x);
        assert(a.last() + y == a.last());
        assert(a.update(a.len() - 1, a.last()) == a);
    } else {
        let y0 = y.drop_last();
        lemma_split_append(x, y0);
        assert((x + y).drop_last() == x + y0);
        assert((x + y).last() == y.last());
        assert(a.last() + y == (a.last() + y0).push(y.last()));
        lemma_split_len(x + y0);
    }
}

proof fn lemma_split_text(arcs: Seq<u32>)
    requires
        arcs.len() > 0,
    ensures
        split_dots(text_of(arcs)) == arcs.map_values(|a: u32| decimal(a as nat)),
    decreases arcs.len(),
{
    let m = arcs.map_values(|a: u32| decimal(a as nat));
    let d = decimal(arcs.last() as nat);
    lemma_decimal(arcs.last() as nat);
    assert(m.last() == d);
    assert forall|k: int| 0 <= k < d.len() implies d[k] != '.' by {
        assert(is_digit(d[k]));
    }
    if arcs.len() == 1 {
        lemma_split_append(Seq::empty(), d);
        assert(Seq::<char>::empty() + d == d);
        assert(split_dots(Seq::<char>::empty()) == seq![Seq::<char>::empty()]);
        assert(text_of(arcs) == d);
        assert(m == seq![d]);
    } else {
        let rest = arcs.drop_last();
        lemma_split_text(rest);
        let mr = rest.map_values(|a: u32| decimal(a as nat));
        assert(m.drop_last() == mr);
        let j = text_of(rest);
        assert(text_of(arcs) == j + seq!['.'] + d);
        let jd = j.push('.');
        assert(j + seq!['.'] == jd);
        assert(jd.drop_last() == j);
        lemma_split_len(j);
        assert(split_dots(jd) == mr.push(Seq::empty()));
        lemma_split_append(jd, d);
        assert(Seq::<char>::empty() + d == d);
        assert(mr.push(Seq::empty()).update(mr.len() as int, d) == m);
    }
}

/// Writing a non-empty identifier as text and reading the text back gives
/// the same identifier.
pub proof fn lemma_identifier_round_trip(arcs: Seq<u32>)
    requires
        arcs.len() > 0,
    ensures
        text_ok(text_of(arcs)),
        text_value(text_of(arcs)) == arcs,
{
    lemma_split_text(arcs);
    let sd = split_dots(text_of(arcs));
    assert forall|j: int| 0 <= j < sd.len() implies segment_ok(#[trigger] sd[j]) by {
        lemma_decimal(arcs[j] as nat);
        assert(sd[j] == decimal(arcs[j] as nat));
    }
    assert forall|j: int| 0 <= j < arcs.len() implies #[trigger] text_value(text_of(arcs))[j] == arcs[j] by {
        lemma_decimal(arcs[j] as nat);
        assert(sd[j] == decimal(arcs[j] as nat));
    }
    assert(text_value(text_of(arcs)) == arcs);
}

} // verus!

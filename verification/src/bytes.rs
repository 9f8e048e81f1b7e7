//! Little-endian numbers in byte strings.
//!
//! The table files are byte strings: a magic string followed by numbers of fixed
//! width, least significant byte first. [`Reader`] takes them off the front of a
//! byte string and [`push_number`] appends them to one.

use vstd::prelude::*;

verus! {

/// The number that a byte string spells, least significant byte first.
pub open spec fn number(bytes: Seq<u8>) -> nat
    decreases bytes.len(),
{
    if bytes.len() == 0 {
        0
    } else {
        bytes.first() as nat + 256 * number(bytes.drop_first())
    }
}

/// The last `len` base-256 digits of `v`, least significant first.
pub open spec fn digits(v: nat, len: nat) -> Seq<u8>
    decreases len,
{
    if len == 0 {
        Seq::empty()
    } else {
        seq![(v % 256) as u8] + digits(v / 256, (len - 1) as nat)
    }
}

/// The number of byte strings of length `len`.
pub open spec fn span(len: nat) -> nat
    decreases len,
{
    if len == 0 {
        1
    } else {
        256 * span((len - 1) as nat)
    }
}

/// A 16-bit pattern read as a two's complement number.
pub open spec fn signed(v: int) -> int {
    if v >= 0x8000 {
        v - 0x1_0000
    } else {
        v
    }
}

/// A number as a 16-bit two's complement pattern.
pub open spec fn unsigned(v: int) -> int {
    if v < 0 {
        v + 0x1_0000
    } else {
        v
    }
}

pub proof fn lemma_span()
    ensures
        span(1) == 0x100,
        span(2) == 0x1_0000,
        span(4) == 0x1_0000_0000,
        span(8) == 0x1_0000_0000_0000_0000,
        span(16) == 0x1_0000_0000_0000_0000_0000_0000_0000_0000,
{
    reveal_with_fuel(span, 17);
    assert(span(4) == 0x1_0000_0000);
    assert(span(8) == 0x1_0000_0000_0000_0000);
    assert(span(12) == 0x1_0000_0000_0000_0000_0000_0000);
}

/// A byte string spells a number below the count of such strings.
pub proof fn lemma_number_bound(bytes: Seq<u8>)
    ensures
        number(bytes) < span(bytes.len()),
    decreases bytes.len(),
{
    if bytes.len() > 0 {
        lemma_number_bound(bytes.drop_first());
    }
}

proof fn lemma_span_monotone(a: nat, b: nat)
    requires
        a <= b,
    ensures
        1 <= span(a) <= span(b),
    decreases b,
{
    if a < b {
        lemma_span_monotone(a, (b - 1) as nat);
    } else if a > 0 {
        lemma_span_monotone((a - 1) as nat, (a - 1) as nat);
    }
}

/// Reading digits gives back the number that was written, if it fits.
pub proof fn lemma_number_of_digits(v: nat, len: nat)
    requires
        v < span(len),
    ensures
        digits(v, len).len() == len,
        number(digits(v, len)) == v,
    decreases len,
{
    if len > 0 {
        assert(v / 256 < span((len - 1) as nat)) by (nonlinear_arith)
            requires
                v < 256 * span((len - 1) as nat),
        ;
        lemma_number_of_digits(v / 256, (len - 1) as nat);
        assert(digits(v, len).drop_first() =~= digits(v / 256, (len - 1) as nat));
    }
}

pub proof fn lemma_digits_len(v: nat, len: nat)
    ensures
        digits(v, len).len() == len,
    decreases len,
{
    if len > 0 {
        lemma_digits_len(v / 256, (len - 1) as nat);
    }
}

/// Append the `len` lowest digits of `v`.
pub fn push_number(out: &mut Vec<u8>, v: u128, len: usize)
    ensures
        final(out)@ == old(out)@ + digits(v as nat, len as nat),
{
    let ghost whole = out@ + digits(v as nat, len as nat);
    let mut rest: u128 = v;
    let mut left: usize = len;
    while left > 0
        invariant
            out@ + digits(rest as nat, left as nat) == whole,
        decreases left,
    {
        let ghost before = out@;
        proof {
            assert(digits(rest as nat, left as nat) == seq![(rest % 256) as u8] + digits(
                (rest / 256) as nat,
                (left - 1) as nat,
            ));
        }
        out.push((rest % 256) as u8);
        rest = rest / 256;
        left = left - 1;
        assert(out@ + digits(rest as nat, left as nat) =~= whole);
    }
    assert(out@ =~= whole);
}

/// Append a signed 16-bit number.
pub fn push_i16(out: &mut Vec<u8>, v: i16)
    ensures
        final(out)@ == old(out)@ + digits(unsigned(v as int) as nat, 2),
{
    let pattern: u128 = if v < 0 {
        (v as i32 + 0x1_0000) as u128
    } else {
        v as u128
    };
    push_number(out, pattern, 2);
}

/// A place in a byte string, from which numbers are read.
pub struct Reader<'a> {
    bytes: &'a [u8],
    at: usize,
}

impl<'a> Reader<'a> {
    /// The bytes that are still to be read.
    pub closed spec fn rest(&self) -> Seq<u8> {
        self.bytes@.skip(self.at as int)
    }

    /// The place is within the byte string.
    pub closed spec fn wf(&self) -> bool {
        self.at <= self.bytes@.len()
    }

    /// Start at the front of `bytes`.
    pub fn new(bytes: &'a [u8]) -> (r: Reader<'a>)
        ensures
            r.wf(),
            r.rest() == bytes@,
    {
        let r = Reader { bytes, at: 0 };
        assert(r.rest() =~= bytes@);
        r
    }

    /// The number of bytes that are still to be read.
    pub fn remaining(&self) -> (n: usize)
        requires
            self.wf(),
        ensures
            n == self.rest().len(),
    {
        self.bytes.len() - self.at
    }

    /// Take a number of `len` bytes; `None`, and nothing taken, if fewer are left.
    pub fn read_number(&mut self, len: usize) -> (v: Option<u128>)
        requires
            old(self).wf(),
            len <= 16,
        ensures
            final(self).wf(),
            match v {
                Some(v) => {
                    &&& old(self).rest().len() >= len
                    &&& v == number(old(self).rest().take(len as int))
                    &&& v < span(len as nat)
                    &&& final(self).rest() == old(self).rest().skip(len as int)
                },
                None => old(self).rest().len() < len && *final(self) == *old(self),
            },
    {
        let end: usize = self.bytes.len();
        if end - self.at < len {
            return None;
        }
        let ghost taken = self.rest().take(len as int);
        let mut v: u128 = 0;
        let mut i: usize = len;
        assert(taken.skip(len as int) =~= Seq::<u8>::empty());
        proof {
            lemma_span();
        }
        while i > 0
            invariant
                self.wf(),
                self.at + len <= end,
                end == self.bytes@.len(),
                taken == self.rest().take(len as int),
                i <= len <= 16,
                v == number(taken.skip(i as int)),
                span(16) == 0x1_0000_0000_0000_0000_0000_0000_0000_0000,
            decreases i,
        {
            proof {
                let tail = taken.skip(i as int);
                lemma_number_bound(tail);
                lemma_span_monotone(tail.len() + 1, 16);
                assert(taken.skip(i - 1).drop_first() =~= tail);
                assert(taken.skip(i - 1).first() == self.bytes@[self.at + i - 1]);
            }
            v = self.bytes[self.at + (i - 1)] as u128 + 256 * v;
            i = i - 1;
        }
        proof {
            assert(taken.skip(0) =~= taken);
            lemma_number_bound(taken);
            assert(self.bytes@.skip(self.at + len) =~= self.rest().skip(len as int));
        }
        self.at = self.at + len;
        Some(v)
    }

    /// Take a signed 16-bit number; `None`, and nothing taken, at the end.
    pub fn read_i16(&mut self) -> (v: Option<i16>)
        requires
            old(self).wf(),
        ensures
            final(self).wf(),
            match v {
                Some(v) => {
                    &&& old(self).rest().len() >= 2
                    &&& v == signed(number(old(self).rest().take(2)) as int)
                    &&& final(self).rest() == old(self).rest().skip(2)
                },
                None => old(self).rest().len() < 2 && *final(self) == *old(self),
            },
    {
        proof {
            lemma_span();
        }
        match self.read_number(2) {
            None => None,
            Some(v) => if v >= 0x8000 {
                Some((v as i32 - 0x1_0000) as i16)
            } else {
                Some(v as i16)
            },
        }
    }
}

/// Why a byte string is not a table.
#[derive(Clone, Copy, Debug, PartialEq, Eq, Structural)]
pub enum LoadError {
    /// The byte string ends too early.
    UnexpectedEnd,
    /// The byte string does not start as such a table does, or its header
    /// contradicts itself.
    NotATable,
}

// ---------------------------------------------------------------------------
// Laws of byte strings
// ---------------------------------------------------------------------------

/// The least significant byte comes first: byte `k` of a number is its digit for the `k`-th
/// power of 256.
pub proof fn lemma_byte(v: nat, len: nat, k: int)
    requires
        0 <= k < len,
    ensures
        digits(v, len).len() == len,
        digits(v, len)[k] == (v as int / span(k as nat) as int) % 256,
        span(k as nat) >= 1,
    decreases k,
{
    lemma_digits_len(v, len);
    lemma_span_monotone(0, k as nat);
    if k == 0 {
        assert(digits(v, len)[0] == (v % 256) as u8);
        assert(v as int / 1 == v);
    } else {
        let t = span((k - 1) as nat) as int;
        lemma_byte(v / 256, (len - 1) as nat, k - 1);
        assert(digits(v, len)[k] == digits(v / 256, (len - 1) as nat)[k - 1]);
        let w = v as int;
        assert((w / 256) / t == w / (256 * t)) by (nonlinear_arith)
            requires
                w >= 0,
                t >= 1,
        ;
    }
}

/// A byte string is read from its first byte up: what follows the first `k` bytes counts
/// once for every string of `k` bytes.
pub proof fn lemma_number_parts(b: Seq<u8>, k: int)
    requires
        0 <= k <= b.len(),
    ensures
        number(b) == number(b.take(k)) + span(k as nat) * number(b.skip(k)),
    decreases k,
{
    if k == 0 {
        assert(b.skip(0) =~= b);
        assert(b.take(0) =~= Seq::<u8>::empty());
        assert(span(0) * number(b) == number(b)) by (nonlinear_arith)
            requires
                span(0) == 1,
        ;
    } else {
        let rest = b.drop_first();
        lemma_number_parts(rest, k - 1);
        assert(b.take(k).drop_first() =~= rest.take(k - 1));
        assert(rest.skip(k - 1) =~= b.skip(k));
        let t = span((k - 1) as nat) as int;
        let x = number(b.skip(k)) as int;
        let y = number(rest.take(k - 1)) as int;
        assert(256 * (y + t * x) == 256 * y + (256 * t) * x) by (nonlinear_arith);
        assert(b.take(k).first() == b.first());
    }
}

/// Two bytes as a signed number: two's complement, the second byte worth 256 times the
/// first. Every 16-bit number is read as it was written.
pub proof fn lemma_two_bytes(b: Seq<u8>, v: int)
    requires
        b.len() == 2,
        -0x8000 <= v < 0x8000,
    ensures
        number(b) == b[0] + 256 * b[1],
        signed(number(b) as int) == if b[1] >= 128 {
            b[0] + 256 * b[1] - 65536
        } else {
            b[0] + 256 * b[1]
        },
        signed(unsigned(v)) == v,
        0 <= unsigned(v) < 65536,
        unsigned(v) == v || unsigned(v) == v + 65536,
{
    reveal_with_fuel(number, 3);
    assert(b.drop_first()[0] == b[1]);
    assert(b.drop_first().drop_first() =~= Seq::<u8>::empty());
}

/// A byte string is the digits of the number that it spells.
pub proof fn lemma_digits_of_number(b: Seq<u8>)
    ensures
        digits(number(b), b.len()) == b,
    decreases b.len(),
{
    if b.len() > 0 {
        let rest = b.drop_first();
        lemma_digits_of_number(rest);
        assert(number(b) % 256 == b.first());
        assert(number(b) / 256 == number(rest));
        assert(seq![b.first()] + rest =~= b);
    }
}

} // verus!

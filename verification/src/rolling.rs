//! The weak checksum: an Adler-32 variant over a window of bytes that can be
//! moved forward by one byte in constant time.

use vstd::arithmetic::div_mod::lemma_mul_mod_noop_left;
use vstd::prelude::*;

verus! {

/// The modulus of both halves of the checksum.
pub const M: u32 = 65536;

/// The sum of the bytes of `s`.
pub open spec fn byte_sum(s: Seq<u8>) -> nat
    decreases s.len(),
{
    if s.len() == 0 {
        0
    } else {
        byte_sum(s.drop_last()) + s.last() as nat
    }
}

/// The sum of the byte sums of all non-empty prefixes of `s`, so that the byte
/// at position `i` counts `s.len() - i` times.
pub open spec fn prefix_sum(s: Seq<u8>) -> nat
    decreases s.len(),
{
    if s.len() == 0 {
        0
    } else {
        prefix_sum(s.drop_last()) + byte_sum(s)
    }
}

/// What a rolling checksum holds: both halves and the length of the window.
pub struct RollingState {
    pub a: nat,
    pub b: nat,
    pub n: nat,
}

/// The state of the checksum of the window `w`.
pub open spec fn window_state(w: Seq<u8>) -> RollingState {
    RollingState { a: byte_sum(w) % (M as nat), b: prefix_sum(w) % (M as nat), n: w.len() }
}

/// The state that follows `s` when `out` leaves the window at its front and
/// `inp` enters at its back.
pub open spec fn rolled(s: RollingState, out: u8, inp: u8) -> RollingState {
    let a = (s.a + inp - out) % (M as int);
    let b = (s.b - s.n * out + a) % (M as int);
    RollingState { a: a as nat, b: b as nat, n: s.n }
}

/// Both halves in one number: `b` in the high 16 bits, `a` in the low 16 bits.
pub open spec fn packed(s: RollingState) -> nat {
    s.b * 65536 + s.a
}

/// The weak checksum of the window `w`.
pub open spec fn weak_checksum(w: Seq<u8>) -> nat {
    packed(window_state(w))
}

/// A rolling checksum over a window of bytes.
pub struct Rolling {
    /// Sum of the bytes in the window.
    a: u32,
    /// Sum of all values that `a` went through.
    b: u32,
    /// Length of the window.
    n: usize,
}

impl View for Rolling {
    type V = RollingState;

    closed spec fn view(&self) -> RollingState {
        RollingState { a: self.a as nat, b: self.b as nat, n: self.n as nat }
    }
}

impl Rolling {
    /// Both halves are reduced.
    #[verifier::type_invariant]
    spec fn reduced(self) -> bool {
        self.a < M && self.b < M
    }

    /// Computes the checksum of `window` from scratch.
    pub fn init(window: &[u8]) -> (r: Self)
        ensures
            r@ == window_state(window@),
            r@.n == window@.len(),
            r@.a == Seq::new(window@.len(), |i: int| window@[i] as int).fold_left(
                0,
                |total: int, x: int| total + x,
            ) % 65536,
            r@.b == Seq::new(window@.len(), |i: int| (window@.len() - i) * window@[i]).fold_left(
                0,
                |total: int, x: int| total + x,
            ) % 65536,
    {
        let mut a: u32 = 0;
        let mut b: u32 = 0;
        let len: usize = window.len();
        let mut i: usize = 0;
        while i < len
            invariant
                i <= len,
                len == window@.len(),
                a == byte_sum(window@.take(i as int)) % (M as nat),
                b == prefix_sum(window@.take(i as int)) % (M as nat),
            decreases len - i,
        {
            proof {
                let w = window@.take(i + 1);
                assert(w.drop_last() =~= window@.take(i as int));
                lemma_roll_reduced(
                    byte_sum(w.drop_last()) as int,
                    prefix_sum(w.drop_last()) as int,
                    w.last() as int,
                    0,
                );
            }
            a = (a + window[i] as u32) % M;
            b = (b + a) % M;
            i = i + 1;
        }
        assert(window@.take(len as int) =~= window@);
        proof {
            lemma_checksum_is_two_sums(window@);
        }
        Self { a, b, n: len }
    }

    /// The 32-bit checksum: `b` in the high 16 bits, `a` in the low 16 bits.
    pub fn checksum(&self) -> (r: u32)
        ensures
            r == packed(self@),
            r / 65536 == self@.b,
            r % 65536 == self@.a,
    {
        proof {
            use_type_invariant(self);
        }
        let a: u32 = self.a;
        let b: u32 = self.b;
        assert(((b << 16) | a) == b * 65536 + a) by (bit_vector)
            requires
                a < 65536,
                b < 65536,
        ;
        (b << 16) | a
    }

    /// Moves the window forward by one byte: `out` leaves it, `inp` enters it.
    pub fn roll(&mut self, out: u8, inp: u8)
        ensures
            final(self)@ == rolled(old(self)@, out, inp),
            forall|w: Seq<u8>|
                w.len() > 0 && w[0] == out && old(self)@ == #[trigger] window_state(w)
                    ==> final(self)@ == window_state(w.drop_first().push(inp)),
    {
        proof {
            use_type_invariant(&*self);
        }
        let a: u32 = (self.a + M + inp as u32 - out as u32) % M;
        // Reducing the length first keeps the product small for every window.
        let n: u32 = (self.n % (M as usize)) as u32;
        assert(n * out <= 65535 * 255) by (nonlinear_arith)
            requires
                n <= 65535,
                out <= 255,
        ;
        let n_out: u32 = (n * (out as u32)) % M;
        let b: u32 = (self.b + M - n_out + a) % M;
        proof {
            let whole: int = self.n * out;
            lemma_mul_mod_noop_left(self.n as int, out as int, M as int);
            assert(n_out == whole % 65536);
            lemma_reduced_difference(self.a + inp - out, 0);
            lemma_reduced_difference(self.b + a, whole);
            assert(self@.n * out == whole);
        }
        self.a = a;
        self.b = b;
        proof {
            assert forall|w: Seq<u8>|
                w.len() > 0 && w[0] == out && old(self)@ == #[trigger] window_state(w) implies self@
                == window_state(w.drop_first().push(inp)) by {
                lemma_roll_slides_window(w, inp);
            }
        }
    }
}

/// Rolling commutes with reduction modulo `M`: `x` and `y` are the sums before
/// it, `d` is what the bytes change in the first one, `k` what leaves the second.
proof fn lemma_roll_reduced(x: int, y: int, d: int, k: int)
    ensures
        (x % 65536 + d) % 65536 == (x + d) % 65536,
        (y % 65536 - k + (x + d) % 65536) % 65536 == (y - k + (x + d)) % 65536,
{
}

/// Subtracting a reduced number and subtracting the number itself agree modulo `M`.
proof fn lemma_reduced_difference(x: int, k: int)
    ensures
        (x + 65536 - k % 65536) % 65536 == (x - k) % 65536,
        (x + 65536) % 65536 == x % 65536,
{
}

/// Putting a byte in front of `s` adds it once to the byte sum and once per
/// prefix to the prefix sum.
proof fn lemma_sums_of_front(c: u8, s: Seq<u8>)
    ensures
        byte_sum(seq![c] + s) == c + byte_sum(s),
        prefix_sum(seq![c] + s) == (s.len() + 1) * c + prefix_sum(s),
    decreases s.len(),
{
    let t = seq![c] + s;
    if s.len() == 0 {
        assert(t.drop_last() =~= s);
        assert(t.last() == c);
        assert((s.len() + 1) * c == c) by (nonlinear_arith)
            requires
                s.len() == 0,
        ;
    } else {
        lemma_sums_of_front(c, s.drop_last());
        assert(t.drop_last() =~= seq![c] + s.drop_last());
        assert(t.last() == s.last());
        assert((s.len() + 1) * c == (s.drop_last().len() + 1) * c + c) by (nonlinear_arith)
            requires
                s.len() == s.drop_last().len() + 1,
        ;
    }
}

/// Rolling is sliding: when the first byte of a window leaves it and another
/// byte enters, the rolled checksum is the checksum of the window that results,
/// computed from scratch.
pub proof fn lemma_roll_slides_window(w: Seq<u8>, inp: u8)
    requires
        w.len() > 0,
    ensures
        rolled(window_state(w), w[0], inp) == window_state(w.drop_first().push(inp)),
{
    let out = w[0];
    let rest = w.drop_first();
    let next = rest.push(inp);
    let n = w.len() as int;
    lemma_sums_of_front(out, rest);
    assert(seq![out] + rest =~= w);
    assert(next.drop_last() =~= rest);
    assert(byte_sum(next) == byte_sum(w) - out + inp);
    assert((rest.len() + 1) * out == n * out);
    assert(prefix_sum(next) == prefix_sum(w) - n * out + byte_sum(next));
    lemma_roll_reduced(byte_sum(w) as int, prefix_sum(w) as int, inp - out, n * out);
    assert(window_state(w).n * out == n * out);
}

/// Rolling exchanges two bytes in any state, that of an empty window too: the
/// low half loses the byte that leaves and gains the one that enters, the high
/// half loses the byte that leaves once for each byte of the window and gains the
/// new low half, modulo 65536. The length stays.
pub proof fn lemma_roll_exchanges_bytes(s: RollingState, out: u8, inp: u8)
    ensures
        rolled(s, out, inp).n == s.n,
        rolled(s, out, inp).a < 65536,
        rolled(s, out, inp).b < 65536,
        (rolled(s, out, inp).a + out - s.a - inp) % 65536 == 0,
        (rolled(s, out, inp).b + s.n * out - s.b - rolled(s, out, inp).a) % 65536 == 0,
{
}

/// The sum of a sequence of numbers.
spec fn sum(s: Seq<int>) -> int {
    s.fold_left(0, |total: int, x: int| total + x)
}

/// Sums of sequences that are added number by number.
proof fn lemma_sum_adds(x: Seq<int>, y: Seq<int>, z: Seq<int>)
    requires
        x.len() == y.len() == z.len(),
        forall|i: int| 0 <= i < z.len() ==> #[trigger] z[i] == x[i] + y[i],
    ensures
        sum(z) == sum(x) + sum(y),
    decreases z.len(),
{
    if z.len() > 0 {
        lemma_sum_adds(x.drop_last(), y.drop_last(), z.drop_last());
    }
}

/// The bytes of `w` as numbers.
spec fn numbers(w: Seq<u8>) -> Seq<int> {
    Seq::new(w.len(), |i: int| w[i] as int)
}

/// The bytes of `w` as numbers, each times its distance from the end.
spec fn weighted(w: Seq<u8>) -> Seq<int> {
    Seq::new(w.len(), |i: int| (w.len() - i) * w[i])
}

/// Both sums of a window, as sums over its bytes.
proof fn lemma_sums(w: Seq<u8>)
    ensures
        byte_sum(w) == sum(numbers(w)),
        prefix_sum(w) == sum(weighted(w)),
    decreases w.len(),
{
    if w.len() > 0 {
        let v = w.drop_last();
        let n = numbers(w);
        let front = weighted(w).drop_last();
        lemma_sums(v);
        assert(n.drop_last() =~= numbers(v));
        assert forall|i: int| 0 <= i < front.len() implies #[trigger] front[i] == weighted(v)[i]
            + numbers(v)[i] by {
            assert((w.len() - i) * w[i] == (v.len() - i) * w[i] + w[i]) by (nonlinear_arith)
                requires
                    w.len() == v.len() + 1,
            ;
        }
        lemma_sum_adds(weighted(v), numbers(v), front);
        assert(weighted(w).last() == w.last()) by {
            assert((w.len() - (w.len() - 1)) * w.last() == w.last()) by (nonlinear_arith);
        }
    }
}

/// The checksum of a window of any length is made of two sums modulo 65536: in
/// the low half the bytes, in the high half the bytes times their distance from
/// the end of the window.
pub proof fn lemma_checksum_is_two_sums(w: Seq<u8>)
    ensures
        weak_checksum(w) % 65536 == Seq::new(w.len(), |i: int| w[i] as int).fold_left(
            0,
            |total: int, x: int| total + x,
        ) % 65536,
        weak_checksum(w) / 65536 == Seq::new(w.len(), |i: int| (w.len() - i) * w[i]).fold_left(
            0,
            |total: int, x: int| total + x,
        ) % 65536,
{
    lemma_sums(w);
    assert(Seq::new(w.len(), |i: int| w[i] as int) =~= numbers(w));
    assert(Seq::new(w.len(), |i: int| (w.len() - i) * w[i]) =~= weighted(w));
}

/// Replacing one byte changes the sums by the difference of the bytes, the
/// second one once per prefix that holds the byte.
proof fn lemma_sums_of_update(w: Seq<u8>, i: int, c: u8)
    requires
        0 <= i < w.len(),
    ensures
        byte_sum(w.update(i, c)) == byte_sum(w) + c - w[i],
        prefix_sum(w.update(i, c)) == prefix_sum(w) + (w.len() - i) * (c - w[i]),
    decreases w.len(),
{
    let v = w.update(i, c);
    if i == w.len() - 1 {
        assert(v.drop_last() =~= w.drop_last());
        assert((w.len() - i) * (c - w[i]) == c - w[i]) by (nonlinear_arith)
            requires
                w.len() - i == 1,
        ;
    } else {
        assert(v.drop_last() =~= w.drop_last().update(i, c));
        lemma_sums_of_update(w.drop_last(), i, c);
        assert((w.len() - i) * (c - w[i]) == (w.len() - 1 - i) * (c - w[i]) + (c - w[i]))
            by (nonlinear_arith);
    }
}

/// A window in which exactly one byte has changed has another checksum, however
/// long the window is and wherever the byte stands.
pub proof fn lemma_changed_byte_changes_checksum(w: Seq<u8>, i: int, c: u8)
    requires
        0 <= i < w.len(),
        c != w[i],
    ensures
        weak_checksum(w.update(i, c)) != weak_checksum(w),
{
    lemma_sums_of_update(w, i, c);
    lemma_checksum_keeps_both_halves(w.update(i, c), w);
}

/// A window in which two different neighbouring bytes have changed places has
/// another checksum, though its bytes are the same ones.
pub proof fn lemma_swapped_bytes_change_checksum(w: Seq<u8>, i: int)
    requires
        0 <= i < w.len() - 1,
        w[i] != w[i + 1],
    ensures
        weak_checksum(w.update(i, w[i + 1]).update(i + 1, w[i])) != weak_checksum(w),
{
    let v = w.update(i, w[i + 1]);
    let d: int = w[i + 1] - w[i];
    lemma_sums_of_update(w, i, w[i + 1]);
    lemma_sums_of_update(v, i + 1, w[i]);
    lemma_checksum_keeps_both_halves(v.update(i + 1, w[i]), w);
    assert((w.len() - i) * d + (w.len() - (i + 1)) * (0 - d) == d) by (nonlinear_arith);
}

/// The checksum of no bytes is zero, and that of a single byte holds the byte in
/// both halves.
pub proof fn lemma_checksum_of_few_bytes(c: u8)
    ensures
        weak_checksum(Seq::empty()) == 0,
        weak_checksum(seq![c]) == 65537 * c,
{
    assert(seq![c].drop_last() =~= Seq::empty());
    reveal_with_fuel(byte_sum, 2);
    reveal_with_fuel(prefix_sum, 2);
}

/// A byte that is put behind a window is added to the low half; the high half
/// grows by the low half that results.
pub proof fn lemma_checksum_of_longer_window(w: Seq<u8>, c: u8)
    ensures
        weak_checksum(w.push(c)) % 65536 == (weak_checksum(w) + c) % 65536,
        weak_checksum(w.push(c)) / 65536 == (weak_checksum(w) / 65536 + weak_checksum(w.push(c)))
            % 65536,
{
    let v = w.push(c);
    let x = byte_sum(w) as int;
    let y = prefix_sum(w) as int;
    assert(v.drop_last() =~= w);
    assert(byte_sum(v) == x + c && prefix_sum(v) == y + (x + c));
    lemma_roll_reduced(x, y, c as int, 0);
    lemma_unpacked(y % 65536, x % 65536, c as int);
    lemma_unpacked((y + (x + c)) % 65536, (x + c) % 65536, y % 65536);
}

/// The halves of a packed number, and what is left of it modulo 65536 when
/// something is added.
proof fn lemma_unpacked(b: int, a: int, more: int)
    requires
        0 <= a < 65536,
    ensures
        (b * 65536 + a) % 65536 == a,
        (b * 65536 + a) / 65536 == b,
        (b * 65536 + a + more) % 65536 == (a + more) % 65536,
{
}

/// The checksum keeps both halves: windows with equal weak checksums have equal
/// byte sums and equal prefix sums modulo `M`.
pub proof fn lemma_checksum_keeps_both_halves(v: Seq<u8>, w: Seq<u8>)
    ensures
        weak_checksum(v) == weak_checksum(w) <==> (window_state(v).a == window_state(w).a
            && window_state(v).b == window_state(w).b),
        weak_checksum(v) <= u32::MAX,
{
}

} // verus!

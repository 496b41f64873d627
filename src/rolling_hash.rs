use crate::bigmath::mod_pow;
use vstd::arithmetic::div_mod::{
    lemma_add_mod_noop, lemma_fundamental_div_mod, lemma_mod_bound, lemma_mod_multiples_vanish,
    lemma_mul_mod_noop,
};
use vstd::arithmetic::power::pow;
use vstd::prelude::*;

verus! {

/// The prime modulus of the fingerprint.
pub const PRIME: u64 = 1_099_511_627_791;

/// Width in bytes of the window that `roll_byte` slides.
pub const WINDOW_SIZE: usize = 64;

/// Bytes read as a number in base 256, most significant byte first.
pub open spec fn poly(s: Seq<u8>) -> int
    decreases s.len(),
{
    if s.len() == 0 {
        0
    } else {
        poly(s.drop_last()) * 256 + s.last() as int
    }
}

/// The fingerprint of a byte sequence pushed into a fresh fingerprint.
pub open spec fn fp(s: Seq<u8>) -> int {
    poly(s) % (PRIME as int)
}

/// `256 ^ WINDOW_SIZE mod PRIME`, the weight of the byte that leaves the window.
pub open spec fn window_base() -> int {
    pow(256, WINDOW_SIZE as nat) % (PRIME as int)
}

/// Value after `pop_byte(out)` on a fingerprint of value `v`.
pub open spec fn pop_value(v: int, out: u8) -> int {
    (v + PRIME - (window_base() * out) % (PRIME as int)) % (PRIME as int)
}

/// Value after `push_byte(b)` on a fingerprint of value `v`.
pub open spec fn push_value(v: int, b: u8) -> int {
    (v * 256 + b) % (PRIME as int)
}

/// Value after `roll_byte(out, inb)` on a fingerprint of value `v`.
pub open spec fn roll_value(v: int, out: u8, inb: u8) -> int {
    push_value(pop_value(v, out), inb)
}

/// The value reached by pushing the first `WINDOW_SIZE` bytes of `s` and then
/// rolling `k` times, each roll dropping `s[i]` and taking in `s[i + WINDOW_SIZE]`.
pub open spec fn pushed_then_rolled(s: Seq<u8>, k: nat) -> int
    decreases k,
{
    if k == 0 {
        fp(s.take(WINDOW_SIZE as int))
    } else {
        roll_value(
            pushed_then_rolled(s, (k - 1) as nat),
            s[k - 1],
            s[WINDOW_SIZE + k - 1],
        )
    }
}

/// Rabin-style polynomial fingerprint modulo `PRIME`.
#[derive(Debug, Clone, Copy)]
pub struct RabinFingerprint {
    value: u64,
    base: u64,
}

impl View for RabinFingerprint {
    type V = int;

    closed spec fn view(&self) -> int {
        self.value as int
    }
}

impl RabinFingerprint {
    /// The value lies in `[0, PRIME)` and the stored base is `window_base()`.
    pub closed spec fn wf(&self) -> bool {
        &&& self.value < PRIME
        &&& self.base as int == window_base()
    }

    pub fn new() -> (r: Self)
        ensures
            r.wf(),
            r@ == 0,
            r@ == fp(Seq::<u8>::empty()),
    {
        let base = mod_pow(256, WINDOW_SIZE as u64, PRIME);
        RabinFingerprint { value: 0, base }
    }

    /// Shift a new byte in at the low end.
    pub fn push_byte(&mut self, byte: u8)
        requires
            old(self).wf(),
        ensures
            final(self).wf(),
            final(self)@ == push_value(old(self)@, byte),
    {
        self.value = (self.value * 256 + byte as u64) % PRIME;
    }

    /// Take out the contribution of the byte that leaves the window.
    pub fn pop_byte(&mut self, byte: u8)
        requires
            old(self).wf(),
        ensures
            final(self).wf(),
            final(self)@ == pop_value(old(self)@, byte),
    {
        proof {
            lemma_mod_bound(self.base as int * byte as int, PRIME as int);
            assert(self.base * byte <= PRIME * 255) by (nonlinear_arith)
                requires
                    self.base < PRIME,
            ;
        }
        self.value = (self.value + PRIME - (self.base * byte as u64 % PRIME)) % PRIME;
    }

    /// Slide the window by one byte: drop `old_byte`, take in `new_byte`.
    pub fn roll_byte(&mut self, old_byte: u8, new_byte: u8)
        requires
            old(self).wf(),
        ensures
            final(self).wf(),
            final(self)@ == roll_value(old(self)@, old_byte, new_byte),
    {
        self.pop_byte(old_byte);
        self.push_byte(new_byte);
    }

    pub fn value(&self) -> (r: u64)
        ensures
            r as int == self@,
    {
        self.value
    }
}

/// Pushing one byte onto a sequence updates its fingerprint as `push_byte` does.
pub proof fn lemma_fp_push(s: Seq<u8>, b: u8)
    ensures
        fp(s.push(b)) == push_value(fp(s), b),
        0 <= fp(s) < PRIME,
{
    let p = PRIME as int;
    assert(s.push(b).drop_last() =~= s);
    lemma_mul_mod_noop(poly(s), 256, p);
    lemma_mul_mod_noop(fp(s), 256, p);
    lemma_mod_bound(poly(s), p);
    vstd::arithmetic::div_mod::lemma_mod_twice(poly(s), p);
    lemma_add_mod_noop(poly(s) * 256, b as int, p);
    lemma_add_mod_noop(fp(s) * 256, b as int, p);
}

/// The first byte of a sequence weighs `256 ^ (len - 1)`.
pub proof fn lemma_poly_first(t: Seq<u8>)
    requires
        t.len() > 0,
    ensures
        poly(t) == t[0] * pow(256, (t.len() - 1) as nat) + poly(t.subrange(1, t.len() as int)),
    decreases t.len(),
{
    if t.len() == 1 {
        assert(t.drop_last() =~= Seq::<u8>::empty());
        assert(t.subrange(1, 1) =~= Seq::<u8>::empty());
        vstd::arithmetic::power::lemma_pow0(256);
        assert(poly(t) == poly(t.drop_last()) * 256 + t.last() as int);
        assert(poly(Seq::<u8>::empty()) == 0);
    } else {
        let d = t.drop_last();
        lemma_poly_first(d);
        let tail = t.subrange(1, t.len() as int);
        assert(tail.drop_last() =~= d.subrange(1, d.len() as int));
        assert(tail.last() == t.last());
        assert(d[0] == t[0]);
        assert(poly(tail) == poly(d.subrange(1, d.len() as int)) * 256 + t.last() as int);
        assert(poly(t) == poly(d) * 256 + t.last() as int);
        assert(pow(256, (t.len() - 1) as nat) == 256 * pow(256, (t.len() - 2) as nat)) by {
            reveal(pow);
        }
        assert(t[0] * pow(256, (t.len() - 1) as nat) == (t[0] * pow(256, (t.len() - 2) as nat))
            * 256) by (nonlinear_arith)
            requires
                pow(256, (t.len() - 1) as nat) == 256 * pow(256, (t.len() - 2) as nat),
        ;
    }
}

/// What pushing a window and then rolling `k` times gives, for every input:
/// the fingerprint of the window now covered, less
/// `255 * 256 ^ WINDOW_SIZE` times the number formed by the `k` bytes
/// that were rolled out.
pub proof fn lemma_rolled_value(s: Seq<u8>, k: nat)
    requires
        s.len() >= WINDOW_SIZE + k,
    ensures
        pushed_then_rolled(s, k) == (poly(s.subrange(k as int, k + WINDOW_SIZE)) - 255 * pow(
            256,
            WINDOW_SIZE as nat,
        ) * poly(s.take(k as int))) % (PRIME as int),
    decreases k,
{
    let p = PRIME as int;
    let w = WINDOW_SIZE as int;
    let bw = pow(256, WINDOW_SIZE as nat);
    let c = 255 * bw;
    if k == 0 {
        assert(s.take(0) =~= Seq::<u8>::empty());
        assert(s.subrange(0, w) =~= s.take(w));
    } else {
        let j = (k - 1) as int;
        lemma_rolled_value(s, (k - 1) as nat);
        let a = poly(s.subrange(j, j + w));
        let q = poly(s.take(j));
        let x = a - c * q;
        let r = pushed_then_rolled(s, (k - 1) as nat);
        let o = s[j];
        let inb = s[j + w];
        // the window moves on by one byte
        let win = s.subrange(j, j + w);
        lemma_poly_first(win);
        let mid = s.subrange(j + 1, j + w);
        assert(win.subrange(1, w) =~= mid);
        assert(s.subrange(j + 1, j + 1 + w).drop_last() =~= mid);
        let a2 = poly(s.subrange(j + 1, j + 1 + w));
        assert(a2 == poly(mid) * 256 + inb);
        assert(s.take(j + 1).drop_last() =~= s.take(j));
        let q2 = poly(s.take(j + 1));
        assert(q2 == q * 256 + o);
        assert(bw == 256 * pow(256, (w - 1) as nat)) by {
            reveal(pow);
        }
        let t = a2 - c * q2;
        assert(t == (x - bw * o) * 256 + inb) by (nonlinear_arith)
            requires
                t == a2 - c * q2,
                a2 == poly(mid) * 256 + inb,
                a == o * pow(256, (w - 1) as nat) + poly(mid),
                q2 == q * 256 + o,
                bw == 256 * pow(256, (w - 1) as nat),
                c == 255 * bw,
                x == a - c * q,
        ;
        // unfold the roll into explicit quotients
        let b = window_base();
        let bo = (b * o) % p;
        let e = r + p - bo;
        let inner = e % p;
        let out = (inner * 256 + inb) % p;
        assert(pushed_then_rolled(s, k) == out);
        lemma_fundamental_div_mod(x, p);
        lemma_fundamental_div_mod(b * o, p);
        lemma_fundamental_div_mod(bw, p);
        lemma_fundamental_div_mod(e, p);
        let q1 = x / p;
        let q2b = (b * o) / p;
        let q3 = bw / p;
        let q4 = e / p;
        let mult = 256 * (1 - q1 + q3 * o + q2b - q4);
        assert(inner * 256 + inb == p * mult + t) by (nonlinear_arith)
            requires
                x == p * q1 + r,
                b * o == p * q2b + bo,
                bw == p * q3 + b,
                e == p * q4 + inner,
                e == r + p - bo,
                mult == 256 * (1 - q1 + q3 * o + q2b - q4),
                t == (x - bw * o) * 256 + inb,
        ;
        lemma_mod_multiples_vanish(mult, t, p);
    }
}

/// Rolling law: pushing the first `WINDOW_SIZE` bytes and then rolling through
/// the rest gives the fingerprint of the last `WINDOW_SIZE` bytes pushed fresh,
/// whenever the bytes rolled out form a number divisible by `PRIME`
/// (which holds in particular when no roll is made, or only zero bytes leave).
pub proof fn lemma_rolling_law(s: Seq<u8>)
    requires
        s.len() >= WINDOW_SIZE,
        fp(s.take(s.len() - WINDOW_SIZE)) == 0,
    ensures
        pushed_then_rolled(s, (s.len() - WINDOW_SIZE) as nat) == fp(
            s.subrange(s.len() - WINDOW_SIZE, s.len() as int),
        ),
{
    let p = PRIME as int;
    let k = s.len() - WINDOW_SIZE;
    lemma_rolled_value(s, k as nat);
    let a = poly(s.subrange(k, s.len() as int));
    let q = poly(s.take(k));
    let c = 255 * pow(256, WINDOW_SIZE as nat);
    lemma_fundamental_div_mod(q, p);
    let qq = q / p;
    assert(a - c * q == p * (-(c * qq)) + a) by (nonlinear_arith)
        requires
            q == p * qq + q % p,
            q % p == 0,
    ;
    lemma_mod_multiples_vanish(-(c * qq), a, p);
}

} // verus!

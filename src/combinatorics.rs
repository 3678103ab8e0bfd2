use vstd::arithmetic::div_mod::{
    lemma_breakdown,
    lemma_div_denominator,
    lemma_hoist_over_denominator,
    lemma_mod_multiples_vanish,
    lemma_small_mod,
};
use vstd::arithmetic::power::{lemma_pow_adds, lemma_pow_increases, lemma_pow_positive, pow};
use vstd::prelude::*;

verus! {

/// Digit `i` (least significant first) of `index` written in base `radix`.
pub open spec fn digit(index: nat, radix: nat, i: nat) -> nat {
    ((index as int / pow(radix as int, i)) % radix as int) as nat
}

/// The `bins` lowest digits of `index` in base `radix`.
pub open spec fn decode(index: nat, radix: nat, bins: nat) -> Seq<nat> {
    Seq::new(bins, |i: int| digit(index, radix, i as nat))
}

/// The number whose base-`radix` digits, least significant first, are `digits`:
/// the sum of `digits[i] * radix^i`.
pub open spec fn encode(digits: Seq<nat>, radix: nat) -> int
    decreases digits.len(),
{
    if digits.len() == 0 {
        0
    } else {
        encode(digits.drop_last(), radix) + digits.last() * pow(radix as int, (digits.len() - 1) as nat)
    }
}

/// The counters of a combination, read as naturals.
pub open spec fn as_digits(v: Seq<u8>) -> Seq<nat> {
    v.map_values(|d: u8| d as nat)
}

/// Progress through the combinations of `bins` counters, each below `radix`.
pub struct CombinationsView {
    pub bins: nat,
    pub radix: nat,
    pub next: nat,
    pub total: nat,
}

/// A lazy, restartable walk over every combination of `bins` counters, each in
/// `0..max_items_per_bin`, in ascending order of the index that encodes them.
pub struct Combinations {
    bins: u8,
    max_items_per_bin: u8,
    next_index: u64,
    total: u64,
}

impl View for Combinations {
    type V = CombinationsView;

    closed spec fn view(&self) -> CombinationsView {
        CombinationsView {
            bins: self.bins as nat,
            radix: self.max_items_per_bin as nat,
            next: self.next_index as nat,
            total: self.total as nat,
        }
    }
}

impl Combinations {
    pub closed spec fn wf(&self) -> bool {
        &&& self.total as int == pow(self.max_items_per_bin as int, self.bins as nat)
        &&& self.next_index <= self.total
    }

    /// The next combination, if any is left.
    pub fn next(&mut self) -> (r: Option<Vec<u8>>)
        requires
            old(self).wf(),
        ensures
            final(self).wf(),
            final(self)@.next <= final(self)@.total,
            final(self)@.bins == old(self)@.bins,
            final(self)@.radix == old(self)@.radix,
            final(self)@.total == old(self)@.total,
            old(self)@.next < old(self)@.total ==> {
                &&& final(self)@.next == old(self)@.next + 1
                &&& r is Some
                &&& as_digits(r->0@) == decode(old(self)@.next, old(self)@.radix, old(self)@.bins)
            },
            old(self)@.next >= old(self)@.total ==> r is None && final(self)@ == old(self)@,
    {
        if self.next_index < self.total {
            proof {
                if self.max_items_per_bin == 0 && self.bins > 0 {
                    vstd::arithmetic::power::lemma0_pow(self.bins as nat);
                }
            }
            let combination = fill_bins(self.next_index, self.bins, self.max_items_per_bin);
            self.next_index = self.next_index + 1;
            Some(combination)
        } else {
            None
        }
    }

    /// How many combinations are left.
    pub fn count(self) -> (r: u64)
        requires
            self.wf(),
        ensures
            r == self@.total - self@.next,
    {
        self.total - self.next_index
    }

    /// Every combination that is left, in order.
    pub fn collect(self) -> (r: Vec<Vec<u8>>)
        requires
            self.wf(),
        ensures
            r@.len() == self@.total - self@.next,
            forall|k: int|
                0 <= k < r@.len() ==> as_digits(#[trigger] r@[k]@) == decode(
                    (self@.next + k) as nat,
                    self@.radix,
                    self@.bins,
                ),
    {
        let mut walk = self;
        let mut out: Vec<Vec<u8>> = Vec::new();
        while walk.next_index < walk.total
            invariant
                walk.wf(),
                walk.bins == self.bins,
                walk.max_items_per_bin == self.max_items_per_bin,
                walk.total == self.total,
                self.next_index <= walk.next_index,
                out@.len() == walk.next_index - self.next_index,
                forall|k: int|
                    0 <= k < out@.len() ==> as_digits(#[trigger] out@[k]@) == decode(
                        (self@.next + k) as nat,
                        self@.radix,
                        self@.bins,
                    ),
            decreases walk.total - walk.next_index,
        {
            let item = walk.next();
            match item {
                Some(v) => {
                    out.push(v);
                },
                None => {},
            }
        }
        out
    }
}

/// The digits of `iteration` in base `max_items_per_bin`, least significant
/// first, `bins` of them.
pub fn fill_bins(iteration: u64, bins: u8, max_items_per_bin: u8) -> (r: Vec<u8>)
    requires
        max_items_per_bin > 0 || bins == 0,
    ensures
        as_digits(r@) == decode(iteration as nat, max_items_per_bin as nat, bins as nat),
{
    let ghost radix = max_items_per_bin as int;
    let mut out: Vec<u8> = Vec::new();
    let mut current: u64 = iteration;
    let mut k: u8 = 0;
    proof {
        reveal(pow);
        assert(pow(radix, 0) == 1);
    }
    while k < bins
        invariant
            k <= bins,
            max_items_per_bin > 0 || bins == 0,
            radix == max_items_per_bin as int,
            out@.len() == k,
            forall|i: int|
                0 <= i < k ==> out@[i] as nat == digit(iteration as nat, radix as nat, i as nat),
            current as int == iteration as int / pow(radix, k as nat),
        decreases bins - k,
    {
        proof {
            lemma_pow_positive(radix, k as nat);
            lemma_div_denominator(iteration as int, pow(radix, k as nat), radix);
            reveal(pow);
            assert(pow(radix, (k + 1) as nat) == radix * pow(radix, k as nat));
            assert(pow(radix, k as nat) * radix == radix * pow(radix, k as nat)) by (nonlinear_arith);
        }
        let d = current % (max_items_per_bin as u64);
        out.push(d as u8);
        current = current / (max_items_per_bin as u64);
        k = k + 1;
    }
    proof {
        assert(as_digits(out@) =~= decode(iteration as nat, max_items_per_bin as nat, bins as nat));
    }
    out
}

/// Every combination of `bins` counters, each below `max_items_per_bin`:
/// `max_items_per_bin^bins` of them, produced one at a time.
pub fn get_combinations(bins: u8, max_items_per_bin: u8) -> (r: Combinations)
    requires
        pow(max_items_per_bin as int, bins as nat) <= u64::MAX,
    ensures
        r.wf(),
        r@ == (CombinationsView {
            bins: bins as nat,
            radix: max_items_per_bin as nat,
            next: 0,
            total: pow(max_items_per_bin as int, bins as nat) as nat,
        }),
{
    let ghost radix = max_items_per_bin as int;
    let mut total: u64 = 1;
    let mut k: u8 = 0;
    proof {
        reveal(pow);
    }
    while k < bins
        invariant
            k <= bins,
            radix == max_items_per_bin as int,
            total as int == pow(radix, k as nat),
            pow(radix, bins as nat) <= u64::MAX,
        decreases bins - k,
    {
        proof {
            reveal(pow);
            assert(pow(radix, (k + 1) as nat) == radix * pow(radix, k as nat));
            if radix > 0 {
                lemma_pow_increases(radix as nat, (k + 1) as nat, bins as nat);
            }
            assert(total * radix == radix * total) by (nonlinear_arith);
        }
        total = total * (max_items_per_bin as u64);
        k = k + 1;
    }
    Combinations { bins, max_items_per_bin, next_index: 0, total }
}

/// The lowest `bins` digits of `index` encode back to `index` modulo `radix^bins`.
proof fn lemma_encode_decode_mod(index: nat, radix: nat, bins: nat)
    requires
        radix >= 1,
    ensures
        encode(decode(index, radix, bins), radix) == index as int % pow(radix as int, bins),
    decreases bins,
{
    let r = radix as int;
    if bins == 0 {
        reveal(pow);
        assert(index as int % 1 == 0);
    } else {
        let k = (bins - 1) as nat;
        lemma_encode_decode_mod(index, radix, k);
        let d = decode(index, radix, bins);
        assert(d.drop_last() =~= decode(index, radix, k));
        lemma_pow_positive(r, k);
        lemma_breakdown(index as int, pow(r, k), r);
        reveal(pow);
        assert(pow(r, bins) == r * pow(r, k));
        assert(pow(r, k) * r == r * pow(r, k)) by (nonlinear_arith);
        assert(d.last() == digit(index, radix, k));
        assert(d.last() * pow(r, k) == pow(r, k) * ((index as int / pow(r, k)) % r)) by (nonlinear_arith)
            requires
                d.last() == (index as int / pow(r, k)) % r,
        ;
    }
}

/// Decoding an index below `radix^bins` and encoding its digits again gives the
/// index back.
pub proof fn decode_encode_round_trip(index: nat, radix: nat, bins: nat)
    requires
        radix >= 1,
        index < pow(radix as int, bins),
    ensures
        encode(decode(index, radix, bins), radix) == index,
{
    lemma_encode_decode_mod(index, radix, bins);
    lemma_small_mod(index, pow(radix as int, bins) as nat);
}

/// The `radix^bins` combinations are pairwise distinct, each has `bins`
/// counters, and each counter lies in `0..radix`.
pub proof fn combinations_distinct_and_bounded(radix: nat, bins: nat)
    requires
        radix >= 1,
    ensures
        forall|a: nat, b: nat|
            a < pow(radix as int, bins) && b < pow(radix as int, bins) && a != b ==> decode(a, radix, bins)
                != decode(b, radix, bins),
        forall|a: nat| #[trigger] decode(a, radix, bins).len() == bins,
        forall|a: nat, i: int|
            0 <= i < bins ==> #[trigger] decode(a, radix, bins)[i] < radix,
{
    assert forall|a: nat, b: nat|
        a < pow(radix as int, bins) && b < pow(radix as int, bins) && a != b implies decode(a, radix, bins)
            != decode(b, radix, bins) by {
        decode_encode_round_trip(a, radix, bins);
        decode_encode_round_trip(b, radix, bins);
    }
}

/// Counters each below `radix` encode to a number below `radix^len`.
proof fn lemma_encode_bound(digits: Seq<nat>, radix: nat)
    requires
        radix >= 1,
        forall|i: int| 0 <= i < digits.len() ==> #[trigger] digits[i] < radix,
    ensures
        0 <= encode(digits, radix) < pow(radix as int, digits.len()),
    decreases digits.len(),
{
    let r = radix as int;
    if digits.len() == 0 {
        reveal(pow);
    } else {
        let k = (digits.len() - 1) as nat;
        let front = digits.drop_last();
        assert forall|i: int| 0 <= i < front.len() implies #[trigger] front[i] < radix by {
            assert(front[i] == digits[i]);
        }
        lemma_encode_bound(front, radix);
        lemma_pow_positive(r, k);
        let p = pow(r, k);
        let a = digits.last() as int;
        reveal(pow);
        assert(pow(r, digits.len()) == r * p);
        assert(encode(front, radix) + a * p < r * p) by (nonlinear_arith)
            requires
                encode(front, radix) < p,
                0 <= a < r,
                p > 0,
        ;
        assert(0 <= a * p) by (nonlinear_arith)
            requires
                0 <= a,
                p > 0,
        ;
    }
}

/// Every sequence of `bins` counters below `radix` is the decoding of its own
/// encoding, which lies below `radix^bins`.
proof fn lemma_decode_encode(digits: Seq<nat>, radix: nat)
    requires
        radix >= 1,
        forall|i: int| 0 <= i < digits.len() ==> #[trigger] digits[i] < radix,
    ensures
        0 <= encode(digits, radix) < pow(radix as int, digits.len()),
        decode(encode(digits, radix) as nat, radix, digits.len()) == digits,
    decreases digits.len(),
{
    let r = radix as int;
    lemma_encode_bound(digits, radix);
    if digits.len() > 0 {
        let n = digits.len();
        let k = (n - 1) as nat;
        let front = digits.drop_last();
        assert forall|i: int| 0 <= i < front.len() implies #[trigger] front[i] < radix by {
            assert(front[i] == digits[i]);
        }
        lemma_decode_encode(front, radix);
        let x0 = encode(front, radix);
        let a = digits.last() as int;
        let x = encode(digits, radix);
        assert(x == x0 + a * pow(r, k));
        let d = decode(x as nat, radix, n);
        assert forall|i: int| 0 <= i < n implies #[trigger] d[i] == digits[i] by {
            let pi = pow(r, i as nat);
            lemma_pow_positive(r, i as nat);
            lemma_pow_adds(r, i as nat, (k - i) as nat);
            let m = pow(r, (k - i) as nat);
            assert(pow(r, k) == pi * m);
            assert(a * pow(r, k) == (a * m) * pi) by (nonlinear_arith)
                requires
                    pow(r, k) == pi * m,
            ;
            lemma_hoist_over_denominator(x0, a * m, pi as nat);
            assert(x / pi == x0 / pi + a * m);
            if i < k {
                lemma_pow_positive(r, (k - i - 1) as nat);
                reveal(pow);
                assert(m == r * pow(r, (k - i - 1) as nat));
                assert(a * m == r * (a * pow(r, (k - i - 1) as nat))) by (nonlinear_arith)
                    requires
                        m == r * pow(r, (k - i - 1) as nat),
                ;
                lemma_mod_multiples_vanish(a * pow(r, (k - i - 1) as nat), x0 / pi, r);
                assert((x / pi) % r == (x0 / pi) % r);
                assert(decode(x0 as nat, radix, k)[i] == front[i]);
            } else {
                reveal(pow);
                assert(m == 1);
                assert(x0 / pi == 0) by {
                    vstd::arithmetic::div_mod::lemma_basic_div(x0, pi);
                }
                lemma_small_mod(a as nat, radix);
            }
        }
        assert(d =~= digits);
    }
}

/// Every sequence of `bins` counters below `radix` is produced: it is the
/// combination of an index below `radix^bins`.
pub proof fn combinations_cover_space(radix: nat, digits: Seq<nat>)
    requires
        radix >= 1,
        forall|i: int| 0 <= i < digits.len() ==> #[trigger] digits[i] < radix,
    ensures
        exists|index: nat|
            index < pow(radix as int, digits.len()) && #[trigger] decode(index, radix, digits.len()) == digits,
{
    lemma_decode_encode(digits, radix);
    let index = encode(digits, radix) as nat;
    assert(decode(index, radix, digits.len()) == digits);
}

} // verus!

//! A small deterministic random number generator (SplitMix64) and the shuffle
//! that is built on it.
use vstd::prelude::*;

verus! {

/// How far the state moves on each draw.
pub const GAMMA: u64 = 0x9E37_79B9_7F4A_7C15;

/// The output that belongs to a state.
#[verifier::opaque]
pub open spec fn mix(state: u64) -> u64 {
    let a = (state ^ (state >> 30)).wrapping_mul(0xBF58_476D_1CE4_E5B9);
    let b = (a ^ (a >> 27)).wrapping_mul(0x94D0_49BB_1331_11EB);
    b ^ (b >> 31)
}

/// The state after `k` draws.
pub open spec fn advance(state: u64, k: nat) -> u64 {
    ((state + k * GAMMA) % 0x1_0000_0000_0000_0000) as u64
}

/// The `k`-th draw from a state, counted from 0.
pub open spec fn draw(state: u64, k: nat) -> u64 {
    mix(advance(state, k + 1))
}

/// The generator.
pub struct Rng {
    pub state: u64,
}

impl Rng {
    /// The next 64 random bits.
    pub fn next_u64(&mut self) -> (r: u64)
        ensures
            final(self).state == advance(old(self).state, 1),
            r == draw(old(self).state, 0),
    {
        self.state = self.state.wrapping_add(GAMMA);
        let s = self.state;
        let a = (s ^ (s >> 30)).wrapping_mul(0xBF58_476D_1CE4_E5B9);
        let b = (a ^ (a >> 27)).wrapping_mul(0x94D0_49BB_1331_11EB);
        proof {
            reveal(mix);
            assert(s == advance(old(self).state, 1));
        }
        b ^ (b >> 31)
    }

    /// A random number below `n`.
    pub fn below(&mut self, n: usize) -> (r: usize)
        requires
            n > 0,
        ensures
            final(self).state == advance(old(self).state, 1),
            r == draw(old(self).state, 0) % (n as u64),
            r < n,
    {
        let v = self.next_u64();
        (v % n as u64) as usize
    }

    /// The two random numbers of 53 bits that one sample of the normal
    /// distribution is made from.
    pub fn gauss_bits(&mut self) -> (r: (u64, u64))
        ensures
            final(self).state == advance(old(self).state, 2),
            r.0 == draw(old(self).state, 0) / 2048,
            r.1 == draw(old(self).state, 1) / 2048,
            r.0 < 0x20_0000_0000_0000,
            r.1 < 0x20_0000_0000_0000,
    {
        proof {
            lemma_advance(self.state, 1, 1);
        }
        let first = self.next_u64();
        let second = self.next_u64();
        (first / 2048, second / 2048)
    }
}

/// Draws follow one another.
pub proof fn lemma_advance(state: u64, j: nat, k: nat)
    ensures
        advance(advance(state, j), k) == advance(state, j + k),
        draw(advance(state, j), k) == draw(state, j + k),
{
    lemma_advance_state(state, j, k);
    lemma_advance_state(state, j, k + 1);
}

proof fn lemma_advance_state(state: u64, j: nat, k: nat)
    ensures
        advance(advance(state, j), k) == advance(state, j + k),
{
    let m: int = 0x1_0000_0000_0000_0000;
    let x: int = state + j * GAMMA;
    let y: int = k * GAMMA as int;
    assert(x >= 0 && y >= 0) by (nonlinear_arith)
        requires
            x == state + j * GAMMA,
            y == k * GAMMA as int,
    ;
    assert((j + k) * GAMMA == j * GAMMA + k * GAMMA) by (nonlinear_arith);
    vstd::arithmetic::div_mod::lemma_add_mod_noop(x, y, m);
    vstd::arithmetic::div_mod::lemma_mod_bound(x, m);
    vstd::arithmetic::div_mod::lemma_mod_bound(x + y, m);
    vstd::arithmetic::div_mod::lemma_add_mod_noop(x % m, y, m);
    vstd::arithmetic::div_mod::lemma_mod_twice(x, m);
    assert(((x % m) + y) % m == (x + y) % m);
}

// ---------------------------------------------------------------------------
// The shuffle.
// ---------------------------------------------------------------------------

/// A list with two places exchanged.
pub open spec fn swapped<T>(s: Seq<T>, i: int, j: int) -> Seq<T> {
    s.update(i, s[j]).update(j, s[i])
}

/// The place that place `i` is exchanged with.
pub open spec fn partner(state: u64, i: int) -> int {
    draw(state, 0) as int % (i + 1)
}

/// A list after the places from `i` down to 1 have each been exchanged with a
/// random place that is not above them.
pub open spec fn shuffled_from<T>(s: Seq<T>, state: u64, i: int) -> Seq<T>
    decreases i,
{
    if i <= 0 {
        s
    } else {
        shuffled_from(swapped(s, i, partner(state, i)), advance(state, 1), i - 1)
    }
}

/// A list in random order.
pub open spec fn shuffled<T>(s: Seq<T>, seed: u64) -> Seq<T> {
    shuffled_from(s, seed, s.len() - 1)
}

/// Where each place of a shuffled list of `n` comes from.
pub open spec fn order(n: nat, seed: u64) -> Seq<int> {
    shuffled(Seq::new(n, |i: int| i), seed)
}

/// `<[T]>::swap` exchanges two places of a slice and leaves the others.
#[verifier::external_body]
fn swap_places<T>(s: &mut Vec<T>, a: usize, b: usize)
    requires
        a < old(s)@.len(),
        b < old(s)@.len(),
    ensures
        final(s)@ == swapped(old(s)@, a as int, b as int),
{
    s.swap(a, b);
}

/// Brings rows and their labels into the same random order.
pub fn shuffle_rows<T>(x: &mut Vec<T>, y: &mut Vec<usize>, seed: u64)
    requires
        old(x)@.len() == old(y)@.len(),
    ensures
        final(x)@ == shuffled(old(x)@, seed),
        final(y)@ == shuffled(old(y)@, seed),
{
    let mut rng = Rng { state: seed };
    let mut i: usize = x.len();
    while i > 1
        invariant
            i <= x@.len(),
            x@.len() == y@.len(),
            x@.len() == old(x)@.len(),
            shuffled(old(x)@, seed) == shuffled_from(x@, rng.state, i - 1),
            shuffled(old(y)@, seed) == shuffled_from(y@, rng.state, i - 1),
        decreases i,
    {
        i -= 1;
        let ghost before = rng.state;
        let j = rng.below(i + 1);
        assert(j == partner(before, i as int));
        swap_places(x, i, j);
        swap_places(y, i, j);
    }
}

proof fn lemma_shuffled_from_len<T>(s: Seq<T>, state: u64, i: int)
    requires
        i < s.len(),
    ensures
        shuffled_from(s, state, i).len() == s.len(),
    decreases i,
{
    if i > 0 {
        lemma_shuffled_from_len(swapped(s, i, partner(state, i)), advance(state, 1), i - 1);
    }
}

/// Shuffling what a list of places points at is pointing at the shuffled
/// places.
proof fn lemma_shuffled_from_map<T>(s: Seq<T>, places: Seq<int>, state: u64, i: int)
    requires
        i < places.len(),
        forall|k: int| 0 <= k < places.len() ==> 0 <= #[trigger] places[k] < s.len(),
    ensures
        shuffled_from(Seq::new(places.len(), |k: int| s[places[k]]), state, i) == Seq::new(
            places.len(),
            |k: int| s[shuffled_from(places, state, i)[k]],
        ),
        forall|k: int|
            0 <= k < places.len() ==> 0 <= #[trigger] shuffled_from(places, state, i)[k] < s.len(),
    decreases i,
{
    let picked = Seq::new(places.len(), |k: int| s[places[k]]);
    if i > 0 {
        let j = partner(state, i);
        assert(0 <= j <= i);
        let moved = swapped(places, i, j);
        assert(swapped(picked, i, j) =~= Seq::new(moved.len(), |k: int| s[moved[k]]));
        lemma_shuffled_from_map(s, moved, advance(state, 1), i - 1);
    } else {
        assert(picked =~= Seq::new(
            places.len(),
            |k: int| s[shuffled_from(places, state, i)[k]],
        ));
    }
}

proof fn lemma_shuffled_from_distinct(places: Seq<int>, state: u64, i: int)
    requires
        i < places.len(),
        places.no_duplicates(),
    ensures
        shuffled_from(places, state, i).no_duplicates(),
    decreases i,
{
    if i > 0 {
        let j = partner(state, i);
        assert(0 <= j <= i);
        let moved = swapped(places, i, j);
        assert(moved.no_duplicates());
        lemma_shuffled_from_distinct(moved, advance(state, 1), i - 1);
    }
}

/// The order of a shuffle is a permutation: every place comes from one place,
/// no two from the same.
pub proof fn law_order_is_permutation(n: nat, seed: u64)
    ensures
        order(n, seed).len() == n,
        order(n, seed).no_duplicates(),
        forall|k: int| 0 <= k < n ==> 0 <= #[trigger] order(n, seed)[k] < n,
{
    let id = Seq::new(n, |i: int| i);
    lemma_shuffled_from_len(id, seed, n - 1);
    lemma_shuffled_from_distinct(id, seed, n - 1);
    lemma_shuffled_from_map(id, id, seed, n - 1);
}

/// A shuffled list holds at each place what stood where that place comes from.
/// The order depends on the length and the seed alone, so that rows and labels
/// that are shuffled with the same seed stay together.
pub proof fn law_shuffle_follows_order<T>(s: Seq<T>, seed: u64)
    ensures
        shuffled(s, seed).len() == s.len(),
        forall|k: int|
            0 <= k < s.len() ==> #[trigger] shuffled(s, seed)[k] == s[order(s.len(), seed)[k]],
{
    let id = Seq::new(s.len(), |i: int| i);
    lemma_shuffled_from_len(s, seed, s.len() - 1);
    lemma_shuffled_from_map(s, id, seed, s.len() - 1);
    assert(Seq::new(id.len(), |k: int| s[id[k]]) =~= s);
}

/// A shuffle neither loses nor adds anything.
pub proof fn law_shuffle_keeps_contents<T>(s: Seq<T>, seed: u64)
    ensures
        shuffled(s, seed).to_multiset() == s.to_multiset(),
{
    lemma_shuffled_from_multiset(s, seed, s.len() - 1);
}

proof fn lemma_shuffled_from_multiset<T>(s: Seq<T>, state: u64, i: int)
    requires
        i < s.len(),
    ensures
        shuffled_from(s, state, i).to_multiset() == s.to_multiset(),
    decreases i,
{
    if i > 0 {
        broadcast use vstd::multiset::group_multiset_axioms;
        broadcast use vstd::seq_lib::group_to_multiset_ensures;

        let j = partner(state, i);
        assert(0 <= j <= i);
        let moved = swapped(s, i, j);
        assert(s.contains(s[i]) && s.contains(s[j]));
        vstd::seq_lib::to_multiset_update(s, i, s[j]);
        vstd::seq_lib::to_multiset_update(s.update(i, s[j]), j, s[i]);
        assert(moved.to_multiset() =~= s.to_multiset());
        lemma_shuffled_from_multiset(moved, advance(state, 1), i - 1);
    }
}

// ---------------------------------------------------------------------------
// Laws of the generator.
// ---------------------------------------------------------------------------

/// Multiplication by a number that has an inverse loses nothing.
proof fn lemma_times_reversible(a: int, b: int, factor: int, inverse: int)
    requires
        0 <= a < 0x1_0000_0000_0000_0000,
        0 <= b < 0x1_0000_0000_0000_0000,
        (factor * inverse) % 0x1_0000_0000_0000_0000 == 1,
        (a * factor) % 0x1_0000_0000_0000_0000 == (b * factor) % 0x1_0000_0000_0000_0000,
    ensures
        a == b,
{
    let m: int = 0x1_0000_0000_0000_0000;
    assert forall|x: int| 0 <= x < m implies #[trigger] (((x * factor) % m) * inverse) % m == x by {
        vstd::arithmetic::div_mod::lemma_mul_mod_noop_left(x * factor, inverse, m);
        vstd::arithmetic::mul::lemma_mul_is_associative(x, factor, inverse);
        vstd::arithmetic::div_mod::lemma_mul_mod_noop_right(x, factor * inverse, m);
        assert(x * 1 == x);
        vstd::arithmetic::div_mod::lemma_small_mod(x as nat, m as nat);
    }
    assert((((a * factor) % m) * inverse) % m == a);
    assert((((b * factor) % m) * inverse) % m == b);
}

proof fn lemma_wrapping_mul_reversible(a: u64, b: u64, factor: u64, inverse: int)
    requires
        (factor * inverse) % 0x1_0000_0000_0000_0000 == 1,
        a.wrapping_mul(factor) == b.wrapping_mul(factor),
    ensures
        a == b,
{
    assert(a.wrapping_mul(factor) == (a * factor) % 0x1_0000_0000_0000_0000);
    assert(b.wrapping_mul(factor) == (b * factor) % 0x1_0000_0000_0000_0000);
    lemma_times_reversible(a as int, b as int, factor as int, inverse);
}

/// Different states give different numbers.
pub proof fn law_mix_is_reversible(a: u64, b: u64)
    requires
        mix(a) == mix(b),
    ensures
        a == b,
{
    reveal(mix);
    let (a1, b1) = (a ^ (a >> 30), b ^ (b >> 30));
    let (a2, b2) = (
        a1.wrapping_mul(0xBF58_476D_1CE4_E5B9),
        b1.wrapping_mul(0xBF58_476D_1CE4_E5B9),
    );
    let (a3, b3) = (a2 ^ (a2 >> 27), b2 ^ (b2 >> 27));
    let (a4, b4) = (
        a3.wrapping_mul(0x94D0_49BB_1331_11EB),
        b3.wrapping_mul(0x94D0_49BB_1331_11EB),
    );
    assert((a4 ^ (a4 >> 31)) == (b4 ^ (b4 >> 31)) ==> a4 == b4) by (bit_vector);
    lemma_wrapping_mul_reversible(a3, b3, 0x94D0_49BB_1331_11EB, 0x3196_42B2_D24D_8EC3);
    assert((a2 ^ (a2 >> 27)) == (b2 ^ (b2 >> 27)) ==> a2 == b2) by (bit_vector);
    lemma_wrapping_mul_reversible(a1, b1, 0xBF58_476D_1CE4_E5B9, 0x96DE_1B17_3F11_9089);
    assert((a ^ (a >> 30)) == (b ^ (b >> 30)) ==> a == b) by (bit_vector);
}

/// A generator does not repeat a number before it has given every number of 64
/// bits once.
pub proof fn law_draws_do_not_repeat(seed: u64, j: nat, k: nat)
    requires
        j < k,
        k - j < 0x1_0000_0000_0000_0000,
    ensures
        draw(seed, j) != draw(seed, k),
{
    let m: int = 0x1_0000_0000_0000_0000;
    if draw(seed, j) == draw(seed, k) {
        law_mix_is_reversible(advance(seed, j + 1), advance(seed, k + 1));
        let (x, y) = (seed + (j + 1) * GAMMA, seed + (k + 1) * GAMMA);
        let d = (k - j) as int;
        assert(y - x == d * GAMMA) by (nonlinear_arith)
            requires
                x == seed + (j + 1) * GAMMA,
                y == seed + (k + 1) * GAMMA,
                d == k - j,
        ;
        assert(x >= 0 && y >= 0) by (nonlinear_arith)
            requires
                x == seed + (j + 1) * GAMMA,
                y == seed + (k + 1) * GAMMA,
        ;
        vstd::arithmetic::div_mod::lemma_mod_bound(x, m);
        vstd::arithmetic::div_mod::lemma_mod_bound(y, m);
        assert(x % m == y % m);
        vstd::arithmetic::div_mod::lemma_sub_mod_noop(y, x, m);
        assert((y % m - x % m) % m == 0);
        assert((y - x) % m == 0);
        assert(0 * GAMMA as int == 0);
        lemma_times_reversible(d, 0, GAMMA as int, 0xF1DE_83E1_9937_733D);
    }
}

proof fn lemma_shuffled_from_prefix<T>(s: Seq<T>, state: u64, i: int)
    requires
        i < s.len(),
        -1 <= i,
    ensures
        shuffled_from(s, state, i) == shuffled_from(s.take(i + 1), state, i) + s.skip(i + 1),
    decreases i,
{
    let (head, tail) = (s.take(i + 1), s.skip(i + 1));
    assert(head + tail =~= s);
    if i > 0 {
        let j = partner(state, i);
        assert(0 <= j <= i);
        let moved = swapped(s, i, j);
        let short = swapped(head, i, j);
        assert(moved =~= short + tail);
        lemma_shuffled_from_prefix(moved, advance(state, 1), i - 1);
        lemma_shuffled_from_prefix(short, advance(state, 1), i - 1);
        assert(moved.take(i) =~= short.take(i));
        assert(moved.skip(i) =~= short.skip(i) + tail);
        lemma_shuffled_from_len(short.take(i), advance(state, 1), i - 1);
        assert(shuffled_from(moved, advance(state, 1), i - 1) =~= shuffled_from(
            short,
            advance(state, 1),
            i - 1,
        ) + tail);
    }
}

/// A shuffle draws lots: what comes last is the row that the first number picks
/// among all of them; the last row takes its place, and the others are shuffled in
/// the same way with the numbers that follow.
pub proof fn law_shuffle_draws_lots<T>(s: Seq<T>, seed: u64)
    requires
        s.len() >= 2,
    ensures
        ({
            let last = s.len() - 1;
            let picked = draw(seed, 0) as int % (last + 1);
            let rest = s.update(picked, s[last]).drop_last();
            &&& 0 <= picked <= last
            &&& shuffled(s, seed).last() == s[picked]
            &&& shuffled(s, seed).drop_last() == shuffled(rest, advance(seed, 1))
        }),
        forall|k: nat| draw(advance(seed, 1), k) == #[trigger] draw(seed, k + 1),
{
    let last = s.len() - 1;
    let picked = partner(seed, last);
    let rest = s.update(picked, s[last]).drop_last();
    let moved = swapped(s, last, picked);
    assert(moved.take(last) =~= rest);
    lemma_shuffled_from_prefix(moved, advance(seed, 1), last - 1);
    lemma_shuffled_from_len(rest, advance(seed, 1), last - 1);
    assert(moved.skip(last) =~= seq![s[picked]]);
    assert(shuffled(s, seed) =~= shuffled(rest, advance(seed, 1)).push(s[picked]));
    assert(shuffled(s, seed).drop_last() =~= shuffled(rest, advance(seed, 1)));
    assert forall|k: nat| draw(advance(seed, 1), k) == #[trigger] draw(seed, k + 1) by {
        lemma_advance(seed, 1, k);
    }
}

/// Lists of at most one row stay as they are.
pub proof fn law_shuffle_of_one<T>(s: Seq<T>, seed: u64)
    requires
        s.len() <= 1,
    ensures
        shuffled(s, seed) == s,
{
}

} // verus!

//! Distances as fixed-point keys.
//!
//! The Euclidean distance between two integer points is the square root of an
//! integer. A `DistanceKey` holds that root cut off after six decimal digits,
//! computed in integers alone, so that two keys always compare, and compare
//! equal exactly when the distances agree to that precision.

use vstd::prelude::*;

verus! {

/// Number of key steps in one unit of distance: six decimal digits.
pub const STEPS_PER_UNIT: u128 = 1_000_000;

/// `r` is the square root of `n`, rounded down.
pub open spec fn is_floor_sqrt(n: nat, r: nat) -> bool {
    r * r <= n < (r + 1) * (r + 1)
}

/// The square root of `n`, rounded down.
pub open spec fn floor_sqrt(n: nat) -> nat {
    choose|r: nat| is_floor_sqrt(n, r)
}

/// The distance whose square is `squared`, in steps of 10^-6, rounded down.
pub open spec fn scaled_root(squared: nat) -> nat {
    floor_sqrt(squared * 1_000_000_000_000)
}

/// Every natural number has a rounded-down square root.
pub proof fn lemma_floor_sqrt_exists(n: nat)
    ensures
        is_floor_sqrt(n, floor_sqrt(n)),
    decreases n,
{
    if n == 0 {
        assert(0nat * 0nat <= 0 < (0nat + 1) * (0nat + 1)) by (nonlinear_arith);
        assert(is_floor_sqrt(0, 0));
    } else {
        lemma_floor_sqrt_exists((n - 1) as nat);
        let r = floor_sqrt((n - 1) as nat);
        if (r + 1) * (r + 1) <= n {
            assert((r + 2) * (r + 2) > (r + 1) * (r + 1)) by (nonlinear_arith);
            assert(is_floor_sqrt(n, r + 1));
        } else {
            assert(is_floor_sqrt(n, r));
        }
    }
}

/// Squaring is strictly monotone on the natural numbers.
pub proof fn lemma_square_monotone(a: nat, b: nat)
    ensures
        a <= b ==> a * a <= b * b,
        a < b ==> (a + 1) * (a + 1) <= b * b,
{
    assert(a <= b ==> a * a <= b * b) by (nonlinear_arith);
    assert(a < b ==> (a + 1) * (a + 1) <= b * b) by (nonlinear_arith);
}

/// The rounded-down square root is the only number between whose square and
/// whose successor's square `n` lies.
pub proof fn lemma_floor_sqrt_unique(n: nat, r: nat)
    requires
        is_floor_sqrt(n, r),
    ensures
        floor_sqrt(n) == r,
{
    let s = floor_sqrt(n);
    lemma_floor_sqrt_exists(n);
    lemma_square_monotone(r, s);
    lemma_square_monotone(s, r);
}

/// A larger number has no smaller root.
pub proof fn lemma_floor_sqrt_monotone(a: nat, b: nat)
    requires
        a <= b,
    ensures
        floor_sqrt(a) <= floor_sqrt(b),
{
    lemma_floor_sqrt_exists(a);
    lemma_floor_sqrt_exists(b);
    lemma_square_monotone(floor_sqrt(b), floor_sqrt(a));
}

/// Computes the square root of `n`, rounded down, by bisection.
pub fn integer_sqrt(n: u128) -> (r: u64)
    ensures
        r as nat == floor_sqrt(n as nat),
{
    let mut low: u128 = 0;
    let mut high: u128 = 0x1_0000_0000_0000_0000;
    assert(high * high > n) by (nonlinear_arith)
        requires
            high == 0x1_0000_0000_0000_0000u128,
            n <= u128::MAX,
    ;
    while high - low > 1
        invariant
            low < high <= 0x1_0000_0000_0000_0000,
            low * low <= n < high * high,
        decreases high - low,
    {
        let mid: u128 = low + (high - low) / 2;
        assert(mid * mid <= u128::MAX) by (nonlinear_arith)
            requires
                mid < 0x1_0000_0000_0000_0000u128,
        ;
        if mid * mid <= n {
            low = mid;
        } else {
            high = mid;
        }
    }
    proof {
        assert(high == low + 1);
        assert(is_floor_sqrt(n as nat, low as nat));
        lemma_floor_sqrt_unique(n as nat, low as nat);
    }
    low as u64
}

/// What the square of `10 * root + digit` has over the square of `10 * root`.
spec fn digit_cost(root: nat, digit: nat) -> nat {
    (20 * root + digit) * digit
}

/// How a root grows by one decimal digit: if `root` is the rounded-down square
/// root of `n`, and `digit` is the largest of 0 to 9 whose cost does not
/// exceed a hundred times what `n` has over the square of `root`, then
/// `10 * root + digit` is the rounded-down square root of `100 * n`.
proof fn lemma_next_digit(n: nat, root: nat, digit: nat)
    requires
        is_floor_sqrt(n, root),
        digit <= 9,
        digit_cost(root, digit) <= 100 * (n - root * root),
        digit < 9 ==> digit_cost(root, digit + 1) > 100 * (n - root * root),
    ensures
        is_floor_sqrt(100 * n, 10 * root + digit),
        100 * n - (10 * root + digit) * (10 * root + digit) == 100 * (n - root * root)
            - digit_cost(root, digit),
{
    let next = 10 * root + digit;
    assert(next * next == 100 * (root * root) + digit_cost(root, digit))
        by (nonlinear_arith)
        requires
            next == 10 * root + digit,
    ;
    if digit < 9 {
        assert((next + 1) * (next + 1) == 100 * (root * root) + digit_cost(root, digit + 1))
            by (nonlinear_arith)
            requires
                next == 10 * root + digit,
        ;
    } else {
        assert((next + 1) * (next + 1) == 100 * ((root + 1) * (root + 1))) by (nonlinear_arith)
            requires
                next == 10 * root + 9,
        ;
    }
}

/// Carries a root and what its number has over its square to the next
/// decimal digit.
fn next_digit(root: u128, rest: u128, Ghost(n): Ghost<nat>) -> (out: (u128, u128))
    requires
        is_floor_sqrt(n, root as nat),
        rest == n - root * root,
        root <= 0x400_0000_0000_0000_0000_0000,
    ensures
        is_floor_sqrt(100 * n, out.0 as nat),
        out.1 == 100 * n - out.0 * out.0,
        out.0 <= 10 * root + 9,
{
    assert(rest <= 2 * root) by (nonlinear_arith)
        requires
            rest == n - root * root,
            n < (root + 1) * (root + 1),
    ;
    let base: u128 = 20 * root;
    let target: u128 = 100 * rest;
    let mut digit: u128 = 9;
    let mut cost: u128 = (base + digit) * digit;
    while cost > target
        invariant
            digit <= 9,
            base == 20 * root,
            root <= 0x400_0000_0000_0000_0000_0000,
            cost == digit_cost(root as nat, digit as nat),
            digit < 9 ==> digit_cost(root as nat, (digit + 1) as nat) > target,
        decreases digit,
    {
        assert(digit > 0) by {
            assert(digit_cost(root as nat, 0) == 0);
        }
        digit -= 1;
        assert((base + digit) * digit <= (base + 9) * 9) by (nonlinear_arith)
            requires
                digit <= 9,
        ;
        cost = (base + digit) * digit;
    }
    proof {
        lemma_next_digit(n, root as nat, digit as nat);
    }
    (10 * root + digit, target - cost)
}

/// Carries a rounded-down square root to six decimal digits.
///
/// `root` is the rounded-down square root of `n` and `rest` what `n` has over
/// its square. The result is the square root of `n` in steps of 10^-6,
/// rounded down.
pub(crate) fn scale_root(root: u128, rest: u128, Ghost(n): Ghost<nat>) -> (scaled: u128)
    requires
        is_floor_sqrt(n, root as nat),
        rest == n - root * root,
        root <= 0x2_0000_0000_0000_0000,
    ensures
        scaled == scaled_root(n),
{
    let (root, rest) = next_digit(root, rest, Ghost(n));
    let (root, rest) = next_digit(root, rest, Ghost(100 * n));
    let (root, rest) = next_digit(root, rest, Ghost(10_000 * n));
    let (root, rest) = next_digit(root, rest, Ghost(1_000_000 * n));
    let (root, rest) = next_digit(root, rest, Ghost(100_000_000 * n));
    let (root, rest) = next_digit(root, rest, Ghost(10_000_000_000 * n));
    proof {
        lemma_floor_sqrt_unique(n * 1_000_000_000_000, root as nat);
    }
    root
}

/// A distance cut off after six decimal digits: `whole` units and `micro`
/// millionths of a unit.
#[derive(PartialEq, Eq, Structural, PartialOrd, Ord, Debug, Clone, Copy)]
pub struct DistanceKey {
    pub whole: u128,
    pub micro: u32,
}

impl DistanceKey {
    /// The fractional part is a proper fraction of a unit.
    pub open spec fn wf(self) -> bool {
        self.micro < 1_000_000
    }

    /// The key as a count of steps of 10^-6.
    pub open spec fn scaled(self) -> nat {
        (self.whole * 1_000_000 + self.micro) as nat
    }

    /// This key orders strictly before `other`: first by whole units, then
    /// by millionths.
    pub open spec fn below(self, other: DistanceKey) -> bool {
        self.whole < other.whole || (self.whole == other.whole && self.micro < other.micro)
    }

    /// The key of `scaled` steps of 10^-6.
    pub fn from_scaled(scaled: u128) -> (key: DistanceKey)
        ensures
            key.wf(),
            key.scaled() == scaled,
    {
        let whole: u128 = scaled / STEPS_PER_UNIT;
        let micro: u128 = scaled % STEPS_PER_UNIT;
        DistanceKey { whole, micro: micro as u32 }
    }

    /// The key of the distance whose square is `squared`.
    pub fn from_squared(squared: u128) -> (key: DistanceKey)
        ensures
            key.wf(),
            key.scaled() == scaled_root(squared as nat),
    {
        let root: u128 = integer_sqrt(squared) as u128;
        proof {
            lemma_floor_sqrt_exists(squared as nat);
        }
        DistanceKey::from_scaled(scale_root(root, squared - root * root, Ghost(squared as nat)))
    }

    /// Tells whether this key orders strictly before `other`.
    pub fn is_below(&self, other: &DistanceKey) -> (b: bool)
        ensures
            b == self.below(*other),
    {
        self.whole < other.whole || (self.whole == other.whole && self.micro < other.micro)
    }

    /// For well-formed keys the order of the keys is the order of their step
    /// counts, and equal step counts mean equal keys.
    pub proof fn lemma_order_is_numeric(self, other: DistanceKey)
        requires
            self.wf(),
            other.wf(),
        ensures
            self.below(other) <==> self.scaled() < other.scaled(),
            self == other <==> self.scaled() == other.scaled(),
    {
    }
}

/// The distance with square `far` exceeds the one with square `near` by more
/// than one step of 10^-6.
///
/// With `a` and `b` the two squares scaled by 10^12, the gap between the roots
/// exceeds one exactly when `b - a - 1` is positive and its square exceeds
/// `4 * a`.
pub open spec fn more_than_a_step_apart(near: nat, far: nat) -> bool {
    let a = near * 1_000_000_000_000;
    let b = far * 1_000_000_000_000;
    b > a + 1 && (b - a - 1) * (b - a - 1) > 4 * a
}

/// Keys never invert the order of distances.
pub proof fn lemma_keys_follow_distances(near: nat, far: nat)
    requires
        near <= far,
    ensures
        scaled_root(near) <= scaled_root(far),
{
    assert(near * 1_000_000_000_000 <= far * 1_000_000_000_000);
    lemma_floor_sqrt_monotone(near * 1_000_000_000_000, far * 1_000_000_000_000);
}

/// Two distances more than a step apart get keys in the same strict order.
pub proof fn lemma_keys_separate_distant(near: nat, far: nat)
    requires
        more_than_a_step_apart(near, far),
    ensures
        scaled_root(near) < scaled_root(far),
{
    let a = near * 1_000_000_000_000;
    let b = far * 1_000_000_000_000;
    let r = floor_sqrt(a);
    let s = floor_sqrt(b);
    lemma_floor_sqrt_exists(a);
    lemma_floor_sqrt_exists(b);
    let gap = b - a - 1;
    assert(2 * r < gap) by (nonlinear_arith)
        requires
            r * r <= a,
            gap > 0,
            gap * gap > 4 * a,
    ;
    assert((r + 1) * (r + 1) == r * r + 2 * r + 1) by (nonlinear_arith);
    assert((r + 1) * (r + 1) <= b);
    if s <= r {
        lemma_square_monotone(s, r + 1);
    }
}

/// Two distances with the same key are no more than a step apart.
pub proof fn lemma_equal_keys_are_close(one: nat, other: nat)
    requires
        scaled_root(one) == scaled_root(other),
    ensures
        !more_than_a_step_apart(one, other),
        !more_than_a_step_apart(other, one),
{
    if more_than_a_step_apart(one, other) {
        lemma_keys_separate_distant(one, other);
    }
    if more_than_a_step_apart(other, one) {
        lemma_keys_separate_distant(other, one);
    }
}

/// The order of keys agrees with the order of the distances they stand for:
/// the key of the smaller distance is never above the key of the larger one,
/// it is strictly below where the distances are more than a step of 10^-6
/// apart, and equal keys mean distances no more than a step apart.
pub proof fn lemma_key_order_agrees_with_distance(
    near: nat,
    far: nat,
    near_key: DistanceKey,
    far_key: DistanceKey,
)
    requires
        near_key.wf(),
        far_key.wf(),
        near_key.scaled() == scaled_root(near),
        far_key.scaled() == scaled_root(far),
    ensures
        near <= far ==> !far_key.below(near_key),
        more_than_a_step_apart(near, far) ==> near_key.below(far_key),
        near_key == far_key ==> !more_than_a_step_apart(near, far) && !more_than_a_step_apart(
            far,
            near,
        ),
{
    near_key.lemma_order_is_numeric(far_key);
    far_key.lemma_order_is_numeric(near_key);
    if near <= far {
        lemma_keys_follow_distances(near, far);
    }
    if more_than_a_step_apart(near, far) {
        lemma_keys_separate_distant(near, far);
    }
    if near_key == far_key {
        lemma_equal_keys_are_close(near, far);
    }
}

/// Two distances that lie between the same two neighbouring multiples of a
/// step, the lower one included, get the same key.
pub proof fn lemma_same_step_same_key(one: nat, other: nat, steps: nat)
    requires
        is_floor_sqrt(one * 1_000_000_000_000, steps),
        is_floor_sqrt(other * 1_000_000_000_000, steps),
    ensures
        scaled_root(one) == steps,
        scaled_root(other) == steps,
{
    lemma_floor_sqrt_unique(one * 1_000_000_000_000, steps);
    lemma_floor_sqrt_unique(other * 1_000_000_000_000, steps);
}

} // verus!

//! Guarantees of the resource allocators.
//!
//! Users share a pool of resources. Whenever one of them requests resources,
//! the quota decides with the help of an allocator. None of the resources are
//! released again. The order in which users request resources, and how many of
//! them there will be eventually, is unknown. Still, every user that comes along
//! is guaranteed a share of all the resources the pool started with.

use crate::acct::Value;
use crate::acct::quota::{
    fits, lemma_log2_ceiled, lemma_quasilinear_positive, log2_ceiled, quasilinear, reserve,
};
use vstd::arithmetic::mul::lemma_mul_inequality_converse;
use vstd::arithmetic::power2::{
    lemma_pow2_pos, lemma_pow2_strictly_increases, lemma_pow2_unfold, pow2,
};
use vstd::prelude::*;

verus! {

/// A pool of resources, and the shares that users have allocated from it. Users
/// are listed in the order of their most recent allocation.
pub struct Pool {
    pub remaining: Value,
    pub shares: Seq<Value>,
}

/// A request for resources of a pool by one of the users in its list, or by a
/// new user if this is the position behind the list.
pub struct Request {
    pub user: int,
    pub charge: Value,
}

impl Pool {
    /// What a user has allocated already.
    pub open spec fn share(self, user: int) -> Value {
        if 0 <= user < self.shares.len() {
            self.shares[user]
        } else {
            0
        }
    }

    /// Number of users, including the one at the given position.
    pub open spec fn users(self, user: int) -> int {
        if user < self.shares.len() {
            self.shares.len() as int
        } else {
            self.shares.len() as int + 1
        }
    }

    /// Whether the quota grants a request.
    pub open spec fn grants(self, allocator: spec_fn(int) -> int, r: Request) -> bool {
        let minimum = reserve(
            fits(allocator(self.users(r.user))),
            self.share(r.user),
            r.charge,
        );
        &&& 0 <= r.user <= self.shares.len()
        &&& minimum is Some
        &&& minimum->0 <= self.remaining
    }

    /// The pool after a request was granted.
    pub open spec fn granted(self, r: Request) -> Pool {
        let others = if r.user < self.shares.len() {
            self.shares.remove(r.user)
        } else {
            self.shares
        };
        Pool {
            remaining: (self.remaining - r.charge) as Value,
            shares: others.push((self.share(r.user) + r.charge) as Value),
        }
    }

    /// The remaining resources together with the shares from a position on.
    spec fn tail(self, k: int) -> int
        decreases self.shares.len() - k,
    {
        if 0 <= k < self.shares.len() {
            self.shares[k] + self.tail(k + 1)
        } else {
            self.remaining as int
        }
    }

    /// Every share is bounded by what was left over by it.
    spec fn fair(self, allocator: spec_fn(int) -> int) -> bool {
        forall|k: int| #![trigger self.shares[k]]
            0 <= k < self.shares.len() ==> self.shares[k] * (allocator(k + 1) - 1) <= self.tail(
                k + 1,
            )
    }
}

/// The pool after a series of requests.
pub open spec fn served(amount: Value, requests: Seq<Request>) -> Pool
    decreases requests.len(),
{
    if requests.len() == 0 {
        Pool { remaining: amount, shares: Seq::empty() }
    } else {
        served(amount, requests.drop_last()).granted(requests.last())
    }
}

/// All of a series of requests are granted.
pub open spec fn grantable(
    amount: Value,
    allocator: spec_fn(int) -> int,
    requests: Seq<Request>,
) -> bool
    decreases requests.len(),
{
    requests.len() > 0 ==> {
        &&& grantable(amount, allocator, requests.drop_last())
        &&& served(amount, requests.drop_last()).grants(allocator, requests.last())
    }
}

/// An allocator that is never less than two, and that does not decrease with
/// more users.
pub open spec fn monotone(allocator: spec_fn(int) -> int) -> bool {
    &&& forall|n: int| n >= 1 ==> #[trigger] allocator(n) >= 2
    &&& forall|m: int, n: int|
        1 <= m <= n ==> #[trigger] allocator(m) <= #[trigger] allocator(n)
}

/// Granting a request moves the user to the end of the list.
proof fn lemma_tail_granted(p: Pool, r: Request, k: int)
    requires
        0 <= r.user <= p.shares.len(),
        r.charge <= p.remaining,
        p.share(r.user) + r.charge <= Value::MAX,
        0 <= k <= p.granted(r).shares.len(),
    ensures
        k <= r.user ==> p.granted(r).tail(k) == p.tail(k),
        r.user < k < p.granted(r).shares.len() ==> p.granted(r).tail(k) == p.tail(k + 1) + p.share(
            r.user,
        ),
        k == p.granted(r).shares.len() ==> p.granted(r).tail(k) == p.remaining - r.charge,
    decreases p.granted(r).shares.len() - k,
{
    let q = p.granted(r);
    let n = q.shares.len();
    if k < n {
        lemma_tail_granted(p, r, k + 1);
        if k < r.user {
            assert(q.shares[k] == p.shares[k]);
        } else if k < n - 1 {
            assert(q.shares[k] == p.shares[k + 1]);
            if k == r.user {
                assert(p.tail(k) == p.shares[k] + p.tail(k + 1));
            }
            assert(p.tail(k + 1) == p.shares[k + 1] + p.tail(k + 2));
        } else {
            assert(p.tail(k + 1) == p.remaining);
            assert(q.tail(k + 1) == q.remaining);
            assert(q.shares[k] == p.share(r.user) + r.charge);
            if r.user < p.shares.len() && k == r.user {
                assert(p.tail(k) == p.shares[k] + p.tail(k + 1));
            }
        }
    }
}

/// What is granted covers the request, and leaves as much as the allocator asks
/// for.
proof fn lemma_grant(p: Pool, a: int, r: Request)
    requires
        a >= 2,
        reserve(fits(a), p.share(r.user), r.charge) is Some,
        reserve(fits(a), p.share(r.user), r.charge)->0 <= p.remaining,
    ensures
        r.charge <= p.remaining,
        p.share(r.user) + r.charge <= Value::MAX,
        (p.share(r.user) + r.charge) * (a - 1) <= p.remaining - r.charge,
{
    let x = p.share(r.user) + r.charge;
    assert(x * (a - 1) == x * a - x) by (nonlinear_arith);
    assert(x * a >= 2 * x) by (nonlinear_arith)
        requires
            x >= 0,
            a >= 2,
    ;
}

/// Granting requests keeps the shares fair.
proof fn lemma_fair(amount: Value, allocator: spec_fn(int) -> int, requests: Seq<Request>)
    requires
        monotone(allocator),
        grantable(amount, allocator, requests),
    ensures
        served(amount, requests).fair(allocator),
        served(amount, requests).tail(0) == amount,
    decreases requests.len(),
{
    if requests.len() > 0 {
        lemma_fair(amount, allocator, requests.drop_last());
        let p = served(amount, requests.drop_last());
        let r = requests.last();
        let q = p.granted(r);
        let n = q.shares.len();
        assert(allocator(p.users(r.user)) >= 2);
        lemma_grant(p, allocator(p.users(r.user)), r);
        lemma_tail_granted(p, r, 0);
        assert forall|k: int| #![trigger q.shares[k]] 0 <= k < n implies q.shares[k] * (allocator(
            k + 1,
        ) - 1) <= q.tail(k + 1) by {
            lemma_tail_granted(p, r, k + 1);
            if k < r.user {
                assert(q.shares[k] == p.shares[k]);
                assert(k + 1 <= r.user);
            } else if k < n - 1 {
                let x = p.shares[k + 1];
                assert(q.shares[k] == x);
                assert(allocator(k + 1) <= allocator(k + 2));
                assert(x * (allocator(k + 1) - 1) <= x * (allocator(k + 2) - 1))
                    by (nonlinear_arith)
                    requires
                        x >= 0,
                        allocator(k + 1) <= allocator(k + 2),
                ;
            }
        }
    }
}

/// The allocator that grants access to half of the remaining resources.
pub open spec fn exponential() -> spec_fn(int) -> int {
    |n: int| 2int
}

/// The allocator that grants access to 1 over `n + 1` of the remaining
/// resources.
pub open spec fn polynomial() -> spec_fn(int) -> int {
    |n: int| n + 1
}

/// The exponential allocator guarantees that each independent user gets access
/// to 1 over `2^n` of the total resources, with `n` being the number of users
/// including that user.
pub proof fn lemma_exponential_guarantee(amount: Value, requests: Seq<Request>, charge: Value)
    requires
        grantable(amount, exponential(), requests),
        ({
            let n = served(amount, requests).shares.len() + 1;
            charge * pow2(n as nat) <= amount
        }),
    ensures
        ({
            let p = served(amount, requests);
            p.grants(exponential(), Request { user: p.shares.len() as int, charge })
        }),
{
    let p = served(amount, requests);
    let n = p.shares.len() as int;
    lemma_fair(amount, exponential(), requests);
    lemma_exponential_tail(p, amount as int, n);
    let e = pow2(n as nat) as int;
    lemma_pow2_pos(n as nat);
    lemma_pow2_unfold((n + 1) as nat);
    let c = charge as int;
    let r = p.remaining as int;
    assert(c * (2 * e) == c * 2 * e) by (nonlinear_arith);
    assert(c * 2 <= r) by (nonlinear_arith)
        requires
            c * 2 * e <= r * e,
            e > 0,
    ;
}

proof fn lemma_exponential_tail(p: Pool, amount: int, k: int)
    requires
        p.fair(exponential()),
        p.tail(0) == amount,
        0 <= k <= p.shares.len(),
    ensures
        amount <= p.tail(k) * pow2(k as nat),
    decreases k,
{
    if k == 0 {
        lemma_pow2_unfold(1);
        vstd::arithmetic::power2::lemma2_to64();
    } else {
        lemma_exponential_tail(p, amount, k - 1);
        lemma_pow2_unfold(k as nat);
        lemma_pow2_pos((k - 1) as nat);
        let e = pow2((k - 1) as nat) as int;
        let x = p.tail(k - 1);
        let y = p.tail(k);
        assert(p.shares[k - 1] * 1 <= y);
        assert(x * e <= y * (2 * e)) by (nonlinear_arith)
            requires
                x <= 2 * y,
                e > 0,
        ;
    }
}

/// The polynomial allocator guarantees that each independent user gets access
/// to 1 over `n * (n + 1)` of the total resources, with `n` being the number of
/// users including that user.
pub proof fn lemma_polynomial_guarantee(amount: Value, requests: Seq<Request>, charge: Value)
    requires
        grantable(amount, polynomial(), requests),
        charge > 0,
        ({
            let n = served(amount, requests).shares.len() + 1;
            charge * (n * (n + 1)) <= amount
        }),
    ensures
        ({
            let p = served(amount, requests);
            p.grants(polynomial(), Request { user: p.shares.len() as int, charge })
        }),
{
    let p = served(amount, requests);
    let n = p.shares.len() as int + 1;
    assert(monotone(polynomial()));
    lemma_fair(amount, polynomial(), requests);
    lemma_polynomial_tail(p, amount as int, n - 1);
    let c = charge as int;
    let r = p.remaining as int;
    assert(c * (n + 1) <= r) by (nonlinear_arith)
        requires
            c * (n * (n + 1)) <= r * n,
            n > 0,
    ;
    assert(n + 1 <= c * (n + 1)) by (nonlinear_arith)
        requires
            c >= 1,
            n > 0,
    ;
}

proof fn lemma_polynomial_tail(p: Pool, amount: int, k: int)
    requires
        p.fair(polynomial()),
        p.tail(0) == amount,
        0 <= k <= p.shares.len(),
    ensures
        amount <= p.tail(k) * (k + 1),
    decreases k,
{
    if k > 0 {
        lemma_polynomial_tail(p, amount, k - 1);
        let x = p.shares[k - 1] as int;
        let y = p.tail(k);
        assert(x * (polynomial()(k) - 1) <= y);
        assert(p.tail(k - 1) == x + y);
        assert((x + y) * k <= y * (k + 1)) by (nonlinear_arith)
            requires
                x * k <= y,
        ;
    } else {
        assert(amount * 1 == amount) by (nonlinear_arith);
    }
}

/// A ceiled logarithm is determined by the powers of two around the value.
proof fn lemma_log2_between(v: int, e: nat)
    requires
        e > 0,
        pow2((e - 1) as nat) < v <= pow2(e),
    ensures
        log2_ceiled(v) == e,
{
    lemma_pow2_pos((e - 1) as nat);
    lemma_log2_ceiled(v);
    let l = log2_ceiled(v);
    if l < e {
        if l < e - 1 {
            lemma_pow2_strictly_increases(l, (e - 1) as nat);
        }
    }
}

/// A value lies between the powers of two that its ceiled logarithm tells.
proof fn lemma_log2_bounds(v: int)
    requires
        v >= 2,
    ensures
        log2_ceiled(v) >= 1,
        pow2((log2_ceiled(v) - 1) as nat) < v <= pow2(log2_ceiled(v)),
{
    lemma_log2_ceiled(v);
    let l = log2_ceiled(v);
    if v <= pow2((l - 1) as nat) {
        assert(l <= l - 1);
    }
}

/// Logarithms do not decrease.
proof fn lemma_log2_monotone(v: int, w: int)
    requires
        1 <= v <= w,
    ensures
        log2_ceiled(v) <= log2_ceiled(w),
{
    lemma_log2_ceiled(v);
    lemma_log2_ceiled(w);
}

/// The quasilinear allocator.
pub open spec fn quasilinear_fn() -> spec_fn(int) -> int {
    |n: int| quasilinear(n)
}

proof fn lemma_quasilinear_monotone()
    ensures
        monotone(quasilinear_fn()),
{
    assert forall|n: int| n >= 1 implies #[trigger] quasilinear_fn()(n) >= 2 by {
        lemma_quasilinear_positive(n);
    }
    assert forall|m: int, n: int| 1 <= m <= n implies #[trigger] quasilinear_fn()(m)
        <= #[trigger] quasilinear_fn()(n) by {
        lemma_log2_monotone(m + 1, n + 1);
        let a = log2_ceiled(m + 1) as int;
        let b = log2_ceiled(n + 1) as int;
        assert((m + 1) * a <= (n + 1) * b) by (nonlinear_arith)
            requires
                0 <= m <= n,
                0 <= a <= b,
        ;
    }
}

/// What is left over from the shares up to a position, within a block of
/// positions of equal logarithm.
spec fn quasilinear_left(p: Pool, amount: int, k: int) -> bool {
    let m = log2_ceiled(k + 1) as int;
    let b = pow2((m - 1) as nat) as int;
    3 * amount * (b * m - (k + 1 - b)) <= p.tail(k) * (4 * (m - 1) * (b * m))
}

proof fn lemma_chained(z: int, x: int, y: int, c: int, d: int)
    requires
        z * (d + 1) <= x * c,
        x * d <= y * (d + 1),
        d >= 0,
        c >= 0,
    ensures
        z * d <= y * c,
{
    assert((z * (d + 1)) * d <= (x * c) * d) by (nonlinear_arith)
        requires
            z * (d + 1) <= x * c,
            d >= 0,
    ;
    assert((x * d) * c <= (y * (d + 1)) * c) by (nonlinear_arith)
        requires
            x * d <= y * (d + 1),
            c >= 0,
    ;
    assert((x * c) * d == (x * d) * c) by (nonlinear_arith);
    assert((z * (d + 1)) * d == (z * d) * (d + 1)) by (nonlinear_arith);
    assert((y * (d + 1)) * c == (y * c) * (d + 1)) by (nonlinear_arith);
    lemma_mul_inequality_converse(z * d, y * c, d + 1);
}

proof fn lemma_block_bound(z: int, y: int, b: int, m: int, j: int)
    requires
        z * (b * m - j) <= y * (4 * (m - 1) * (b * m)),
        j <= b,
        b >= 1,
        m >= 2,
        z >= 0,
    ensures
        z <= 4 * m * y,
{
    let e = b * (m - 1);
    assert(b * m - b == e) by (nonlinear_arith)
        requires
            e == b * (m - 1),
    ;
    assert(e >= 1) by (nonlinear_arith)
        requires
            e == b * (m - 1),
            b >= 1,
            m >= 2,
    ;
    assert(z * e <= z * (b * m - j)) by (nonlinear_arith)
        requires
            z >= 0,
            e <= b * m - j,
    ;
    assert(y * (4 * (m - 1) * (b * m)) == (4 * m * y) * e) by (nonlinear_arith)
        requires
            e == b * (m - 1),
    ;
    lemma_mul_inequality_converse(z, 4 * m * y, e);
}

#[verifier::rlimit(40)]
proof fn lemma_quasilinear_tail(p: Pool, amount: int, k: int)
    requires
        p.fair(quasilinear_fn()),
        p.tail(0) == amount,
        1 <= k <= p.shares.len(),
    ensures
        3 * amount <= 4 * log2_ceiled(k + 1) * p.tail(k),
        k >= 2 ==> quasilinear_left(p, amount, k),
    decreases k,
{
    let m = log2_ceiled(k + 1) as int;
    let b = pow2((m - 1) as nat) as int;
    let x = p.shares[k - 1] as int;
    let y = p.tail(k);
    lemma_tail_nat(p, k);
    lemma_log2_bounds(k + 1);
    assert(x * (quasilinear_fn()(k) - 1) <= y);
    assert(p.tail(k - 1) == x + y);
    if k == 1 {
        reveal_with_fuel(log2_ceiled, 3);
        assert(log2_ceiled(2) == 1);
        let a = quasilinear_fn()(k);
        assert(a == 4);
        assert(x * 3 <= y) by (nonlinear_arith)
            requires
                x * (a - 1) <= y,
                a == 4,
        ;
        assert(p.tail(0) == x + y);
        assert(4 * m * y == 4 * y) by (nonlinear_arith)
            requires
                m == 1,
        ;
    } else {
        lemma_quasilinear_tail(p, amount, k - 1);
        lemma_log2_bounds(k);
        lemma_pow2_pos((m - 1) as nat);
        if m == 1 {
            vstd::arithmetic::power2::lemma2_to64();
            assert(false);
        }
        let j = k + 1 - b;
        let d = b * m - j;
        let z = 3 * amount;
        let c = 4 * (m - 1) * (b * m);
        lemma_pow2_unfold(m as nat);
        assert(1 <= j <= b);
        assert(b * m >= 2 * b) by (nonlinear_arith)
            requires
                b >= 1,
                m >= 2,
        ;
        // The share is at most 1 over `d` of what is left.
        assert(quasilinear(k) - 1 >= d) by (nonlinear_arith)
            requires
                quasilinear(k) == (k + 1) * m + k + 1,
                k + 1 == b + j,
                j >= 1,
                m >= 2,
                d == b * m - j,
        ;
        assert((x + y) * d <= y * (d + 1)) by (nonlinear_arith)
            requires
                x * (quasilinear(k) - 1) <= y,
                quasilinear(k) - 1 >= d,
                x >= 0,
        ;
        // What was left before.
        assert(z * (d + 1) <= (x + y) * c) by {
            if j > 1 {
                lemma_log2_between(k, m as nat);
                assert(quasilinear_left(p, amount, k - 1));
            } else {
                assert(k == b);
                lemma_log2_power((m - 1) as nat);
                assert(z <= 4 * (m - 1) * (x + y));
                assert(z * (b * m) <= (x + y) * (4 * (m - 1) * (b * m))) by (nonlinear_arith)
                    requires
                        z <= 4 * (m - 1) * (x + y),
                        b * m >= 0,
                ;
            }
        }
        assert(c >= 0) by (nonlinear_arith)
            requires
                c == 4 * (m - 1) * (b * m),
                m >= 2,
                b >= 1,
        ;
        lemma_chained(z, x + y, y, c, d);
        assert(quasilinear_left(p, amount, k));
        lemma_block_bound(z, y, b, m, j);
    }
}

/// The quasilinear allocator guarantees that each independent user gets access
/// to a share of the total resources that is 1 over `n log(n)^2`, up to a
/// constant factor, with `n` being the number of users including that user.
pub proof fn lemma_quasilinear_guarantee(amount: Value, requests: Seq<Request>, charge: Value)
    requires
        grantable(amount, quasilinear_fn(), requests),
        charge > 0,
        ({
            let n = served(amount, requests).shares.len() + 1;
            let log = if n <= 2 {
                1
            } else {
                log2_ceiled(n as int)
            };
            4 * charge * (quasilinear(n as int) * log) <= 3 * amount
        }),
    ensures
        ({
            let p = served(amount, requests);
            p.grants(quasilinear_fn(), Request { user: p.shares.len() as int, charge })
        }),
{
    let p = served(amount, requests);
    let n = p.shares.len() as int + 1;
    let a = quasilinear(n);
    let c = charge as int;
    let r = p.remaining as int;
    lemma_quasilinear_monotone();
    lemma_fair(amount, quasilinear_fn(), requests);
    assert(a >= 2) by {
        assert(quasilinear_fn()(n) >= 2);
    }
    if n == 1 {
        assert(p.tail(0) == r);
        assert(4 * c * (a * 1) == 4 * (c * a)) by (nonlinear_arith);
    } else {
        lemma_quasilinear_tail(p, amount as int, n - 1);
        assert(p.tail(n - 1) == r);
        let l = log2_ceiled(n) as int;
        lemma_log2_bounds(n);
        if n == 2 {
            reveal_with_fuel(log2_ceiled, 3);
            assert(l == 1);
        }
        assert(c * a <= r) by (nonlinear_arith)
            requires
                4 * c * (a * l) <= 4 * l * r,
                l >= 1,
        ;
    }
    assert(a <= c * a) by (nonlinear_arith)
        requires
            c >= 1,
            a >= 0,
    ;
}

/// The ceiled logarithm of a power of two is its exponent.
proof fn lemma_log2_power(e: nat)
    ensures
        log2_ceiled(pow2(e) as int) == e,
{
    lemma_pow2_pos(e);
    if e == 0 {
        vstd::arithmetic::power2::lemma2_to64();
    } else {
        lemma_pow2_strictly_increases((e - 1) as nat, e);
        lemma_log2_between(pow2(e) as int, e);
    }
}

proof fn lemma_tail_nat(p: Pool, k: int)
    requires
        0 <= k <= p.shares.len(),
    ensures
        p.tail(k) >= 0,
    decreases p.shares.len() - k,
{
    if k < p.shares.len() {
        lemma_tail_nat(p, k + 1);
    }
}

} // verus!

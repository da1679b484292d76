//! Prime numbers, by a sieve: each stage takes the first number that reaches it,
//! which is prime, and lets only those pass that are not multiples of it.
use vstd::prelude::*;

verus! {

/// Whether a number is prime.
pub open spec fn is_prime(x: int) -> bool {
    x >= 2 && forall|d: int| 2 <= d < x ==> #[trigger] (x % d) != 0
}

/// The numbers of a list that are not multiples of `n`.
pub open spec fn passed(list: Seq<u32>, n: u32) -> Seq<u32> {
    list.filter(|x: u32| x % n != 0)
}

/// Whether the stage of the sieve that has taken `n` lets a number pass.
pub fn passes(n: u32, x: u32) -> (r: bool)
    requires
        n > 0,
    ensures
        r == (x % n != 0),
{
    x % n != 0
}

/// What one stage of the sieve lets pass of the numbers behind the first one.
pub fn sieve_stage(n: u32, list: &Vec<u32>) -> (r: Vec<u32>)
    requires
        n > 0,
        list@.len() > 0,
    ensures
        r@ == passed(list@.skip(1), n),
        r@.len() < list@.len(),
{
    let ghost rest = list@.skip(1);
    let ghost keep = |x: u32| x % n != 0;
    let mut r: Vec<u32> = Vec::new();
    let mut i: usize = 1;
    assert(rest.take(0) =~= seq![]);
    proof {
        reveal(Seq::filter);
        assert(rest.take(0).filter(keep) =~= seq![]);
    }
    while i < list.len()
        invariant
            n > 0,
            1 <= i <= list@.len(),
            rest == list@.skip(1),
            keep == (|x: u32| x % n != 0),
            r@ == rest.take(i - 1).filter(keep),
            r@.len() < i,
        decreases list@.len() - i,
    {
        let x: u32 = list[i];
        proof {
            reveal(Seq::filter);
            assert(rest.take(i as int).drop_last() =~= rest.take(i - 1));
            assert(rest.take(i as int).last() == x);
        }
        if passes(n, x) {
            r.push(x);
        }
        i = i + 1;
    }
    assert(rest.take(rest.len() as int) =~= rest);
    r
}

/// Whether a list goes up.
pub open spec fn ascending(list: Seq<u32>) -> bool {
    forall|i: int, j: int| 0 <= i < j < list.len() ==> list[i] < list[j]
}

/// What is filtered is part of the list, in the same order.
proof fn lemma_passed(list: Seq<u32>, n: u32)
    requires
        ascending(list),
    ensures
        ascending(passed(list, n)),
        forall|x: u32|
            #[trigger] passed(list, n).contains(x) <==> list.contains(x) && x % n != 0,
    decreases list.len(),
{
    reveal(Seq::filter);
    let out = passed(list, n);
    if list.len() > 0 {
        let front = list.drop_last();
        let last = list.last();
        lemma_passed(front, n);
        assert forall|x: u32| #[trigger] out.contains(x) <==> list.contains(x) && x % n != 0 by {
            let before = passed(front, n);
            assert(before.contains(x) <==> front.contains(x) && x % n != 0);
            if out.contains(x) {
                let i = out.index_of(x);
                if i < before.len() {
                    assert(before[i] == x);
                    let j = front.index_of(x);
                    assert(list[j] == x);
                } else {
                    assert(list[list.len() - 1] == x);
                }
            }
            if list.contains(x) && x % n != 0 {
                let j = list.index_of(x);
                if j < front.len() {
                    assert(front[j] == x);
                    let i = before.index_of(x);
                    assert(out[i] == x);
                } else {
                    assert(out[before.len() as int] == x);
                }
            }
        }
        assert forall|i: int, j: int| 0 <= i < j < out.len() implies out[i] < out[j] by {
            let before = passed(front, n);
            if j == before.len() {
                assert(out[j] == last);
                assert(before[i] == out[i]);
                assert(before.contains(before[i]));
                let k = front.index_of(before[i]);
                assert(list[k] == before[i]);
            } else {
                assert(before[i] == out[i] && before[j] == out[j]);
            }
        }
    }
}

/// Whether some number of a list divides `x`.
pub open spec fn divided_by_one_of(list: Seq<u32>, x: int) -> bool {
    exists|i: int| 0 <= i < list.len() && #[trigger] list[i] > 0 && x % (list[i] as int) == 0
}

/// What divides a divisor divides the number.
proof fn lemma_divides(p: int, d: int, x: int)
    requires
        p > 0,
        d > 0,
        d % p == 0,
        x % d == 0,
    ensures
        x % p == 0,
{
    vstd::arithmetic::div_mod::lemma_fundamental_div_mod(x, d);
    vstd::arithmetic::div_mod::lemma_fundamental_div_mod(d, p);
    let k = x / d;
    let m = d / p;
    assert(x == p * (m * k)) by (nonlinear_arith)
        requires
            x == d * k,
            d == p * m,
    ;
    vstd::arithmetic::div_mod::lemma_mod_multiples_basic(m * k, p);
    assert((m * k) * p == p * (m * k)) by (nonlinear_arith);
}

/// Whether the sieve has got so far: `out` holds primes, `list` what is left of
/// the numbers below `n`.
spec fn sieved(out: Seq<u32>, list: Seq<u32>, n: u32) -> bool {
    &&& ascending(out)
    &&& ascending(list)
    &&& forall|i: int| 0 <= i < out.len() ==> is_prime(#[trigger] out[i] as int) && out[i] < n
    &&& forall|i: int, j: int| 0 <= i < out.len() && 0 <= j < list.len() ==> out[i] < list[j]
    &&& forall|j: int|
        0 <= j < list.len() ==> {
            &&& 2 <= #[trigger] list[j] < n
            &&& !divided_by_one_of(out, list[j] as int)
        }
    &&& forall|x: u32|
        2 <= x < n ==> #[trigger] out.contains(x) || list.contains(x) || divided_by_one_of(
            out,
            x as int,
        )
}

/// The first number that is left is prime.
proof fn lemma_first_prime(out: Seq<u32>, list: Seq<u32>, n: u32)
    requires
        sieved(out, list, n),
        list.len() > 0,
    ensures
        is_prime(list[0] as int),
{
    let c = list[0] as int;
    assert forall|d: int| 2 <= d < c implies #[trigger] (c % d) != 0 by {
        if c % d == 0 {
            let x = d as u32;
            assert(2 <= x < n);
            assert(out.contains(x) || list.contains(x) || divided_by_one_of(out, d));
            assert(!divided_by_one_of(out, c));
            if out.contains(x) {
                let i = out.index_of(x);
                assert(out[i] > 0 && c % (out[i] as int) == 0);
            } else if list.contains(x) {
                let j = list.index_of(x);
                assert(list[0] <= list[j]);
            } else {
                let i = choose|i: int|
                    0 <= i < out.len() && #[trigger] out[i] > 0 && d % (out[i] as int) == 0;
                lemma_divides(out[i] as int, d, c);
                assert(out[i] > 0 && c % (out[i] as int) == 0);
            }
        }
    }
}

/// One more stage gets the sieve further.
proof fn lemma_stage(out: Seq<u32>, list: Seq<u32>, n: u32)
    requires
        sieved(out, list, n),
        list.len() > 0,
    ensures
        sieved(out.push(list[0]), passed(list.skip(1), list[0]), n),
{
    let c = list[0];
    let rest = list.skip(1);
    let out2 = out.push(c);
    let list2 = passed(rest, c);
    lemma_first_prime(out, list, n);
    assert(ascending(rest)) by {
        assert forall|i: int, j: int| 0 <= i < j < rest.len() implies rest[i] < rest[j] by {
            assert(list[i + 1] < list[j + 1]);
        }
    }
    lemma_passed(rest, c);
    assert forall|i: int, j: int| 0 <= i < j < out2.len() implies out2[i] < out2[j] by {
        if j == out.len() {
            assert(out[i] < list[0]);
        }
    }
    assert forall|i: int| 0 <= i < out2.len() implies is_prime(#[trigger] out2[i] as int) && out2[i]
        < n by {
        if i < out.len() {
            assert(out2[i] == out[i]);
        }
    }
    assert forall|j: int| 0 <= j < list2.len() implies {
        &&& 2 <= #[trigger] list2[j] < n
        &&& !divided_by_one_of(out2, list2[j] as int)
        &&& list2[j] > c
        &&& list.contains(list2[j])
    } by {
        let x = list2[j];
        assert(list2.contains(x));
        assert(rest.contains(x) && x % c != 0);
        let k = rest.index_of(x);
        assert(list[k + 1] == x);
        assert(list[0] < list[k + 1]);
        if divided_by_one_of(out2, x as int) {
            let i = choose|i: int|
                0 <= i < out2.len() && #[trigger] out2[i] > 0 && x as int % (out2[i] as int) == 0;
            if i < out.len() {
                assert(out[i] > 0 && x as int % (out[i] as int) == 0);
                assert(divided_by_one_of(out, x as int));
            }
        }
    }
    assert forall|i: int, j: int| 0 <= i < out2.len() && 0 <= j < list2.len() implies out2[i]
        < list2[j] by {
        assert(list2[j] > c);
        if i < out.len() {
            assert(out[i] < list[0]);
        }
    }
    assert forall|x: u32| 2 <= x < n implies #[trigger] out2.contains(x) || list2.contains(x)
        || divided_by_one_of(out2, x as int) by {
        assert(out.contains(x) || list.contains(x) || divided_by_one_of(out, x as int));
        if out.contains(x) {
            let i = out.index_of(x);
            assert(out2[i] == x);
        } else if list.contains(x) {
            let j = list.index_of(x);
            if j == 0 {
                assert(out2[out.len() as int] == x);
            } else {
                assert(rest[j - 1] == x);
                assert(rest.contains(x));
                if x % c == 0 {
                    assert(out2[out.len() as int] > 0 && x as int % (out2[out.len() as int] as int)
                        == 0);
                } else {
                    assert(list2.contains(x));
                }
            }
        } else {
            let i = choose|i: int|
                0 <= i < out.len() && #[trigger] out[i] > 0 && x as int % (out[i] as int) == 0;
            assert(out2[i] > 0 && x as int % (out2[i] as int) == 0);
        }
    }
}

/// The prime numbers below `n`, in order.
pub fn primes_below(n: u32) -> (r: Vec<u32>)
    ensures
        ascending(r@),
        forall|x: u32| #[trigger] r@.contains(x) <==> 2 <= x < n && is_prime(x as int),
{
    let mut list: Vec<u32> = Vec::new();
    let mut i: u32 = 2;
    while i < n
        invariant
            2 <= i,
            n >= 2 ==> i <= n,
            list@.len() == i - 2,
            forall|j: int| 0 <= j < list@.len() ==> #[trigger] list@[j] == j + 2,
            forall|j: int| 0 <= j < list@.len() ==> #[trigger] list@[j] < n,
        decreases n - i,
    {
        list.push(i);
        i = i + 1;
    }
    let mut out: Vec<u32> = Vec::new();
    proof {
        assert forall|x: u32| 2 <= x < n implies #[trigger] out@.contains(x) || list@.contains(x)
            || divided_by_one_of(out@, x as int) by {
            assert(list@[x - 2] == x);
        }
    }
    while list.len() > 0
        invariant
            sieved(out@, list@, n),
        decreases list@.len(),
    {
        let p: u32 = list[0];
        proof {
            lemma_stage(out@, list@, n);
        }
        out.push(p);
        list = sieve_stage(p, &list);
    }
    proof {
        assert forall|x: u32| #[trigger] out@.contains(x) <==> 2 <= x < n && is_prime(x as int) by {
            if out@.contains(x) {
                let i = out@.index_of(x);
                assert(is_prime(out@[i] as int));
            }
            if 2 <= x < n && is_prime(x as int) {
                assert(out@.contains(x) || list@.contains(x) || divided_by_one_of(out@, x as int));
                if !out@.contains(x) {
                    let i = choose|i: int|
                        0 <= i < out@.len() && #[trigger] out@[i] > 0 && x as int % (
                        out@[i] as int) == 0;
                    let p = out@[i] as int;
                    assert(is_prime(p));
                    if p > x {
                        assert(x as int % p == x) by {
                            vstd::arithmetic::div_mod::lemma_small_mod(x as nat, p as nat);
                        }
                    } else if p < x {
                        assert(x as int % p != 0);
                    } else {
                        assert(out@[i] == x);
                    }
                }
            }
        }
    }
    out
}

/// A number from 2 on is prime if and only if it is no product of two such numbers.
pub proof fn law_prime(x: int)
    ensures
        is_prime(x) <==> x >= 2 && forall|a: int, b: int| a >= 2 && b >= 2 ==> #[trigger] (a * b)
            != x,
{
    if is_prime(x) {
        assert forall|a: int, b: int| a >= 2 && b >= 2 implies #[trigger] (a * b) != x by {
            if a * b == x {
                assert(a < x) by (nonlinear_arith)
                    requires
                        a * b == x,
                        a >= 2,
                        b >= 2,
                ;
                vstd::arithmetic::div_mod::lemma_mod_multiples_basic(b, a);
                assert(b * a == a * b) by (nonlinear_arith);
                assert(x % a == 0);
            }
        }
    }
    if x >= 2 && forall|a: int, b: int| a >= 2 && b >= 2 ==> #[trigger] (a * b) != x {
        assert forall|d: int| 2 <= d < x implies #[trigger] (x % d) != 0 by {
            if x % d == 0 {
                vstd::arithmetic::div_mod::lemma_fundamental_div_mod(x, d);
                let q = x / d;
                assert(d * q == x);
                assert(q >= 2) by (nonlinear_arith)
                    requires
                        d * q == x,
                        2 <= d < x,
                ;
            }
        }
    }
}

/// A stage of the sieve lets pass the numbers that are no multiples of its own, and no
/// others, in their order.
pub proof fn law_passed(list: Seq<u32>, n: u32, x: u32)
    requires
        n > 0,
        ascending(list),
    ensures
        ascending(passed(list, n)),
        passed(list, n).contains(x) <==> list.contains(x) && x as int % n as int != 0,
{
    lemma_passed(list, n);
}

} // verus!

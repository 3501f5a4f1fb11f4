//! Arithmetic handed over as functions, so that what is computed and in which
//! order is settled here whatever the numbers are.

use vstd::prelude::*;

verus! {

/// What a function of one argument returns.
pub open spec fn of1<A, B, F: Fn(A) -> B>(f: F, a: A) -> B {
    choose|r: B| call_ensures(f, (a,), r)
}

/// What a function of two arguments returns.
pub open spec fn of2<A, B, C, F: Fn(A, B) -> C>(f: F, a: A, b: B) -> C {
    choose|r: C| call_ensures(f, (a, b), r)
}

/// A function that takes every argument and always returns the same for it.
pub open spec fn is_op1<A, B, F: Fn(A) -> B>(f: F) -> bool {
    &&& forall|a: A| #[trigger] call_requires(f, (a,))
    &&& forall|a: A, r: B| #[trigger] call_ensures(f, (a,), r) ==> r == of1(f, a)
}

/// The same of two arguments.
pub open spec fn is_op2<A, B, C, F: Fn(A, B) -> C>(f: F) -> bool {
    &&& forall|a: A, b: B| #[trigger] call_requires(f, (a, b))
    &&& forall|a: A, b: B, r: C| #[trigger] call_ensures(f, (a, b), r) ==> r == of2(f, a, b)
}

/// The products of the first `n` pairs added up from `start`, in order.
pub open spec fn dotted<T, P: Fn(T, T) -> T, M: Fn(T, T) -> T>(
    plus: P,
    times: M,
    start: T,
    a: Seq<T>,
    b: Seq<T>,
    n: nat,
) -> T
    decreases n,
{
    if n == 0 {
        start
    } else {
        of2(
            plus,
            dotted(plus, times, start, a, b, (n - 1) as nat),
            of2(times, a[n - 1], b[n - 1]),
        )
    }
}

/// The products of pairs of two rows added up, in order.
pub fn dot<T: Copy, P: Fn(T, T) -> T, M: Fn(T, T) -> T>(
    plus: &P,
    times: &M,
    start: T,
    a: &[T],
    a_at: usize,
    b: &[T],
    b_at: usize,
    n: usize,
) -> (sum: T)
    requires
        is_op2(*plus),
        is_op2(*times),
        a_at + n <= a@.len(),
        b_at + n <= b@.len(),
    ensures
        sum == dotted(
            *plus,
            *times,
            start,
            a@.subrange(a_at as int, a_at + n),
            b@.subrange(b_at as int, b_at + n),
            n as nat,
        ),
{
    let ghost (x, y) = (
        a@.subrange(a_at as int, a_at + n),
        b@.subrange(b_at as int, b_at + n),
    );
    let (a_held, b_held): (usize, usize) = (a.len(), b.len());
    let mut sum: T = start;
    let mut i: usize = 0;
    while i < n
        invariant
            i <= n,
            is_op2(*plus),
            is_op2(*times),
            a_held == a@.len(),
            b_held == b@.len(),
            a_at + n <= a@.len(),
            b_at + n <= b@.len(),
            x == a@.subrange(a_at as int, a_at + n),
            y == b@.subrange(b_at as int, b_at + n),
            sum == dotted(*plus, *times, start, x, y, i as nat),
        decreases n - i,
    {
        let product = times(a[a_at + i], b[b_at + i]);
        sum = plus(sum, product);
        i = i + 1;
    }
    sum
}

} // verus!

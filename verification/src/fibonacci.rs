//! Fibonacci numbers by powers of a matrix.
use vstd::prelude::*;

verus! {

/// The Fibonacci numbers: 0, 1, and then each the sum of the two before it.
pub open spec fn fibonacci(n: nat) -> nat
    decreases n,
{
    if n == 0 {
        0
    } else if n == 1 {
        1
    } else {
        fibonacci((n - 1) as nat) + fibonacci((n - 2) as nat)
    }
}

/// A matrix of two rows and two columns, row by row.
pub type Matrix = [[i64; 2]; 2];

/// The entries of a matrix as mathematical integers, row by row.
pub open spec fn entries(m: Matrix) -> (int, int, int, int) {
    (m[0][0] as int, m[0][1] as int, m[1][0] as int, m[1][1] as int)
}

/// Whether the entries of a matrix are natural numbers that fit 31 bits,
/// so that a product of two such matrices fits 64 bits.
pub open spec fn is_small(m: Matrix) -> bool {
    &&& 0 <= m[0][0] <= 0x7fff_ffff
    &&& 0 <= m[0][1] <= 0x7fff_ffff
    &&& 0 <= m[1][0] <= 0x7fff_ffff
    &&& 0 <= m[1][1] <= 0x7fff_ffff
}

/// The product of two matrices.
pub open spec fn product(a: (int, int, int, int), b: (int, int, int, int)) -> (
    int,
    int,
    int,
    int,
) {
    (a.0 * b.0 + a.1 * b.2, a.0 * b.1 + a.1 * b.3, a.2 * b.0 + a.3 * b.2, a.2 * b.1 + a.3 * b.3)
}

/// The `k`-th power of the matrix with the rows (1, 1) and (1, 0): its
/// entries are three Fibonacci numbers in a row.
pub open spec fn step_power(k: nat) -> (int, int, int, int) {
    if k == 0 {
        (1, 0, 0, 1)
    } else {
        (
            fibonacci(k + 1) as int,
            fibonacci(k) as int,
            fibonacci(k) as int,
            fibonacci((k - 1) as nat) as int,
        )
    }
}

/// The largest argument whose Fibonacci number fits 32 bits with a sign.
pub const MAX_INDEX: i32 = 46;

/// The product of the matrices `a` and `b`.
pub fn matrix_mult(a: Matrix, b: Matrix) -> (c: Matrix)
    requires
        is_small(a),
        is_small(b),
    ensures
        entries(c) == product(entries(a), entries(b)),
{
    assert(forall|x: i64, y: i64|
        0 <= x <= 0x7fff_ffff && 0 <= y <= 0x7fff_ffff ==> 0 <= #[trigger] (x * y)
            <= 0x3fff_ffff_0000_0001) by (nonlinear_arith);
    [
        [a[0][0] * b[0][0] + a[0][1] * b[1][0], a[0][0] * b[0][1] + a[0][1] * b[1][1]],
        [a[1][0] * b[0][0] + a[1][1] * b[1][0], a[1][0] * b[0][1] + a[1][1] * b[1][1]],
    ]
}

/// The power `exp` of the matrix `base` with the rows (1, 1) and (1, 0), by
/// repeated squaring; the unit matrix where `exp` is not positive.
pub fn matrix_pow(base: Matrix, exp: i32) -> (power: Matrix)
    requires
        entries(base) == step_power(1),
        exp < MAX_INDEX,
    ensures
        exp >= 0 ==> entries(power) == step_power(exp as nat),
        exp < 0 ==> entries(power) == step_power(0),
        is_small(power),
{
    let mut result: Matrix = [[1, 0], [0, 1]];
    let mut base: Matrix = base;
    let mut exp: i32 = exp;
    let ghost total: int = exp as int;
    let ghost done: nat = 0;
    let ghost width: nat = 1;
    proof {
        lemma_fibonacci_values();
    }
    while exp > 0
        invariant
            total < MAX_INDEX,
            total < 0 ==> exp == total && done == 0,
            total >= 0 ==> exp >= 0 && done + width * exp == total,
            width >= 1,
            entries(result) == step_power(done),
            entries(base) == step_power(width),
            done <= 45,
            exp > 0 ==> width <= 45,
        decreases exp,
    {
        let ghost half: int = exp as int / 2;
        proof {
            lemma_small_power(done);
            lemma_small_power(width);
            assert(width * exp >= width) by (nonlinear_arith)
                requires
                    width >= 1,
                    exp >= 1,
            ;
        }
        if exp % 2 == 1 {
            result = matrix_mult(result, base);
            proof {
                lemma_power_add(done, width);
                assert(width * exp == (width + width) * half + width) by (nonlinear_arith)
                    requires
                        exp == 2 * half + 1,
                ;
                done = done + width;
            }
        } else {
            proof {
                assert(width * exp == (width + width) * half) by (nonlinear_arith)
                    requires
                        exp == 2 * half,
                ;
            }
        }
        base = matrix_mult(base, base);
        proof {
            lemma_power_add(width, width);
            assert(half >= 1 ==> (width + width) * half >= width + width) by (nonlinear_arith)
                requires
                    width >= 1,
            ;
            assert(half == 0 ==> (width + width) * half == 0) by (nonlinear_arith);
            width = width + width;
        }
        exp = exp / 2;
    }
    proof {
        lemma_small_power(done);
    }
    result
}

/// The `n`-th Fibonacci number.  A negative `n` gives 1.
pub fn fib(n: i32) -> (value: i32)
    requires
        n <= MAX_INDEX,
    ensures
        n >= 0 ==> value == fibonacci(n as nat),
        n < 0 ==> value == 1,
{
    if n == 0 {
        return 0;
    }
    if n == 1 {
        return 1;
    }
    if n < 0 {
        return 1;
    }
    let base: Matrix = [[1, 1], [1, 0]];
    let power: Matrix = matrix_pow(base, n - 1);
    proof {
        lemma_small_power((n - 1) as nat);
    }
    power[0][0] as i32
}

/// The Fibonacci numbers up to the 46th, which is the last to fit 32 bits
/// with a sign.
pub proof fn lemma_fibonacci_values()
    ensures
        fibonacci(2) == 1,
        fibonacci(3) == 2,
        fibonacci(10) == 55,
        fibonacci(20) == 6765,
        fibonacci(45) == 1134903170,
        fibonacci(46) == 1836311903,
        fibonacci(46) <= 0x7fff_ffff < fibonacci(47),
{
    assert(fibonacci(0) == 0);
    assert(fibonacci(1) == 1);
    assert(fibonacci(2) == 1);
    assert(fibonacci(3) == 2);
    assert(fibonacci(4) == 3);
    assert(fibonacci(5) == 5);
    assert(fibonacci(6) == 8);
    assert(fibonacci(7) == 13);
    assert(fibonacci(8) == 21);
    assert(fibonacci(9) == 34);
    assert(fibonacci(10) == 55);
    assert(fibonacci(11) == 89);
    assert(fibonacci(12) == 144);
    assert(fibonacci(13) == 233);
    assert(fibonacci(14) == 377);
    assert(fibonacci(15) == 610);
    assert(fibonacci(16) == 987);
    assert(fibonacci(17) == 1597);
    assert(fibonacci(18) == 2584);
    assert(fibonacci(19) == 4181);
    assert(fibonacci(20) == 6765);
    assert(fibonacci(21) == 10946);
    assert(fibonacci(22) == 17711);
    assert(fibonacci(23) == 28657);
    assert(fibonacci(24) == 46368);
    assert(fibonacci(25) == 75025);
    assert(fibonacci(26) == 121393);
    assert(fibonacci(27) == 196418);
    assert(fibonacci(28) == 317811);
    assert(fibonacci(29) == 514229);
    assert(fibonacci(30) == 832040);
    assert(fibonacci(31) == 1346269);
    assert(fibonacci(32) == 2178309);
    assert(fibonacci(33) == 3524578);
    assert(fibonacci(34) == 5702887);
    assert(fibonacci(35) == 9227465);
    assert(fibonacci(36) == 14930352);
    assert(fibonacci(37) == 24157817);
    assert(fibonacci(38) == 39088169);
    assert(fibonacci(39) == 63245986);
    assert(fibonacci(40) == 102334155);
    assert(fibonacci(41) == 165580141);
    assert(fibonacci(42) == 267914296);
    assert(fibonacci(43) == 433494437);
    assert(fibonacci(44) == 701408733);
    assert(fibonacci(45) == 1134903170);
    assert(fibonacci(46) == 1836311903);
    assert(fibonacci(47) == 2971215073);
}

/// The Fibonacci numbers do not decrease.
pub proof fn lemma_fibonacci_monotone(i: nat, j: nat)
    requires
        i <= j,
    ensures
        fibonacci(i) <= fibonacci(j),
    decreases j,
{
    if i < j {
        lemma_fibonacci_monotone(i, (j - 1) as nat);
    }
}

/// The entries of the powers up to the 45th fit 31 bits.
proof fn lemma_small_power(k: nat)
    requires
        k <= 45,
    ensures
        0 <= step_power(k).0 <= 0x7fff_ffff,
        0 <= step_power(k).1 <= 0x7fff_ffff,
        0 <= step_power(k).2 <= 0x7fff_ffff,
        0 <= step_power(k).3 <= 0x7fff_ffff,
{
    lemma_fibonacci_values();
    lemma_fibonacci_monotone(k + 1, 46);
    lemma_fibonacci_monotone(k, 46);
    if k > 0 {
        lemma_fibonacci_monotone((k - 1) as nat, 46);
    }
}

/// One entry of a product of three matrices, taken in both orders: `x` and
/// `y` are a row of the first, `u` and `v` a column of the third.
proof fn lemma_entry_associative(x: int, y: int, b: (int, int, int, int), u: int, v: int)
    ensures
        (x * b.0 + y * b.2) * u + (x * b.1 + y * b.3) * v == x * (b.0 * u + b.1 * v) + y * (b.2 * u
            + b.3 * v),
{
    let (b0, b1, b2, b3) = b;
    assert((x * b0 + y * b2) * u == x * (b0 * u) + y * (b2 * u)) by (nonlinear_arith);
    assert((x * b1 + y * b3) * v == x * (b1 * v) + y * (b3 * v)) by (nonlinear_arith);
    assert(x * (b0 * u + b1 * v) == x * (b0 * u) + x * (b1 * v)) by (nonlinear_arith);
    assert(y * (b2 * u + b3 * v) == y * (b2 * u) + y * (b3 * v)) by (nonlinear_arith);
}

/// The product of matrices is associative.
proof fn lemma_product_associative(
    a: (int, int, int, int),
    b: (int, int, int, int),
    c: (int, int, int, int),
)
    ensures
        product(product(a, b), c) == product(a, product(b, c)),
{
    lemma_entry_associative(a.0, a.1, b, c.0, c.2);
    lemma_entry_associative(a.0, a.1, b, c.1, c.3);
    lemma_entry_associative(a.2, a.3, b, c.0, c.2);
    lemma_entry_associative(a.2, a.3, b, c.1, c.3);
}

/// One more factor raises the power by one.
proof fn lemma_power_succ(k: nat)
    ensures
        product(step_power(k), step_power(1)) == step_power(k + 1),
{
    lemma_fibonacci_values();
    let p = step_power(k);
    assert(step_power(1) == (1int, 1int, 1int, 0int));
    assert(product(p, (1int, 1int, 1int, 0int)) == (p.0 + p.1, p.0, p.2 + p.3, p.2));
}

/// The product of two powers is the power of the sum: the addition law of
/// the Fibonacci numbers.
pub proof fn lemma_power_add(a: nat, b: nat)
    ensures
        product(step_power(a), step_power(b)) == step_power(a + b),
    decreases b,
{
    if b == 0 {
        let p = step_power(a);
        assert(step_power(0) == (1int, 0int, 0int, 1int));
        assert(product(p, (1int, 0int, 0int, 1int)) == p);
    } else {
        let before = (b - 1) as nat;
        lemma_power_add(a, before);
        lemma_power_succ(before);
        lemma_power_succ(a + before);
        lemma_product_associative(step_power(a), step_power(before), step_power(1));
    }
}

} // verus!

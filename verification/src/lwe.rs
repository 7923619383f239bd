//! Plain-LWE threshold encryption modulo the prime `Q = 65537` (dimension
//! `N = 640`): arithmetic modulo `Q`, matrix-vector products with one
//! reduction per output, additive `(T, T)` sharing of the secret, the
//! partial decryptions and their combination with a 2-bit decoder.
use vstd::prelude::*;
use vstd::arithmetic::div_mod::*;
use vstd::arithmetic::mul::*;
use rand::rngs::StdRng;
use crate::crypt::rng_below_u32;

verus! {

/// The LWE dimension.
pub const N: usize = 640;

/// The modulus.
pub const Q: u32 = 65537;

/// The modulus as a `u64`.
pub const Q64: u64 = 65537;

/// `x mod Q`.
pub fn redq(x: u64) -> (r: u32)
    ensures
        r == (x as int) % (Q as int),
{
    (x % Q64) as u32
}

/// `a + b`, less `Q` once if that reaches `Q`: `(a + b) mod Q` for reduced
/// inputs.
pub fn add_mod_q(a: u32, b: u32) -> (r: u32)
    requires
        a + b <= u32::MAX,
    ensures
        r == (if a + b >= Q {
            a + b - Q
        } else {
            a + b
        }),
        a < Q && b < Q ==> r == (a + b) % (Q as int),
{
    let s = a + b;
    proof {
        if a < Q && b < Q {
            if s >= Q {
                lemma_mod_multiples_vanish(-1, s as int, Q as int);
                lemma_small_mod((s - Q) as nat, Q as nat);
            } else {
                lemma_small_mod(s as nat, Q as nat);
            }
        }
    }
    if s >= Q {
        s - Q
    } else {
        s
    }
}

/// `a - b`, plus `Q` when `a < b`: `(a - b) mod Q` for reduced inputs.
pub fn sub_mod_q(a: u32, b: u32) -> (r: u32)
    requires
        a >= b || b <= a + Q <= u32::MAX,
    ensures
        r == (if a >= b {
            a - b
        } else {
            a + Q - b
        }),
        a < Q && b < Q ==> r == (a - b) % (Q as int),
{
    proof {
        if a < Q && b < Q {
            if a >= b {
                lemma_small_mod((a - b) as nat, Q as nat);
            } else {
                lemma_mod_multiples_vanish(1, a - b, Q as int);
                lemma_small_mod((a + Q - b) as nat, Q as nat);
            }
        }
    }
    if a >= b {
        a - b
    } else {
        a + Q - b
    }
}

/// `sum_{j < n} a[row + j] * x[j]` over the integers.
pub open spec fn dot_from(a: Seq<u32>, row: int, x: Seq<u32>, n: int) -> int
    decreases n,
{
    if n <= 0 {
        0
    } else {
        dot_from(a, row, x, n - 1) + a[row + n - 1] * x[n - 1]
    }
}

/// `sum_{i < n} r[i] * a[i cols + j]` over the integers.
pub open spec fn column_dot(a: Seq<u32>, r: Seq<u32>, cols: int, j: int, n: int) -> int
    decreases n,
{
    if n <= 0 {
        0
    } else {
        column_dot(a, r, cols, j, n - 1) + r[n - 1] * a[(n - 1) * cols + j]
    }
}

proof fn lemma_dot_from_monotone(a: Seq<u32>, row: int, x: Seq<u32>, m: int, n: int)
    requires
        0 <= m <= n,
    ensures
        0 <= dot_from(a, row, x, m) <= dot_from(a, row, x, n),
    decreases n - m,
{
    if m < n {
        lemma_dot_from_monotone(a, row, x, m, n - 1);
        lemma_mul_nonnegative(a[row + n - 1] as int, x[n - 1] as int);
    } else {
        lemma_dot_from_nonneg(a, row, x, n);
    }
}

proof fn lemma_dot_from_nonneg(a: Seq<u32>, row: int, x: Seq<u32>, n: int)
    ensures
        0 <= dot_from(a, row, x, n),
    decreases n,
{
    if n > 0 {
        lemma_dot_from_nonneg(a, row, x, n - 1);
        lemma_mul_nonnegative(a[row + n - 1] as int, x[n - 1] as int);
    }
}

proof fn lemma_column_dot_monotone(a: Seq<u32>, r: Seq<u32>, cols: int, j: int, m: int, n: int)
    requires
        0 <= m <= n,
    ensures
        0 <= column_dot(a, r, cols, j, m) <= column_dot(a, r, cols, j, n),
    decreases n - m,
{
    if m < n {
        lemma_column_dot_monotone(a, r, cols, j, m, n - 1);
        lemma_mul_nonnegative(r[n - 1] as int, a[(n - 1) * cols + j] as int);
    } else {
        lemma_column_dot_nonneg(a, r, cols, j, n);
    }
}

proof fn lemma_column_dot_nonneg(a: Seq<u32>, r: Seq<u32>, cols: int, j: int, n: int)
    ensures
        0 <= column_dot(a, r, cols, j, n),
    decreases n,
{
    if n > 0 {
        lemma_column_dot_nonneg(a, r, cols, j, n - 1);
        lemma_mul_nonnegative(r[n - 1] as int, a[(n - 1) * cols + j] as int);
    }
}

/// `y = A x mod Q` for a `rows x cols` matrix `A` (row-major), reducing each
/// output once; every row sum must fit the 64-bit accumulator.
pub fn matvec(a: &[u32], x: &[u32], rows: usize, cols: usize) -> (y: Vec<u32>)
    requires
        rows * cols <= a@.len() <= usize::MAX,
        cols <= x@.len(),
        forall|i: int| 0 <= i < rows ==> #[trigger] dot_from(a@, i * cols, x@, cols as int) <= u64::MAX,
    ensures
        y@.len() == rows,
        forall|i: int| 0 <= i < rows ==> #[trigger] y@[i] == dot_from(a@, i * cols, x@, cols as int) % (Q as int),
{
    let mut y: Vec<u32> = Vec::new();
    let mut i: usize = 0;
    while i < rows
        invariant
            rows * cols <= a@.len() <= usize::MAX,
            cols <= x@.len(),
            forall|k: int| 0 <= k < rows ==> #[trigger] dot_from(a@, k * cols, x@, cols as int) <= u64::MAX,
            i <= rows,
            y@.len() == i,
            forall|k: int| 0 <= k < i ==> #[trigger] y@[k] == dot_from(a@, k * cols, x@, cols as int) % (Q as int),
        decreases rows - i,
    {
        let ghost row = i * cols;
        let mut acc: u64 = 0;
        let mut j: usize = 0;
        while j < cols
            invariant
                rows * cols <= a@.len() <= usize::MAX,
                cols <= x@.len(),
                i < rows,
                row == i * cols,
                dot_from(a@, row, x@, cols as int) <= u64::MAX,
                j <= cols,
                acc == dot_from(a@, row, x@, j as int),
            decreases cols - j,
        {
            proof {
                assert(i * cols + j < rows * cols) by (nonlinear_arith)
                    requires
                        i < rows,
                        j < cols,
                ;
                lemma_dot_from_monotone(a@, row, x@, j + 1, cols as int);
            }
            acc = acc + a[i * cols + j] as u64 * x[j] as u64;
            j = j + 1;
        }
        y.push(redq(acc));
        i = i + 1;
    }
    y
}

/// `y = A^T r mod Q` for a `rows x cols` matrix `A` (row-major), reading `A`
/// row by row into 64-bit column accumulators; every column sum must fit.
pub fn matvec_transposed(a: &[u32], r: &[u32], rows: usize, cols: usize) -> (y: Vec<u32>)
    requires
        rows * cols <= a@.len() <= usize::MAX,
        rows <= r@.len(),
        forall|j: int| 0 <= j < cols ==> #[trigger] column_dot(a@, r@, cols as int, j, rows as int) <= u64::MAX,
    ensures
        y@.len() == cols,
        forall|j: int|
            0 <= j < cols ==> #[trigger] y@[j] == column_dot(a@, r@, cols as int, j, rows as int) % (Q as int),
{
    let mut acc: Vec<u64> = vec![0u64; cols];
    let mut i: usize = 0;
    while i < rows
        invariant
            rows * cols <= a@.len() <= usize::MAX,
            rows <= r@.len(),
            forall|j: int| 0 <= j < cols ==> #[trigger] column_dot(a@, r@, cols as int, j, rows as int) <= u64::MAX,
            i <= rows,
            acc@.len() == cols,
            forall|j: int| 0 <= j < cols ==> #[trigger] acc@[j] == column_dot(a@, r@, cols as int, j, i as int),
        decreases rows - i,
    {
        let ri = r[i] as u64;
        let mut j: usize = 0;
        while j < cols
            invariant
                rows * cols <= a@.len() <= usize::MAX,
                rows <= r@.len(),
                forall|k: int| 0 <= k < cols ==> #[trigger] column_dot(a@, r@, cols as int, k, rows as int) <= u64::MAX,
                i < rows,
                ri == r@[i as int],
                j <= cols,
                acc@.len() == cols,
                forall|k: int| 0 <= k < j ==> #[trigger] acc@[k] == column_dot(a@, r@, cols as int, k, i + 1),
                forall|k: int| j <= k < cols ==> #[trigger] acc@[k] == column_dot(a@, r@, cols as int, k, i as int),
            decreases cols - j,
        {
            proof {
                assert(i * cols + j < rows * cols) by (nonlinear_arith)
                    requires
                        i < rows,
                        j < cols,
                ;
                lemma_column_dot_monotone(a@, r@, cols as int, j as int, i + 1, rows as int);
            }
            let v = acc[j] + ri * a[i * cols + j] as u64;
            acc.set(j, v);
            j = j + 1;
        }
        i = i + 1;
    }
    let mut y: Vec<u32> = Vec::new();
    let mut j: usize = 0;
    while j < cols
        invariant
            acc@.len() == cols,
            forall|k: int| 0 <= k < cols ==> #[trigger] acc@[k] == column_dot(a@, r@, cols as int, k, rows as int),
            j <= cols,
            y@.len() == j,
            forall|k: int|
                0 <= k < j ==> #[trigger] y@[k] == column_dot(a@, r@, cols as int, k, rows as int) % (Q as int),
        decreases cols - j,
    {
        y.push(redq(acc[j]));
        j = j + 1;
    }
    y
}

/// `sum_i a[i] b[i] mod Q` over the entries of `a`; the sum must fit the
/// 64-bit accumulator.
pub fn inner_product(a: &[u32], b: &[u32]) -> (r: u32)
    requires
        a@.len() <= b@.len(),
        dot_from(a@, 0, b@, a@.len() as int) <= u64::MAX,
    ensures
        r == dot_from(a@, 0, b@, a@.len() as int) % (Q as int),
{
    let mut acc: u64 = 0;
    let mut i: usize = 0;
    while i < a.len()
        invariant
            a@.len() <= b@.len(),
            dot_from(a@, 0, b@, a@.len() as int) <= u64::MAX,
            i <= a@.len(),
            acc == dot_from(a@, 0, b@, i as int),
        decreases a@.len() - i,
    {
        proof {
            lemma_dot_from_monotone(a@, 0, b@, i + 1, a@.len() as int);
        }
        acc = acc + a[i] as u64 * b[i] as u64;
        i = i + 1;
    }
    redq(acc)
}

/// The entrywise sums modulo `Q` over the common length of two reduced
/// vectors.
pub fn vec_add_mod(a: &[u32], b: &[u32]) -> (r: Vec<u32>)
    requires
        forall|i: int| 0 <= i < a@.len() ==> #[trigger] a@[i] < Q,
        forall|i: int| 0 <= i < b@.len() ==> #[trigger] b@[i] < Q,
    ensures
        r@.len() == (if a@.len() <= b@.len() {
            a@.len()
        } else {
            b@.len()
        }),
        forall|i: int| 0 <= i < r@.len() ==> #[trigger] r@[i] == (a@[i] + b@[i]) % (Q as int),
{
    let n = if a.len() <= b.len() {
        a.len()
    } else {
        b.len()
    };
    let mut r: Vec<u32> = Vec::new();
    let mut i: usize = 0;
    while i < n
        invariant
            n <= a@.len(),
            n <= b@.len(),
            forall|k: int| 0 <= k < a@.len() ==> #[trigger] a@[k] < Q,
            forall|k: int| 0 <= k < b@.len() ==> #[trigger] b@[k] < Q,
            i <= n,
            r@.len() == i,
            forall|k: int| 0 <= k < i ==> #[trigger] r@[k] == (a@[k] + b@[k]) % (Q as int),
        decreases n - i,
    {
        r.push(add_mod_q(a[i], b[i]));
        i = i + 1;
    }
    r
}

/// `sum_{k < n} shares[k][i]` over the integers.
pub open spec fn shares_sum(shares: Seq<Vec<u32>>, i: int, n: int) -> int
    decreases n,
{
    if n <= 0 {
        0
    } else {
        shares_sum(shares, i, n - 1) + shares[n - 1]@[i]
    }
}

/// `N` values drawn uniformly below `Q`.
fn sample_uniform_vec(len: usize, rng: &mut StdRng) -> (v: Vec<u32>)
    ensures
        v@.len() == len,
        forall|i: int| 0 <= i < len ==> #[trigger] v@[i] < Q,
{
    let mut v: Vec<u32> = Vec::new();
    let mut i: usize = 0;
    while i < len
        invariant
            i <= len,
            v@.len() == i,
            forall|k: int| 0 <= k < i ==> #[trigger] v@[k] < Q,
        decreases len - i,
    {
        v.push(rng_below_u32(rng, Q));
        i = i + 1;
    }
    v
}

/// `(T, T)` additive sharing of `s` modulo `Q`: `T - 1` uniformly random
/// vectors of `N` values, and a last share equal to `s` minus their sum on
/// the first `N` entries (the further entries of `s` are kept).
pub fn additive_share(s: &Vec<u32>, t_parties: usize, rng: &mut StdRng) -> (shares: Vec<Vec<u32>>)
    requires
        t_parties >= 1,
        s@.len() >= N,
        forall|i: int| 0 <= i < N ==> #[trigger] s@[i] < Q,
    ensures
        shares@.len() == t_parties,
        forall|k: int|
            0 <= k < t_parties - 1 ==> (#[trigger] shares@[k])@.len() == N && forall|i: int|
                0 <= i < N ==> #[trigger] shares@[k]@[i] < Q,
        shares@[t_parties - 1]@.len() == s@.len(),
        forall|i: int|
            0 <= i < N ==> #[trigger] shares@[t_parties - 1]@[i] == (s@[i] - shares_sum(shares@, i, t_parties - 1)) % (
            Q as int),
        forall|i: int| N <= i < s@.len() ==> #[trigger] shares@[t_parties - 1]@[i] == s@[i],
{
    let mut shares: Vec<Vec<u32>> = Vec::new();
    let mut k: usize = 0;
    while k < t_parties - 1
        invariant
            t_parties >= 1,
            k <= t_parties - 1,
            shares@.len() == k,
            forall|a: int|
                0 <= a < k ==> (#[trigger] shares@[a])@.len() == N && forall|i: int|
                    0 <= i < N ==> #[trigger] shares@[a]@[i] < Q,
        decreases t_parties - 1 - k,
    {
        shares.push(sample_uniform_vec(N, rng));
        k = k + 1;
    }
    let mut last = s.clone();
    proof {
        assert(last@ == s@);
    }
    let mut k: usize = 0;
    while k < shares.len()
        invariant
            t_parties >= 1,
            shares@.len() == t_parties - 1,
            forall|a: int|
                0 <= a < t_parties - 1 ==> (#[trigger] shares@[a])@.len() == N && forall|i: int|
                    0 <= i < N ==> #[trigger] shares@[a]@[i] < Q,
            s@.len() >= N,
            forall|i: int| 0 <= i < N ==> #[trigger] s@[i] < Q,
            k <= shares@.len(),
            last@.len() == s@.len(),
            forall|i: int| 0 <= i < N ==> #[trigger] last@[i] == (s@[i] - shares_sum(shares@, i, k as int)) % (Q as int),
            forall|i: int| N <= i < s@.len() ==> #[trigger] last@[i] == s@[i],
        decreases shares@.len() - k,
    {
        let mut i: usize = 0;
        while i < N
            invariant
                t_parties >= 1,
                shares@.len() == t_parties - 1,
                k < shares@.len(),
                shares@[k as int]@.len() == N,
                forall|c: int| 0 <= c < N ==> #[trigger] shares@[k as int]@[c] < Q,
                s@.len() >= N,
                forall|c: int| 0 <= c < N ==> #[trigger] s@[c] < Q,
                i <= N,
                last@.len() == s@.len(),
                forall|c: int| 0 <= c < i ==> #[trigger] last@[c] == (s@[c] - shares_sum(shares@, c, k + 1)) % (Q as int),
                forall|c: int| i <= c < N ==> #[trigger] last@[c] == (s@[c] - shares_sum(shares@, c, k as int)) % (Q as int),
                forall|c: int| N <= c < s@.len() ==> #[trigger] last@[c] == s@[c],
            decreases N - i,
        {
            let x = last[i];
            let y = shares[k][i];
            proof {
                lemma_mod_bound(s@[i as int] - shares_sum(shares@, i as int, k as int), Q as int);
                lemma_sub_mod_noop(s@[i as int] - shares_sum(shares@, i as int, k as int), y as int, Q as int);
                lemma_small_mod(y as nat, Q as nat);
            }
            let z = sub_mod_q(x, y);
            last.set(i, z);
            i = i + 1;
        }
        k = k + 1;
    }
    let ghost before = shares@;
    let ghost lastv = last@;
    shares.push(last);
    proof {
        assert(shares@.drop_last() =~= before);
        assert(shares@[t_parties - 1]@ == lastv);
        assert forall|i: int| 0 <= i < N implies #[trigger] shares@[t_parties - 1]@[i] == (s@[i] - shares_sum(
            shares@,
            i,
            t_parties - 1,
        )) % (Q as int) by {
            lemma_shares_sum_prefix(shares@, i, t_parties - 1);
            assert(lastv[i] == (s@[i] - shares_sum(before, i, t_parties - 1)) % (Q as int));
        }
    }
    shares
}

proof fn lemma_shares_sum_prefix(shares: Seq<Vec<u32>>, i: int, n: int)
    requires
        0 <= n < shares.len(),
    ensures
        shares_sum(shares, i, n) == shares_sum(shares.drop_last(), i, n),
    decreases n,
{
    if n > 0 {
        lemma_shares_sum_prefix(shares, i, n - 1);
    }
}

/// The shares of [`additive_share`] add up to the secret: on each of the
/// first `N` entries, the sum of all `T` shares is `s` modulo `Q`.
pub proof fn lemma_additive_shares_reconstruct(s: Seq<u32>, shares: Seq<Vec<u32>>, t: int, i: int)
    requires
        t >= 1,
        shares.len() == t,
        0 <= i < N,
        shares[t - 1]@[i] == (s[i] - shares_sum(shares, i, t - 1)) % (Q as int),
    ensures
        shares_sum(shares, i, t) % (Q as int) == (s[i] as int) % (Q as int),
{
    let p = shares_sum(shares, i, t - 1);
    lemma_fundamental_div_mod(s[i] - p, Q as int);
    let qd = (s[i] - p) / (Q as int);
    assert(shares_sum(shares, i, t) == p + shares[t - 1]@[i]);
    assert(p + (s[i] - p) % (Q as int) == s[i] + (Q as int) * (-qd)) by (nonlinear_arith)
        requires
            s[i] - p == (Q as int) * qd + (s[i] - p) % (Q as int),
    ;
    lemma_mod_multiples_vanish(-qd, s[i] as int, Q as int);
}

/// The 2-bit message of a masked value `m` in `[0, Q)`: its centred
/// representative in `(-Q/2, Q/2]` rounded to the nearest multiple of
/// `Q / 4 = 16384`, as a count of quarters modulo 4.
pub open spec fn decode_quarter(m: int) -> int {
    let x = if m > Q / 2 {
        m - Q
    } else {
        m
    };
    if x >= 0 {
        ((x + 8192) / 16384) % 4
    } else {
        (-((-x + 8192) / 16384)) % 4
    }
}

/// `sum_{k < n} p[k]` over the integers.
pub open spec fn scalar_sum(p: Seq<u32>, n: int) -> int
    decreases n,
{
    if n <= 0 {
        0
    } else {
        scalar_sum(p, n - 1) + p[n - 1]
    }
}

/// The aggregator's step: sums the partial decryptions modulo `Q`, subtracts
/// the sum from `b'` and decodes the 2-bit message.
pub fn combine(b_prime: u32, partials: &[u32]) -> (m: u32)
    requires
        b_prime < Q,
        forall|k: int| 0 <= k < partials@.len() ==> #[trigger] partials@[k] < Q,
    ensures
        m == decode_quarter((b_prime - scalar_sum(partials@, partials@.len() as int)) % (Q as int)),
        m < 4,
{
    let mut sum: u32 = 0;
    let mut k: usize = 0;
    proof {
        lemma_small_mod(0, Q as nat);
    }
    while k < partials.len()
        invariant
            forall|a: int| 0 <= a < partials@.len() ==> #[trigger] partials@[a] < Q,
            k <= partials@.len(),
            sum == scalar_sum(partials@, k as int) % (Q as int),
        decreases partials@.len() - k,
    {
        proof {
            lemma_mod_bound(scalar_sum(partials@, k as int), Q as int);
            lemma_add_mod_noop(scalar_sum(partials@, k as int), partials@[k as int] as int, Q as int);
            lemma_small_mod(partials@[k as int] as nat, Q as nat);
        }
        sum = add_mod_q(sum, partials[k]);
        k = k + 1;
    }
    proof {
        lemma_mod_bound(scalar_sum(partials@, partials@.len() as int), Q as int);
        lemma_sub_mod_noop(b_prime as int, scalar_sum(partials@, partials@.len() as int), Q as int);
        lemma_small_mod(b_prime as nat, Q as nat);
    }
    let masked = sub_mod_q(b_prime, sum);
    let q4: u64 = (Q / 4) as u64;
    let rounded: u32 = if masked > Q / 2 {
        let w: u64 = (Q - masked) as u64;
        let v: i64 = -(((w + q4 / 2) / q4) as i64);
        match v.checked_rem_euclid(4) {
            Some(r) => r as u32,
            None => 0,
        }
    } else {
        let x: u64 = masked as u64;
        (((x + q4 / 2) / q4) % 4) as u32
    };
    rounded
}


proof fn lemma_dot_from_bound(a: Seq<u32>, row: int, x: Seq<u32>, n: int)
    requires
        0 <= n,
        forall|j: int| 0 <= j < n ==> #[trigger] a[row + j] < Q,
        forall|j: int| 0 <= j < n ==> #[trigger] x[j] < Q,
    ensures
        0 <= dot_from(a, row, x, n) <= n * ((Q - 1) * (Q - 1)),
    decreases n,
{
    if n > 0 {
        lemma_dot_from_bound(a, row, x, n - 1);
        let u = a[row + n - 1] as int;
        let v = x[n - 1] as int;
        assert(0 <= u * v <= (Q - 1) * (Q - 1)) by (nonlinear_arith)
            requires
                0 <= u < Q,
                0 <= v < Q,
        ;
        assert(n * ((Q - 1) * (Q - 1)) == (n - 1) * ((Q - 1) * (Q - 1)) + (Q - 1) * (Q - 1)) by (nonlinear_arith);
    }
}

proof fn lemma_column_dot_bound(a: Seq<u32>, r: Seq<u32>, cols: int, j: int, n: int)
    requires
        0 <= n,
        0 <= j < cols,
        forall|i: int| 0 <= i < n ==> #[trigger] r[i] < Q,
        forall|i: int| 0 <= i < n * cols ==> #[trigger] a[i] < Q,
    ensures
        0 <= column_dot(a, r, cols, j, n) <= n * ((Q - 1) * (Q - 1)),
    decreases n,
{
    if n > 0 {
        assert((n - 1) * cols <= n * cols) by (nonlinear_arith)
            requires
                n >= 1,
                cols >= 1,
        ;
        lemma_column_dot_bound(a, r, cols, j, n - 1);
        let u = r[n - 1] as int;
        assert((n - 1) * cols + j < n * cols) by (nonlinear_arith)
            requires
                0 <= j < cols,
                n >= 1,
        ;
        assert(0 <= (n - 1) * cols + j) by (nonlinear_arith)
            requires
                0 <= j,
                n >= 1,
                cols >= 1,
        ;
        let v = a[(n - 1) * cols + j] as int;
        assert(0 <= u * v <= (Q - 1) * (Q - 1)) by (nonlinear_arith)
            requires
                0 <= u < Q,
                0 <= v < Q,
        ;
        assert(n * ((Q - 1) * (Q - 1)) == (n - 1) * ((Q - 1) * (Q - 1)) + (Q - 1) * (Q - 1)) by (nonlinear_arith);
    }
}

/// The public key: a uniform `N x N` matrix `A` and `b = A s + e`.
pub struct PublicKey {
    pub a: Vec<u32>,
    pub b: Vec<u32>,
}

/// Every entry of `v` is reduced modulo `Q`.
pub open spec fn reduced(v: Seq<u32>) -> bool {
    forall|i: int| 0 <= i < v.len() ==> #[trigger] v[i] < Q
}

/// Key generation: a uniform matrix `A`, `b = A s + e_pk mod Q`, and the
/// `(T, T)` additive sharing of `s`. The secret `s` and the error `e_pk`
/// (rounded Gaussian samples reduced modulo `Q`) are given.
pub fn keygen(t_parties: usize, s: &Vec<u32>, e_pk: &Vec<u32>, rng: &mut StdRng) -> (r: (PublicKey, Vec<Vec<u32>>))
    requires
        t_parties >= 1,
        s@.len() == N,
        e_pk@.len() == N,
        reduced(s@),
        reduced(e_pk@),
    ensures
        r.0.a@.len() == N * N,
        reduced(r.0.a@),
        r.0.b@.len() == N,
        forall|i: int|
            0 <= i < N ==> #[trigger] r.0.b@[i] == (dot_from(r.0.a@, i * N, s@, N as int) % (Q as int) + e_pk@[i]) % (
            Q as int),
        r.1@.len() == t_parties,
        forall|k: int| 0 <= k < t_parties - 1 ==> (#[trigger] r.1@[k])@.len() == N && reduced(r.1@[k]@),
        r.1@[t_parties - 1]@.len() == N,
        forall|i: int|
            0 <= i < N ==> #[trigger] r.1@[t_parties - 1]@[i] == (s@[i] - shares_sum(r.1@, i, t_parties - 1)) % (
            Q as int),
{
    let a = sample_uniform_vec(N * N, rng);
    proof {
        assert forall|i: int| 0 <= i < N implies #[trigger] dot_from(a@, i * N, s@, N as int) <= u64::MAX by {
            assert forall|j: int| 0 <= j < N implies #[trigger] a@[i * N + j] < Q by {
                assert(i * N + j < N * N) by (nonlinear_arith)
                    requires
                        0 <= i < N,
                        0 <= j < N,
                ;
                assert(0 <= i * N + j) by (nonlinear_arith)
                    requires
                        0 <= i,
                        0 <= j,
                ;
            }
            lemma_dot_from_bound(a@, i * N, s@, N as int);
        }
    }
    let as_ = matvec(a.as_slice(), s.as_slice(), N, N);
    proof {
        assert forall|i: int| 0 <= i < as_@.len() implies #[trigger] as_@[i] < Q by {
            lemma_mod_bound(dot_from(a@, i * N, s@, N as int), Q as int);
        }
    }
    let b = vec_add_mod(as_.as_slice(), e_pk.as_slice());
    let shares = additive_share(s, t_parties, rng);
    proof {
        assert forall|i: int| 0 <= i < b@.len() implies #[trigger] b@[i] < Q by {
            lemma_mod_bound(as_@[i] + e_pk@[i], Q as int);
        }
        assert forall|k: int| 0 <= k < t_parties - 1 implies (#[trigger] shares@[k])@.len() == N && reduced(shares@[k]@) by {
            assert forall|c: int| 0 <= c < shares@[k]@.len() implies #[trigger] shares@[k]@[c] < Q by {}
        }
    }
    (PublicKey { a, b }, shares)
}

/// Encryption of the zero message: `a' = A^T r + f` and
/// `b' = r . b + e' + 0 (mod Q)`, for the rounded Gaussian vectors `r`, `f`
/// and the rounded Gaussian `e'` (reduced modulo `Q`) that are given.
pub fn encrypt(pk: &PublicKey, r: &Vec<u32>, f: &Vec<u32>, e_prime: u32) -> (c: (Vec<u32>, u32))
    requires
        pk.a@.len() == N * N,
        pk.b@.len() == N,
        reduced(pk.a@),
        reduced(pk.b@),
        r@.len() == N,
        f@.len() == N,
        reduced(r@),
        reduced(f@),
        e_prime < Q,
    ensures
        c.0@.len() == N,
        forall|j: int|
            0 <= j < N ==> #[trigger] c.0@[j] == (column_dot(pk.a@, r@, N as int, j, N as int) % (Q as int) + f@[j]) % (
            Q as int),
        c.1 == ((dot_from(r@, 0, pk.b@, N as int) % (Q as int) + e_prime) % (Q as int)),
{
    proof {
        assert forall|j: int| 0 <= j < N implies #[trigger] column_dot(pk.a@, r@, N as int, j, N as int) <= u64::MAX by {
            lemma_column_dot_bound(pk.a@, r@, N as int, j, N as int);
        }
        lemma_dot_from_bound(r@, 0, pk.b@, N as int);
    }
    let r_t_a = matvec_transposed(pk.a.as_slice(), r.as_slice(), N, N);
    proof {
        assert forall|j: int| 0 <= j < r_t_a@.len() implies #[trigger] r_t_a@[j] < Q by {
            lemma_mod_bound(column_dot(pk.a@, r@, N as int, j, N as int), Q as int);
        }
    }
    let a_prime = vec_add_mod(r_t_a.as_slice(), f.as_slice());
    let rt_b = inner_product(r.as_slice(), pk.b.as_slice());
    proof {
        lemma_mod_bound(dot_from(r@, 0, pk.b@, N as int), Q as int);
        lemma_mod_bound(rt_b + e_prime, Q as int);
        lemma_small_mod(((rt_b + e_prime) % (Q as int)) as nat, Q as nat);
    }
    let msg: u32 = 0;
    let b_prime = add_mod_q(add_mod_q(rt_b, e_prime), msg);
    (a_prime, b_prime)
}

/// A partial decryption: `a' . s_i + e~ mod Q`, with the smudging noise
/// `e~` (a rounded Gaussian reduced modulo `Q`) given.
pub fn partial_decrypt(a_prime: &[u32], s_i: &[u32], e_tilde: u32) -> (d: u32)
    requires
        a_prime@.len() <= N,
        a_prime@.len() <= s_i@.len(),
        reduced(a_prime@),
        reduced(s_i@),
        e_tilde < Q,
    ensures
        d == (dot_from(a_prime@, 0, s_i@, a_prime@.len() as int) % (Q as int) + e_tilde) % (Q as int),
{
    proof {
        lemma_dot_from_bound(a_prime@, 0, s_i@, a_prime@.len() as int);
        assert(a_prime@.len() * ((Q - 1) * (Q - 1)) <= N * ((Q - 1) * (Q - 1))) by (nonlinear_arith)
            requires
                a_prime@.len() <= N,
        ;
    }
    let dot = inner_product(a_prime, s_i);
    proof {
        lemma_mod_bound(dot_from(a_prime@, 0, s_i@, a_prime@.len() as int), Q as int);
    }
    add_mod_q(dot, e_tilde)
}


/// Decoding rounds to the nearest quarter: a message `k < 4` encoded as
/// `k * (Q / 4)` and moved by a noise `e` with `|e| <= 8190` (just under
/// `Q / 8`) decodes to `k`, for noise of either sign. So `combine` returns
/// `k` whenever `b'` minus the sum of the partial decryptions is
/// `k * (Q / 4) + e` modulo `Q`.
pub proof fn lemma_decode_quarter_rounds(k: int, e: int)
    requires
        0 <= k < 4,
        -8190 <= e <= 8190,
    ensures
        decode_quarter((k * 16384 + e) % (Q as int)) == k,
{
    let q = Q as int;
    let v = k * 16384 + e;
    if v >= 0 {
        lemma_small_mod(v as nat, q as nat);
    } else {
        vstd::arithmetic::div_mod::lemma_mod_add_multiples_vanish(v, q);
        lemma_small_mod((v + q) as nat, q as nat);
    }
    let m = v % q;
    let x = if m > q / 2 { m - q } else { m };
    if x >= 0 {
        vstd::arithmetic::div_mod::lemma_fundamental_div_mod_converse(x + 8192, 16384, k, x + 8192 - 16384 * k);
        lemma_small_mod(k as nat, 4);
    } else {
        // x = v - q with k = 3, or x = v with k = 0, or x = v - q with k = 2 and e > 0
        let t = if k == 0 { 0int } else { 4 - k };
        vstd::arithmetic::div_mod::lemma_fundamental_div_mod_converse(-x + 8192, 16384, t, -x + 8192 - 16384 * t);
        if t == 0 {
            lemma_small_mod(0, 4);
        } else {
            vstd::arithmetic::div_mod::lemma_fundamental_div_mod_converse(-t, 4, -1, 4 - t);
        }
    }
}

} // verus!

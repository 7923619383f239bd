//! Linear algebra over `R_q = Z_q[X]/(X^d + 1)` with NTT multiplication:
//! products of polynomials through a list of residue contexts, matrix-vector
//! products, vector-matrix products and inner products of polynomial
//! vectors. Polynomials are in Montgomery form throughout.
use vstd::prelude::*;
use crate::ntt_ctx::Ctx;

verus! {

/// The sum of two reduced polynomials modulo `q`.
pub open spec fn add_spec(c: Ctx, a: Seq<u64>, b: Seq<u64>) -> Seq<u64> {
    Seq::new(c.d as nat, |i: int| ((a[i] + b[i]) % (c.q as int)) as u64)
}

/// `sum_{j < n} m[i cols + j] * x[j]`, accumulated from the zero polynomial.
pub open spec fn row_times_column(c: Ctx, m: Seq<Seq<u64>>, x: Seq<Seq<u64>>, cols: int, i: int, n: int) -> Seq<u64>
    decreases n,
{
    if n <= 0 {
        Seq::new(c.d as nat, |k: int| 0u64)
    } else {
        add_spec(
            c,
            row_times_column(c, m, x, cols, i, n - 1),
            c.poly_mul_spec(m[i * cols + n - 1], x[n - 1]),
        )
    }
}

/// `sum_{i < n} r[i] * m[i cols + j]`, accumulated from the zero polynomial.
pub open spec fn row_times_matrix(c: Ctx, r: Seq<Seq<u64>>, m: Seq<Seq<u64>>, cols: int, j: int, n: int) -> Seq<u64>
    decreases n,
{
    if n <= 0 {
        Seq::new(c.d as nat, |k: int| 0u64)
    } else {
        add_spec(
            c,
            row_times_matrix(c, r, m, cols, j, n - 1),
            c.poly_mul_spec(r[n - 1], m[(n - 1) * cols + j]),
        )
    }
}

/// `sum_{i < n} a[i] * b[i]`, accumulated from the zero polynomial.
pub open spec fn inner_spec(c: Ctx, a: Seq<Seq<u64>>, b: Seq<Seq<u64>>, n: int) -> Seq<u64>
    decreases n,
{
    if n <= 0 {
        Seq::new(c.d as nat, |k: int| 0u64)
    } else {
        add_spec(c, inner_spec(c, a, b, n - 1), c.poly_mul_spec(a[n - 1], b[n - 1]))
    }
}

/// Every polynomial of `v` has `d` coefficients reduced modulo `q`.
pub open spec fn polys_ok(c: Ctx, v: Seq<Vec<u64>>) -> bool {
    forall|i: int| 0 <= i < v.len() ==> (#[trigger] v[i])@.len() == c.d && c.reduced(v[i]@)
}

/// The coefficient sequences of a vector of polynomials.
pub open spec fn views(v: Seq<Vec<u64>>) -> Seq<Seq<u64>> {
    Seq::new(v.len(), |i: int| v[i]@)
}

/// The product of two polynomials in the first context of `ctxs`. The other
/// contexts stand for further residue channels of a larger modulus, whose
/// products only cost time and are not combined into the result; they are
/// not computed here.
pub fn ring_mul(ctxs: &[Ctx], a: &[u64], b: &[u64]) -> (r: Vec<u64>)
    requires
        ctxs@.len() >= 1,
        ctxs@[0].wf(),
        a@.len() == ctxs@[0].d,
        b@.len() == ctxs@[0].d,
        ctxs@[0].reduced(a@),
        ctxs@[0].reduced(b@),
    ensures
        r@ == ctxs@[0].poly_mul_spec(a@, b@),
        r@.len() == ctxs@[0].d,
        ctxs@[0].reduced(r@),
{
    ctxs[0].poly_mul(a, b)
}

/// The product of two polynomials modulo the first residue prime of the
/// context (the further primes of the residue representation only add
/// time).
pub fn poly_mul_q100(c: &Ctx, a: &[u64], b: &[u64]) -> (r: Vec<u64>)
    requires
        c.wf(),
        a@.len() == c.d,
        b@.len() == c.d,
        c.reduced(a@),
        c.reduced(b@),
    ensures
        r@ == c.poly_mul_spec(a@, b@),
{
    c.poly_mul(a, b)
}

/// `y = A x` for a `rows x cols` matrix of polynomials `A` (row-major) and
/// a vector `x` of `cols` polynomials.
pub fn ring_matvec(ctxs: &[Ctx], a_flat: &[Vec<u64>], x: &[Vec<u64>], rows: usize, cols: usize) -> (y: Vec<Vec<u64>>)
    requires
        ctxs@.len() >= 1,
        ctxs@[0].wf(),
        rows * cols <= a_flat@.len() <= usize::MAX,
        cols <= x@.len(),
        polys_ok(ctxs@[0], a_flat@),
        polys_ok(ctxs@[0], x@),
    ensures
        y@.len() == rows,
        forall|i: int|
            0 <= i < rows ==> (#[trigger] y@[i])@ == row_times_column(
                ctxs@[0],
                views(a_flat@),
                views(x@),
                cols as int,
                i,
                cols as int,
            ),
{
    let c0 = &ctxs[0];
    let mut y: Vec<Vec<u64>> = Vec::new();
    let mut i: usize = 0;
    while i < rows
        invariant
            ctxs@.len() >= 1,
            c0 == &ctxs@[0],
            c0.wf(),
            rows * cols <= a_flat@.len() <= usize::MAX,
            cols <= x@.len(),
            polys_ok(*c0, a_flat@),
            polys_ok(*c0, x@),
            i <= rows,
            y@.len() == i,
            forall|k: int|
                0 <= k < i ==> (#[trigger] y@[k])@ == row_times_column(
                    *c0,
                    views(a_flat@),
                    views(x@),
                    cols as int,
                    k,
                    cols as int,
                ),
        decreases rows - i,
    {
        let mut acc = c0.poly_zero();
        let mut j: usize = 0;
        proof {
            assert(acc@ =~= row_times_column(*c0, views(a_flat@), views(x@), cols as int, i as int, 0));
        }
        while j < cols
            invariant
                ctxs@.len() >= 1,
                c0 == &ctxs@[0],
                c0.wf(),
                rows * cols <= a_flat@.len() <= usize::MAX,
                cols <= x@.len(),
                polys_ok(*c0, a_flat@),
                polys_ok(*c0, x@),
                i < rows,
                j <= cols,
                acc@ == row_times_column(*c0, views(a_flat@), views(x@), cols as int, i as int, j as int),
                acc@.len() == c0.d,
                c0.reduced(acc@),
            decreases cols - j,
        {
            proof {
                assert(i * cols + j < rows * cols) by (nonlinear_arith)
                    requires
                        i < rows,
                        j < cols,
                ;
            }
            let prod = ring_mul(ctxs, a_flat[i * cols + j].as_slice(), x[j].as_slice());
            let next = c0.poly_add(acc.as_slice(), prod.as_slice());
            proof {
                assert(next@ =~= row_times_column(*c0, views(a_flat@), views(x@), cols as int, i as int, j + 1));
            }
            acc = next;
            j = j + 1;
        }
        y.push(acc);
        i = i + 1;
    }
    y
}

/// `y^T = r^T A` for a vector `r` of `rows` polynomials and a `rows x cols`
/// matrix `A` (row-major).
pub fn ring_vecmat(ctxs: &[Ctx], r: &[Vec<u64>], a_flat: &[Vec<u64>], rows: usize, cols: usize) -> (y: Vec<Vec<u64>>)
    requires
        ctxs@.len() >= 1,
        ctxs@[0].wf(),
        rows * cols <= a_flat@.len() <= usize::MAX,
        rows <= r@.len(),
        polys_ok(ctxs@[0], a_flat@),
        polys_ok(ctxs@[0], r@),
    ensures
        y@.len() == cols,
        forall|j: int|
            0 <= j < cols ==> (#[trigger] y@[j])@ == row_times_matrix(
                ctxs@[0],
                views(r@),
                views(a_flat@),
                cols as int,
                j,
                rows as int,
            ),
{
    let c0 = &ctxs[0];
    let mut y: Vec<Vec<u64>> = Vec::new();
    let mut j: usize = 0;
    while j < cols
        invariant
            ctxs@.len() >= 1,
            c0 == &ctxs@[0],
            c0.wf(),
            rows * cols <= a_flat@.len() <= usize::MAX,
            rows <= r@.len(),
            polys_ok(*c0, a_flat@),
            polys_ok(*c0, r@),
            j <= cols,
            y@.len() == j,
            forall|k: int|
                0 <= k < j ==> (#[trigger] y@[k])@ == row_times_matrix(
                    *c0,
                    views(r@),
                    views(a_flat@),
                    cols as int,
                    k,
                    rows as int,
                ),
        decreases cols - j,
    {
        let mut acc = c0.poly_zero();
        let mut i: usize = 0;
        proof {
            assert(acc@ =~= row_times_matrix(*c0, views(r@), views(a_flat@), cols as int, j as int, 0));
        }
        while i < rows
            invariant
                ctxs@.len() >= 1,
                c0 == &ctxs@[0],
                c0.wf(),
                rows * cols <= a_flat@.len() <= usize::MAX,
                rows <= r@.len(),
                polys_ok(*c0, a_flat@),
                polys_ok(*c0, r@),
                j < cols,
                i <= rows,
                acc@ == row_times_matrix(*c0, views(r@), views(a_flat@), cols as int, j as int, i as int),
                acc@.len() == c0.d,
                c0.reduced(acc@),
            decreases rows - i,
        {
            proof {
                assert(i * cols + j < rows * cols) by (nonlinear_arith)
                    requires
                        i < rows,
                        j < cols,
                ;
            }
            let prod = ring_mul(ctxs, r[i].as_slice(), a_flat[i * cols + j].as_slice());
            let next = c0.poly_add(acc.as_slice(), prod.as_slice());
            proof {
                assert(next@ =~= row_times_matrix(*c0, views(r@), views(a_flat@), cols as int, j as int, i + 1));
            }
            acc = next;
            i = i + 1;
        }
        y.push(acc);
        j = j + 1;
    }
    y
}

/// `sum_i a[i] * b[i]` over the polynomials of `a` (and as many of `b`).
pub fn ring_inner_product(ctxs: &[Ctx], a: &[Vec<u64>], b: &[Vec<u64>]) -> (s: Vec<u64>)
    requires
        ctxs@.len() >= 1,
        ctxs@[0].wf(),
        a@.len() <= b@.len(),
        polys_ok(ctxs@[0], a@),
        polys_ok(ctxs@[0], b@),
    ensures
        s@ == inner_spec(ctxs@[0], views(a@), views(b@), a@.len() as int),
{
    let c0 = &ctxs[0];
    let mut acc = c0.poly_zero();
    let mut i: usize = 0;
    proof {
        assert(acc@ =~= inner_spec(*c0, views(a@), views(b@), 0));
    }
    while i < a.len()
        invariant
            ctxs@.len() >= 1,
            c0 == &ctxs@[0],
            c0.wf(),
            a@.len() <= b@.len(),
            polys_ok(*c0, a@),
            polys_ok(*c0, b@),
            i <= a@.len(),
            acc@ == inner_spec(*c0, views(a@), views(b@), i as int),
            acc@.len() == c0.d,
            c0.reduced(acc@),
        decreases a@.len() - i,
    {
        let prod = ring_mul(ctxs, a[i].as_slice(), b[i].as_slice());
        let next = c0.poly_add(acc.as_slice(), prod.as_slice());
        proof {
            assert(next@ =~= inner_spec(*c0, views(a@), views(b@), i + 1));
        }
        acc = next;
        i = i + 1;
    }
    acc
}


/// Coefficient `k` of `sum_{i < n} f(i)` over the integers.
pub open spec fn coeff_sum(f: spec_fn(int) -> Seq<u64>, k: int, n: nat) -> int {
    crate::field_laws::fsum(|i: int| f(i)[k] as int, n)
}

proof fn lemma_coeff_sum_step(f: spec_fn(int) -> Seq<u64>, k: int, n: nat)
    requires
        n > 0,
    ensures
        coeff_sum(f, k, n) == coeff_sum(f, k, (n - 1) as nat) + f(n - 1)[k] as int,
{
    assert(crate::field_laws::fsum(|i: int| f(i)[k] as int, n) == crate::field_laws::fsum(
        |i: int| f(i)[k] as int,
        (n - 1) as nat,
    ) + f(n - 1)[k] as int);
}

/// Adding one more term to a reduced sum.
proof fn lemma_add_step(c: Ctx, acc: Seq<u64>, term: Seq<u64>, s: int, k: int)
    requires
        c.wf(),
        0 <= k < c.d,
        acc[k] as int == s % (c.q as int),
    ensures
        add_spec(c, acc, term)[k] as int == (s + term[k] as int) % (c.q as int),
{
    let q = c.q as int;
    vstd::arithmetic::div_mod::lemma_mod_bound(acc[k] as int + term[k] as int, q);
    vstd::arithmetic::div_mod::lemma_add_mod_noop(s, term[k] as int, q);
    vstd::arithmetic::div_mod::lemma_add_mod_noop(acc[k] as int, term[k] as int, q);
    vstd::arithmetic::div_mod::lemma_mod_twice(s, q);
    vstd::arithmetic::div_mod::lemma_mod_bound(s, q);
    vstd::arithmetic::div_mod::lemma_small_mod((acc[k] as int) as nat, q as nat);
}

/// The inner product is the sum of the products: coefficient `k` of
/// `inner_spec(a, b, n)` (what `ring_inner_product` returns) is the sum over
/// `i < n` of coefficient `k` of `a[i] * b[i]`, modulo `q`.
pub proof fn lemma_inner_product_is_sum_of_products(c: Ctx, a: Seq<Seq<u64>>, b: Seq<Seq<u64>>, n: nat)
    requires
        c.wf(),
    ensures
        inner_spec(c, a, b, n as int).len() == c.d,
        forall|k: int|
            0 <= k < c.d ==> #[trigger] inner_spec(c, a, b, n as int)[k] as int == coeff_sum(
                |i: int| c.poly_mul_spec(a[i], b[i]),
                k,
                n,
            ) % (c.q as int),
    decreases n,
{
    let f = |i: int| c.poly_mul_spec(a[i], b[i]);
    if n == 0 {
        assert forall|k: int| 0 <= k < c.d implies #[trigger] inner_spec(c, a, b, n as int)[k] as int == coeff_sum(
            f,
            k,
            n,
        ) % (c.q as int) by {
            vstd::arithmetic::div_mod::lemma_small_mod(0, c.q as nat);
        }
    } else {
        lemma_inner_product_is_sum_of_products(c, a, b, (n - 1) as nat);
        assert forall|k: int| 0 <= k < c.d implies #[trigger] inner_spec(c, a, b, n as int)[k] as int == coeff_sum(
            f,
            k,
            n,
        ) % (c.q as int) by {
            lemma_coeff_sum_step(f, k, n);
            lemma_add_step(c, inner_spec(c, a, b, n - 1), c.poly_mul_spec(a[n - 1], b[n - 1]), coeff_sum(f, k, (n - 1) as nat), k);
        }
    }
}

/// Entry `i` of a matrix-vector product is the sum over `j < n` of the
/// products of matrix entry `(i, j)` (at `i cols + j`) with `x[j]`, modulo
/// `q`, coefficient by coefficient.
pub proof fn lemma_matvec_entry_is_sum(c: Ctx, m: Seq<Seq<u64>>, x: Seq<Seq<u64>>, cols: int, i: int, n: nat)
    requires
        c.wf(),
    ensures
        row_times_column(c, m, x, cols, i, n as int).len() == c.d,
        forall|k: int|
            0 <= k < c.d ==> #[trigger] row_times_column(c, m, x, cols, i, n as int)[k] as int == coeff_sum(
                |j: int| c.poly_mul_spec(m[i * cols + j], x[j]),
                k,
                n,
            ) % (c.q as int),
    decreases n,
{
    let f = |j: int| c.poly_mul_spec(m[i * cols + j], x[j]);
    if n == 0 {
        assert forall|k: int| 0 <= k < c.d implies #[trigger] row_times_column(c, m, x, cols, i, n as int)[k] as int
            == coeff_sum(f, k, n) % (c.q as int) by {
            vstd::arithmetic::div_mod::lemma_small_mod(0, c.q as nat);
        }
    } else {
        lemma_matvec_entry_is_sum(c, m, x, cols, i, (n - 1) as nat);
        assert forall|k: int| 0 <= k < c.d implies #[trigger] row_times_column(c, m, x, cols, i, n as int)[k] as int
            == coeff_sum(f, k, n) % (c.q as int) by {
            lemma_coeff_sum_step(f, k, n);
            assert(i * cols + n - 1 == i * cols + (n - 1));
            lemma_add_step(
                c,
                row_times_column(c, m, x, cols, i, n - 1),
                c.poly_mul_spec(m[i * cols + n - 1], x[n - 1]),
                coeff_sum(f, k, (n - 1) as nat),
                k,
            );
        }
    }
}

/// Entry `j` of a vector-matrix product `r^T A` is the sum over `i < n` of
/// the products of `r[i]` with matrix entry `(i, j)` (at `i cols + j`),
/// modulo `q`, coefficient by coefficient.
pub proof fn lemma_vecmat_entry_is_sum(c: Ctx, r: Seq<Seq<u64>>, m: Seq<Seq<u64>>, cols: int, j: int, n: nat)
    requires
        c.wf(),
    ensures
        row_times_matrix(c, r, m, cols, j, n as int).len() == c.d,
        forall|k: int|
            0 <= k < c.d ==> #[trigger] row_times_matrix(c, r, m, cols, j, n as int)[k] as int == coeff_sum(
                |i: int| c.poly_mul_spec(r[i], m[i * cols + j]),
                k,
                n,
            ) % (c.q as int),
    decreases n,
{
    let f = |i: int| c.poly_mul_spec(r[i], m[i * cols + j]);
    if n == 0 {
        assert forall|k: int| 0 <= k < c.d implies #[trigger] row_times_matrix(c, r, m, cols, j, n as int)[k] as int
            == coeff_sum(f, k, n) % (c.q as int) by {
            vstd::arithmetic::div_mod::lemma_small_mod(0, c.q as nat);
        }
    } else {
        lemma_vecmat_entry_is_sum(c, r, m, cols, j, (n - 1) as nat);
        assert forall|k: int| 0 <= k < c.d implies #[trigger] row_times_matrix(c, r, m, cols, j, n as int)[k] as int
            == coeff_sum(f, k, n) % (c.q as int) by {
            lemma_coeff_sum_step(f, k, n);
            lemma_add_step(
                c,
                row_times_matrix(c, r, m, cols, j, n - 1),
                c.poly_mul_spec(r[n - 1], m[(n - 1) * cols + j]),
                coeff_sum(f, k, (n - 1) as nat),
                k,
            );
        }
    }
}

/// `r^T A` is `A^T r`: for `mt` the transpose of the `rows x cols` matrix
/// `m` (entry `(j, i)` of `mt`, at `j rows + i`, is entry `(i, j)` of `m`),
/// entry `j` of `r^T m` (what `ring_vecmat` returns) is entry `j` of
/// `mt r` (what `ring_matvec` returns).
pub proof fn lemma_vecmat_is_matvec_of_transpose(
    c: Ctx,
    r: Seq<Seq<u64>>,
    m: Seq<Seq<u64>>,
    mt: Seq<Seq<u64>>,
    rows: nat,
    cols: int,
    j: int,
)
    requires
        c.wf(),
        0 <= j < cols,
        forall|i: int| 0 <= i < rows ==> #[trigger] mt[j * rows + i] == m[i * cols + j],
    ensures
        row_times_matrix(c, r, m, cols, j, rows as int) == row_times_column(c, mt, r, rows as int, j, rows as int),
{
    lemma_vecmat_entry_is_sum(c, r, m, cols, j, rows);
    lemma_matvec_entry_is_sum(c, mt, r, rows as int, j, rows);
    let f = |i: int| c.poly_mul_spec(r[i], m[i * cols + j]);
    let g = |i: int| c.poly_mul_spec(mt[j * rows + i], r[i]);
    assert forall|k: int| 0 <= k < c.d implies #[trigger] row_times_matrix(c, r, m, cols, j, rows as int)[k]
        == row_times_column(c, mt, r, rows as int, j, rows as int)[k] by {
        assert forall|i: int| 0 <= i < rows implies #[trigger] f(i)[k] as int == g(i)[k] as int by {
            assert(mt[j * rows + i] == m[i * cols + j]);
            lemma_poly_mul_commutes(c, r[i], m[i * cols + j]);
        }
        crate::field_laws::lemma_fsum_ext(|i: int| f(i)[k] as int, |i: int| g(i)[k] as int, rows);
    }
    assert(row_times_matrix(c, r, m, cols, j, rows as int) =~= row_times_column(c, mt, r, rows as int, j, rows as int));
}


/// The transform product does not depend on the order of its factors.
proof fn lemma_poly_mul_commutes(c: Ctx, a: Seq<u64>, b: Seq<u64>)
    ensures
        c.poly_mul_spec(a, b) == c.poly_mul_spec(b, a),
{
    let na = c.ntt_spec(a);
    let nb = c.ntt_spec(b);
    let p1 = Seq::new(c.d as nat, |i: int| c.mprod(na[i] as int, nb[i] as int) as u64);
    let p2 = Seq::new(c.d as nat, |i: int| c.mprod(nb[i] as int, na[i] as int) as u64);
    assert forall|i: int| 0 <= i < c.d implies #[trigger] p1[i] == p2[i] by {
        let x = na[i] as int;
        let y = nb[i] as int;
        let j = crate::montgomery::r_inverse(c.q, c.q_neg_inv);
        assert(x * y * j == y * x * j) by (nonlinear_arith);
    }
    assert(p1 =~= p2);
}

} // verus!

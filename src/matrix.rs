use vstd::prelude::*;

verus! {

/// A matrix of integers stored row by row: the entry at row `i`, column `j`
/// is `data[i * nb_col + j]`.
#[derive(PartialEq, Debug)]
pub struct Matrix {
    pub data: Vec<i64>,
    pub nb_col: usize,
    pub nb_row: usize,
}

/// `a * n + b` indexes a table of `m` rows of `n` when `a < m` and `b < n`.
pub proof fn lemma_index_in_table(a: int, b: int, n: int, m: int)
    requires
        0 <= a < m,
        0 <= b < n,
    ensures
        0 <= a * n + b < m * n,
        a * n <= a * n + b,
{
    assert(a * n + b < m * n) by (nonlinear_arith)
        requires
            0 <= a < m,
            0 <= b < n,
    ;
    assert(0 <= a * n) by (nonlinear_arith)
        requires
            0 <= a,
            0 <= n,
    ;
}

/// Distinct cells of a table have distinct indexes, in row order.
pub proof fn lemma_index_order(a: int, b: int, c: int, d: int, n: int)
    requires
        0 <= b < n,
        0 <= d < n,
        a < c || (a == c && b < d),
    ensures
        a * n + b < c * n + d,
{
    if a < c {
        assert(a * n + n <= c * n) by (nonlinear_arith)
            requires
                a < c,
                0 <= n,
        ;
    }
}

/// The kernel `ker` (rows of `kc`) laid with its corner on row `i`, column
/// `j` of `m` (rows of `mc`): the sum, in row order, of each kernel entry
/// times the entry it covers, over the kernel rows below `a` and the first
/// `b` entries of row `a`.
pub open spec fn conv_partial(
    m: Seq<i64>,
    mc: int,
    ker: Seq<i64>,
    kc: int,
    i: int,
    j: int,
    a: int,
    b: int,
) -> int
    decreases a, b,
{
    if b > 0 {
        conv_partial(m, mc, ker, kc, i, j, a, b - 1) + conv_term(m, mc, ker, kc, i, j, a, b - 1)
    } else if a > 0 {
        conv_partial(m, mc, ker, kc, i, j, a - 1, kc)
    } else {
        0
    }
}

/// The kernel entry at row `a`, column `b` times the entry of `m` it covers.
pub open spec fn conv_term(m: Seq<i64>, mc: int, ker: Seq<i64>, kc: int, i: int, j: int, a: int, b: int) -> int {
    ker[a * kc + b] * m[(i + a) * mc + (j + b)]
}

/// The sum, in order, of the first `t` entries of `x` times the entries of
/// row `i` of `w` (rows of `n`).
pub open spec fn dot_partial(x: Seq<i64>, w: Seq<i64>, n: int, i: int, t: int) -> int
    decreases t,
{
    if t <= 0 {
        0
    } else {
        dot_partial(x, w, n, i, t - 1) + x[t - 1] * w[i * n + t - 1]
    }
}

pub open spec fn fits_i64(v: int) -> bool {
    i64::MIN <= v <= i64::MAX
}

impl Matrix {
    pub open spec fn wf(&self) -> bool {
        &&& self.nb_col > 0
        &&& self.nb_row > 0
        &&& self.data@.len() == self.nb_col * self.nb_row
    }

    /// The entry at row `i`, column `j`.
    pub open spec fn at(&self, i: int, j: int) -> i64 {
        self.data@[i * self.nb_col + j]
    }

    /// A matrix of `nb_row` rows of `nb_col` entries, read row by row.
    pub fn new(nb_col: usize, nb_row: usize, data: &[i64]) -> (m: Matrix)
        requires
            nb_col * nb_row == data@.len(),
            nb_col > 0 && nb_row > 0,
        ensures
            m.wf(),
            m.nb_col == nb_col,
            m.nb_row == nb_row,
            m.data@ == data@,
    {
        let mut v: Vec<i64> = Vec::new();
        let mut k: usize = 0;
        while k < data.len()
            invariant
                k <= data@.len(),
                v@ == data@.subrange(0, k as int),
            decreases data@.len() - k,
        {
            v.push(data[k]);
            k = k + 1;
            assert(v@ =~= data@.subrange(0, k as int));
        }
        assert(v@ =~= data@);
        Matrix { data: v, nb_col, nb_row }
    }

    /// Makes the matrix one column: the entries keep their order.
    pub fn flatten(&mut self)
        requires
            old(self).wf(),
        ensures
            final(self).wf(),
            final(self).nb_col == 1,
            final(self).nb_row == old(self).nb_row * old(self).nb_col,
            final(self).data == old(self).data,
    {
        let len = self.data.len();
        proof {
            vstd::arithmetic::mul::lemma_mul_is_commutative(self.nb_row as int, self.nb_col as int);
        }
        assert(self.nb_row * self.nb_col == len);
        assert(self.nb_row * self.nb_col > 0) by (nonlinear_arith)
            requires
                self.nb_row > 0,
                self.nb_col > 0,
        ;
        self.nb_row = self.nb_row * self.nb_col;
        self.nb_col = 1;
        assert(self.data@.len() == self.nb_col * self.nb_row) by (nonlinear_arith)
            requires
                self.nb_col == 1,
                self.data@.len() == self.nb_row,
        ;
    }

    /// Swaps rows and columns.
    pub fn transpose(&mut self)
        requires
            old(self).wf(),
        ensures
            final(self).wf(),
            final(self).nb_col == old(self).nb_row,
            final(self).nb_row == old(self).nb_col,
            forall|i: int, j: int|
                0 <= i < final(self).nb_row && 0 <= j < final(self).nb_col ==> #[trigger] final(self).at(i, j)
                    == old(self).at(j, i),
    {
        let nb_col = self.nb_row;
        let nb_row = self.nb_col;
        let ghost src = self.data@;
        let len = self.data.len();
        let mut new_data: Vec<i64> = Vec::new();
        let mut i: usize = 0;
        while i < nb_row
            invariant
                self.wf(),
                self.data@ == src,
                len == src.len(),
                nb_col == self.nb_row,
                nb_row == self.nb_col,
                i <= nb_row,
                new_data@.len() == i * nb_col,
                forall|a: int, b: int|
                    0 <= a < i && 0 <= b < nb_col ==> #[trigger] new_data@[a * nb_col + b]
                        == src[b * nb_row + a],
            decreases nb_row - i,
        {
            let mut j: usize = 0;
            while j < nb_col
                invariant
                    self.wf(),
                    self.data@ == src,
                    len == src.len(),
                    nb_col == self.nb_row,
                    nb_row == self.nb_col,
                    i < nb_row,
                    j <= nb_col,
                    new_data@.len() == i * nb_col + j,
                    forall|a: int, b: int|
                        0 <= a < i && 0 <= b < nb_col ==> #[trigger] new_data@[a * nb_col + b]
                            == src[b * nb_row + a],
                    forall|b: int| 0 <= b < j ==> #[trigger] new_data@[i * nb_col + b] == src[b * nb_row + i],
                decreases nb_col - j,
            {
                proof {
                    lemma_index_in_table(j as int, i as int, nb_row as int, nb_col as int);
                    lemma_index_in_table(i as int, j as int, nb_col as int, nb_row as int);
                    vstd::arithmetic::mul::lemma_mul_is_commutative(nb_row as int, nb_col as int);
                }
                let x = self.data[j * self.nb_col + i];
                let ghost before = new_data@;
                new_data.push(x);
                proof {
                    assert forall|a: int, b: int|
                        0 <= a < i && 0 <= b < nb_col implies #[trigger] new_data@[a * nb_col + b]
                            == src[b * nb_row + a] by {
                        lemma_index_order(a, b, i as int, j as int, nb_col as int);
                        lemma_index_in_table(a, b, nb_col as int, i as int);
                        assert(new_data@[a * nb_col + b] == before[a * nb_col + b]);
                    }
                    assert forall|b: int| 0 <= b < j + 1 implies #[trigger] new_data@[i * nb_col + b] == src[b * nb_row + i] by {
                        if b < j {
                            assert(new_data@[i * nb_col + b] == before[i * nb_col + b]);
                        }
                    }
                }
                j = j + 1;
            }
            proof {
                assert forall|a: int, b: int|
                    0 <= a < i + 1 && 0 <= b < nb_col implies #[trigger] new_data@[a * nb_col + b]
                        == src[b * nb_row + a] by {
                    if a == i {
                        assert(new_data@[i * nb_col + b] == src[b * nb_row + i]);
                    }
                }
                assert((i + 1) * nb_col == i * nb_col + nb_col) by (nonlinear_arith);
            }
            i = i + 1;
        }
        self.nb_col = nb_col;
        self.nb_row = nb_row;
        self.data = new_data;
    }

    /// Every product and every running sum of a convolution by `kernel`
    /// fits in an `i64`.
    pub open spec fn convolution_fits(&self, kernel: &Matrix) -> bool {
        forall|i: int, j: int, a: int, b: int|
            0 <= i <= self.nb_row - kernel.nb_row && 0 <= j <= self.nb_col - kernel.nb_col && 0 <= a
                < kernel.nb_row && 0 <= b < kernel.nb_col ==> {
                &&& fits_i64(
                    #[trigger] conv_term(self.data@, self.nb_col as int, kernel.data@, kernel.nb_col as int, i, j, a, b),
                )
                &&& fits_i64(
                    conv_partial(self.data@, self.nb_col as int, kernel.data@, kernel.nb_col as int, i, j, a, b + 1),
                )
            }
    }

    /// Convolution by `kernel`, without stride or padding: the result has
    /// `kernel.nb_col - 1` fewer columns and `kernel.nb_row - 1` fewer rows,
    /// and each entry is the sum of the kernel's entries times those they
    /// cover.
    pub fn convolution(&mut self, kernel: &Matrix)
        requires
            old(self).wf(),
            kernel.wf(),
            old(self).nb_col >= kernel.nb_col && old(self).nb_row >= kernel.nb_row,
            old(self).convolution_fits(kernel),
        ensures
            final(self).wf(),
            final(self).nb_col == old(self).nb_col - (kernel.nb_col - 1),
            final(self).nb_row == old(self).nb_row - (kernel.nb_row - 1),
            forall|i: int, j: int|
                0 <= i < final(self).nb_row && 0 <= j < final(self).nb_col ==> #[trigger] final(self).at(i, j)
                    == conv_partial(
                    old(self).data@,
                    old(self).nb_col as int,
                    kernel.data@,
                    kernel.nb_col as int,
                    i,
                    j,
                    kernel.nb_row as int,
                    0,
                ),
    {
        let ghost src = self.data@;
        let len = self.data.len();
        let klen = kernel.data.len();
        let prev_col = self.nb_col;
        let prev_row = self.nb_row;
        let kc = kernel.nb_col;
        let kr = kernel.nb_row;
        let out_col = prev_col - (kc - 1);
        let out_row = prev_row - (kr - 1);
        let mut new_data: Vec<i64> = Vec::new();
        let mut i: usize = 0;
        while i < out_row
            invariant
                self.wf(),
                kernel.wf(),
                self.data@ == src,
                len == src.len(),
                klen == kernel.data@.len(),
                prev_col == self.nb_col,
                prev_row == self.nb_row,
                kc == kernel.nb_col,
                kr == kernel.nb_row,
                out_col == prev_col - (kc - 1),
                out_row == prev_row - (kr - 1),
                self.convolution_fits(kernel),
                i <= out_row,
                new_data@.len() == i * out_col,
                forall|p: int, q: int|
                    0 <= p < i && 0 <= q < out_col ==> #[trigger] new_data@[p * out_col + q] == conv_partial(src, prev_col as int, kernel.data@, kc as int, p, q, kr as int, 0),
            decreases out_row - i,
        {
            let mut j: usize = 0;
            while j < out_col
                invariant
                    self.wf(),
                    kernel.wf(),
                    self.data@ == src,
                    len == src.len(),
                    klen == kernel.data@.len(),
                    prev_col == self.nb_col,
                    prev_row == self.nb_row,
                    kc == kernel.nb_col,
                    kr == kernel.nb_row,
                    out_col == prev_col - (kc - 1),
                    out_row == prev_row - (kr - 1),
                    self.convolution_fits(kernel),
                    i < out_row,
                    j <= out_col,
                    new_data@.len() == i * out_col + j,
                    forall|p: int, q: int|
                        0 <= p < i && 0 <= q < out_col ==> #[trigger] new_data@[p * out_col + q] == conv_partial(src, prev_col as int, kernel.data@, kc as int, p, q, kr as int, 0),
                    forall|q: int| 0 <= q < j ==> #[trigger] new_data@[i * out_col + q] == conv_partial(src, prev_col as int, kernel.data@, kc as int, i as int, q, kr as int, 0),
                decreases out_col - j,
            {
                let mut acc: i64 = 0;
                let mut a: usize = 0;
                while a < kr
                    invariant
                        self.wf(),
                        kernel.wf(),
                        self.data@ == src,
                        len == src.len(),
                        klen == kernel.data@.len(),
                        prev_col == self.nb_col,
                        prev_row == self.nb_row,
                        kc == kernel.nb_col,
                        kr == kernel.nb_row,
                        out_col == prev_col - (kc - 1),
                        out_row == prev_row - (kr - 1),
                        self.convolution_fits(kernel),
                        i < out_row,
                        j < out_col,
                        a <= kr,
                        acc == conv_partial(src, prev_col as int, kernel.data@, kc as int, i as int, j as int, a as int, 0),
                    decreases kr - a,
                {
                    let mut b: usize = 0;
                    while b < kc
                        invariant
                            self.wf(),
                            kernel.wf(),
                            self.data@ == src,
                            len == src.len(),
                            klen == kernel.data@.len(),
                            prev_col == self.nb_col,
                            prev_row == self.nb_row,
                            kc == kernel.nb_col,
                            kr == kernel.nb_row,
                            out_col == prev_col - (kc - 1),
                            out_row == prev_row - (kr - 1),
                            self.convolution_fits(kernel),
                            i < out_row,
                            j < out_col,
                            a < kr,
                            b <= kc,
                            acc == conv_partial(src, prev_col as int, kernel.data@, kc as int, i as int, j as int, a as int, b as int),
                        decreases kc - b,
                    {
                        proof {
                            lemma_index_in_table(a as int, b as int, kc as int, kr as int);
                            lemma_index_in_table((i + a) as int, (j + b) as int, prev_col as int, prev_row as int);
                            assert(fits_i64(conv_term(src, prev_col as int, kernel.data@, kc as int, i as int, j as int, a as int, b as int)));
                            assert(fits_i64(conv_partial(src, prev_col as int, kernel.data@, kc as int, i as int, j as int, a as int, b + 1)));
                        }
                        let x = kernel.data[a * kc + b];
                        let y = self.data[(i + a) * prev_col + (j + b)];
                        acc = acc + x * y;
                        b = b + 1;
                    }
                    a = a + 1;
                }
                let ghost before = new_data@;
                new_data.push(acc);
                proof {
                    assert(acc == conv_partial(src, prev_col as int, kernel.data@, kc as int, i as int, j as int, kr as int, 0));
                    assert(new_data@[i * out_col + j] == acc);
                    assert forall|p: int, q: int|
                        0 <= p < i && 0 <= q < out_col implies #[trigger] new_data@[p * out_col + q] == conv_partial(src, prev_col as int, kernel.data@, kc as int, p, q, kr as int, 0) by {
                        lemma_index_order(p, q, i as int, j as int, out_col as int);
                        lemma_index_in_table(p, q, out_col as int, i as int);
                        assert(new_data@[p * out_col + q] == before[p * out_col + q]);
                    }
                    assert forall|q: int| 0 <= q < j + 1 implies #[trigger] new_data@[i * out_col + q] == conv_partial(src, prev_col as int, kernel.data@, kc as int, i as int, q, kr as int, 0) by {
                        if q < j {
                            assert(new_data@[i * out_col + q] == before[i * out_col + q]);
                        }
                    }
                }
                j = j + 1;
            }
            proof {
                assert forall|p: int, q: int|
                    0 <= p < i + 1 && 0 <= q < out_col implies #[trigger] new_data@[p * out_col + q] == conv_partial(src, prev_col as int, kernel.data@, kc as int, p, q, kr as int, 0) by {
                    if p == i {
                        assert(new_data@[i * out_col + q] == conv_partial(src, prev_col as int, kernel.data@, kc as int, i as int, q, kr as int, 0));
                    }
                }
                assert((i + 1) * out_col == i * out_col + out_col) by (nonlinear_arith);
            }
            i = i + 1;
        }
        proof {
            assert(out_col * out_row == out_row * out_col) by (nonlinear_arith);
            assert(out_col * out_row > 0) by (nonlinear_arith)
                requires
                    out_col > 0,
                    out_row > 0,
            ;
        }
        self.nb_col = out_col;
        self.nb_row = out_row;
        self.data = new_data;
    }

    /// Every product and running sum of a linear combination by `weights`
    /// and `bias` fits in an `i64`.
    pub open spec fn linear_combination_fits(&self, weights: &Matrix, bias: &Matrix) -> bool {
        forall|i: int, t: int|
            0 <= i < weights.nb_row && 0 <= t < self.nb_row ==> {
                &&& fits_i64(self.data@[t] * weights.data@[i * weights.nb_col + t])
                &&& fits_i64(#[trigger] dot_partial(self.data@, weights.data@, weights.nb_col as int, i, t + 1))
                &&& fits_i64(dot_partial(self.data@, weights.data@, weights.nb_col as int, i, self.nb_row as int)
                    + bias.data@[i])
            }
    }

    /// Replaces the column `self` by `weights * self + bias`.
    pub fn linear_combination(&mut self, weights: &Matrix, bias: &Matrix)
        requires
            old(self).wf(),
            weights.wf(),
            bias.wf(),
            old(self).nb_col == 1 && bias.nb_col == 1,
            old(self).nb_row == weights.nb_col && bias.nb_row == weights.nb_row,
            old(self).linear_combination_fits(weights, bias),
        ensures
            final(self).wf(),
            final(self).nb_col == 1,
            final(self).nb_row == bias.nb_row,
            forall|i: int|
                0 <= i < final(self).nb_row ==> #[trigger] final(self).data@[i] == dot_partial(
                    old(self).data@,
                    weights.data@,
                    weights.nb_col as int,
                    i,
                    old(self).nb_row as int,
                ) + bias.data@[i],
    {
        let ghost src = self.data@;
        let n = self.nb_row;
        let rows = weights.nb_row;
        let wc = weights.nb_col;
        let wlen = weights.data.len();
        proof {
            assert(src.len() == n) by (nonlinear_arith)
                requires
                    src.len() == 1 * n,
            ;
            assert(bias.data@.len() == rows) by (nonlinear_arith)
                requires
                    bias.data@.len() == 1 * rows,
            ;
        }
        let mut new_data: Vec<i64> = Vec::new();
        let mut i: usize = 0;
        while i < rows
            invariant
                self.wf(),
                weights.wf(),
                bias.wf(),
                self.data@ == src,
                src.len() == n,
                bias.data@.len() == rows,
                n == self.nb_row,
                rows == weights.nb_row,
                wc == weights.nb_col,
                n == wc,
                wlen == weights.data@.len(),
                self.linear_combination_fits(weights, bias),
                i <= rows,
                new_data@.len() == i,
                forall|p: int|
                    0 <= p < i ==> #[trigger] new_data@[p] == dot_partial(src, weights.data@, wc as int, p, n as int)
                        + bias.data@[p],
            decreases rows - i,
        {
            let mut acc: i64 = 0;
            let mut t: usize = 0;
            while t < n
                invariant
                    self.wf(),
                    weights.wf(),
                    self.data@ == src,
                    src.len() == n,
                    n == self.nb_row,
                    rows == weights.nb_row,
                    wc == weights.nb_col,
                    n == wc,
                    wlen == weights.data@.len(),
                    self.linear_combination_fits(weights, bias),
                    i < rows,
                    t <= n,
                    acc == dot_partial(src, weights.data@, wc as int, i as int, t as int),
                decreases n - t,
            {
                proof {
                    lemma_index_in_table(i as int, t as int, wc as int, rows as int);
                    assert(fits_i64(dot_partial(src, weights.data@, wc as int, i as int, t + 1)));
                }
                acc = acc + self.data[t] * weights.data[i * wc + t];
                t = t + 1;
            }
            proof {
                assert(fits_i64(dot_partial(src, weights.data@, wc as int, i as int, (n - 1) + 1)));
            }
            acc = acc + bias.data[i];
            new_data.push(acc);
            i = i + 1;
        }
        proof {
            assert(new_data@.len() == 1 * rows) by (nonlinear_arith)
                requires
                    new_data@.len() == rows,
            ;
        }
        self.data = new_data;
        self.nb_row = rows;
    }
}

} // verus!

use crate::error::MatrixError;
use crate::render::{bracketed, int_text, join, lemma_join_step, push_char, push_int, push_nat, push_text};
use crate::vector::{dot, dot_fits, dot_prefix, dot_of, dot_result, lemma_dot_fits, Vector};
use vstd::arithmetic::div_mod::{
    lemma_fundamental_div_mod, lemma_fundamental_div_mod_converse, lemma_mod_add_multiples_vanish,
    lemma_mod_decreases,
};
use vstd::prelude::*;

verus! {

/// The number of workers a product is spread over by default.
pub const NUM_WORKERS: usize = 4;

/// A row-major buffer of `row * col` elements.
pub struct Matrix {
    data: Vec<i64>,
    row: usize,
    col: usize,
}

impl Matrix {
    #[verifier::type_invariant]
    spec fn shape_ok(self) -> bool {
        self.data@.len() == self.row as int * self.col as int
    }

    /// The number of rows.
    pub closed spec fn rows(self) -> nat {
        self.row as nat
    }

    /// The number of columns.
    pub closed spec fn cols(self) -> nat {
        self.col as nat
    }

    /// The elements in row-major order.
    pub closed spec fn cells(self) -> Seq<i64> {
        self.data@
    }

    /// Builds a `row` by `col` matrix over `data`; fails with
    /// `BufferSizeMismatch` unless `data` holds exactly `row * col` elements.
    pub fn new(data: Vec<i64>, row: usize, col: usize) -> (r: Result<Matrix, MatrixError>)
        ensures
            data@.len() == row * col <==> r is Ok,
            r matches Ok(m) ==> m.rows() == row && m.cols() == col && m.cells() == data@,
            r matches Err(e) ==> e == MatrixError::BufferSizeMismatch(data@.len() as usize, row, col),
    {
        match row.checked_mul(col) {
            Some(n) if n == data.len() => Ok(Matrix { data, row, col }),
            _ => Err(MatrixError::BufferSizeMismatch(data.len(), row, col)),
        }
    }

    /// The number of rows.
    pub fn row(&self) -> (r: usize)
        ensures
            r == self.rows(),
    {
        self.row
    }

    /// The number of columns.
    pub fn col(&self) -> (r: usize)
        ensures
            r == self.cols(),
    {
        self.col
    }

    /// The elements in row-major order.
    pub fn data(&self) -> (r: &Vec<i64>)
        ensures
            r@ == self.cells(),
    {
        &self.data
    }

    /// Appends row `i` as text.
    fn push_row_text(&self, s: &mut String, i: usize)
        requires
            i < self.rows(),
        ensures
            final(s)@ == old(s)@ + row_text(*self, i as int),
    {
        proof {
            use_type_invariant(self);
        }
        let ghost items = Seq::new(
            self.cols(),
            |j: int| int_text(self.cells()[i * self.cols() + j] as int),
        );
        let len = self.data.len();
        push_char(s, '[');
        let mut j: usize = 0;
        while j < self.col
            invariant
                i < self.row,
                self.data@.len() == self.row * self.col,
                len == self.data@.len(),
                j <= self.col,
                items.len() == self.col,
                items == Seq::new(
                    self.cols(),
                    |j: int| int_text(self.cells()[i * self.cols() + j] as int),
                ),
                s@ == old(s)@ + seq!['['] + join(items.take(j as int)),
            decreases self.col - j,
        {
            proof {
                lemma_cell_in_range(i as int, j as int, self.row as int, self.col as int);
                lemma_join_step(items, j as int);
            }
            let ghost before = s@;
            if j > 0 {
                push_char(s, ',');
                push_char(s, ' ');
            }
            push_int(s, self.data[i * self.col + j]);
            assert(s@ =~= old(s)@ + seq!['['] + join(items.take(j + 1)));
            j = j + 1;
        }
        push_char(s, ']');
        assert(items.take(self.col as int) =~= items);
        assert(s@ =~= old(s)@ + row_text(*self, i as int));
    }

    /// The matrix as nested bracketed lists in row-major order, such as
    /// `[[22, 28], [49, 64]]`.
    pub fn to_display_string(&self) -> (r: String)
        ensures
            r@ == matrix_text(*self),
    {
        let ghost items = Seq::new(self.rows(), |i: int| row_text(*self, i));
        let mut s = String::new();
        push_char(&mut s, '[');
        let mut i: usize = 0;
        while i < self.row
            invariant
                i <= self.row,
                items == Seq::new(self.rows(), |i: int| row_text(*self, i)),
                s@ == seq!['['] + join(items.take(i as int)),
            decreases self.row - i,
        {
            proof {
                lemma_join_step(items, i as int);
            }
            if i > 0 {
                push_char(&mut s, ',');
                push_char(&mut s, ' ');
            }
            self.push_row_text(&mut s, i);
            assert(s@ =~= seq!['['] + join(items.take(i + 1)));
            i = i + 1;
        }
        push_char(&mut s, ']');
        assert(items.take(self.row as int) =~= items);
        assert(s@ =~= matrix_text(*self));
        s
    }

    /// The matrix with its shape, such as
    /// `Matrix(row 2, col 2, [[22, 28], [49, 64]])`.
    pub fn to_debug_string(&self) -> (r: String)
        ensures
            r@ == matrix_debug_text(*self),
    {
        let mut s = String::new();
        push_text(&mut s, "Matrix(row ");
        push_nat(&mut s, self.row as u64);
        push_text(&mut s, ", col ");
        push_nat(&mut s, self.col as u64);
        push_text(&mut s, ", ");
        let body = self.to_display_string();
        push_text(&mut s, body.as_str());
        push_text(&mut s, ")");
        assert(s@ =~= matrix_debug_text(*self));
        s
    }

    /// Row `i`, copied out of the buffer.
    pub fn row_vector(&self, i: usize) -> (r: Vector)
        requires
            i < self.rows(),
        ensures
            r@ == row_of(*self, i as int),
    {
        proof {
            use_type_invariant(self);
        }
        let len = self.data.len();
        let mut out: Vec<i64> = Vec::new();
        let mut k: usize = 0;
        while k < self.col
            invariant
                i < self.row,
                self.data@.len() == self.row * self.col,
                len == self.data@.len(),
                k <= self.col,
                out@ =~= row_of(*self, i as int).take(k as int),
            decreases self.col - k,
        {
            proof {
                lemma_cell_in_range(i as int, k as int, self.row as int, self.col as int);
            }
            out.push(self.data[i * self.col + k]);
            k = k + 1;
        }
        Vector::new(out)
    }

    /// Column `j`, gathered from the buffer with a stride of `cols`.
    pub fn column_vector(&self, j: usize) -> (r: Vector)
        requires
            j < self.cols(),
        ensures
            r@ == col_of(*self, j as int),
    {
        proof {
            use_type_invariant(self);
        }
        let len = self.data.len();
        let mut out: Vec<i64> = Vec::new();
        let mut k: usize = 0;
        while k < self.row
            invariant
                j < self.col,
                self.data@.len() == self.row * self.col,
                len == self.data@.len(),
                k <= self.row,
                out@ =~= col_of(*self, j as int).take(k as int),
            decreases self.row - k,
        {
            proof {
                lemma_cell_in_range(k as int, j as int, self.row as int, self.col as int);
            }
            out.push(self.data[k * self.col + j]);
            k = k + 1;
        }
        Vector::new(out)
    }
}

/// Row `i` of `m` as text: its elements in brackets.
pub open spec fn row_text(m: Matrix, i: int) -> Seq<char> {
    bracketed(Seq::new(m.cols(), |j: int| int_text(m.cells()[i * m.cols() + j] as int)))
}

/// `m` as nested bracketed lists in row-major order, such as
/// `[[22, 28], [49, 64]]`.
pub open spec fn matrix_text(m: Matrix) -> Seq<char> {
    bracketed(Seq::new(m.rows(), |i: int| row_text(m, i)))
}

/// `m` with its shape, such as `Matrix(row 2, col 2, [[22, 28], [49, 64]])`.
pub open spec fn matrix_debug_text(m: Matrix) -> Seq<char> {
    "Matrix(row "@ + int_text(m.rows() as int) + ", col "@ + int_text(m.cols() as int) + ", "@
        + matrix_text(m) + ")"@
}

/// Row `i` of `m`.
pub open spec fn row_of(m: Matrix, i: int) -> Seq<i64> {
    Seq::new(m.cols(), |k: int| m.cells()[i * m.cols() + k])
}

/// Column `j` of `m`.
pub open spec fn col_of(m: Matrix, j: int) -> Seq<i64> {
    Seq::new(m.rows(), |k: int| m.cells()[k * m.cols() + j])
}

/// The value of cell `(i, j)` of the product of `a` and `b`: the sum over `k`
/// of `a[i][k] * b[k][j]`.
pub open spec fn product_cell(a: Matrix, b: Matrix, i: int, j: int) -> int {
    dot(row_of(a, i), col_of(b, j))
}

/// Whether every cell of the product of `a` and `b` can be accumulated in
/// `i64`.
pub open spec fn product_fits(a: Matrix, b: Matrix) -> bool {
    forall|i: int, j: int|
        0 <= i < a.rows() && 0 <= j < b.cols() ==> #[trigger] dot_fits(row_of(a, i), col_of(b, j))
}

/// Whether the product of `a` and `b` is defined and can be held: the inner
/// dimensions agree, its buffer length fits in `usize`, and every cell fits
/// in `i64`.
pub open spec fn product_ok(a: Matrix, b: Matrix) -> bool {
    &&& a.cols() == b.rows()
    &&& a.rows() * b.cols() <= usize::MAX
    &&& product_fits(a, b)
}

/// Whether `m` is the product of `a` and `b`.
pub open spec fn is_product(m: Matrix, a: Matrix, b: Matrix) -> bool {
    &&& m.rows() == a.rows()
    &&& m.cols() == b.cols()
    &&& m.cells().len() == a.rows() * b.cols()
    &&& forall|i: int, j: int|
        0 <= i < a.rows() && 0 <= j < b.cols() ==> m.cells()[i * b.cols() + j] == product_cell(
            a,
            b,
            i,
            j,
        )
}

/// Whether `t` is the task for output cell `k` of the product of `a` and `b`:
/// cell `k` is row `k / b.cols` and column `k % b.cols` of the result.
pub open spec fn is_task_for(t: MsgInput, a: Matrix, b: Matrix, k: int) -> bool {
    &&& t.index() == k
    &&& t.row_view() == row_of(a, k / b.cols() as int)
    &&& t.col_view() == col_of(b, k % b.cols() as int)
}

/// A request to compute one output cell: the dot product of a row and a
/// column, to be stored at the row-major index `idx` of the result.
pub struct MsgInput {
    idx: usize,
    row: Vector,
    col: Vector,
}

/// The reply to a `MsgInput`: the value of the output cell `idx`.
#[derive(Debug, Clone, Copy, PartialEq, Eq, Structural)]
pub struct MsgOutput {
    pub idx: usize,
    pub value: i64,
}

impl MsgInput {
    /// The destination index.
    pub closed spec fn index(self) -> nat {
        self.idx as nat
    }

    /// The row operand.
    pub closed spec fn row_view(self) -> Seq<i64> {
        self.row@
    }

    /// The column operand.
    pub closed spec fn col_view(self) -> Seq<i64> {
        self.col@
    }

    /// A task for cell `idx` with the operands `row` and `col`.
    pub fn new(idx: usize, row: Vector, col: Vector) -> (r: MsgInput)
        ensures
            r.index() == idx,
            r.row_view() == row@,
            r.col_view() == col@,
    {
        MsgInput { idx, row, col }
    }

    /// The destination index.
    pub fn idx(&self) -> (r: usize)
        ensures
            r == self.index(),
    {
        self.idx
    }

    /// What a worker does with the task: the dot product of its operands,
    /// addressed to its destination index.
    pub fn compute(&self) -> (r: Result<MsgOutput, MatrixError>)
        ensures
            r == reply_to(*self),
    {
        match dot_of(&self.row, &self.col) {
            Ok(value) => Ok(MsgOutput { idx: self.idx, value }),
            Err(e) => Err(e),
        }
    }
}

/// The outcome of computing task `t`.
pub open spec fn reply_to(t: MsgInput) -> Result<MsgOutput, MatrixError> {
    match dot_result(t.row_view(), t.col_view()) {
        Ok(v) => Ok(MsgOutput { idx: t.index() as usize, value: v }),
        Err(e) => Err(e),
    }
}

/// The worker that the task for cell `idx` goes to, in a pool of `workers`:
/// round robin by destination index.
pub fn worker_for(idx: usize, workers: usize) -> (r: usize)
    requires
        workers > 0,
    ensures
        r == idx % workers,
        r < workers,
{
    idx % workers
}

/// One task per cell of the product of `a` and `b`, in row-major order.
/// Fails with `DimensionMismatch(a.cols, b.rows)` when the inner dimensions
/// differ, and with `Overflow` when the result's length exceeds `usize`.
pub fn dispatch(a: &Matrix, b: &Matrix) -> (r: Result<Vec<MsgInput>, MatrixError>)
    ensures
        a.cols() != b.rows() <==> r == Err::<Vec<MsgInput>, MatrixError>(
            MatrixError::DimensionMismatch(a.cols() as usize, b.rows() as usize),
        ),
        a.cols() == b.rows() && a.rows() * b.cols() > usize::MAX <==> r == Err::<
            Vec<MsgInput>,
            MatrixError,
        >(MatrixError::Overflow),
        a.cols() == b.rows() && a.rows() * b.cols() <= usize::MAX <==> r is Ok,
        r matches Ok(ts) ==> ts@.len() == a.rows() * b.cols() && forall|k: int|
            0 <= k < ts@.len() ==> #[trigger] is_task_for(ts@[k], *a, *b, k),
{
    if a.col() != b.row() {
        return Err(MatrixError::DimensionMismatch(a.col(), b.row()));
    }
    let n = match a.row().checked_mul(b.col()) {
        Some(n) => n,
        None => return Err(MatrixError::Overflow),
    };
    let c = b.col();
    let mut tasks: Vec<MsgInput> = Vec::new();
    let mut k: usize = 0;
    while k < n
        invariant
            n == a.rows() * b.cols(),
            c == b.cols(),
            k <= n,
            tasks@.len() == k,
            forall|q: int| 0 <= q < k ==> #[trigger] is_task_for(tasks@[q], *a, *b, q),
        decreases n - k,
    {
        proof {
            lemma_div_mod_in_range(k as int, a.rows() as int, c as int);
        }
        let i = k / c;
        let j = k % c;
        let row = a.row_vector(i);
        let col = b.column_vector(j);
        tasks.push(MsgInput::new(k, row, col));
        k = k + 1;
    }
    Ok(tasks)
}

/// The buffer after reply `o` is written into `data`: a reply whose index lies
/// outside the buffer changes nothing.
pub open spec fn apply_reply(data: Seq<i64>, o: MsgOutput) -> Seq<i64> {
    if o.idx < data.len() {
        data.update(o.idx as int, o.value)
    } else {
        data
    }
}

/// The buffer after the replies `outs` are written into `data`, in order.
pub open spec fn apply_replies(data: Seq<i64>, outs: Seq<MsgOutput>) -> Seq<i64>
    decreases outs.len(),
{
    if outs.len() == 0 {
        data
    } else {
        apply_reply(apply_replies(data, outs.drop_last()), outs.last())
    }
}

/// Whether no two replies in `outs` name the same cell.
pub open spec fn distinct_indices(outs: Seq<MsgOutput>) -> bool {
    forall|x: int, y: int|
        0 <= x < outs.len() && 0 <= y < outs.len() && x != y ==> #[trigger] outs[x].idx
            != #[trigger] outs[y].idx
}

/// With distinct indices, cell `p` after the replies is the value of the reply
/// addressed to it, if any, and else what it was.
proof fn lemma_apply_replies_cell(data: Seq<i64>, outs: Seq<MsgOutput>, p: int)
    requires
        distinct_indices(outs),
        0 <= p < data.len(),
    ensures
        forall|x: int|
            0 <= x < outs.len() && outs[x].idx == p ==> apply_replies(data, outs)[p]
                == #[trigger] outs[x].value,
        (forall|x: int| 0 <= x < outs.len() ==> #[trigger] outs[x].idx != p) ==> apply_replies(
            data,
            outs,
        )[p] == data[p],
    decreases outs.len(),
{
    if outs.len() > 0 {
        let init = outs.drop_last();
        assert(distinct_indices(init)) by {
            assert forall|x: int, y: int|
                0 <= x < init.len() && 0 <= y < init.len() && x != y implies #[trigger] init[x].idx
                != #[trigger] init[y].idx by {
                assert(init[x] == outs[x] && init[y] == outs[y]);
            }
        }
        lemma_apply_replies_cell(data, init, p);
        lemma_apply_replies_len(data, init);
        let last = outs.len() - 1;
        assert forall|x: int|
            0 <= x < outs.len() && outs[x].idx == p implies apply_replies(data, outs)[p]
            == #[trigger] outs[x].value by {
            if x < last {
                assert(init[x] == outs[x]);
                assert(outs[last].idx != outs[x].idx);
            }
        }
        if forall|x: int| 0 <= x < outs.len() ==> #[trigger] outs[x].idx != p {
            assert forall|x: int| 0 <= x < init.len() implies #[trigger] init[x].idx != p by {
                assert(init[x] == outs[x]);
            }
            assert(outs[last].idx != p);
        }
    }
}

/// Writing replies never changes the buffer's length.
proof fn lemma_apply_replies_len(data: Seq<i64>, outs: Seq<MsgOutput>)
    ensures
        apply_replies(data, outs).len() == data.len(),
    decreases outs.len(),
{
    if outs.len() > 0 {
        lemma_apply_replies_len(data, outs.drop_last());
    }
}

/// Replies collected in any order give the same buffer: when two sequences of
/// replies hold the same replies and neither names a cell twice, writing
/// either into the same buffer gives the same result. So the result of a
/// product depends neither on how many workers computed it nor on the order
/// in which their replies arrived.
pub proof fn lemma_replies_order_independent(
    data: Seq<i64>,
    outs1: Seq<MsgOutput>,
    outs2: Seq<MsgOutput>,
)
    requires
        distinct_indices(outs1),
        distinct_indices(outs2),
        outs1.to_set() == outs2.to_set(),
    ensures
        apply_replies(data, outs1) == apply_replies(data, outs2),
{
    let r1 = apply_replies(data, outs1);
    let r2 = apply_replies(data, outs2);
    lemma_apply_replies_len(data, outs1);
    lemma_apply_replies_len(data, outs2);
    assert forall|p: int| 0 <= p < data.len() implies r1[p] == r2[p] by {
        lemma_apply_replies_cell(data, outs1, p);
        lemma_apply_replies_cell(data, outs2, p);
        if exists|x: int| 0 <= x < outs1.len() && outs1[x].idx == p {
            let x = choose|x: int| 0 <= x < outs1.len() && outs1[x].idx == p;
            assert(outs1.to_set().contains(outs1[x]));
            assert(outs2.contains(outs1[x]));
            let y = choose|y: int| 0 <= y < outs2.len() && outs2[y] == outs1[x];
            assert(r1[p] == outs1[x].value);
            assert(r2[p] == outs2[y].value);
        } else if exists|y: int| 0 <= y < outs2.len() && outs2[y].idx == p {
            let y = choose|y: int| 0 <= y < outs2.len() && outs2[y].idx == p;
            assert(outs2.to_set().contains(outs2[y]));
            assert(outs1.contains(outs2[y]));
            let x = choose|x: int| 0 <= x < outs1.len() && outs1[x] == outs2[y];
            assert(outs1[x].idx == p);
        } else {
            assert forall|x: int| 0 <= x < outs1.len() implies #[trigger] outs1[x].idx != p by {}
            assert forall|y: int| 0 <= y < outs2.len() implies #[trigger] outs2[y].idx != p by {}
        }
    }
    assert(r1 =~= r2);
}

/// A product of two one-by-one matrices is the product of their elements.
pub proof fn lemma_one_by_one_is_scalar(a: Matrix, b: Matrix)
    requires
        a.rows() == 1 && a.cols() == 1,
        b.rows() == 1 && b.cols() == 1,
    ensures
        product_cell(a, b, 0, 0) == a.cells()[0] * b.cells()[0],
{
    let r = row_of(a, 0);
    let c = col_of(b, 0);
    assert(r[0] == a.cells()[0]);
    assert(c[0] == b.cells()[0]);
    assert(dot_prefix(r, c, 1) == dot_prefix(r, c, 0) + r[0] * c[0]);
}

/// The output buffer of a product: a row-major buffer of `row * col`
/// elements, zero until replies land in it.
pub struct Collector {
    data: Vec<i64>,
    row: usize,
    col: usize,
}

impl Collector {
    /// The buffer holds exactly `rows * cols` elements.
    pub closed spec fn wf(self) -> bool {
        self.data@.len() == self.row as int * self.col as int
    }

    /// The number of rows of the result.
    pub closed spec fn rows(self) -> nat {
        self.row as nat
    }

    /// The number of columns of the result.
    pub closed spec fn cols(self) -> nat {
        self.col as nat
    }

    /// The buffer in row-major order.
    pub closed spec fn cells(self) -> Seq<i64> {
        self.data@
    }

    /// A zero-filled buffer for a `row` by `col` result; fails with `Overflow`
    /// when `row * col` exceeds `usize`.
    pub fn new(row: usize, col: usize) -> (r: Result<Collector, MatrixError>)
        ensures
            row * col <= usize::MAX <==> r is Ok,
            r matches Ok(c) ==> c.wf() && c.rows() == row && c.cols() == col && c.cells() == Seq::new(
                (row * col) as nat,
                |p: int| 0i64,
            ),
            r matches Err(e) ==> e == MatrixError::Overflow,
    {
        let n = match row.checked_mul(col) {
            Some(n) => n,
            None => return Err(MatrixError::Overflow),
        };
        let mut data: Vec<i64> = Vec::new();
        let mut k: usize = 0;
        while k < n
            invariant
                k <= n,
                data@ =~= Seq::new(k as nat, |p: int| 0i64),
            decreases n - k,
        {
            data.push(0);
            k = k + 1;
        }
        Ok(Collector { data, row, col })
    }

    /// Takes in the reply to one task, or `None` when its channel closed
    /// without a value. A reply is written at its index; a closed channel
    /// fails with `WorkerUnavailable` and a reply outside the buffer with
    /// `IndexOutOfRange`, and neither changes the buffer.
    pub fn accept(&mut self, reply: Option<MsgOutput>) -> (r: Result<(), MatrixError>)
        requires
            old(self).wf(),
        ensures
            final(self).wf(),
            final(self).rows() == old(self).rows(),
            final(self).cols() == old(self).cols(),
            match reply {
                None => r == Err::<(), MatrixError>(MatrixError::WorkerUnavailable)
                    && final(self).cells() == old(self).cells(),
                Some(o) => if o.idx < old(self).cells().len() {
                    r is Ok && final(self).cells() == apply_reply(old(self).cells(), o)
                } else {
                    r == Err::<(), MatrixError>(MatrixError::IndexOutOfRange(o.idx))
                        && final(self).cells() == old(self).cells()
                },
            },
    {
        match reply {
            None => Err(MatrixError::WorkerUnavailable),
            Some(o) => {
                if o.idx < self.data.len() {
                    self.data.set(o.idx, o.value);
                    Ok(())
                } else {
                    Err(MatrixError::IndexOutOfRange(o.idx))
                }
            },
        }
    }

    /// The finished result.
    pub fn finish(self) -> (r: Matrix)
        requires
            self.wf(),
        ensures
            r.rows() == self.rows(),
            r.cols() == self.cols(),
            r.cells() == self.cells(),
    {
        Matrix { data: self.data, row: self.row, col: self.col }
    }
}

/// The product of `a` and `b`, computed as one task per output cell whose
/// replies are collected into a row-major buffer, on the default number of
/// workers. Fails with `DimensionMismatch(a.cols, b.rows)` when the inner
/// dimensions differ, before any work; otherwise fails with `Overflow` exactly
/// when the result cannot be held, and else returns the product.
pub fn matrix_mul(a: &Matrix, b: &Matrix) -> (r: Result<Matrix, MatrixError>)
    ensures
        a.cols() != b.rows() ==> r == Err::<Matrix, MatrixError>(
            MatrixError::DimensionMismatch(a.cols() as usize, b.rows() as usize),
        ),
        a.cols() == b.rows() ==> (r is Ok <==> product_ok(*a, *b)),
        a.cols() == b.rows() && !product_ok(*a, *b) ==> r == Err::<Matrix, MatrixError>(
            MatrixError::Overflow,
        ),
        r matches Ok(m) ==> is_product(m, *a, *b),
{
    matrix_mul_with_workers(a, b, NUM_WORKERS)
}

/// The product of `a` and `b` on a pool of `workers` workers: the task for
/// cell `idx` goes to worker `idx % workers`, each worker computes its tasks
/// in the order it received them, and the workers run one after another.
/// The outcome is that of `matrix_mul` for every pool size.
pub fn matrix_mul_with_workers(a: &Matrix, b: &Matrix, workers: usize) -> (r: Result<
    Matrix,
    MatrixError,
>)
    requires
        workers > 0,
    ensures
        a.cols() != b.rows() ==> r == Err::<Matrix, MatrixError>(
            MatrixError::DimensionMismatch(a.cols() as usize, b.rows() as usize),
        ),
        a.cols() == b.rows() ==> (r is Ok <==> product_ok(*a, *b)),
        a.cols() == b.rows() && !product_ok(*a, *b) ==> r == Err::<Matrix, MatrixError>(
            MatrixError::Overflow,
        ),
        r matches Ok(m) ==> is_product(m, *a, *b),
{
    let tasks = match dispatch(a, b) {
        Ok(ts) => ts,
        Err(e) => return Err(e),
    };
    let mut out = match Collector::new(a.row(), b.col()) {
        Ok(c) => c,
        Err(e) => return Err(e),
    };
    let n = tasks.len();
    let c = b.col();
    let ghost nw = workers as int;
    let mut w: usize = 0;
    while w < workers
        invariant
            a.cols() == b.rows(),
            n == tasks@.len() == a.rows() * b.cols(),
            c == b.cols(),
            nw == workers > 0,
            forall|q: int| 0 <= q < n ==> #[trigger] is_task_for(tasks@[q], *a, *b, q),
            out.wf(),
            out.rows() == a.rows(),
            out.cols() == b.cols(),
            out.cells().len() == n,
            w <= workers,
            forall|p: int|
                0 <= p < n && p % nw < w ==> #[trigger] cell_ready(*a, *b, out.cells(), p),
        decreases workers - w,
    {
        let mut k: usize = w;
        let mut more: bool = w < n;
        proof {
            if !more {
                assert forall|p: int| 0 <= p < n && p % nw == w implies #[trigger] cell_ready(
                    *a,
                    *b,
                    out.cells(),
                    p,
                ) by {
                    lemma_mod_decreases(p as nat, nw as nat);
                }
            } else {
                assert forall|p: int| 0 <= p < n && p % nw == w && p < k implies #[trigger] cell_ready(
                    *a,
                    *b,
                    out.cells(),
                    p,
                ) by {
                    lemma_mod_small(p, nw);
                }
            }
            lemma_mod_small(w as int, nw);
        }
        while more
            invariant
                a.cols() == b.rows(),
                n == tasks@.len() == a.rows() * b.cols(),
                c == b.cols(),
                nw == workers > 0,
                w < workers,
                forall|q: int| 0 <= q < n ==> #[trigger] is_task_for(tasks@[q], *a, *b, q),
                out.wf(),
                out.rows() == a.rows(),
                out.cols() == b.cols(),
                out.cells().len() == n,
                more ==> k < n && (k as int) % nw == w,
                forall|p: int|
                    0 <= p < n && p % nw < w ==> #[trigger] cell_ready(*a, *b, out.cells(), p),
                forall|p: int|
                    0 <= p < n && p % nw == w && (p < k || !more) ==> #[trigger] cell_ready(
                        *a,
                        *b,
                        out.cells(),
                        p,
                    ),
            decreases if more {
                n - k + 1
            } else {
                0
            },
        {
            proof {
                lemma_div_mod_in_range(k as int, a.rows() as int, c as int);
                assert(is_task_for(tasks@[k as int], *a, *b, k as int));
            }
            match tasks[k].compute() {
                Err(e) => {
                    proof {
                        let i = k / c;
                        let j = k % c;
                        assert(!dot_fits(row_of(*a, i as int), col_of(*b, j as int)));
                    }
                    return Err(e);
                },
                Ok(o) => {
                    proof {
                        let (ki, ci) = (k as int, c as int);
                        assert(dot_fits(row_of(*a, ki / ci), col_of(*b, ki % ci)));
                        lemma_dot_fits(row_of(*a, ki / ci), col_of(*b, ki % ci));
                        assert(o.idx == k && o.value == product_cell(*a, *b, ki / ci, ki % ci));
                    }
                    let ghost before = out.cells();
                    let _ = out.accept(Some(o));
                    proof {
                        assert forall|p: int| 0 <= p < n && p != k && #[trigger] cell_ready(
                            *a,
                            *b,
                            before,
                            p,
                        ) implies cell_ready(*a, *b, out.cells(), p) by {
                            assert(before[p] == out.cells()[p]);
                        }
                        assert(cell_ready(*a, *b, out.cells(), k as int));
                        assert forall|p: int|
                            0 <= p < n && p % nw < w implies #[trigger] cell_ready(
                            *a,
                            *b,
                            out.cells(),
                            p,
                        ) by {
                            assert(cell_ready(*a, *b, before, p));
                        }
                    }
                    match k.checked_add(workers) {
                        Some(k2) if k2 < n => {
                            proof {
                                lemma_mod_add_multiples_vanish(k as int, nw);
                                assert forall|p: int|
                                    0 <= p < n && p % nw == w && p < k2 implies #[trigger] cell_ready(
                                    *a,
                                    *b,
                                    out.cells(),
                                    p,
                                ) by {
                                    if p > k {
                                        lemma_same_residue(p, k as int, nw);
                                    }
                                    if p < k {
                                        assert(cell_ready(*a, *b, before, p));
                                    }
                                }
                            }
                            k = k2;
                        },
                        _ => {
                            proof {
                                assert forall|p: int|
                                    0 <= p < n && p % nw == w implies #[trigger] cell_ready(
                                    *a,
                                    *b,
                                    out.cells(),
                                    p,
                                ) by {
                                    if p > k {
                                        lemma_same_residue(p, k as int, nw);
                                    }
                                    if p < k {
                                        assert(cell_ready(*a, *b, before, p));
                                    }
                                }
                            }
                            more = false;
                        },
                    }
                },
            }
        }
        proof {
            assert forall|p: int| 0 <= p < n && p % nw < w + 1 implies #[trigger] cell_ready(
                *a,
                *b,
                out.cells(),
                p,
            ) by {
                if p % nw < w {
                } else {
                    assert(p % nw == w);
                }
            }
        }
        w = w + 1;
    }
    proof {
        assert forall|i: int, j: int| 0 <= i < a.rows() && 0 <= j < b.cols() implies #[trigger] cell_ready(
            *a,
            *b,
            out.cells(),
            i * c + j,
        ) && (i * c + j) / (c as int) == i && (i * c + j) % (c as int) == j by {
            lemma_cell_in_range(i, j, a.rows() as int, c as int);
            lemma_fundamental_div_mod_converse(i * c + j, c as int, i, j);
        }
        assert forall|i: int, j: int| 0 <= i < a.rows() && 0 <= j < b.cols() implies #[trigger] dot_fits(
            row_of(*a, i),
            col_of(*b, j),
        ) && out.cells()[i * b.cols() + j] == product_cell(*a, *b, i, j) by {
            assert(cell_ready(*a, *b, out.cells(), i * c + j));
        }
        assert(product_fits(*a, *b));
    }
    let m = out.finish();
    proof {
        assert forall|i: int, j: int| 0 <= i < a.rows() && 0 <= j < b.cols() implies m.cells()[i
            * b.cols() + j] == product_cell(*a, *b, i, j) by {
            assert(dot_fits(row_of(*a, i), col_of(*b, j)));
        }
    }
    Ok(m)
}

/// The product is unique: two results that are both the product of `a` and
/// `b` agree in shape and in every element. Since `matrix_mul_with_workers`
/// returns the product for every pool size, runs with different numbers of
/// workers give identical matrices.
pub proof fn lemma_product_unique(m1: Matrix, m2: Matrix, a: Matrix, b: Matrix)
    requires
        is_product(m1, a, b),
        is_product(m2, a, b),
    ensures
        m1.rows() == m2.rows(),
        m1.cols() == m2.cols(),
        m1.cells() == m2.cells(),
{
    let c = b.cols() as int;
    assert forall|p: int| 0 <= p < m1.cells().len() implies m1.cells()[p] == m2.cells()[p] by {
        lemma_div_mod_in_range(p, a.rows() as int, c);
        let (i, j) = (p / c, p % c);
        assert(m1.cells()[i * c + j] == product_cell(a, b, i, j));
        assert(m2.cells()[i * c + j] == product_cell(a, b, i, j));
    }
    assert(m1.cells() =~= m2.cells());
}

/// A number below the modulus is its own residue.
proof fn lemma_mod_small(x: int, m: int)
    requires
        0 <= x < m,
    ensures
        x % m == x,
{
    lemma_fundamental_div_mod_converse(x, m, 0, x);
}

/// Two numbers with the same residue differ by at least the modulus.
proof fn lemma_same_residue(p: int, k: int, m: int)
    requires
        0 < m,
        0 <= k < p,
        p % m == k % m,
    ensures
        p >= k + m,
{
    lemma_fundamental_div_mod(p, m);
    lemma_fundamental_div_mod(k, m);
    let (qp, qk) = (p / m, k / m);
    assert(p - k == m * (qp - qk)) by (nonlinear_arith)
        requires
            p == m * qp + p % m,
            k == m * qk + k % m,
            p % m == k % m,
    ;
    assert(p - k >= m) by (nonlinear_arith)
        requires
            p - k == m * (qp - qk),
            p - k > 0,
            m > 0,
    ;
}

/// Cell `p` of `cells` holds its value in the product of `a` and `b`, and
/// that value fits.
spec fn cell_ready(a: Matrix, b: Matrix, cells: Seq<i64>, p: int) -> bool {
    let c = b.cols() as int;
    &&& cells[p] == product_cell(a, b, p / c, p % c)
    &&& dot_fits(row_of(a, p / c), col_of(b, p % c))
}

/// A cell index below `r * c` names a row below `r` and a column below `c`.
proof fn lemma_div_mod_in_range(k: int, r: int, c: int)
    requires
        0 <= k < r * c,
        0 <= r,
        0 <= c,
    ensures
        c > 0,
        0 <= k / c < r,
        0 <= k % c < c,
        k == (k / c) * c + k % c,
{
    assert(c > 0) by (nonlinear_arith)
        requires
            0 <= k < r * c,
            0 <= r,
            0 <= c,
    ;
    assert(0 <= k / c < r && 0 <= k % c < c && k == (k / c) * c + k % c) by (nonlinear_arith)
        requires
            0 <= k < r * c,
            c > 0,
    ;
}

/// Cell `(i, j)` of a `r` by `c` buffer lies inside it.
proof fn lemma_cell_in_range(i: int, j: int, r: int, c: int)
    requires
        0 <= i < r,
        0 <= j < c,
    ensures
        0 <= i * c + j < r * c,
        0 <= i * c,
{
    assert(0 <= i * c + j < r * c) by (nonlinear_arith)
        requires
            0 <= i < r,
            0 <= j < c,
    ;
    assert(0 <= i * c) by (nonlinear_arith)
        requires
            0 <= i,
            0 <= c,
    ;
}

} // verus!

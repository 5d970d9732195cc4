//! A stack of affine layers, each followed by an activation function, with
//! the cost of a dataset and two ways to estimate its gradient.
use vstd::prelude::*;
use vstd::std_specs::ops::{AddSpec, DivSpec, MulSpec, SubSpec};
use crate::matrix::{
    Mat, MatView, dot_acc, index_of, lemma_index_distinct, lemma_index_in_bounds, lemma_row_in_bounds,
};
use crate::num::{Num, count, exact, one, sq_diff, total, two, zero};

verus! {

/// A feed-forward network of `count` layers. Layer `l` maps the activations
/// `a[l]` (one row) to `a[l + 1]` through the weights `ws[l]` and the biases
/// `bs[l]`. The activations hold what the latest forward pass computed;
/// `a[0]` is the input and `a[count]` the output.
///
/// A gradient has the same shape as the network it belongs to: its weights
/// and biases hold partial derivatives of the cost, and its activations serve
/// backpropagation as scratch.
#[derive(Clone, Debug)]
pub struct NN<T> {
    count: usize,
    ws: Vec<Mat<T>>,
    bs: Vec<Mat<T>>,
    a: Vec<Mat<T>>,
    fmt_inputs: bool,
}

impl<T> NN<T> {
    pub closed spec fn layers(&self) -> nat {
        self.count as nat
    }

    pub closed spec fn weights(&self) -> Seq<Mat<T>> {
        self.ws@
    }

    pub closed spec fn biases(&self) -> Seq<Mat<T>> {
        self.bs@
    }

    pub closed spec fn acts(&self) -> Seq<Mat<T>> {
        self.a@
    }

    pub closed spec fn shows_inputs(&self) -> bool {
        self.fmt_inputs
    }

    /// Layer `l` of the shapes: weights `w` map a row as wide as `w.rows` to one
    /// as wide as `w.cols`, and the bias is a single row that wide.
    pub open spec fn layer_fits(&self, l: int) -> bool {
        let w = self.weights()[l];
        let b = self.biases()[l];
        &&& w.wf() && b.wf()
        &&& b.rows == 1
        &&& w.rows == self.acts()[l].cols
        &&& w.cols == b.cols
        &&& w.cols == self.acts()[l + 1].cols
    }

    pub open spec fn wf(&self) -> bool {
        &&& self.layers() >= 1
        &&& self.weights().len() == self.layers()
        &&& self.biases().len() == self.layers()
        &&& self.acts().len() == self.layers() + 1
        &&& forall|l: int| 0 <= l < self.layers() ==> #[trigger] self.layer_fits(l)
        &&& forall|l: int|
            0 <= l <= self.layers() ==> (#[trigger] self.acts()[l]).wf() && self.acts()[l].rows
                == 1
    }

    /// `other` has the layers of `self`, each of the same shape.
    pub open spec fn same_arch(&self, other: &NN<T>) -> bool {
        &&& other.layers() == self.layers()
        &&& other.weights().len() == self.weights().len()
        &&& other.biases().len() == self.biases().len()
        &&& other.acts().len() == self.acts().len()
        &&& forall|l: int|
            0 <= l < self.layers() ==> (#[trigger] other.weights()[l]).same_shape(
                &self.weights()[l],
            ) && other.biases()[l].same_shape(&self.biases()[l])
        &&& forall|l: int|
            0 <= l <= self.layers() ==> (#[trigger] other.acts()[l]).same_shape(
                &self.acts()[l],
            )
    }

    /// `other` has the weights and biases of `self`, value for value.
    pub open spec fn same_params(&self, other: &NN<T>) -> bool {
        &&& other.layers() == self.layers()
        &&& views(other.weights()) == views(self.weights())
        &&& views(other.biases()) == views(self.biases())
    }

    /// The width of the input row.
    pub open spec fn input_width(&self) -> nat {
        self.acts()[0].cols as nat
    }

    /// The width of the output row.
    pub open spec fn output_width(&self) -> nat {
        self.acts()[self.layers() as int].cols as nat
    }
}

/// The value of unit `j` of the layer after `a` before activation: the row
/// `a` times column `j` of `w`, plus bias `j`.
pub open spec fn pre_act<T: Num>(a: Mat<T>, w: Mat<T>, b: Mat<T>, j: int) -> T {
    dot_acc(a, w, 0, j, a.cols as nat).add_spec(b.at(0, j))
}

/// `next` is what the layer with weights `w` and biases `b` makes of the row
/// `a`: one row as wide as `w.cols`, and, where the arithmetic is exact, each
/// unit is `act` of its value before activation.
pub open spec fn is_layer_output<T: Num, F: Fn(T) -> T>(
    next: Mat<T>,
    a: Mat<T>,
    w: Mat<T>,
    b: Mat<T>,
    act: F,
) -> bool {
    &&& next.wf()
    &&& next.rows == 1
    &&& next.cols == w.cols
    &&& exact::<T>() ==> forall|j: int|
        0 <= j < w.cols ==> act.ensures((pre_act(a, w, b, j),), #[trigger] next.es@[j])
}

/// `post` is `pre` after a forward pass with `act`: the parameters and the
/// input are kept, and each activation row is the output of its layer on the
/// row before it.
pub open spec fn forwarded<T: Num, F: Fn(T) -> T>(pre: NN<T>, post: NN<T>, act: F) -> bool {
    &&& post.wf()
    &&& pre.same_arch(&post)
    &&& pre.same_params(&post)
    &&& post.acts()[0].es@ == pre.acts()[0].es@
    &&& forall|l: int|
        0 <= l < post.layers() ==> is_layer_output(
            #[trigger] post.acts()[l + 1],
            post.acts()[l],
            post.weights()[l],
            post.biases()[l],
            act,
        )
}

/// The views of a run of matrices.
pub open spec fn views<T>(ms: Seq<Mat<T>>) -> Seq<MatView<T>> {
    ms.map_values(|m: Mat<T>| m@)
}

/// What `act` gives for `x`, for an activation with one result per argument.
pub open spec fn act_of<T, F: Fn(T) -> T>(act: F, x: T) -> T {
    choose|y: T| act.ensures((x,), y)
}

/// The first `n` terms of the row `a` times column `j` of `w`, summed from
/// zero in order.
pub open spec fn row_dot<T: Num>(a: Seq<T>, w: MatView<T>, j: int, n: nat) -> T
    decreases n,
{
    if n == 0 {
        zero::<T>()
    } else {
        let k = n - 1;
        row_dot(a, w, j, k as nat).add_spec(a[k].mul_spec(w.at(k, j)))
    }
}

/// The row that a layer with weights `w` and biases `b` makes of the row `a`.
pub open spec fn layer_values<T: Num, F: Fn(T) -> T>(
    a: Seq<T>,
    w: MatView<T>,
    b: MatView<T>,
    act: F,
) -> Seq<T> {
    Seq::new(
        w.cols as nat,
        |j: int| act_of(act, row_dot(a, w, j, w.rows as nat).add_spec(b.at(0, j))),
    )
}

/// The activation row of layer `l` when the network with weights `ws` and
/// biases `bs` is given the input row `x`.
pub open spec fn output_at<T: Num, F: Fn(T) -> T>(
    ws: Seq<MatView<T>>,
    bs: Seq<MatView<T>>,
    x: Seq<T>,
    act: F,
    l: nat,
) -> Seq<T>
    decreases l,
{
    if l == 0 {
        x
    } else {
        let k = (l - 1) as nat;
        layer_values(output_at(ws, bs, x, act, k), ws[k as int], bs[k as int], act)
    }
}

/// Row `i` of `m`.
pub open spec fn row_of<T>(m: MatView<T>, i: int) -> Seq<T> {
    m.es.subrange(index_of(i, 0, m.cols as int), index_of(i, 0, m.cols as int) + m.cols)
}

/// `acc` plus the squared errors of `out` against row `i` of `target` over
/// the first `n` columns, added in order.
pub open spec fn row_error<T: Num>(out: Seq<T>, target: MatView<T>, i: int, n: nat, acc: T) -> T
    decreases n,
{
    if n == 0 {
        acc
    } else {
        let j = n - 1;
        row_error(out, target, i, j as nat, acc).add_spec(sq_diff(out[j], target.at(i, j)))
    }
}

/// The squared error of the network over the first `i` examples of the
/// dataset `(ti, to)`, summed from zero in order.
pub open spec fn total_error<T: Num, F: Fn(T) -> T>(
    ws: Seq<MatView<T>>,
    bs: Seq<MatView<T>>,
    ti: MatView<T>,
    to: MatView<T>,
    act: F,
    i: nat,
) -> T
    decreases i,
{
    if i == 0 {
        zero::<T>()
    } else {
        let k = (i - 1) as nat;
        row_error(
            output_at(ws, bs, row_of(ti, k as int), act, ws.len()),
            to,
            k as int,
            to.cols as nat,
            total_error(ws, bs, ti, to, act, k),
        )
    }
}

/// The mean over the examples of the squared error summed over the outputs.
pub open spec fn cost_of<T: Num, F: Fn(T) -> T>(
    ws: Seq<MatView<T>>,
    bs: Seq<MatView<T>>,
    ti: MatView<T>,
    to: MatView<T>,
    act: F,
) -> T {
    total_error(ws, bs, ti, to, act, ti.rows as nat).div_spec(count::<T>(ti.rows as nat))
}

/// A dataset fits the network: one example per row, inputs as wide as the
/// input row and targets as wide as the output row.
pub open spec fn fits_data<T>(nn: NN<T>, ti: Mat<T>, to: Mat<T>) -> bool {
    &&& ti.wf() && to.wf()
    &&& ti.rows == to.rows
    &&& ti.cols == nn.input_width()
    &&& to.cols == nn.output_width()
}

proof fn lemma_dot_acc_row<T: Num>(a: Mat<T>, w: Mat<T>, j: int, n: nat)
    requires
        a.rows == 1,
        n <= a.cols,
    ensures
        dot_acc(a, w, 0, j, n) == row_dot(a.es@, w@, j, n),
    decreases n,
{
    if n > 0 {
        lemma_dot_acc_row(a, w, j, (n - 1) as nat);
        assert(index_of(0, n - 1, a.cols as int) == n - 1) by {
            assert(0 * a.cols == 0) by (nonlinear_arith);
        }
    }
}

/// After a forward pass, each activation row is what the network makes of
/// the input.
proof fn lemma_forwarded_values<T: Num, F: Fn(T) -> T>(nn: NN<T>, act: F, l: int)
    requires
        exact::<T>(),
        deterministic(act),
        nn.wf(),
        forall|k: int|
            0 <= k < nn.layers() ==> is_layer_output(
                #[trigger] nn.acts()[k + 1],
                nn.acts()[k],
                nn.weights()[k],
                nn.biases()[k],
                act,
            ),
        0 <= l <= nn.layers(),
    ensures
        nn.acts()[l].es@ == output_at(
            views(nn.weights()),
            views(nn.biases()),
            nn.acts()[0].es@,
            act,
            l as nat,
        ),
    decreases l,
{
    if l > 0 {
        let p = l - 1;
        lemma_forwarded_values(nn, act, p);
        let a = nn.acts()[p];
        let w = nn.weights()[p];
        let b = nn.biases()[p];
        assert(nn.layer_fits(p));
        assert(is_layer_output(nn.acts()[l], a, w, b, act));
        assert forall|j: int| 0 <= j < w.cols implies nn.acts()[l].es@[j] == layer_values(
            a.es@,
            w@,
            b@,
            act,
        )[j] by {
            lemma_dot_acc_row(a, w, j, a.cols as nat);
            let y = nn.acts()[l].es@[j];
            assert(act.ensures((pre_act(a, w, b, j),), y));
        }
        assert(nn.acts()[l].es@ =~= layer_values(a.es@, w@, b@, act));
    }
}

/// `q` is `p` moved against the gradient `g` at the learning rate `rate`:
/// each value loses `rate` times its partial derivative.
pub open spec fn stepped<T: Num>(p: Mat<T>, g: Mat<T>, rate: T, q: Mat<T>) -> bool {
    &&& q.wf()
    &&& q.same_shape(&p)
    &&& q.fmt_name == p.fmt_name
    &&& exact::<T>() ==> forall|k: int|
        0 <= k < q.es@.len() ==> #[trigger] q.es@[k] == p.es@[k].sub_spec(
            g.es@[k].mul_spec(rate),
        )
}

/// Every weight and bias of `post` is that of `pre` moved against the
/// gradient `g` at the learning rate `rate`.
pub open spec fn learned<T: Num>(pre: NN<T>, g: NN<T>, rate: T, post: NN<T>) -> bool {
    forall|l: int|
        0 <= l < pre.layers() ==> stepped(
            pre.weights()[l],
            g.weights()[l],
            rate,
            #[trigger] post.weights()[l],
        ) && stepped(pre.biases()[l], g.biases()[l], rate, post.biases()[l])
}

/// Moves every value of `m` against its partial derivative in `g`.
fn descend<T: Num>(m: &mut Mat<T>, g: &Mat<T>, rate: T)
    requires
        total::<T>(),
        old(m).wf(),
        g.wf(),
        g.same_shape(old(m)),
    ensures
        stepped(*old(m), *g, rate, *final(m)),
{
    let n = m.es.len();
    let mut k: usize = 0;
    while k < n
        invariant
            total::<T>(),
            k <= n,
            n == old(m).es@.len(),
            n == g.es@.len(),
            m.es@.len() == n,
            m.rows == old(m).rows && m.cols == old(m).cols,
            m.fmt_name == old(m).fmt_name,
            forall|i: int| k <= i < n ==> m.es@[i] == old(m).es@[i],
            exact::<T>() ==> forall|i: int|
                0 <= i < k ==> #[trigger] m.es@[i] == old(m).es@[i].sub_spec(
                    g.es@[i].mul_spec(rate),
                ),
        decreases n - k,
    {
        let v = m.es[k] - g.es[k] * rate;
        m.es.set(k, v);
        k = k + 1;
    }
}

/// `ms` with value `k` of matrix `l` raised by `eps`.
pub open spec fn nudged<T: Num>(ms: Seq<MatView<T>>, l: int, k: int, eps: T) -> Seq<MatView<T>> {
    ms.update(
        l,
        MatView {
            rows: ms[l].rows,
            cols: ms[l].cols,
            es: ms[l].es.update(k, ms[l].es[k].add_spec(eps)),
        },
    )
}

/// The finite-difference estimate of a partial derivative: how much the
/// cost rose, from `base` to `raised`, per `eps` of change in the parameter.
pub open spec fn slope<T: Num>(raised: T, base: T, eps: T) -> T {
    raised.sub_spec(base).div_spec(eps)
}

/// The finite-difference estimate for value `k` of the weights of layer `l`.
pub open spec fn weight_slope<T: Num, F: Fn(T) -> T>(
    ws: Seq<MatView<T>>,
    bs: Seq<MatView<T>>,
    ti: MatView<T>,
    to: MatView<T>,
    act: F,
    eps: T,
    l: int,
    k: int,
) -> T {
    slope(cost_of(nudged(ws, l, k, eps), bs, ti, to, act), cost_of(ws, bs, ti, to, act), eps)
}

/// The finite-difference estimate for value `k` of the biases of layer `l`.
pub open spec fn bias_slope<T: Num, F: Fn(T) -> T>(
    ws: Seq<MatView<T>>,
    bs: Seq<MatView<T>>,
    ti: MatView<T>,
    to: MatView<T>,
    act: F,
    eps: T,
    l: int,
    k: int,
) -> T {
    slope(cost_of(ws, nudged(bs, l, k, eps), ti, to, act), cost_of(ws, bs, ti, to, act), eps)
}

/// Every weight and bias of `g` holds the finite-difference estimate of its
/// partial derivative for the network `nn` on the dataset `(ti, to)`.
pub open spec fn estimated<T: Num, F: Fn(T) -> T>(
    nn: NN<T>,
    g: NN<T>,
    ti: MatView<T>,
    to: MatView<T>,
    act: F,
    eps: T,
) -> bool {
    &&& forall|l: int, k: int|
        0 <= l < nn.layers() && 0 <= k < nn.weights()[l].es@.len() ==> #[trigger] g.weights()[l].es@[k]
            == weight_slope(views(nn.weights()), views(nn.biases()), ti, to, act, eps, l, k)
    &&& forall|l: int, k: int|
        0 <= l < nn.layers() && 0 <= k < nn.biases()[l].es@.len() ==> #[trigger] g.biases()[l].es@[k]
            == bias_slope(views(nn.weights()), views(nn.biases()), ti, to, act, eps, l, k)
}

/// Divides every value of `m` by `n`.
fn divide_all<T: Num>(m: &mut Mat<T>, n: T)
    requires
        total::<T>(),
        old(m).wf(),
    ensures
        final(m).wf(),
        final(m).same_shape(old(m)),
        final(m).fmt_name == old(m).fmt_name,
        exact::<T>() ==> forall|k: int|
            0 <= k < final(m).es@.len() ==> #[trigger] final(m).es@[k] == old(m).es@[k].div_spec(n),
{
    let len = m.es.len();
    let mut k: usize = 0;
    while k < len
        invariant
            total::<T>(),
            k <= len,
            len == old(m).es@.len(),
            m.es@.len() == len,
            m.rows == old(m).rows && m.cols == old(m).cols,
            m.fmt_name == old(m).fmt_name,
            forall|i: int| k <= i < len ==> m.es@[i] == old(m).es@[i],
            exact::<T>() ==> forall|i: int|
                0 <= i < k ==> #[trigger] m.es@[i] == old(m).es@[i].div_spec(n),
        decreases len - k,
    {
        let v = m.es[k] / n;
        m.es.set(k, v);
        k = k + 1;
    }
}

/// A unit's share of the gradient: `2 * d * a * (1 - a)` for the unit's
/// activation `a` and its delta `d` (the derivative of the squared error,
/// times the derivative of the logistic function at that unit).
pub open spec fn share<T: Num>(a: T, d: T) -> T {
    two::<T>().mul_spec(d).mul_spec(a).mul_spec(one::<T>().sub_spec(a))
}

/// The delta of unit `j` of activation row `l` in the backward pass over one
/// example, whose activation rows are `acts` and whose target is `y`: at the
/// output the output minus the target, below it the shares of the next
/// layer weighted by the weights into them.
pub open spec fn delta<T: Num>(
    ws: Seq<MatView<T>>,
    acts: Seq<Seq<T>>,
    y: Seq<T>,
    l: int,
    j: int,
) -> T
    decreases ws.len() - l, 1int, 0int,
{
    if l >= ws.len() {
        acts[ws.len() as int][j].sub_spec(y[j])
    } else if l < 0 {
        zero::<T>()
    } else {
        back_sum(ws, acts, y, l, j, ws[l].cols)
    }
}

/// The first `m` terms of the delta of unit `k` of row `l`: the shares of
/// units `0 .. m` of row `l + 1` times the weights from `k` to them, summed
/// from zero in order.
pub open spec fn back_sum<T: Num>(
    ws: Seq<MatView<T>>,
    acts: Seq<Seq<T>>,
    y: Seq<T>,
    l: int,
    k: int,
    m: nat,
) -> T
    decreases ws.len() - l, 0int, m,
{
    if m == 0 || l < 0 || l >= ws.len() {
        zero::<T>()
    } else {
        let j = m - 1;
        back_sum(ws, acts, y, l, k, j as nat).add_spec(
            unit_share(ws, acts, y, l + 1, j).mul_spec(ws[l].at(k, j)),
        )
    }
}

/// The share of unit `j` of activation row `l` (from 1 up) for one example.
pub open spec fn unit_share<T: Num>(
    ws: Seq<MatView<T>>,
    acts: Seq<Seq<T>>,
    y: Seq<T>,
    l: int,
    j: int,
) -> T
    decreases ws.len() - l, 2int, 0int,
{
    if l < 1 || l > ws.len() {
        zero::<T>()
    } else {
        share(acts[l][j], delta(ws, acts, y, l, j))
    }
}

/// The activation rows that the network with weights `ws` and biases `bs`
/// computes for the input row `x`.
pub open spec fn trace<T: Num, F: Fn(T) -> T>(
    ws: Seq<MatView<T>>,
    bs: Seq<MatView<T>>,
    x: Seq<T>,
    act: F,
) -> Seq<Seq<T>> {
    Seq::new(ws.len() + 1, |l: int| output_at(ws, bs, x, act, l as nat))
}

/// The weight `(k, j)` of layer `l` gradient summed over the first `n`
/// examples of `(ti, to)`.
pub open spec fn weight_grad_sum<T: Num, F: Fn(T) -> T>(
    ws: Seq<MatView<T>>,
    bs: Seq<MatView<T>>,
    ti: MatView<T>,
    to: MatView<T>,
    act: F,
    l: int,
    k: int,
    j: int,
    n: nat,
) -> T
    decreases n,
{
    if n == 0 {
        zero::<T>()
    } else {
        let i = n - 1;
        let acts = trace(ws, bs, row_of(ti, i), act);
        weight_grad_sum(ws, bs, ti, to, act, l, k, j, i as nat).add_spec(
            unit_share(ws, acts, row_of(to, i), l + 1, j).mul_spec(acts[l][k]),
        )
    }
}

/// The bias `j` of layer `l` gradient summed over the first `n` examples of
/// `(ti, to)`.
pub open spec fn bias_grad_sum<T: Num, F: Fn(T) -> T>(
    ws: Seq<MatView<T>>,
    bs: Seq<MatView<T>>,
    ti: MatView<T>,
    to: MatView<T>,
    act: F,
    l: int,
    j: int,
    n: nat,
) -> T
    decreases n,
{
    if n == 0 {
        zero::<T>()
    } else {
        let i = n - 1;
        let acts = trace(ws, bs, row_of(ti, i), act);
        bias_grad_sum(ws, bs, ti, to, act, l, j, i as nat).add_spec(
            unit_share(ws, acts, row_of(to, i), l + 1, j),
        )
    }
}

/// The weights and biases of `g` hold the backpropagated gradient of the
/// network `nn` on `(ti, to)`: each one's shares summed over the examples
/// and divided by their number.
pub open spec fn backpropagated<T: Num, F: Fn(T) -> T>(
    nn: NN<T>,
    g: NN<T>,
    ti: MatView<T>,
    to: MatView<T>,
    act: F,
) -> bool {
    let ws = views(nn.weights());
    let bs = views(nn.biases());
    let n = ti.rows;
    &&& forall|l: int, k: int, j: int|
        0 <= l < nn.layers() && 0 <= k < ws[l].rows && 0 <= j < ws[l].cols
            ==> #[trigger] g.weights()[l].at(k, j) == weight_grad_sum(
            ws,
            bs,
            ti,
            to,
            act,
            l,
            k,
            j,
            n,
        ).div_spec(count::<T>(n))
    &&& forall|l: int, j: int|
        0 <= l < nn.layers() && 0 <= j < ws[l].cols ==> #[trigger] g.biases()[l].es@[j]
            == bias_grad_sum(ws, bs, ti, to, act, l, j, n).div_spec(count::<T>(n))
}

/// The activation rows of `nn`, as sequences.
pub open spec fn act_rows<T>(nn: NN<T>) -> Seq<Seq<T>> {
    Seq::new(nn.acts().len(), |m: int| nn.acts()[m].es@)
}

/// `post` is `pre` with one example's shares added to the weight and bias
/// gradients of the layers from `l` up; below `l` they are as in `pre`.
pub open spec fn layers_added_from<T: Num>(
    pre: NN<T>,
    post: NN<T>,
    ws: Seq<MatView<T>>,
    acts: Seq<Seq<T>>,
    y: Seq<T>,
    l: int,
) -> bool {
    &&& forall|q: int, k: int, j: int|
        l <= q < pre.layers() && 0 <= k < pre.weights()[q].rows && 0 <= j < pre.weights()[q].cols
            ==> #[trigger] post.weights()[q].at(k, j) == pre.weights()[q].at(k, j).add_spec(
            unit_share(ws, acts, y, q + 1, j).mul_spec(acts[q][k]),
        )
    &&& forall|q: int, j: int|
        l <= q < pre.layers() && 0 <= j < pre.biases()[q].cols ==> #[trigger] post.biases()[q].es@[j]
            == pre.biases()[q].es@[j].add_spec(unit_share(ws, acts, y, q + 1, j))
}

/// After one cell of a matrix changed, every other cell is as it was.
proof fn lemma_cell_update<T>(before: Mat<T>, after: Mat<T>, r: int, c: int)
    requires
        before.wf(),
        after.same_shape(&before),
        0 <= r < before.rows,
        0 <= c < before.cols,
        after.es@ == before.es@.update(index_of(r, c, before.cols as int), after.at(r, c)),
    ensures
        forall|r2: int, c2: int|
            0 <= r2 < before.rows && 0 <= c2 < before.cols && (r2 != r || c2 != c)
                ==> #[trigger] after.at(r2, c2) == before.at(r2, c2),
{
    lemma_index_in_bounds(r, c, before.rows as int, before.cols as int);
    assert forall|r2: int, c2: int|
        0 <= r2 < before.rows && 0 <= c2 < before.cols && (r2 != r || c2 != c) implies #[trigger] after.at(
        r2,
        c2,
    ) == before.at(r2, c2) by {
        lemma_index_distinct(r, c, r2, c2, before.cols as int);
        lemma_index_in_bounds(r2, c2, before.rows as int, before.cols as int);
    }
}

/// After one value of a bias row changed, every other value is as it was.
proof fn lemma_bias_update<T>(before: Mat<T>, after: Mat<T>, c: int)
    requires
        0 <= c < before.es@.len(),
        after.es@ == before.es@.update(c, after.es@[c]),
    ensures
        forall|c2: int| 0 <= c2 < before.es@.len() && c2 != c ==> #[trigger] after.es@[c2] == before.es@[c2],
{
}

/// After a forward pass, the activation rows are the trace of the input
/// through the network.
proof fn lemma_forward_trace<T: Num, F: Fn(T) -> T>(nn: NN<T>, act: F)
    requires
        exact::<T>(),
        deterministic(act),
        nn.wf(),
        forall|k: int|
            0 <= k < nn.layers() ==> is_layer_output(
                #[trigger] nn.acts()[k + 1],
                nn.acts()[k],
                nn.weights()[k],
                nn.biases()[k],
                act,
            ),
    ensures
        act_rows(nn) == trace(views(nn.weights()), views(nn.biases()), nn.acts()[0].es@, act),
{
    assert forall|l: int| 0 <= l <= nn.layers() implies #[trigger] act_rows(nn)[l] == trace(
        views(nn.weights()),
        views(nn.biases()),
        nn.acts()[0].es@,
        act,
    )[l] by {
        lemma_forwarded_values(nn, act, l);
    }
    assert(act_rows(nn) =~= trace(views(nn.weights()), views(nn.biases()), nn.acts()[0].es@, act));
}

/// Every cell of `m` is zero.
pub open spec fn all_zero<T: Num>(m: Mat<T>) -> bool {
    forall|k: int| 0 <= k < m.es@.len() ==> #[trigger] m.es@[k] == zero::<T>()
}

impl<T: Num> NN<T> {
    /// A network with the layer widths `arch`: `arch[0]` inputs, then one layer
    /// per further width. All weights, biases and activations are zero.
    pub fn new(arch: &[usize]) -> (nn: Self)
        requires
            arch@.len() >= 2,
            forall|i: int| 1 <= i < arch@.len() ==> arch@[i - 1] * #[trigger] arch@[i] <= usize::MAX,
        ensures
            nn.wf(),
            nn.layers() == arch@.len() - 1,
            forall|l: int| 0 <= l <= nn.layers() ==> (#[trigger] nn.acts()[l]).cols == arch@[l],
            exact::<T>() ==> forall|l: int|
                0 <= l < nn.layers() ==> all_zero(#[trigger] nn.weights()[l]) && all_zero(
                    nn.biases()[l],
                ),
            exact::<T>() ==> forall|l: int|
                0 <= l <= nn.layers() ==> all_zero(#[trigger] nn.acts()[l]),
            !nn.shows_inputs(),
    {
        let arch_count = arch.len();
        let count = arch_count - 1;
        let mut ws: Vec<Mat<T>> = Vec::with_capacity(count);
        let mut bs: Vec<Mat<T>> = Vec::with_capacity(count);
        let mut a: Vec<Mat<T>> = Vec::with_capacity(count + 1);
        a.push(Mat::new(1, arch[0]));
        let mut i: usize = 1;
        while i < arch_count
            invariant
                1 <= i <= arch_count,
                arch_count == arch@.len(),
                count == arch_count - 1,
                forall|k: int| 1 <= k < arch@.len() ==> arch@[k - 1] * #[trigger] arch@[k] <= usize::MAX,
                ws@.len() == i - 1,
                bs@.len() == i - 1,
                a@.len() == i,
                forall|l: int|
                    0 <= l < i - 1 ==> {
                        let w = #[trigger] ws@[l];
                        let b = bs@[l];
                        &&& w.wf() && b.wf()
                        &&& b.rows == 1
                        &&& w.rows == a@[l].cols
                        &&& w.cols == b.cols
                        &&& w.cols == a@[l + 1].cols
                        &&& exact::<T>() ==> all_zero(w) && all_zero(b)
                    },
                forall|l: int|
                    0 <= l < i ==> {
                        let m = #[trigger] a@[l];
                        &&& m.wf() && m.rows == 1 && m.cols == arch@[l]
                        &&& exact::<T>() ==> all_zero(m)
                    },
            decreases arch_count - i,
        {
            let prev = a[i - 1].cols;
            ws.push(Mat::new(prev, arch[i]));
            bs.push(Mat::new(1, arch[i]));
            a.push(Mat::new(1, arch[i]));
            i = i + 1;
        }
        let nn = NN { count, ws, bs, a, fmt_inputs: false };
        assert forall|l: int| 0 <= l < nn.layers() implies #[trigger] nn.layer_fits(l) by {
            assert(nn.weights()[l] == ws@[l]);
        }
        nn
    }

    /// The number of layers.
    pub fn layer_count(&self) -> (n: usize)
        ensures
            n == self.layers(),
    {
        self.count
    }

    /// Whether the network is printed with its activation rows.
    pub fn inputs_shown(&self) -> (b: bool)
        ensures
            b == self.shows_inputs(),
    {
        self.fmt_inputs
    }

    /// The weights of layer `l`.
    pub fn get_ref_weights(&self, l: usize) -> (m: &Mat<T>)
        requires
            self.wf(),
            l < self.layers(),
        ensures
            *m == self.weights()[l as int],
    {
        &self.ws[l]
    }

    /// The biases of layer `l`.
    pub fn get_ref_biases(&self, l: usize) -> (m: &Mat<T>)
        requires
            self.wf(),
            l < self.layers(),
        ensures
            *m == self.biases()[l as int],
    {
        &self.bs[l]
    }

    /// Activation row `l`: 0 is the input, `layers()` the output.
    pub fn get_ref_act(&self, l: usize) -> (m: &Mat<T>)
        requires
            self.wf(),
            l <= self.layers(),
        ensures
            *m == self.acts()[l as int],
    {
        &self.a[l]
    }

    /// The input row.
    pub fn get_ref_input(&self) -> (m: &Mat<T>)
        requires
            self.wf(),
        ensures
            *m == self.acts()[0],
    {
        &self.a[0]
    }

    /// The output row, as the latest forward pass left it.
    pub fn get_ref_output(&self) -> (m: &Mat<T>)
        requires
            self.wf(),
        ensures
            *m == self.acts()[self.layers() as int],
    {
        &self.a[self.count]
    }

    /// The input row, to change in place; a caller that keeps its shape
    /// keeps the network well formed.
    pub fn get_mut_input(&mut self) -> (m: &mut Mat<T>)
        requires
            old(self).wf(),
        ensures
            *m == old(self).acts()[0],
            final(self).acts() == old(self).acts().update(0, *final(m)),
            final(self).layers() == old(self).layers(),
            final(self).weights() == old(self).weights(),
            final(self).biases() == old(self).biases(),
            final(self).shows_inputs() == old(self).shows_inputs(),
    {
        &mut self.a[0]
    }

    /// The output row, to change in place.
    pub fn get_mut_output(&mut self) -> (m: &mut Mat<T>)
        requires
            old(self).wf(),
        ensures
            *m == old(self).acts()[old(self).layers() as int],
            final(self).acts() == old(self).acts().update(old(self).layers() as int, *final(m)),
            final(self).layers() == old(self).layers(),
            final(self).weights() == old(self).weights(),
            final(self).biases() == old(self).biases(),
            final(self).shows_inputs() == old(self).shows_inputs(),
    {
        let count = self.count;
        &mut self.a[count]
    }

    /// Copies `inp`, a row as wide as the input, into the input row.
    pub fn set_input(&mut self, inp: &Mat<T>)
        requires
            old(self).wf(),
            inp.es@.len() == old(self).input_width(),
        ensures
            final(self).wf(),
            old(self).same_arch(final(self)),
            old(self).same_params(final(self)),
            final(self).acts()[0].es@ == inp.es@,
            forall|l: int|
                0 < l <= old(self).layers() ==> #[trigger] final(self).acts()[l] == old(self).acts()[l],
            final(self).shows_inputs() == old(self).shows_inputs(),
    {
        let ghost before = *self;
        let _n = self.a[0].es.len();
        assert(self.acts()[0].rows * self.acts()[0].cols == self.acts()[0].cols) by (
        nonlinear_arith)
            requires
                self.acts()[0].rows == 1,
        ;
        self.a[0].fill_from(inp);
        proof {
            assert forall|l: int| 0 <= l < self.layers() implies #[trigger] self.layer_fits(l) by {
                assert(before.layer_fits(l));
            }
        }
    }

    /// `self` with `inp`, a row as wide as the input, as its input row.
    pub fn with_input(self, inp: &Mat<T>) -> (nn: Self)
        requires
            self.wf(),
            inp.es@.len() == self.input_width(),
        ensures
            nn.wf(),
            self.same_arch(&nn),
            self.same_params(&nn),
            nn.acts()[0].es@ == inp.es@,
            forall|l: int| 0 < l <= self.layers() ==> #[trigger] nn.acts()[l] == self.acts()[l],
    {
        let mut nn = self;
        nn.set_input(inp);
        nn
    }

    /// Runs the input row through every layer, applying `act` to each unit,
    /// and leaves each layer's output in its activation row.
    pub fn forward<F: Fn(T) -> T>(&mut self, act: &F)
        requires
            total::<T>(),
            old(self).wf(),
            forall|x: T| act.requires((x,)),
        ensures
            forwarded(*old(self), *final(self), *act),
            final(self).shows_inputs() == old(self).shows_inputs(),
    {
        let count = self.count;
        let mut i: usize = 0;
        while i < count
            invariant
                total::<T>(),
                forall|x: T| act.requires((x,)),
                count == self.count,
                i <= count,
                self.wf(),
                old(self).same_arch(self),
                old(self).same_params(self),
                self.acts()[0].es@ == old(self).acts()[0].es@,
                self.fmt_inputs == old(self).fmt_inputs,
                forall|l: int|
                    0 <= l < i ==> is_layer_output(
                        #[trigger] self.acts()[l + 1],
                        self.acts()[l],
                        self.weights()[l],
                        self.biases()[l],
                        *act,
                    ),
            decreases count - i,
        {
            assert(self.layer_fits(i as int));
            let _wl = self.ws[i].es.len();
            let _bl = self.bs[i].es.len();
            let prod = self.a[i].dot(&self.ws[i]);
            let pre = prod.sum(&self.bs[i]);
            let out = pre.with_all(act);
            let ghost before = *self;
            self.a[i + 1].fill_from(&out);
            proof {
                let w = self.weights()[i as int];
                let b = self.biases()[i as int];
                let next = self.acts()[i + 1];
                assert(next.rows * next.cols == next.cols) by (nonlinear_arith)
                    requires
                        next.rows == 1,
                ;
                assert(self.acts() == before.acts().update(i + 1, next));
                assert forall|l: int| 0 <= l < self.layers() implies #[trigger] self.layer_fits(
                    l,
                ) by {
                    assert(before.layer_fits(l));
                }
                assert forall|j: int| 0 <= j < w.cols implies index_of(0, j, w.cols as int) == j
                    by {
                    assert(0 * w.cols == 0) by (nonlinear_arith);
                }
                assert forall|l: int| 0 <= l < i + 1 implies is_layer_output(
                    #[trigger] self.acts()[l + 1],
                    self.acts()[l],
                    self.weights()[l],
                    self.biases()[l],
                    *act,
                ) by {
                    if l < i {
                        assert(self.acts()[l + 1] == before.acts()[l + 1]);
                        assert(self.acts()[l] == before.acts()[l]);
                    } else {
                        assert(self.acts()[l] == before.acts()[l]);
                        if exact::<T>() {
                            assert forall|j: int| 0 <= j < w.cols implies act.ensures(
                                (pre_act(self.acts()[l], w, b, j),),
                                #[trigger] next.es@[j],
                            ) by {
                                assert(index_of(0, j, w.cols as int) == j);
                                assert(prod.at(0, j) == prod.es@[j]);
                                assert(b.at(0, j) == b.es@[j]);
                            }
                        }
                    }
                }
            }
            i = i + 1;
        }
    }

    /// Sets the input row to `input` and runs a forward pass.
    pub fn forward_with<F: Fn(T) -> T>(&mut self, input: &Mat<T>, act: &F)
        requires
            total::<T>(),
            old(self).wf(),
            input.es@.len() == old(self).input_width(),
            forall|x: T| act.requires((x,)),
        ensures
            final(self).acts()[0].es@ == input.es@,
            final(self).wf(),
            old(self).same_arch(final(self)),
            old(self).same_params(final(self)),
            forall|l: int|
                0 <= l < final(self).layers() ==> is_layer_output(
                    #[trigger] final(self).acts()[l + 1],
                    final(self).acts()[l],
                    final(self).weights()[l],
                    final(self).biases()[l],
                    *act,
                ),
    {
        self.set_input(input);
        self.forward(act);
    }

    /// The mean, over the examples `(ti, to)` (one per row), of the squared
    /// error of the output summed over its columns. Each example is run
    /// through a forward pass in turn, so the activations are left as the
    /// last one made them; the parameters are kept.
    pub fn cost<F: Fn(T) -> T>(&mut self, ti: &Mat<T>, to: &Mat<T>, act: &F) -> (c: T)
        requires
            total::<T>(),
            old(self).wf(),
            fits_data(*old(self), *ti, *to),
            forall|x: T| act.requires((x,)),
        ensures
            final(self).wf(),
            old(self).same_arch(final(self)),
            old(self).same_params(final(self)),
            final(self).shows_inputs() == old(self).shows_inputs(),
            exact::<T>() && deterministic(*act) ==> c == cost_of(
                views(old(self).weights()),
                views(old(self).biases()),
                ti@,
                to@,
                *act,
            ),
    {
        let ghost ws = views(self.weights());
        let ghost bs = views(self.biases());
        let one_t = T::from(1u8);
        let mut c = T::from(0u8);
        let mut n = T::from(0u8);
        let rows = ti.rows;
        let outs = to.cols;
        let mut i: usize = 0;
        while i < rows
            invariant
                total::<T>(),
                forall|x: T| act.requires((x,)),
                self.wf(),
                old(self).same_arch(self),
                old(self).same_params(self),
                self.fmt_inputs == old(self).fmt_inputs,
                fits_data(*old(self), *ti, *to),
                ws == views(old(self).weights()),
                bs == views(old(self).biases()),
                rows == ti.rows,
                outs == to.cols,
                i <= rows,
                exact::<T>() ==> one_t == one::<T>(),
                exact::<T>() ==> n == count::<T>(i as nat),
                exact::<T>() && deterministic(*act) ==> c == total_error(
                    ws,
                    bs,
                    ti@,
                    to@,
                    *act,
                    i as nat,
                ),
            decreases rows - i,
        {
            let x = ti.row(i);
            let y = to.row(i);
            self.set_input(&x);
            self.forward(act);
            let ghost c0 = c;
            let ghost out = self.acts()[self.layers() as int].es@;
            proof {
                if exact::<T>() && deterministic(*act) {
                    lemma_forwarded_values(*self, *act, self.layers() as int);
                    assert(out == output_at(ws, bs, row_of(ti@, i as int), *act, ws.len()));
                }
            }
            let mut j: usize = 0;
            while j < outs
                invariant
                    total::<T>(),
                    self.wf(),
                    fits_data(*old(self), *ti, *to),
                    old(self).same_arch(self),
                    outs == to.cols,
                    i < rows,
                    rows == ti.rows,
                    y.wf() && y.rows == 1 && y.cols == to.cols,
                    y.es@ == row_of(to@, i as int),
                    out == self.acts()[self.layers() as int].es@,
                    j <= outs,
                    exact::<T>() ==> c == row_error(out, to@, i as int, j as nat, c0),
                decreases outs - j,
            {
                let o = self.get_ref_output();
                let d = o.get_at(0, j) - y.get_at(0, j);
                proof {
                    lemma_index_in_bounds(0, j as int, 1, outs as int);
                    lemma_index_in_bounds(i as int, j as int, to.rows as int, to.cols as int);
                    assert(index_of(0, j as int, outs as int) == j);
                    assert(y.at(0, j as int) == to.at(i as int, j as int));
                }
                c = c + d * d;
                j = j + 1;
            }
            n = n + one_t;
            i = i + 1;
        }
        c / n
    }

    /// Estimates the gradient of the cost on the dataset `(ti, to)` by finite
    /// differences into `g`, which has the shape of `self`: each weight and
    /// bias in turn, layer by layer, is raised by `eps`, the cost measured
    /// again over the whole dataset, the rise divided by `eps`, and the
    /// parameter put back. The parameters of `self` end as they began; its
    /// activations are left as the last cost measurement made them.
    pub fn finite_diff<F: Fn(T) -> T>(
        &mut self,
        g: &mut Self,
        ti: &Mat<T>,
        to: &Mat<T>,
        eps: T,
        act: &F,
    )
        requires
            total::<T>(),
            old(self).wf(),
            old(g).wf(),
            old(self).same_arch(old(g)),
            fits_data(*old(self), *ti, *to),
            forall|x: T| act.requires((x,)),
        ensures
            final(self).wf(),
            old(self).same_arch(final(self)),
            old(self).same_params(final(self)),
            final(g).wf(),
            old(g).same_arch(final(g)),
            final(g).acts() == old(g).acts(),
            exact::<T>() && deterministic(*act) ==> estimated(
                *old(self),
                *final(g),
                ti@,
                to@,
                *act,
                eps,
            ),
    {
        let ghost ws = views(self.weights());
        let ghost bs = views(self.biases());
        let c = self.cost(ti, to, act);
        let count = self.count;
        let mut l: usize = 0;
        while l < count
            invariant
                total::<T>(),
                forall|x: T| act.requires((x,)),
                fits_data(*old(self), *ti, *to),
                count == old(self).layers(),
                l <= count,
                old(self).wf(),
                old(g).wf(),
                self.wf(),
                g.wf(),
                old(self).same_arch(self),
                old(g).same_arch(g),
                old(self).same_arch(old(g)),
                ws == views(old(self).weights()),
                bs == views(old(self).biases()),
                views(self.weights()) == ws,
                views(self.biases()) == bs,
                g.acts() == old(g).acts(),
                exact::<T>() && deterministic(*act) ==> c == cost_of(ws, bs, ti@, to@, *act),
                exact::<T>() && deterministic(*act) ==> forall|m: int, k: int|
                    0 <= m < l && 0 <= k < old(self).weights()[m].es@.len() ==> #[trigger] g.weights()[m].es@[k]
                        == weight_slope(ws, bs, ti@, to@, *act, eps, m, k),
                exact::<T>() && deterministic(*act) ==> forall|m: int, k: int|
                    0 <= m < l && 0 <= k < old(self).biases()[m].es@.len() ==> #[trigger] g.biases()[m].es@[k]
                        == bias_slope(ws, bs, ti@, to@, *act, eps, m, k),
            decreases count - l,
        {
            let ghost g0 = *g;
            self.probe_weights(g, l, ti, to, eps, c, act);
            let ghost g1 = *g;
            self.probe_biases(g, l, ti, to, eps, c, act);
            proof {
                assert(old(self).layer_fits(l as int));
                assert(old(g).layer_fits(l as int));
                assert(g0.layer_fits(l as int));
                assert(g1.layer_fits(l as int));
                assert(g.weights()[l as int] == g1.weights()[l as int]);
                if exact::<T>() && deterministic(*act) {
                    assert forall|m: int, k: int|
                        0 <= m < l + 1 && 0 <= k < old(self).weights()[m].es@.len() implies #[trigger] g.weights()[m].es@[k]
                        == weight_slope(ws, bs, ti@, to@, *act, eps, m, k) by {
                        if m < l {
                            assert(g1.weights()[m] == g0.weights()[m]);
                        }
                    }
                    assert forall|m: int, k: int|
                        0 <= m < l + 1 && 0 <= k < old(self).biases()[m].es@.len() implies #[trigger] g.biases()[m].es@[k]
                        == bias_slope(ws, bs, ti@, to@, *act, eps, m, k) by {
                        if m < l {
                            assert(g.biases()[m] == g1.biases()[m]);
                            assert(g1.biases()[m] == g0.biases()[m]);
                        }
                    }
                }
            }
            l = l + 1;
        }
        proof {
            if exact::<T>() && deterministic(*act) {
                assert(estimated(*old(self), *g, ti@, to@, *act, eps));
            }
        }
    }

    /// Estimates the partial derivatives of the cost for the weights of layer
    /// `l` into `g`: each weight in turn is raised by `eps`, the cost measured
    /// again over the whole dataset, and the weight put back.
    fn probe_weights<F: Fn(T) -> T>(
        &mut self,
        g: &mut Self,
        l: usize,
        ti: &Mat<T>,
        to: &Mat<T>,
        eps: T,
        c: T,
        act: &F,
    )
        requires
            total::<T>(),
            old(self).wf(),
            old(g).wf(),
            old(self).same_arch(old(g)),
            fits_data(*old(self), *ti, *to),
            l < old(self).layers(),
            forall|x: T| act.requires((x,)),
            exact::<T>() && deterministic(*act) ==> c == cost_of(
                views(old(self).weights()),
                views(old(self).biases()),
                ti@,
                to@,
                *act,
            ),
        ensures
            final(self).wf(),
            old(self).same_arch(final(self)),
            old(self).same_params(final(self)),
            final(self).shows_inputs() == old(self).shows_inputs(),
            final(g).wf(),
            old(g).same_arch(final(g)),
            final(g).shows_inputs() == old(g).shows_inputs(),
            final(g).acts() == old(g).acts(),
            final(g).biases() == old(g).biases(),
            forall|m: int|
                0 <= m < old(g).layers() && m != l ==> #[trigger] final(g).weights()[m] == old(g).weights()[m],
            exact::<T>() && deterministic(*act) ==> forall|k: int|
                0 <= k < old(g).weights()[l as int].es@.len() ==> #[trigger] final(g).weights()[l as int].es@[k] == weight_slope(
                    views(old(self).weights()),
                    views(old(self).biases()),
                    ti@,
                    to@,
                    *act,
                    eps,
                    l as int,
                    k,
                ),
    {
        let ghost ws = views(self.weights());
        let ghost bs = views(self.biases());
        let n = self.ws[l].es.len();
        proof {
            assert(self.layer_fits(l as int));
            assert(g.layer_fits(l as int));
            assert(views(self.weights())[l as int] == self.ws@[l as int]@);
        }
        let mut p: usize = 0;
        while p < n
            invariant
                total::<T>(),
                forall|x: T| act.requires((x,)),
                fits_data(*old(self), *ti, *to),
                l < old(self).layers(),
                self.wf(),
                g.wf(),
                old(self).same_arch(self),
                old(g).same_arch(g),
                old(self).same_arch(old(g)),
                views(self.weights()) == ws,
                views(self.biases()) == bs,
                ws == views(old(self).weights()),
                bs == views(old(self).biases()),
                self.fmt_inputs == old(self).fmt_inputs,
                g.fmt_inputs == old(g).fmt_inputs,
                g.a == old(g).a,
                g.bs == old(g).bs,
                g.count == old(g).count,
                n == ws[l as int].es.len(),
                n == g.ws@[l as int].es@.len(),
                p <= n,
                forall|m: int| 0 <= m < g.layers() && m != l ==> #[trigger] g.ws@[m] == old(g).ws@[m],
                exact::<T>() && deterministic(*act) ==> c == cost_of(ws, bs, ti@, to@, *act),
                exact::<T>() && deterministic(*act) ==> forall|k: int|
                    0 <= k < p ==> #[trigger] g.ws@[l as int].es@[k] == weight_slope(
                        ws,
                        bs,
                        ti@,
                        to@,
                        *act,
                        eps,
                        l as int,
                        k,
                    ),
            decreases n - p,
        {
            assert(self.layer_fits(l as int));
            assert(g.layer_fits(l as int));
            assert(views(self.weights())[l as int] == self.ws@[l as int]@);
            let ghost unchanged = *self;
            let saved = self.ws[l].es[p];
            self.ws[l].es.set(p, saved + eps);
            proof {
                assert forall|m: int| 0 <= m < self.layers() implies #[trigger] self.layer_fits(m) by {
                    assert(unchanged.layer_fits(m));
                }
                if exact::<T>() {
                    assert(views(self.weights()) =~= nudged(ws, l as int, p as int, eps));
                }
            }
            let ghost perturbed = *self;
            let raised = self.cost(ti, to, act);
            proof {
                assert(views(self.weights())[l as int] == views(perturbed.weights())[l as int]);
                assert(self.ws@[l as int].es@ == perturbed.ws@[l as int].es@);
            }
            let ghost g_before = *g;
            g.ws[l].es.set(p, (raised - c) / eps);
            let ghost probed = *self;
            self.ws[l].es.set(p, saved);
            proof {
                assert forall|m: int| 0 <= m < self.layers() implies #[trigger] self.layer_fits(m) by {
                    assert(probed.layer_fits(m));
                }
                assert(self.ws@[l as int].es@ =~= unchanged.ws@[l as int].es@);
                assert forall|m: int| 0 <= m < ws.len() implies #[trigger] views(self.weights())[m] == ws[m] by {
                    assert(views(probed.weights())[m] == views(perturbed.weights())[m]);
                    assert(views(unchanged.weights())[m] == ws[m]);
                    if m != l {
                        assert(self.ws@[m] == probed.ws@[m]);
                        assert(perturbed.ws@[m] == unchanged.ws@[m]);
                    }
                }
                assert(views(self.weights()) =~= ws);
                assert forall|m: int| 0 <= m < bs.len() implies #[trigger] views(self.biases())[m] == bs[m] by {
                    assert(views(probed.biases())[m] == views(perturbed.biases())[m]);
                    assert(views(unchanged.biases())[m] == bs[m]);
                    if m != l {
                        assert(self.bs@[m] == probed.bs@[m]);
                        assert(perturbed.bs@[m] == unchanged.bs@[m]);
                    }
                }
                assert(views(self.biases()) =~= bs);
                assert forall|m: int| 0 <= m < g.layers() implies #[trigger] g.layer_fits(m) by {
                    assert(g_before.layer_fits(m));
                }
            }
            p = p + 1;
        }
        proof {
            if exact::<T>() && deterministic(*act) {
                assert forall|k: int| 0 <= k < old(g).weights()[l as int].es@.len() implies #[trigger] g.weights()[l as int].es@[k]
                    == weight_slope(ws, bs, ti@, to@, *act, eps, l as int, k) by {
                    assert(g.ws@[l as int].es@[k] == weight_slope(
                        ws,
                        bs,
                        ti@,
                        to@,
                        *act,
                        eps,
                        l as int,
                        k,
                    ));
                }
            }
        }
    }

    /// Estimates the partial derivatives of the cost for the biases of layer
    /// `l` into `g`, as `probe_weights` does for the weights.
    fn probe_biases<F: Fn(T) -> T>(
        &mut self,
        g: &mut Self,
        l: usize,
        ti: &Mat<T>,
        to: &Mat<T>,
        eps: T,
        c: T,
        act: &F,
    )
        requires
            total::<T>(),
            old(self).wf(),
            old(g).wf(),
            old(self).same_arch(old(g)),
            fits_data(*old(self), *ti, *to),
            l < old(self).layers(),
            forall|x: T| act.requires((x,)),
            exact::<T>() && deterministic(*act) ==> c == cost_of(
                views(old(self).weights()),
                views(old(self).biases()),
                ti@,
                to@,
                *act,
            ),
        ensures
            final(self).wf(),
            old(self).same_arch(final(self)),
            old(self).same_params(final(self)),
            final(self).shows_inputs() == old(self).shows_inputs(),
            final(g).wf(),
            old(g).same_arch(final(g)),
            final(g).shows_inputs() == old(g).shows_inputs(),
            final(g).acts() == old(g).acts(),
            final(g).weights() == old(g).weights(),
            forall|m: int|
                0 <= m < old(g).layers() && m != l ==> #[trigger] final(g).biases()[m] == old(g).biases()[m],
            exact::<T>() && deterministic(*act) ==> forall|k: int|
                0 <= k < old(g).biases()[l as int].es@.len() ==> #[trigger] final(g).biases()[l as int].es@[k] == bias_slope(
                    views(old(self).weights()),
                    views(old(self).biases()),
                    ti@,
                    to@,
                    *act,
                    eps,
                    l as int,
                    k,
                ),
    {
        let ghost ws = views(self.weights());
        let ghost bs = views(self.biases());
        let n = self.bs[l].es.len();
        proof {
            assert(self.layer_fits(l as int));
            assert(g.layer_fits(l as int));
            assert(views(self.biases())[l as int] == self.bs@[l as int]@);
        }
        let mut p: usize = 0;
        while p < n
            invariant
                total::<T>(),
                forall|x: T| act.requires((x,)),
                fits_data(*old(self), *ti, *to),
                l < old(self).layers(),
                self.wf(),
                g.wf(),
                old(self).same_arch(self),
                old(g).same_arch(g),
                old(self).same_arch(old(g)),
                views(self.weights()) == ws,
                views(self.biases()) == bs,
                ws == views(old(self).weights()),
                bs == views(old(self).biases()),
                self.fmt_inputs == old(self).fmt_inputs,
                g.fmt_inputs == old(g).fmt_inputs,
                g.a == old(g).a,
                g.ws == old(g).ws,
                g.count == old(g).count,
                n == bs[l as int].es.len(),
                n == g.bs@[l as int].es@.len(),
                p <= n,
                forall|m: int| 0 <= m < g.layers() && m != l ==> #[trigger] g.bs@[m] == old(g).bs@[m],
                exact::<T>() && deterministic(*act) ==> c == cost_of(ws, bs, ti@, to@, *act),
                exact::<T>() && deterministic(*act) ==> forall|k: int|
                    0 <= k < p ==> #[trigger] g.bs@[l as int].es@[k] == bias_slope(
                        ws,
                        bs,
                        ti@,
                        to@,
                        *act,
                        eps,
                        l as int,
                        k,
                    ),
            decreases n - p,
        {
            assert(self.layer_fits(l as int));
            assert(g.layer_fits(l as int));
            assert(views(self.biases())[l as int] == self.bs@[l as int]@);
            let ghost unchanged = *self;
            let saved = self.bs[l].es[p];
            self.bs[l].es.set(p, saved + eps);
            proof {
                assert forall|m: int| 0 <= m < self.layers() implies #[trigger] self.layer_fits(m) by {
                    assert(unchanged.layer_fits(m));
                }
                if exact::<T>() {
                    assert(views(self.biases()) =~= nudged(bs, l as int, p as int, eps));
                }
            }
            let ghost perturbed = *self;
            let raised = self.cost(ti, to, act);
            proof {
                assert(views(self.biases())[l as int] == views(perturbed.biases())[l as int]);
                assert(self.bs@[l as int].es@ == perturbed.bs@[l as int].es@);
            }
            let ghost g_before = *g;
            g.bs[l].es.set(p, (raised - c) / eps);
            let ghost probed = *self;
            self.bs[l].es.set(p, saved);
            proof {
                assert forall|m: int| 0 <= m < self.layers() implies #[trigger] self.layer_fits(m) by {
                    assert(probed.layer_fits(m));
                }
                assert(self.bs@[l as int].es@ =~= unchanged.bs@[l as int].es@);
                assert forall|m: int| 0 <= m < ws.len() implies #[trigger] views(self.weights())[m] == ws[m] by {
                    assert(views(probed.weights())[m] == views(perturbed.weights())[m]);
                    assert(views(unchanged.weights())[m] == ws[m]);
                    if m != l {
                        assert(self.ws@[m] == probed.ws@[m]);
                        assert(perturbed.ws@[m] == unchanged.ws@[m]);
                    }
                }
                assert(views(self.weights()) =~= ws);
                assert forall|m: int| 0 <= m < bs.len() implies #[trigger] views(self.biases())[m] == bs[m] by {
                    assert(views(probed.biases())[m] == views(perturbed.biases())[m]);
                    assert(views(unchanged.biases())[m] == bs[m]);
                    if m != l {
                        assert(self.bs@[m] == probed.bs@[m]);
                        assert(perturbed.bs@[m] == unchanged.bs@[m]);
                    }
                }
                assert(views(self.biases()) =~= bs);
                assert forall|m: int| 0 <= m < g.layers() implies #[trigger] g.layer_fits(m) by {
                    assert(g_before.layer_fits(m));
                }
            }
            p = p + 1;
        }
        proof {
            if exact::<T>() && deterministic(*act) {
                assert forall|k: int| 0 <= k < old(g).biases()[l as int].es@.len() implies #[trigger] g.biases()[l as int].es@[k]
                    == bias_slope(ws, bs, ti@, to@, *act, eps, l as int, k) by {
                    assert(g.bs@[l as int].es@[k] == bias_slope(
                        ws,
                        bs,
                        ti@,
                        to@,
                        *act,
                        eps,
                        l as int,
                        k,
                    ));
                }
            }
        }
    }

    /// Adds `v` to the weight at row `r`, column `c` of layer `l`.
    fn add_to_weight(&mut self, l: usize, r: usize, c: usize, v: T)
        requires
            total::<T>(),
            old(self).wf(),
            l < old(self).layers(),
            r < old(self).weights()[l as int].rows,
            c < old(self).weights()[l as int].cols,
        ensures
            final(self).wf(),
            old(self).same_arch(final(self)),
            final(self).shows_inputs() == old(self).shows_inputs(),
            final(self).acts() == old(self).acts(),
            final(self).biases() == old(self).biases(),
            forall|m: int|
                0 <= m < old(self).layers() && m != l ==> #[trigger] final(self).weights()[m]
                    == old(self).weights()[m],
            final(self).weights()[l as int].es@ == old(self).weights()[l as int].es@.update(
                index_of(r as int, c as int, old(self).weights()[l as int].cols as int),
                final(self).weights()[l as int].at(r as int, c as int),
            ),
            exact::<T>() ==> final(self).weights()[l as int].at(r as int, c as int) == old(
                self,
            ).weights()[l as int].at(r as int, c as int).add_spec(v),
    {
        assert(self.layer_fits(l as int));
        let ghost before = *self;
        let x = self.ws[l].get_at(r, c) + v;
        self.ws[l].set_at(r, c, x);
        proof {
            lemma_index_in_bounds(
                r as int,
                c as int,
                before.weights()[l as int].rows as int,
                before.weights()[l as int].cols as int,
            );
            assert forall|m: int| 0 <= m < self.layers() implies #[trigger] self.layer_fits(m) by {
                assert(before.layer_fits(m));
            }
        }
    }

    /// Adds `v` to bias `c` of layer `l`.
    fn add_to_bias(&mut self, l: usize, c: usize, v: T)
        requires
            total::<T>(),
            old(self).wf(),
            l < old(self).layers(),
            c < old(self).biases()[l as int].cols,
        ensures
            final(self).wf(),
            old(self).same_arch(final(self)),
            final(self).shows_inputs() == old(self).shows_inputs(),
            final(self).acts() == old(self).acts(),
            final(self).weights() == old(self).weights(),
            forall|m: int|
                0 <= m < old(self).layers() && m != l ==> #[trigger] final(self).biases()[m]
                    == old(self).biases()[m],
            final(self).biases()[l as int].es@ == old(self).biases()[l as int].es@.update(
                c as int,
                final(self).biases()[l as int].es@[c as int],
            ),
            exact::<T>() ==> final(self).biases()[l as int].es@[c as int] == old(
                self,
            ).biases()[l as int].es@[c as int].add_spec(v),
    {
        assert(self.layer_fits(l as int));
        let ghost before = *self;
        let x = self.bs[l].get_at(0, c) + v;
        self.bs[l].set_at(0, c, x);
        proof {
            lemma_index_in_bounds(0, c as int, 1, before.biases()[l as int].cols as int);
            assert(index_of(0, c as int, before.biases()[l as int].cols as int) == c);
            assert forall|m: int| 0 <= m < self.layers() implies #[trigger] self.layer_fits(m) by {
                assert(before.layer_fits(m));
            }
        }
    }

    /// Writes `v` at unit `c` of activation row `l`; with `add`, adds it to
    /// what is there instead.
    fn put_act(&mut self, l: usize, c: usize, v: T, add: bool)
        requires
            total::<T>(),
            old(self).wf(),
            l <= old(self).layers(),
            c < old(self).acts()[l as int].cols,
        ensures
            final(self).wf(),
            old(self).same_arch(final(self)),
            final(self).shows_inputs() == old(self).shows_inputs(),
            final(self).weights() == old(self).weights(),
            final(self).biases() == old(self).biases(),
            forall|m: int|
                0 <= m <= old(self).layers() && m != l ==> #[trigger] final(self).acts()[m]
                    == old(self).acts()[m],
            final(self).acts()[l as int].es@ == old(self).acts()[l as int].es@.update(
                c as int,
                final(self).acts()[l as int].es@[c as int],
            ),
            !add ==> final(self).acts()[l as int].es@[c as int] == v,
            add && exact::<T>() ==> final(self).acts()[l as int].es@[c as int] == old(
                self,
            ).acts()[l as int].es@[c as int].add_spec(v),
    {
        let ghost before = *self;
        let x = if add {
            self.a[l].get_at(0, c) + v
        } else {
            v
        };
        self.a[l].set_at(0, c, x);
        proof {
            lemma_index_in_bounds(0, c as int, 1, before.acts()[l as int].cols as int);
            assert(index_of(0, c as int, before.acts()[l as int].cols as int) == c);
            assert forall|m: int| 0 <= m < self.layers() implies #[trigger] self.layer_fits(m) by {
                assert(before.layer_fits(m));
            }
        }
    }

    /// The backward pass for one example, after a forward pass on its input
    /// row: seeds the output deltas of `g` with the output minus row `i` of
    /// `to`, then walks the layers from the last to the first, adding each
    /// unit's share to the bias and weight gradients of `g` and to the deltas
    /// of the layer before.
    fn backprop_sample(&self, g: &mut Self, to: &Mat<T>, i: usize, two_t: T, one_t: T)
        requires
            total::<T>(),
            self.wf(),
            old(g).wf(),
            self.same_arch(old(g)),
            to.wf(),
            i < to.rows,
            to.cols == self.output_width(),
            exact::<T>() ==> two_t == two::<T>() && one_t == one::<T>(),
            exact::<T>() ==> forall|m: int, c: int|
                0 <= m <= old(g).layers() && 0 <= c < old(g).acts()[m].es@.len()
                    ==> #[trigger] old(g).acts()[m].es@[c] == zero::<T>(),
        ensures
            final(g).wf(),
            old(g).same_arch(final(g)),
            final(g).shows_inputs() == old(g).shows_inputs(),
            exact::<T>() ==> layers_added_from(
                *old(g),
                *final(g),
                views(self.weights()),
                act_rows(*self),
                row_of(to@, i as int),
                0,
            ),
    {
        let ghost ws = views(self.weights());
        let ghost acts = act_rows(*self);
        let ghost y = row_of(to@, i as int);
        let ghost g0 = *g;
        let count = self.count;
        let outs = to.cols;
        proof {
            lemma_row_in_bounds(i as int, to.rows as int, outs as int);
        }
        let mut j: usize = 0;
        while j < outs
            invariant
                total::<T>(),
                self.wf(),
                g.wf(),
                g0.same_arch(g),
                self.same_arch(&g0),
                g0 == *old(g),
                g.fmt_inputs == old(g).fmt_inputs,
                to.wf(),
                i < to.rows,
                index_of(i as int, 0, outs as int) + outs <= to.es@.len(),
                count == self.layers(),
                outs == to.cols,
                outs == self.output_width(),
                j <= outs,
                ws == views(self.weights()),
                acts == act_rows(*self),
                y == row_of(to@, i as int),
                g.weights() == g0.weights(),
                g.biases() == g0.biases(),
                forall|m: int| 0 <= m < count ==> #[trigger] g.acts()[m] == g0.acts()[m],
                exact::<T>() ==> forall|c: int|
                    0 <= c < j ==> #[trigger] g.acts()[count as int].es@[c] == delta(
                        ws,
                        acts,
                        y,
                        count as int,
                        c,
                    ),
            decreases outs - j,
        {
            let d = self.a[count].get_at(0, j) - to.get_at(i, j);
            proof {
                assert(index_of(0, j as int, outs as int) == j) by {
                    assert(0 * outs == 0) by (nonlinear_arith);
                }
                assert(acts[count as int] == self.acts()[count as int].es@);
            }
            g.put_act(count, j, d, false);
            j = j + 1;
        }
        let mut l: usize = count;
        while l > 0
            invariant
                total::<T>(),
                self.wf(),
                g.wf(),
                g0.same_arch(g),
                self.same_arch(&g0),
                g0 == *old(g),
                g0.wf(),
                g.fmt_inputs == old(g).fmt_inputs,
                count == self.layers(),
                l <= count,
                ws == views(self.weights()),
                acts == act_rows(*self),
                exact::<T>() ==> two_t == two::<T>() && one_t == one::<T>(),
                exact::<T>() ==> forall|c: int|
                    0 <= c < g.acts()[l as int].es@.len() ==> #[trigger] g.acts()[l as int].es@[c]
                        == delta(ws, acts, y, l as int, c),
                exact::<T>() ==> forall|m: int, c: int|
                    0 <= m < l && 0 <= c < g.acts()[m].es@.len() ==> #[trigger] g.acts()[m].es@[c]
                        == zero::<T>(),
                exact::<T>() ==> layers_added_from(g0, *g, ws, acts, y, l as int),
                forall|q: int|
                    0 <= q < l ==> #[trigger] g.weights()[q] == g0.weights()[q] && g.biases()[q]
                        == g0.biases()[q],
            decreases l,
        {
            let q = l - 1;
            assert(self.layer_fits(q as int));
            assert(g0.layer_fits(q as int));
            assert(g.layer_fits(q as int));
            let width = self.a[l].cols;
            let prev = self.a[q].cols;
            let ghost gl = *g;
            let mut j: usize = 0;
            while j < width
                invariant
                    total::<T>(),
                    self.wf(),
                    g.wf(),
                    g0.same_arch(g),
                    self.same_arch(&g0),
                    g.fmt_inputs == old(g).fmt_inputs,
                    count == self.layers(),
                    0 < l <= count,
                    q == l - 1,
                    self.layer_fits(q as int),
                    width == self.acts()[l as int].cols,
                    prev == self.acts()[q as int].cols,
                    j <= width,
                    ws == views(self.weights()),
                    acts == act_rows(*self),
                    exact::<T>() ==> two_t == two::<T>() && one_t == one::<T>(),
                    forall|m: int| 0 <= m <= count && m != q ==> #[trigger] g.acts()[m] == gl.acts()[m],
                    forall|m: int|
                        0 <= m < count && m != q ==> #[trigger] g.weights()[m] == gl.weights()[m]
                            && g.biases()[m] == gl.biases()[m],
                    exact::<T>() ==> forall|c: int|
                        0 <= c < gl.acts()[l as int].es@.len() ==> #[trigger] gl.acts()[l as int].es@[c]
                            == delta(ws, acts, y, l as int, c),
                    exact::<T>() ==> forall|k: int|
                        0 <= k < prev ==> #[trigger] g.acts()[q as int].es@[k] == back_sum(
                            ws,
                            acts,
                            y,
                            q as int,
                            k,
                            j as nat,
                        ),
                    exact::<T>() ==> forall|k: int, c: int|
                        0 <= k < prev && 0 <= c < width ==> #[trigger] g.weights()[q as int].at(k, c)
                            == (if c < j {
                            gl.weights()[q as int].at(k, c).add_spec(
                                unit_share(ws, acts, y, l as int, c).mul_spec(acts[q as int][k]),
                            )
                        } else {
                            gl.weights()[q as int].at(k, c)
                        }),
                    exact::<T>() ==> forall|c: int|
                        0 <= c < width ==> #[trigger] g.biases()[q as int].es@[c] == (if c < j {
                            gl.biases()[q as int].es@[c].add_spec(
                                unit_share(ws, acts, y, l as int, c),
                            )
                        } else {
                            gl.biases()[q as int].es@[c]
                        }),
                decreases width - j,
            {
                let a = self.a[l].get_at(0, j);
                let da = g.a[l].get_at(0, j);
                let s = two_t * da * a * (one_t - a);
                proof {
                    assert(g0.weights()[q as int].same_shape(&self.weights()[q as int]));
                    assert(g.weights()[q as int].same_shape(&g0.weights()[q as int]));
                    assert(index_of(0, j as int, width as int) == j) by {
                        assert(0 * width == 0) by (nonlinear_arith);
                    }
                    assert(acts[l as int] == self.acts()[l as int].es@);
                    assert(g.acts()[l as int] == gl.acts()[l as int]);
                }
                proof {
                    if exact::<T>() {
                        assert(s == unit_share(ws, acts, y, l as int, j as int));
                    }
                }
                let ghost gj = *g;
                g.add_to_bias(q, j, s);
                proof {
                    assert(gj.layer_fits(q as int));
                    assert(gj.weights()[q as int].same_shape(&g0.weights()[q as int]));
                    assert(g0.weights()[q as int].same_shape(&self.weights()[q as int]));
                    lemma_bias_update(gj.biases()[q as int], g.biases()[q as int], j as int);
                }
                let mut k: usize = 0;
                while k < prev
                    invariant
                        total::<T>(),
                        self.wf(),
                        g.wf(),
                        g0.same_arch(g),
                        self.same_arch(&g0),
                            g.fmt_inputs == old(g).fmt_inputs,
                        count == self.layers(),
                        0 < l <= count,
                        q == l - 1,
                        self.layer_fits(q as int),
                        width == self.acts()[l as int].cols,
                        prev == self.acts()[q as int].cols,
                        j < width,
                        k <= prev,
                        ws == views(self.weights()),
                        acts == act_rows(*self),
                        exact::<T>() ==> s == unit_share(ws, acts, y, l as int, j as int),
                        forall|m: int| 0 <= m <= count && m != q ==> #[trigger] g.acts()[m] == gl.acts()[m],
                        forall|m: int|
                            0 <= m < count && m != q ==> #[trigger] g.weights()[m] == gl.weights()[m]
                                && g.biases()[m] == gl.biases()[m],
                        exact::<T>() ==> forall|c: int|
                            0 <= c < gl.acts()[l as int].es@.len() ==> #[trigger] gl.acts()[l as int].es@[c]
                                == delta(ws, acts, y, l as int, c),
                        exact::<T>() ==> forall|r: int|
                            0 <= r < prev ==> #[trigger] g.acts()[q as int].es@[r] == back_sum(
                                ws,
                                acts,
                                y,
                                q as int,
                                r,
                                (if r < k { j + 1 } else { j as int }) as nat,
                            ),
                        exact::<T>() ==> forall|r: int, c: int|
                            0 <= r < prev && 0 <= c < width ==> #[trigger] g.weights()[q as int].at(r, c)
                                == (if c < j || (c == j && r < k) {
                                gl.weights()[q as int].at(r, c).add_spec(
                                    unit_share(ws, acts, y, l as int, c).mul_spec(acts[q as int][r]),
                                )
                            } else {
                                gl.weights()[q as int].at(r, c)
                            }),
                        exact::<T>() ==> forall|c: int|
                            0 <= c < width ==> #[trigger] g.biases()[q as int].es@[c] == (if c <= j {
                                gl.biases()[q as int].es@[c].add_spec(
                                    unit_share(ws, acts, y, l as int, c),
                                )
                            } else {
                                gl.biases()[q as int].es@[c]
                            }),
                    decreases prev - k,
                {
                    let w = self.ws[q].get_at(k, j);
                    let pa = self.a[q].get_at(0, k);
                    proof {
                        assert(g.weights()[q as int].same_shape(&self.weights()[q as int]));
                        assert(index_of(0, k as int, prev as int) == k) by {
                            assert(0 * prev == 0) by (nonlinear_arith);
                        }
                        assert(acts[q as int] == self.acts()[q as int].es@);
                        assert(ws[q as int] == self.weights()[q as int]@);
                    }
                    let ghost gk = *g;
                    g.add_to_weight(q, k, j, s * pa);
                    let ghost gw = *g;
                    g.put_act(q, k, s * w, true);
                    proof {
                        assert(gk.layer_fits(q as int));
                        lemma_cell_update(gk.weights()[q as int], gw.weights()[q as int], k as int, j as int);
                    }
                    k = k + 1;
                }
                j = j + 1;
            }
            proof {
                if exact::<T>() {
                    assert(ws[q as int] == self.weights()[q as int]@);
                    assert forall|c: int| 0 <= c < g.acts()[q as int].es@.len() implies #[trigger] g.acts()[q as int].es@[c]
                        == delta(ws, acts, y, q as int, c) by {
                    }
                    assert forall|p: int, k: int, c: int|
                        q <= p < g0.layers() && 0 <= k < g0.weights()[p].rows && 0 <= c < g0.weights()[p].cols
                        implies #[trigger] g.weights()[p].at(k, c) == g0.weights()[p].at(k, c).add_spec(
                        unit_share(ws, acts, y, p + 1, c).mul_spec(acts[p][k])) by {
                        assert(g0.layer_fits(p));
                        assert(self.layer_fits(p));
                        if p == q {
                            assert(gl.weights()[p] == g0.weights()[p]);
                        } else {
                            assert(g.weights()[p] == gl.weights()[p]);
                            assert(gl.weights()[p].at(k, c) == g0.weights()[p].at(k, c).add_spec(
                                unit_share(ws, acts, y, p + 1, c).mul_spec(acts[p][k])));
                        }
                    }
                    assert forall|p: int, c: int|
                        q <= p < g0.layers() && 0 <= c < g0.biases()[p].cols
                        implies #[trigger] g.biases()[p].es@[c] == g0.biases()[p].es@[c].add_spec(
                        unit_share(ws, acts, y, p + 1, c)) by {
                        assert(g0.layer_fits(p));
                        assert(self.layer_fits(p));
                        if p == q {
                            assert(gl.biases()[p] == g0.biases()[p]);
                        } else {
                            assert(g.weights()[p] == gl.weights()[p]);
                            assert(g.biases()[p] == gl.biases()[p]);
                            assert(gl.biases()[p].es@[c] == g0.biases()[p].es@[c].add_spec(
                                unit_share(ws, acts, y, p + 1, c)));
                        }
                    }
                    assert(layers_added_from(g0, *g, ws, acts, y, q as int));
                }
            }
            l = l - 1;
        }
    }

    /// Estimates the gradient of the cost on the dataset `(ti, to)` into
    /// `g`, which has the shape of `self`, by backpropagation: for each
    /// example a forward pass, then the backward pass, whose shares add up in
    /// the weights and biases of `g`; at the end these are divided by the
    /// number of examples. The activation rows of `g` serve as the deltas.
    /// The parameters of `self` are kept; its activations are left as the
    /// last example made them. The shares use the derivative of the logistic
    /// function, so `act` is meant to be that function.
    pub fn backprop<F: Fn(T) -> T>(&mut self, g: &mut Self, ti: &Mat<T>, to: &Mat<T>, act: &F)
        requires
            total::<T>(),
            old(self).wf(),
            old(g).wf(),
            old(self).same_arch(old(g)),
            fits_data(*old(self), *ti, *to),
            forall|x: T| act.requires((x,)),
        ensures
            final(self).wf(),
            old(self).same_arch(final(self)),
            old(self).same_params(final(self)),
            final(g).wf(),
            old(g).same_arch(final(g)),
            exact::<T>() && deterministic(*act) ==> backpropagated(
                *old(self),
                *final(g),
                ti@,
                to@,
                *act,
            ),
    {
        let ghost ws = views(self.weights());
        let ghost bs = views(self.biases());
        let zero_t = T::from(0u8);
        let one_t = T::from(1u8);
        let two_t = T::from(2u8);
        g.fill(zero_t);
        proof {
            if exact::<T>() && deterministic(*act) {
                assert forall|q: int, k: int, c: int|
                    0 <= q < old(self).layers() && 0 <= k < old(self).weights()[q].rows && 0 <= c
                        < old(self).weights()[q].cols implies #[trigger] g.weights()[q].at(k, c)
                    == weight_grad_sum(ws, bs, ti@, to@, *act, q, k, c, 0) by {
                    assert(old(self).layer_fits(q));
                    assert(old(g).layer_fits(q));
                    assert(old(g).weights()[q].same_shape(&old(self).weights()[q]));
                    lemma_index_in_bounds(
                        k,
                        c,
                        old(self).weights()[q].rows as int,
                        old(self).weights()[q].cols as int,
                    );
                }
                assert forall|q: int, c: int|
                    0 <= q < old(self).layers() && 0 <= c < old(self).weights()[q].cols implies #[trigger] g.biases()[q].es@[c]
                    == bias_grad_sum(ws, bs, ti@, to@, *act, q, c, 0) by {
                    assert(g.weights()[q].es@.len() == old(g).weights()[q].es@.len());
                    assert(old(self).layer_fits(q));
                    assert(old(g).layer_fits(q));
                    assert(old(g).weights()[q].same_shape(&old(self).weights()[q]));
                }
            }
        }
        let rows = ti.rows;
        let mut n = T::from(0u8);
        let mut i: usize = 0;
        while i < rows
            invariant
                total::<T>(),
                forall|x: T| act.requires((x,)),
                fits_data(*old(self), *ti, *to),
                old(self).wf(),
                self.wf(),
                g.wf(),
                old(self).same_arch(self),
                old(self).same_params(self),
                old(g).same_arch(g),
                old(self).same_arch(old(g)),
                rows == ti.rows,
                i <= rows,
                ws == views(old(self).weights()),
                bs == views(old(self).biases()),
                exact::<T>() ==> zero_t == zero::<T>() && one_t == one::<T>() && two_t == two::<T>(),
                exact::<T>() ==> n == count::<T>(i as nat),
                exact::<T>() && deterministic(*act) ==> forall|q: int, k: int, c: int|
                    0 <= q < old(self).layers() && 0 <= k < old(self).weights()[q].rows && 0 <= c
                        < old(self).weights()[q].cols ==> #[trigger] g.weights()[q].at(k, c)
                        == weight_grad_sum(ws, bs, ti@, to@, *act, q, k, c, i as nat),
                exact::<T>() && deterministic(*act) ==> forall|q: int, c: int|
                    0 <= q < old(self).layers() && 0 <= c < old(self).weights()[q].cols
                        ==> #[trigger] g.biases()[q].es@[c] == bias_grad_sum(
                        ws,
                        bs,
                        ti@,
                        to@,
                        *act,
                        q,
                        c,
                        i as nat,
                    ),
            decreases rows - i,
        {
            let x = ti.row(i);
            self.set_input(&x);
            self.forward(act);
            let ghost gs = *g;
            let rows_of_acts = g.a.len();
            let mut m: usize = 0;
            while m < rows_of_acts
                invariant
                    total::<T>(),
                    g.wf(),
                    old(g).same_arch(g),
                    rows_of_acts == g.acts().len(),
                    m <= rows_of_acts,
                    g.weights() == gs.weights(),
                    g.biases() == gs.biases(),
                    g.fmt_inputs == gs.fmt_inputs,
                    forall|r: int, c: int|
                        0 <= r < m && 0 <= c < g.acts()[r].es@.len() ==> #[trigger] g.acts()[r].es@[c]
                            == zero_t,
                decreases rows_of_acts - m,
            {
                let ghost before = *g;
                g.a[m].fill(zero_t);
                proof {
                    assert forall|q: int| 0 <= q < g.layers() implies #[trigger] g.layer_fits(q) by {
                        assert(before.layer_fits(q));
                    }
                    assert forall|r: int, c: int|
                        0 <= r < m + 1 && 0 <= c < g.acts()[r].es@.len() implies #[trigger] g.acts()[r].es@[c]
                        == zero_t by {
                        if r < m {
                            assert(g.acts()[r] == before.acts()[r]);
                        }
                    }
                }
                m = m + 1;
            }
            let ghost gb = *g;
            proof {
                if exact::<T>() && deterministic(*act) {
                    lemma_forward_trace(*self, *act);
                    assert(row_of(ti@, i as int) == self.acts()[0].es@);
                    assert(views(self.weights()) == ws);
                    assert(views(self.biases()) == bs);
                }
            }
            self.backprop_sample(g, to, i, two_t, one_t);
            proof {
                if exact::<T>() && deterministic(*act) {
                    let acts = trace(ws, bs, row_of(ti@, i as int), *act);
                    assert(act_rows(*self) == acts);
                    assert forall|q: int, k: int, c: int|
                        0 <= q < old(self).layers() && 0 <= k < old(self).weights()[q].rows && 0 <= c
                            < old(self).weights()[q].cols implies #[trigger] g.weights()[q].at(k, c)
                        == weight_grad_sum(ws, bs, ti@, to@, *act, q, k, c, (i + 1) as nat) by {
                        assert(old(self).layer_fits(q));
                        assert(gb.layer_fits(q));
                        assert(gb.weights()[q].same_shape(&old(g).weights()[q]));
                        assert(old(g).weights()[q].same_shape(&old(self).weights()[q]));
                        assert(gb.weights()[q].at(k, c) == gs.weights()[q].at(k, c));
                    }
                    assert forall|q: int, c: int|
                        0 <= q < old(self).layers() && 0 <= c < old(self).weights()[q].cols implies #[trigger] g.biases()[q].es@[c]
                        == bias_grad_sum(ws, bs, ti@, to@, *act, q, c, (i + 1) as nat) by {
                        assert(old(self).layer_fits(q));
                        assert(gb.layer_fits(q));
                        assert(gb.weights()[q].same_shape(&old(g).weights()[q]));
                        assert(old(g).weights()[q].same_shape(&old(self).weights()[q]));
                        assert(gb.biases()[q].es@[c] == gs.biases()[q].es@[c]);
                    }
                }
            }
            n = n + one_t;
            i = i + 1;
        }
        let layers = g.count;
        let ghost gt = *g;
        let mut l: usize = 0;
        while l < layers
            invariant
                total::<T>(),
                g.wf(),
                old(g).same_arch(g),
                gt.wf(),
                layers == g.layers(),
                layers == gt.layers(),
                l <= layers,
                old(self).same_arch(old(g)),
                old(g).same_arch(&gt),
                rows == ti.rows,
                exact::<T>() ==> n == count::<T>(rows as nat),
                exact::<T>() && deterministic(*act) ==> forall|q: int, k: int, c: int|
                    0 <= q < old(self).layers() && 0 <= k < old(self).weights()[q].rows && 0 <= c
                        < old(self).weights()[q].cols ==> #[trigger] gt.weights()[q].at(k, c)
                        == weight_grad_sum(ws, bs, ti@, to@, *act, q, k, c, rows as nat),
                exact::<T>() && deterministic(*act) ==> forall|q: int, c: int|
                    0 <= q < old(self).layers() && 0 <= c < old(self).weights()[q].cols
                        ==> #[trigger] gt.biases()[q].es@[c] == bias_grad_sum(
                        ws,
                        bs,
                        ti@,
                        to@,
                        *act,
                        q,
                        c,
                        rows as nat,
                    ),
                forall|q: int|
                    l <= q < layers ==> #[trigger] g.weights()[q] == gt.weights()[q] && g.biases()[q]
                        == gt.biases()[q],
                forall|q: int|
                    0 <= q < l ==> (#[trigger] g.weights()[q]).same_shape(&gt.weights()[q])
                        && g.biases()[q].same_shape(&gt.biases()[q]),
                exact::<T>() ==> forall|q: int, k: int|
                    0 <= q < l && 0 <= k < g.weights()[q].es@.len() ==> #[trigger] g.weights()[q].es@[k]
                        == gt.weights()[q].es@[k].div_spec(n),
                exact::<T>() ==> forall|q: int, k: int|
                    0 <= q < l && 0 <= k < g.biases()[q].es@.len() ==> #[trigger] g.biases()[q].es@[k]
                        == gt.biases()[q].es@[k].div_spec(n),
            decreases layers - l,
        {
            let ghost before = *g;
            assert(g.layer_fits(l as int));
            divide_all(&mut g.ws[l], n);
            divide_all(&mut g.bs[l], n);
            proof {
                assert forall|q: int| 0 <= q < g.layers() implies #[trigger] g.layer_fits(q) by {
                    assert(before.layer_fits(q));
                }
                assert forall|q: int| l < q < layers implies #[trigger] g.weights()[q] == gt.weights()[q]
                    && g.biases()[q] == gt.biases()[q] by {
                    assert(g.weights()[q] == before.weights()[q]);
                    assert(g.biases()[q] == before.biases()[q]);
                }
                if exact::<T>() {
                    assert forall|q: int, k: int|
                        0 <= q < l + 1 && 0 <= k < g.weights()[q].es@.len() implies #[trigger] g.weights()[q].es@[k]
                        == gt.weights()[q].es@[k].div_spec(n) by {
                        if q < l {
                            assert(g.weights()[q] == before.weights()[q]);
                        }
                    }
                    assert forall|q: int, k: int|
                        0 <= q < l + 1 && 0 <= k < g.biases()[q].es@.len() implies #[trigger] g.biases()[q].es@[k]
                        == gt.biases()[q].es@[k].div_spec(n) by {
                        if q < l {
                            assert(g.biases()[q] == before.biases()[q]);
                        }
                    }
                }
            }
            l = l + 1;
        }
        proof {
            if exact::<T>() && deterministic(*act) {
                assert forall|q: int, k: int, c: int|
                    0 <= q < old(self).layers() && 0 <= k < ws[q].rows && 0 <= c < ws[q].cols
                    implies #[trigger] g.weights()[q].at(k, c) == weight_grad_sum(
                    ws,
                    bs,
                    ti@,
                    to@,
                    *act,
                    q,
                    k,
                    c,
                    ti.rows as nat,
                ).div_spec(count::<T>(ti.rows as nat)) by {
                    assert(old(self).layer_fits(q));
                    assert(gt.layer_fits(q));
                    assert(gt.weights()[q].same_shape(&old(g).weights()[q]));
                    assert(old(g).weights()[q].same_shape(&old(self).weights()[q]));
                    lemma_index_in_bounds(k, c, ws[q].rows as int, ws[q].cols as int);
                    assert(g.layer_fits(q));
                    assert(g.weights()[q].same_shape(&old(g).weights()[q]));
                    let idx = index_of(k, c, ws[q].cols as int);
                    assert(g.weights()[q].es@[idx] == gt.weights()[q].es@[idx].div_spec(n));
                    assert(gt.weights()[q].at(k, c) == weight_grad_sum(
                        ws,
                        bs,
                        ti@,
                        to@,
                        *act,
                        q,
                        k,
                        c,
                        ti.rows as nat,
                    ));
                }
                assert forall|q: int, c: int|
                    0 <= q < old(self).layers() && 0 <= c < ws[q].cols implies #[trigger] g.biases()[q].es@[c]
                    == bias_grad_sum(ws, bs, ti@, to@, *act, q, c, ti.rows as nat).div_spec(
                    count::<T>(ti.rows as nat),
                ) by {
                    assert(old(self).layer_fits(q));
                    assert(gt.layer_fits(q));
                    assert(g.layer_fits(q));
                    assert(gt.weights()[q].same_shape(&old(g).weights()[q]));
                    assert(g.weights()[q].same_shape(&old(g).weights()[q]));
                    assert(old(g).weights()[q].same_shape(&old(self).weights()[q]));
                    assert(g.biases()[q].es@[c] == gt.biases()[q].es@[c].div_spec(n));
                    assert(gt.biases()[q].es@[c] == bias_grad_sum(
                        ws,
                        bs,
                        ti@,
                        to@,
                        *act,
                        q,
                        c,
                        ti.rows as nat,
                    ));
                }
            }
        }
    }

    /// One step of gradient descent: every weight and bias loses `rate` times
    /// its partial derivative in `g`, a gradient of the shape of `self`.
    pub fn learn(&mut self, g: &Self, rate: T)
        requires
            total::<T>(),
            old(self).wf(),
            g.wf(),
            old(self).same_arch(g),
        ensures
            final(self).wf(),
            old(self).same_arch(final(self)),
            final(self).acts() == old(self).acts(),
            final(self).shows_inputs() == old(self).shows_inputs(),
            learned(*old(self), *g, rate, *final(self)),
    {
        let count = self.count;
        let mut l: usize = 0;
        while l < count
            invariant
                total::<T>(),
                count == self.count,
                l <= count,
                g.wf(),
                old(self).wf(),
                old(self).same_arch(g),
                self.count == old(self).count,
                self.ws@.len() == count && self.bs@.len() == count,
                self.a == old(self).a,
                self.fmt_inputs == old(self).fmt_inputs,
                forall|i: int|
                    l <= i < count ==> #[trigger] self.ws@[i] == old(self).ws@[i] && self.bs@[i]
                        == old(self).bs@[i],
                forall|i: int|
                    0 <= i < l ==> stepped(
                        old(self).ws@[i],
                        g.ws@[i],
                        rate,
                        #[trigger] self.ws@[i],
                    ) && stepped(old(self).bs@[i], g.bs@[i], rate, self.bs@[i]),
            decreases count - l,
        {
            assert(old(self).layer_fits(l as int));
            assert(g.layer_fits(l as int));
            let ghost before = *self;
            descend(&mut self.ws[l], &g.ws[l], rate);
            descend(&mut self.bs[l], &g.bs[l], rate);
            proof {
                assert forall|i: int| l < i < count implies #[trigger] self.ws@[i] == old(self).ws@[i]
                    && self.bs@[i] == old(self).bs@[i] by {
                    assert(self.ws@[i] == before.ws@[i]);
                    assert(self.bs@[i] == before.bs@[i]);
                }
            }
            l = l + 1;
        }
        proof {
            assert forall|i: int| 0 <= i < self.layers() implies #[trigger] self.layer_fits(i) by {
                assert(old(self).layer_fits(i));
            }
            assert forall|i: int| 0 <= i < self.layers() implies stepped(
                old(self).weights()[i],
                g.weights()[i],
                rate,
                #[trigger] self.weights()[i],
            ) && stepped(old(self).biases()[i], g.biases()[i], rate, self.biases()[i]) by {
                assert(stepped(old(self).ws@[i], g.ws@[i], rate, self.ws@[i]));
            }
            assert forall|i: int| 0 <= i < self.layers() implies (
            #[trigger] self.weights()[i]).same_shape(&old(self).weights()[i])
                && self.biases()[i].same_shape(&old(self).biases()[i]) by {
                assert(stepped(old(self).ws@[i], g.ws@[i], rate, self.ws@[i]));
            }
            assert(old(self).same_arch(self));
            assert(learned(*old(self), *g, rate, *self));
        }
    }

    /// Replaces every weight by `f` of it, layer by layer, each in row-major
    /// order; this is how a network gets fresh random weights.
    pub fn apply_weights<F: Fn(T) -> T>(&mut self, f: F)
        requires
            old(self).wf(),
            forall|x: T| f.requires((x,)),
        ensures
            final(self).wf(),
            old(self).same_arch(final(self)),
            final(self).acts() == old(self).acts(),
            final(self).biases() == old(self).biases(),
            final(self).shows_inputs() == old(self).shows_inputs(),
            forall|l: int, k: int|
                0 <= l < old(self).layers() && 0 <= k < old(self).weights()[l].es@.len()
                    ==> f.ensures((old(self).weights()[l].es@[k],), #[trigger] final(self).weights()[l].es@[k]),
    {
        let count = self.count;
        let mut l: usize = 0;
        while l < count
            invariant
                forall|x: T| f.requires((x,)),
                count == self.count,
                l <= count,
                old(self).wf(),
                self.count == old(self).count,
                self.ws@.len() == count,
                self.bs == old(self).bs,
                self.a == old(self).a,
                self.fmt_inputs == old(self).fmt_inputs,
                forall|i: int| l <= i < count ==> #[trigger] self.ws@[i] == old(self).ws@[i],
                forall|i: int|
                    0 <= i < l ==> (#[trigger] self.ws@[i]).same_shape(&old(self).ws@[i])
                        && self.ws@[i].es@.len() == old(self).ws@[i].es@.len(),
                forall|i: int, k: int|
                    0 <= i < l && 0 <= k < old(self).ws@[i].es@.len() ==> f.ensures(
                        (old(self).ws@[i].es@[k],),
                        #[trigger] self.ws@[i].es@[k],
                    ),
            decreases count - l,
        {
            let ghost before = *self;
            self.ws[l].apply_all(&f);
            proof {
                assert forall|i: int| l < i < count implies #[trigger] self.ws@[i] == old(self).ws@[i] by {
                    assert(self.ws@[i] == before.ws@[i]);
                }
                assert forall|i: int, k: int|
                    0 <= i < l + 1 && 0 <= k < old(self).ws@[i].es@.len() implies f.ensures(
                    (old(self).ws@[i].es@[k],),
                    #[trigger] self.ws@[i].es@[k],
                ) by {
                    if i < l {
                        assert(self.ws@[i] == before.ws@[i]);
                    }
                }
            }
            l = l + 1;
        }
        proof {
            assert forall|i: int| 0 <= i < self.layers() implies #[trigger] self.layer_fits(i) by {
                assert(old(self).layer_fits(i));
            }
        }
    }

    /// Replaces every bias by `f` of it, layer by layer.
    pub fn apply_biases<F: Fn(T) -> T>(&mut self, f: F)
        requires
            old(self).wf(),
            forall|x: T| f.requires((x,)),
        ensures
            final(self).wf(),
            old(self).same_arch(final(self)),
            final(self).acts() == old(self).acts(),
            final(self).weights() == old(self).weights(),
            final(self).shows_inputs() == old(self).shows_inputs(),
            forall|l: int, k: int|
                0 <= l < old(self).layers() && 0 <= k < old(self).biases()[l].es@.len()
                    ==> f.ensures((old(self).biases()[l].es@[k],), #[trigger] final(self).biases()[l].es@[k]),
    {
        let count = self.count;
        let mut l: usize = 0;
        while l < count
            invariant
                forall|x: T| f.requires((x,)),
                count == self.count,
                l <= count,
                old(self).wf(),
                self.count == old(self).count,
                self.bs@.len() == count,
                self.ws == old(self).ws,
                self.a == old(self).a,
                self.fmt_inputs == old(self).fmt_inputs,
                forall|i: int| l <= i < count ==> #[trigger] self.bs@[i] == old(self).bs@[i],
                forall|i: int|
                    0 <= i < l ==> (#[trigger] self.bs@[i]).same_shape(&old(self).bs@[i])
                        && self.bs@[i].es@.len() == old(self).bs@[i].es@.len(),
                forall|i: int, k: int|
                    0 <= i < l && 0 <= k < old(self).bs@[i].es@.len() ==> f.ensures(
                        (old(self).bs@[i].es@[k],),
                        #[trigger] self.bs@[i].es@[k],
                    ),
            decreases count - l,
        {
            let ghost before = *self;
            self.bs[l].apply_all(&f);
            proof {
                assert forall|i: int| l < i < count implies #[trigger] self.bs@[i] == old(self).bs@[i] by {
                    assert(self.bs@[i] == before.bs@[i]);
                }
                assert forall|i: int, k: int|
                    0 <= i < l + 1 && 0 <= k < old(self).bs@[i].es@.len() implies f.ensures(
                    (old(self).bs@[i].es@[k],),
                    #[trigger] self.bs@[i].es@[k],
                ) by {
                    if i < l {
                        assert(self.bs@[i] == before.bs@[i]);
                    }
                }
            }
            l = l + 1;
        }
        proof {
            assert forall|i: int| 0 <= i < self.layers() implies #[trigger] self.layer_fits(i) by {
                assert(old(self).layer_fits(i));
            }
        }
    }

    /// Sets every weight and bias to `v`; the activations are kept.
    pub fn fill(&mut self, v: T)
        requires
            old(self).wf(),
        ensures
            final(self).wf(),
            old(self).same_arch(final(self)),
            final(self).acts() == old(self).acts(),
            final(self).shows_inputs() == old(self).shows_inputs(),
            forall|l: int|
                0 <= l < old(self).layers() ==> (#[trigger] final(self).weights()[l]).es@
                    == Seq::new(old(self).weights()[l].es@.len(), |_i: int| v)
                    && final(self).biases()[l].es@ == Seq::new(
                    old(self).biases()[l].es@.len(),
                    |_i: int| v,
                ),
    {
        let count = self.count;
        let mut l: usize = 0;
        while l < count
            invariant
                count == self.count,
                l <= count,
                old(self).wf(),
                self.count == old(self).count,
                self.ws@.len() == count && self.bs@.len() == count,
                self.a == old(self).a,
                self.fmt_inputs == old(self).fmt_inputs,
                forall|i: int|
                    l <= i < count ==> #[trigger] self.ws@[i] == old(self).ws@[i] && self.bs@[i]
                        == old(self).bs@[i],
                forall|i: int|
                    0 <= i < l ==> {
                        let w = #[trigger] self.ws@[i];
                        let b = self.bs@[i];
                        &&& w.same_shape(&old(self).ws@[i])
                        &&& b.same_shape(&old(self).bs@[i])
                        &&& w.es@ == Seq::new(old(self).ws@[i].es@.len(), |_k: int| v)
                        &&& b.es@ == Seq::new(old(self).bs@[i].es@.len(), |_k: int| v)
                    },
            decreases count - l,
        {
            let ghost before = *self;
            self.ws[l].fill(v);
            self.bs[l].fill(v);
            proof {
                assert forall|i: int| l < i < count implies #[trigger] self.ws@[i] == old(self).ws@[i]
                    && self.bs@[i] == old(self).bs@[i] by {
                    assert(self.ws@[i] == before.ws@[i]);
                    assert(self.bs@[i] == before.bs@[i]);
                }
            }
            l = l + 1;
        }
        proof {
            assert forall|i: int| 0 <= i < self.layers() implies #[trigger] self.layer_fits(i) by {
                assert(old(self).layer_fits(i));
            }
        }
    }

    /// `self` with every weight and bias set to `v`.
    pub fn filled_with(self, v: T) -> (nn: Self)
        requires
            self.wf(),
        ensures
            nn.wf(),
            self.same_arch(&nn),
            nn.acts() == self.acts(),
            forall|l: int|
                0 <= l < self.layers() ==> (#[trigger] nn.weights()[l]).es@ == Seq::new(
                    self.weights()[l].es@.len(),
                    |_i: int| v,
                ) && nn.biases()[l].es@ == Seq::new(self.biases()[l].es@.len(), |_i: int| v),
    {
        let mut nn = self;
        nn.fill(v);
        nn
    }

    /// `self`, printed with its activation rows when `enable` holds.
    pub fn fmt_inputs(self, enable: bool) -> (nn: Self)
        ensures
            nn.layers() == self.layers(),
            nn.weights() == self.weights(),
            nn.biases() == self.biases(),
            nn.acts() == self.acts(),
            nn.shows_inputs() == enable,
    {
        let mut nn = self;
        nn.fmt_inputs = enable;
        nn
    }
}

/// `act` gives one result for each argument.
pub open spec fn deterministic<T, F: Fn(T) -> T>(act: F) -> bool {
    forall|x: T, y1: T, y2: T|
        #[trigger] act.ensures((x,), y1) && #[trigger] act.ensures((x,), y2) ==> y1 == y2
}

/// Matrices with the same shape and the same values have the same dot
/// products.
proof fn lemma_dot_acc_same_values<T: Num>(
    a1: Mat<T>,
    b1: Mat<T>,
    a2: Mat<T>,
    b2: Mat<T>,
    i: int,
    j: int,
    n: nat,
)
    requires
        a1.same_shape(&a2) && a1.es@ == a2.es@,
        b1.same_shape(&b2) && b1.es@ == b2.es@,
    ensures
        dot_acc(a1, b1, i, j, n) == dot_acc(a2, b2, i, j, n),
    decreases n,
{
    if n > 0 {
        lemma_dot_acc_same_values(a1, b1, a2, b2, i, j, (n - 1) as nat);
    }
}

/// Two forward passes with the same parameters from the same input agree on
/// the first `l + 1` activation rows.
proof fn lemma_forward_agrees_upto<T: Num, F: Fn(T) -> T>(
    nn1: NN<T>,
    nn2: NN<T>,
    act: F,
    l: int,
)
    requires
        exact::<T>(),
        deterministic(act),
        nn1.wf(),
        nn2.wf(),
        nn1.same_arch(&nn2),
        nn1.same_params(&nn2),
        nn2.acts()[0].es@ == nn1.acts()[0].es@,
        forall|k: int|
            0 <= k < nn1.layers() ==> is_layer_output(
                #[trigger] nn1.acts()[k + 1],
                nn1.acts()[k],
                nn1.weights()[k],
                nn1.biases()[k],
                act,
            ),
        forall|k: int|
            0 <= k < nn2.layers() ==> is_layer_output(
                #[trigger] nn2.acts()[k + 1],
                nn2.acts()[k],
                nn2.weights()[k],
                nn2.biases()[k],
                act,
            ),
        0 <= l <= nn1.layers(),
    ensures
        forall|k: int| 0 <= k <= l ==> (#[trigger] nn2.acts()[k]).es@ == nn1.acts()[k].es@,
    decreases l,
{
    if l > 0 {
        let p = l - 1;
        lemma_forward_agrees_upto(nn1, nn2, act, p);
        let w = nn1.weights()[p];
        let b = nn1.biases()[p];
        assert(nn1.layer_fits(p));
        assert(is_layer_output(nn1.acts()[p + 1], nn1.acts()[p], w, b, act));
        assert(is_layer_output(
            nn2.acts()[p + 1],
            nn2.acts()[p],
            nn2.weights()[p],
            nn2.biases()[p],
            act,
        ));
        assert(views(nn2.weights())[p] == views(nn1.weights())[p]);
        assert(views(nn2.biases())[p] == views(nn1.biases())[p]);
        assert(nn2.biases()[p].es@ == b.es@);
        assert(nn2.weights()[p].es@ == w.es@);
        assert forall|j: int| 0 <= j < w.cols implies nn2.acts()[l].es@[j] == nn1.acts()[l].es@[j]
            by {
            lemma_dot_acc_same_values(
                nn1.acts()[p],
                w,
                nn2.acts()[p],
                nn2.weights()[p],
                0,
                j,
                nn1.acts()[p].cols as nat,
            );
            assert(b.at(0, j) == nn2.biases()[p].at(0, j));
            assert(pre_act(nn1.acts()[p], w, b, j) == pre_act(
                nn2.acts()[p],
                nn2.weights()[p],
                nn2.biases()[p],
                j,
            ));
        }
        assert(nn2.acts()[l].es@ =~= nn1.acts()[l].es@);
    }
}

/// A second forward pass, with the input and the parameters left as they
/// were, computes the activations of the first one again, so the output is
/// the same (for exact arithmetic and an activation with one result per
/// argument).
pub proof fn lemma_forward_idempotent<T: Num, F: Fn(T) -> T>(
    nn0: NN<T>,
    nn1: NN<T>,
    nn2: NN<T>,
    act: F,
)
    requires
        exact::<T>(),
        deterministic(act),
        forwarded(nn0, nn1, act),
        forwarded(nn1, nn2, act),
    ensures
        forall|l: int|
            0 <= l <= nn1.layers() ==> (#[trigger] nn2.acts()[l]).es@ == nn1.acts()[l].es@,
        nn2.acts()[nn2.layers() as int].es@ == nn1.acts()[nn1.layers() as int].es@,
{
    lemma_forward_agrees_upto(nn1, nn2, act, nn1.layers() as int);
}

} // verus!

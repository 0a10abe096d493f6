//! Training examples: fixed-length windows over an id stream, and batches
//! of them.

use crate::tokenizer::{Tokenizer, TokenizerError};
use vstd::arithmetic::div_mod::{lemma_fundamental_div_mod, lemma_mod_pos_bound};
use vstd::arithmetic::mul::{lemma_mul_inequality, lemma_mul_is_commutative};
use vstd::prelude::*;
use vstd::slice::{slice_subrange, slice_to_vec};

verus! {

/// One example: a window of ids and the same window one position later.
pub struct GPTDatasetItem {
    pub input_ids: Vec<usize>,
    pub target_ids: Vec<usize>,
}

impl View for GPTDatasetItem {
    type V = (Seq<usize>, Seq<usize>);

    open spec fn view(&self) -> (Seq<usize>, Seq<usize>) {
        (self.input_ids@, self.target_ids@)
    }
}

pub open spec fn item_views(v: Seq<GPTDatasetItem>) -> Seq<(Seq<usize>, Seq<usize>)> {
    v.map_values(|it: GPTDatasetItem| it@)
}

/// How many windows of length `l`, taken every `s` ids, fit in `n` ids with
/// their target: none where `n <= l`.
pub open spec fn window_count(n: int, l: int, s: int) -> int {
    if n > l {
        (n - l - 1) / s + 1
    } else {
        0
    }
}

/// The examples of `ids`: the `k`-th starts at `k * s`, its input is the
/// next `l` ids and its target the `l` ids one position later.
pub open spec fn windows(ids: Seq<usize>, l: int, s: int) -> Seq<(Seq<usize>, Seq<usize>)> {
    Seq::new(
        window_count(ids.len() as int, l, s) as nat,
        |k: int| (ids.subrange(k * s, k * s + l), ids.subrange(k * s + 1, k * s + l + 1)),
    )
}

/// A window starts at `k * s` exactly when its target still fits: for
/// `k < window_count` and for no later `k`.
pub proof fn lemma_window_fits(n: int, l: int, s: int, k: int)
    requires
        l >= 1,
        s >= 1,
        k >= 0,
    ensures
        k < window_count(n, l, s) <==> k * s + l < n,
{
    if n > l {
        let q = (n - l - 1) / s;
        lemma_fundamental_div_mod(n - l - 1, s);
        lemma_mod_pos_bound(n - l - 1, s);
        lemma_mul_is_commutative(s, q);
        if k <= q {
            lemma_mul_inequality(k, q, s);
        } else {
            lemma_mul_inequality(q + 1, k, s);
            assert((q + 1) * s == q * s + s) by (nonlinear_arith);
        }
    } else {
        assert(k * s >= 0) by (nonlinear_arith)
            requires
                k >= 0,
                s >= 1,
        ;
    }
}

/// The examples of `token_ids` for window length `max_length` and stride
/// `stride`, in order of their start.
pub fn generate(token_ids: &Vec<usize>, max_length: usize, stride: usize) -> (r: Vec<GPTDatasetItem>)
    requires
        max_length >= 1,
        stride >= 1,
    ensures
        item_views(r@) == windows(token_ids@, max_length as int, stride as int),
{
    let ghost w = windows(token_ids@, max_length as int, stride as int);
    let n = token_ids.len();
    let mut out: Vec<GPTDatasetItem> = Vec::new();
    if n <= max_length {
        assert(item_views(out@) =~= w);
        return out;
    }
    let count = (n - max_length - 1) / stride + 1;
    let mut k: usize = 0;
    while k < count
        invariant
            n == token_ids@.len(),
            n > max_length >= 1,
            stride >= 1,
            count == window_count(n as int, max_length as int, stride as int),
            w == windows(token_ids@, max_length as int, stride as int),
            k <= count,
            item_views(out@) == w.subrange(0, k as int),
        decreases count - k,
    {
        proof {
            lemma_window_fits(n as int, max_length as int, stride as int, k as int);
        }
        let i = k * stride;
        let slice = token_ids.as_slice();
        let input_ids = slice_to_vec(slice_subrange(slice, i, i + max_length));
        let target_ids = slice_to_vec(slice_subrange(slice, i + 1, i + max_length + 1));
        let ghost before = item_views(out@);
        out.push(GPTDatasetItem { input_ids, target_ids });
        assert(item_views(out@) =~= before.push(w[k as int]));
        assert(w.subrange(0, k + 1) =~= w.subrange(0, k as int).push(w[k as int]));
        k += 1;
    }
    assert(w.subrange(0, k as int) =~= w);
    out
}

/// The examples of one text, held in memory.
pub struct GPTDatasetV1 {
    dataset: Vec<GPTDatasetItem>,
}

impl View for GPTDatasetV1 {
    type V = Seq<(Seq<usize>, Seq<usize>)>;

    closed spec fn view(&self) -> Seq<(Seq<usize>, Seq<usize>)> {
        item_views(self.dataset@)
    }
}

fn copy_item(item: &GPTDatasetItem) -> (r: GPTDatasetItem)
    ensures
        r@ == item@,
{
    GPTDatasetItem {
        input_ids: slice_to_vec(item.input_ids.as_slice()),
        target_ids: slice_to_vec(item.target_ids.as_slice()),
    }
}

impl GPTDatasetV1 {
    /// Encodes `txt` and cuts the ids into examples; an encoding failure is
    /// reported.
    pub fn new_from_text<T: Tokenizer>(
        txt: String,
        tokenizer: &T,
        max_length: usize,
        stride: usize,
    ) -> (r: Result<Self, TokenizerError>)
        requires
            max_length >= 1,
            stride >= 1,
        ensures
            match tokenizer.encoding(txt@) {
                Ok(ids) => r matches Ok(d) && d@ == windows(
                    ids,
                    max_length as int,
                    stride as int,
                ),
                Err(e) => r matches Err(e2) && e2 == e,
            },
    {
        match tokenizer.encode(txt) {
            Ok(token_ids) => Ok(GPTDatasetV1 { dataset: generate(&token_ids, max_length, stride) }),
            Err(e) => Err(e),
        }
    }

    /// The example at `index`, if there is one.
    pub fn get(&self, index: usize) -> (r: Option<GPTDatasetItem>)
        ensures
            index < self@.len() ==> (r matches Some(it) && it@ == self@[index as int]),
            index >= self@.len() ==> r is None,
    {
        if index < self.dataset.len() {
            Some(copy_item(&self.dataset[index]))
        } else {
            None
        }
    }

    /// The number of examples.
    pub fn len(&self) -> (r: usize)
        ensures
            r == self@.len(),
    {
        self.dataset.len()
    }
}

/// Every example has the length `l` for input and target, each target is its
/// input shifted by one, and the target's last id is the one that follows
/// the window in the stream.
pub proof fn lemma_window_shift(ids: Seq<usize>, l: int, s: int)
    requires
        l >= 1,
        s >= 1,
    ensures
        forall|j: int|
            0 <= j < windows(ids, l, s).len() ==> {
                let (input, target) = #[trigger] windows(ids, l, s)[j];
                &&& input.len() == l
                &&& target.len() == l
                &&& forall|k: int| 0 <= k < l - 1 ==> target[k] == input[k + 1]
                &&& target[l - 1] == ids[j * s + l]
            },
{
    assert forall|j: int| 0 <= j < windows(ids, l, s).len() implies {
        let (input, target) = #[trigger] windows(ids, l, s)[j];
        &&& input.len() == l
        &&& target.len() == l
        &&& forall|k: int| 0 <= k < l - 1 ==> target[k] == input[k + 1]
        &&& target[l - 1] == ids[j * s + l]
    } by {
        lemma_window_fits(ids.len() as int, l, s, j);
        assert(j * s >= 0) by (nonlinear_arith)
            requires
                j >= 0,
                s >= 1,
        ;
    }
}

/// Why examples could not be stacked.
#[derive(Debug, Clone, Copy, PartialEq, Eq, Structural)]
pub enum BatchError {
    /// The examples of one batch differ in length.
    InconsistentShape,
}

/// Examples stacked into two arrays, one row per example.
pub struct Batch {
    pub input_ids: Vec<Vec<usize>>,
    pub target_ids: Vec<Vec<usize>>,
}

pub open spec fn rows_view(v: Seq<Vec<usize>>) -> Seq<Seq<usize>> {
    v.map_values(|r: Vec<usize>| r@)
}

impl View for Batch {
    type V = (Seq<Seq<usize>>, Seq<Seq<usize>>);

    open spec fn view(&self) -> (Seq<Seq<usize>>, Seq<Seq<usize>>) {
        (rows_view(self.input_ids@), rows_view(self.target_ids@))
    }
}

/// All inputs and targets of `g` have the length of the first input.
pub open spec fn uniform(g: Seq<(Seq<usize>, Seq<usize>)>) -> bool {
    forall|i: int|
        0 <= i < g.len() ==> (#[trigger] g[i]).0.len() == g[0].0.len() && g[i].1.len()
            == g[0].0.len()
}

/// The inputs of `g` as rows, and its targets as rows.
pub open spec fn stacked(g: Seq<(Seq<usize>, Seq<usize>)>) -> (Seq<Seq<usize>>, Seq<Seq<usize>>) {
    (
        g.map_values(|p: (Seq<usize>, Seq<usize>)| p.0),
        g.map_values(|p: (Seq<usize>, Seq<usize>)| p.1),
    )
}

/// Stacks examples into a batch.
pub struct GPTDatasetBatcher {}

impl GPTDatasetBatcher {
    /// Stacks `items` into one batch; `InconsistentShape` where they differ
    /// in length.
    pub fn batch(&self, items: Vec<GPTDatasetItem>) -> (r: Result<Batch, BatchError>)
        ensures
            uniform(item_views(items@)) ==> (r matches Ok(b) && b@ == stacked(item_views(items@))),
            !uniform(item_views(items@)) ==> r == Err::<Batch, BatchError>(
                BatchError::InconsistentShape,
            ),
    {
        let ghost g = item_views(items@);
        let mut input_ids: Vec<Vec<usize>> = Vec::new();
        let mut target_ids: Vec<Vec<usize>> = Vec::new();
        let mut k: usize = 0;
        while k < items.len()
            invariant
                g == item_views(items@),
                k <= items@.len(),
                forall|i: int| 0 <= i < k ==> (#[trigger] g[i]).0.len() == g[0].0.len() && g[i].1.len() == g[0].0.len(),
                rows_view(input_ids@) == stacked(g).0.subrange(0, k as int),
                rows_view(target_ids@) == stacked(g).1.subrange(0, k as int),
            decreases items@.len() - k,
        {
            let width = items[0].input_ids.len();
            assert(g[k as int] == items@[k as int]@);
            assert(g[0] == items@[0]@);
            if items[k].input_ids.len() != width || items[k].target_ids.len() != width {
                assert(!((g[k as int]).0.len() == g[0].0.len() && g[k as int].1.len() == g[0].0.len()));
                assert(!uniform(g));
                return Err(BatchError::InconsistentShape);
            }
            let ghost ib = rows_view(input_ids@);
            let ghost tb = rows_view(target_ids@);
            input_ids.push(slice_to_vec(items[k].input_ids.as_slice()));
            target_ids.push(slice_to_vec(items[k].target_ids.as_slice()));
            assert(rows_view(input_ids@) =~= ib.push(g[k as int].0));
            assert(rows_view(target_ids@) =~= tb.push(g[k as int].1));
            assert(stacked(g).0.subrange(0, k + 1) =~= stacked(g).0.subrange(0, k as int).push(
                g[k as int].0,
            ));
            assert(stacked(g).1.subrange(0, k + 1) =~= stacked(g).1.subrange(0, k as int).push(
                g[k as int].1,
            ));
            k += 1;
        }
        assert(stacked(g).0.subrange(0, k as int) =~= stacked(g).0);
        assert(stacked(g).1.subrange(0, k as int) =~= stacked(g).1);
        Ok(Batch { input_ids, target_ids })
    }
}

/// The number of batches of size `b` over `n` examples: a short last one is
/// dropped or kept.
pub open spec fn batch_count(n: int, b: int, drop_incomplete: bool) -> int {
    if drop_incomplete || n % b == 0 {
        n / b
    } else {
        n / b + 1
    }
}

/// The examples of the `j`-th batch: a run of `b` from `j * b` on, shorter
/// only at the end.
pub open spec fn group(xs: Seq<(Seq<usize>, Seq<usize>)>, b: int, j: int) -> Seq<(Seq<usize>, Seq<usize>)> {
    let start = j * b;
    let end = if xs.len() - start < b {
        xs.len() as int
    } else {
        start + b
    };
    xs.subrange(start, end)
}

/// Collation: the batches in order, or `InconsistentShape` where the
/// examples of one batch differ in length.
pub open spec fn collation(xs: Seq<(Seq<usize>, Seq<usize>)>, b: int, drop_incomplete: bool) -> Result<
    Seq<(Seq<Seq<usize>>, Seq<Seq<usize>>)>,
    BatchError,
> {
    let count = batch_count(xs.len() as int, b, drop_incomplete);
    if forall|j: int| 0 <= j < count ==> uniform(#[trigger] group(xs, b, j)) {
        Ok(Seq::new(count as nat, |j: int| stacked(group(xs, b, j))))
    } else {
        Err(BatchError::InconsistentShape)
    }
}

pub open spec fn batch_views(v: Seq<Batch>) -> Seq<(Seq<Seq<usize>>, Seq<Seq<usize>>)> {
    v.map_values(|x: Batch| x@)
}

/// A batch starts inside the examples, for every batch counted.
proof fn lemma_group_start(n: int, b: int, drop_incomplete: bool, j: int)
    requires
        n >= 0,
        b >= 1,
        0 <= j < batch_count(n, b, drop_incomplete),
    ensures
        0 <= j * b < n,
        (j + 1) * b <= n || (!drop_incomplete && j == n / b),
{
    let q = n / b;
    lemma_fundamental_div_mod(n, b);
    lemma_mod_pos_bound(n, b);
    lemma_mul_is_commutative(b, q);
    lemma_mul_inequality(j, q, b);
    assert(j * b >= 0) by (nonlinear_arith)
        requires
            j >= 0,
            b >= 1,
    ;
    if j < q {
        lemma_mul_inequality(j + 1, q, b);
    }
    assert((j + 1) * b == j * b + b) by (nonlinear_arith);
}

/// Groups `items` into consecutive batches of `batch_size` in order; a
/// short last group is dropped where `drop_incomplete` is set.
pub fn collate(items: &Vec<GPTDatasetItem>, batch_size: usize, drop_incomplete: bool) -> (r: Result<
    Vec<Batch>,
    BatchError,
>)
    requires
        batch_size >= 1,
    ensures
        match r {
            Ok(bs) => collation(item_views(items@), batch_size as int, drop_incomplete) == Ok::<
                _,
                BatchError,
            >(batch_views(bs@)),
            Err(e) => collation(item_views(items@), batch_size as int, drop_incomplete) == Err::<
                Seq<(Seq<Seq<usize>>, Seq<Seq<usize>>)>,
                BatchError,
            >(e),
        },
{
    let ghost xs = item_views(items@);
    let n = items.len();
    proof {
        lemma_fundamental_div_mod(n as int, batch_size as int);
        lemma_mod_pos_bound(n as int, batch_size as int);
        if n % batch_size != 0 {
            assert(batch_size * (n / batch_size) >= n / batch_size) by (nonlinear_arith)
                requires
                    batch_size >= 1,
                    n / batch_size >= 0,
            ;
        }
    }
    let count = if drop_incomplete || n % batch_size == 0 {
        n / batch_size
    } else {
        n / batch_size + 1
    };
    let batcher = GPTDatasetBatcher {};
    let mut out: Vec<Batch> = Vec::new();
    let mut j: usize = 0;
    while j < count
        invariant
            xs == item_views(items@),
            n == items@.len(),
            batch_size >= 1,
            count == batch_count(n as int, batch_size as int, drop_incomplete),
            j <= count,
            forall|i: int| 0 <= i < j ==> uniform(#[trigger] group(xs, batch_size as int, i)),
            batch_views(out@) == Seq::new(
                j as nat,
                |i: int| stacked(group(xs, batch_size as int, i)),
            ),
        decreases count - j,
    {
        proof {
            lemma_group_start(n as int, batch_size as int, drop_incomplete, j as int);
        }
        let start = j * batch_size;
        let end = if n - start < batch_size {
            n
        } else {
            start + batch_size
        };
        let mut members: Vec<GPTDatasetItem> = Vec::new();
        let mut m: usize = start;
        while m < end
            invariant
                start <= m <= end <= n,
                n == items@.len(),
                item_views(members@) == item_views(items@).subrange(start as int, m as int),
            decreases end - m,
        {
            let ghost before = item_views(members@);
            assert(item_views(items@)[m as int] == items@[m as int]@);
            let c = copy_item(&items[m]);
            members.push(c);
            assert(item_views(members@) =~= before.push(c@));
            assert(item_views(items@).subrange(start as int, m + 1) =~= item_views(items@).subrange(
                start as int,
                m as int,
            ).push(item_views(items@)[m as int]));
            m += 1;
        }
        assert(item_views(members@) == group(xs, batch_size as int, j as int));
        match batcher.batch(members) {
            Ok(b) => {
                let ghost before = batch_views(out@);
                assert(uniform(group(xs, batch_size as int, j as int)));
                assert(b@ == stacked(group(xs, batch_size as int, j as int)));
                out.push(b);
                assert(batch_views(out@) =~= before.push(b@));
                assert(batch_views(out@) =~= Seq::new(
                    (j + 1) as nat,
                    |i: int| stacked(group(xs, batch_size as int, i)),
                ));
            },
            Err(e) => {
                assert(!uniform(group(xs, batch_size as int, j as int)));
                return Err(e);
            },
        }
        j += 1;
    }
    Ok(out)
}

/// The `j`-th of the batches of size `b` over `n` examples has one row per
/// example for inputs and for targets, each of length `l`, and `b` rows
/// wherever enough examples remain (always, when a short last batch is
/// dropped).
pub open spec fn well_shaped(
    batch: (Seq<Seq<usize>>, Seq<Seq<usize>>),
    j: int,
    n: int,
    l: int,
    b: int,
    drop_incomplete: bool,
) -> bool {
    &&& batch.0.len() == batch.1.len()
    &&& ((j + 1) * b <= n ==> batch.0.len() == b)
    &&& (drop_incomplete ==> batch.0.len() == b)
    &&& forall|i: int|
        0 <= i < batch.0.len() ==> (#[trigger] batch.0[i]).len() == l && batch.1[i].len() == l
}

/// Batches of examples cut from one id stream always stack, and each is
/// well shaped: `b` rows of length `l` for inputs and for targets wherever
/// enough examples remain.
pub proof fn lemma_batch_shape(ids: Seq<usize>, l: int, s: int, b: int, drop_incomplete: bool)
    requires
        l >= 1,
        s >= 1,
        b >= 1,
    ensures
        collation(windows(ids, l, s), b, drop_incomplete) is Ok,
        collation(windows(ids, l, s), b, drop_incomplete)->Ok_0.len() == batch_count(
            windows(ids, l, s).len() as int,
            b,
            drop_incomplete,
        ),
        forall|j: int|
            0 <= j < collation(windows(ids, l, s), b, drop_incomplete)->Ok_0.len() ==> well_shaped(
                #[trigger] collation(windows(ids, l, s), b, drop_incomplete)->Ok_0[j],
                j,
                windows(ids, l, s).len() as int,
                l,
                b,
                drop_incomplete,
            ),
{
    let xs = windows(ids, l, s);
    let n = xs.len() as int;
    let count = batch_count(n, b, drop_incomplete);
    lemma_window_shift(ids, l, s);
    assert forall|j: int| 0 <= j < count implies uniform(#[trigger] group(xs, b, j)) by {
        lemma_group_start(n, b, drop_incomplete, j);
        let g = group(xs, b, j);
        assert forall|i: int| 0 <= i < g.len() implies (#[trigger] g[i]).0.len() == l && g[i].1.len() == l by {
            assert(g[i] == xs[j * b + i]);
            assert(xs[j * b + i] == windows(ids, l, s)[j * b + i]);
        }
        if g.len() > 0 {
            assert(g[0].0.len() == l);
        }
    }
    let r = collation(xs, b, drop_incomplete);
    assert(r is Ok);
    assert(r->Ok_0.len() == count);
    assert forall|j: int| 0 <= j < r->Ok_0.len() implies well_shaped(
        #[trigger] r->Ok_0[j],
        j,
        n,
        l,
        b,
        drop_incomplete,
    ) by {
        lemma_group_start(n, b, drop_incomplete, j);
        let g = group(xs, b, j);
        assert(uniform(g));
        assert(r->Ok_0[j] == stacked(g));
        assert((j + 1) * b == j * b + b) by (nonlinear_arith);
        assert forall|i: int| 0 <= i < g.len() implies (#[trigger] g[i]).0.len() == l && g[i].1.len() == l by {
            assert(g[i] == xs[j * b + i]);
            assert(xs[j * b + i] == windows(ids, l, s)[j * b + i]);
        }
    }
}

} // verus!

//! Cutting the samples of a rollout into minibatches.

use burn::backend::NdArray;
use burn::tensor::{Distribution, Tensor};
use vstd::prelude::*;

verus! {

/// Each of the first `n` numbers occurs once.
pub open spec fn is_permutation(indices: Seq<i64>, n: nat) -> bool {
    &&& indices.len() == n
    &&& forall|i: int| 0 <= i < n ==> 0 <= #[trigger] indices[i] < n
    &&& indices.no_duplicates()
}

/// The number of minibatches of `size` samples, the last of which may be smaller.
pub open spec fn batch_count(n: nat, size: nat) -> nat {
    if n % size == 0 {
        n / size
    } else {
        n / size + 1
    }
}

/// Where minibatch `k` starts.
pub open spec fn batch_start(n: nat, size: nat, k: int) -> int {
    if k * size < n {
        k * size
    } else {
        n as int
    }
}

/// The samples of minibatch `k`.
pub open spec fn batch(indices: Seq<i64>, size: nat, k: int) -> Seq<i64> {
    indices.subrange(
        batch_start(indices.len(), size, k),
        batch_start(indices.len(), size, k + 1),
    )
}

/// The numbers from zero to below `n` in a random order.
///
/// Draws a number for each sample with `Tensor::random` and sorts the samples by them with
/// `Tensor::argsort`, both of `burn`. The claim is that what comes back holds each of the numbers once,
/// whatever was drawn; nothing is claimed of their order.
#[verifier::external_body]
fn shuffled(n: usize) -> (indices: Vec<i64>)
    requires
        0 < n,
        8 * n <= isize::MAX,
    ensures
        is_permutation(indices@, n as nat),
{
    let keys = Tensor::<NdArray, 1>::random([n], Distribution::Default, &Default::default());
    keys.argsort(0).into_data().to_vec().unwrap()
}

/// Cuts shuffled samples into minibatches, one after the other.
pub fn cut(indices: &Vec<i64>, size: usize) -> (batches: Vec<Vec<i64>>)
    requires
        size > 0,
    ensures
        batches@.len() == batch_count(indices@.len(), size as nat),
        forall|k: int|
            0 <= k < batches@.len() ==> (#[trigger] batches@[k])@ == batch(
                indices@,
                size as nat,
                k,
            ),
{
    let n = indices.len();
    let mut batches: Vec<Vec<i64>> = Vec::new();
    let mut start: usize = 0;
    proof {
        assert(0 * size == 0);
    }
    while start < n
        invariant
            n == indices@.len(),
            size > 0,
            start <= n,
            start == batch_start(n as nat, size as nat, batches@.len() as int),
            batches@.len() <= batch_count(n as nat, size as nat),
            forall|k: int|
                0 <= k < batches@.len() ==> (#[trigger] batches@[k])@ == batch(
                    indices@,
                    size as nat,
                    k,
                ),
        decreases n - start,
    {
        let ghost k = batches@.len() as int;
        proof {
            lemma_batch_inside(n as nat, size as nat, k);
        }
        let end = if n - start < size {
            n
        } else {
            start + size
        };
        let mut one: Vec<i64> = Vec::new();
        let mut i: usize = start;
        while i < end
            invariant
                n == indices@.len(),
                start <= i <= end <= n,
                one@ =~= indices@.subrange(start as int, i as int),
            decreases end - i,
        {
            one.push(indices[i]);
            i = i + 1;
        }
        batches.push(one);
        start = end;
    }
    proof {
        lemma_batches_end(n as nat, size as nat, batches@.len() as int);
    }
    batches
}

/// A minibatch that starts before the end of the samples is one of them, and it ends a whole size
/// later or at the end.
proof fn lemma_batch_inside(n: nat, size: nat, k: int)
    requires
        size > 0,
        k >= 0,
        batch_start(n, size, k) < n,
    ensures
        batch_start(n, size, k) == k * size,
        batch_start(n, size, k + 1) == if n - k * size < size { n as int } else { k * size + size },
        k < batch_count(n, size),
{
    assert((k + 1) * size == k * size + size) by (nonlinear_arith);
    assert(n as int == (n / size) * size + n % size && 0 <= n % size < size) by (nonlinear_arith)
        requires
            size > 0,
    ;
    let q = (n / size) as int;
    if k >= q {
        assert(k * size >= q * size) by (nonlinear_arith)
            requires
                k >= q,
                size > 0,
        ;
        if k > q {
            assert(k * size >= q * size + size) by (nonlinear_arith)
                requires
                    k >= q + 1,
                    size > 0,
            ;
        }
    }
}

/// The minibatches end with the samples.
proof fn lemma_batches_end(n: nat, size: nat, k: int)
    requires
        size > 0,
        0 <= k <= batch_count(n, size),
        batch_start(n, size, k) == n,
    ensures
        k == batch_count(n, size),
{
    if k < batch_count(n, size) {
        let q = (n / size) as int;
        assert(n as int == q * size + n % size && 0 <= n % size < size) by (nonlinear_arith)
            requires
                q == n / size,
                size > 0,
        ;
        if k < q {
            assert(k * size + size <= q * size) by (nonlinear_arith)
                requires
                    k + 1 <= q,
                    size > 0,
            ;
        }
    }
}

/// The minibatches of one pass over the samples, in a new random order.
pub fn shuffled_minibatches(number_of_samples: usize, size: usize) -> (batches: Vec<Vec<i64>>)
    requires
        0 < number_of_samples,
        8 * number_of_samples <= isize::MAX,
        size > 0,
    ensures
        exists|indices: Seq<i64>|
            {
                &&& #[trigger] is_permutation(indices, number_of_samples as nat)
                &&& batches@.len() == batch_count(number_of_samples as nat, size as nat)
                &&& forall|k: int|
                    0 <= k < batches@.len() ==> (#[trigger] batches@[k])@ == batch(
                        indices,
                        size as nat,
                        k,
                    )
            },
{
    let indices = shuffled(number_of_samples);
    cut(&indices, size)
}

/// Every minibatch has `size` samples but the last, which has between one and `size`.
pub proof fn law_minibatches_are_full_but_the_last(indices: Seq<i64>, size: nat, k: int)
    requires
        size > 0,
        0 <= k < batch_count(indices.len(), size),
    ensures
        k + 1 < batch_count(indices.len(), size) ==> batch(indices, size, k).len() == size,
        0 < batch(indices, size, k).len() <= size,
{
    lemma_batch_bounds(indices.len(), size, k);
    if k + 1 < batch_count(indices.len(), size) {
        lemma_batch_bounds(indices.len(), size, k + 1);
        assert((k + 1) * size == k * size + size) by (nonlinear_arith);
    }
}

/// Where a minibatch starts and ends.
pub proof fn lemma_batch_bounds(n: nat, size: nat, k: int)
    requires
        size > 0,
        0 <= k < batch_count(n, size),
    ensures
        batch_start(n, size, k) == k * size,
        0 <= k * size < n,
        batch_start(n, size, k + 1) == if n - k * size < size { n as int } else { k * size + size },
{
    assert((k + 1) * size == k * size + size) by (nonlinear_arith);
    assert(0 <= k * size) by (nonlinear_arith)
        requires
            k >= 0,
    ;
    let q = (n / size) as int;
    assert(n as int == q * size + n % size && 0 <= n % size < size) by (nonlinear_arith)
        requires
            q == n / size,
            size > 0,
    ;
    if k < q {
        assert(k * size + size <= q * size) by (nonlinear_arith)
            requires
                k + 1 <= q,
                size > 0,
        ;
    }
}

/// Each of the first `n` numbers occurs in a permutation of them.
proof fn lemma_permutation_holds_all(indices: Seq<i64>, n: nat, sample: int) -> (position: int)
    requires
        is_permutation(indices, n),
        0 <= sample < n,
    ensures
        0 <= position < n,
        indices[position] == sample,
{
    let wide = Seq::new(n, |i: int| indices[i] as int);
    assert(wide.no_duplicates());
    wide.unique_seq_to_set();
    vstd::seq_lib::seq_to_set_is_finite(wide);
    vstd::set_lib::lemma_int_range(0, n as int);
    let range = vstd::set_lib::set_int_range(0, n as int);
    assert(wide.to_set().subset_of(range)) by {
        assert forall|x: int| wide.to_set().contains(x) implies range.contains(x) by {
            let i = choose|i: int| 0 <= i < wide.len() && wide[i] == x;
            assert(0 <= indices[i] < n);
        }
    }
    vstd::set_lib::lemma_subset_equality(wide.to_set(), range);
    assert(wide.to_set().contains(sample));
    choose|i: int| 0 <= i < wide.len() && wide[i] == sample
}

/// One pass over shuffled samples uses every sample, in one minibatch and once.
pub proof fn law_every_sample_is_used_once(indices: Seq<i64>, size: nat, sample: int)
    requires
        is_permutation(indices, indices.len()),
        size > 0,
        0 <= sample < indices.len(),
    ensures
        exists|k: int, j: int|
            0 <= k < batch_count(indices.len(), size) && 0 <= j < batch(indices, size, k).len()
                && #[trigger] batch(indices, size, k)[j] == sample,
        forall|k: int, j: int, l: int, m: int|
            {
                &&& 0 <= k < batch_count(indices.len(), size)
                &&& 0 <= j < batch(indices, size, k).len()
                &&& #[trigger] batch(indices, size, k)[j] == sample
                &&& 0 <= l < batch_count(indices.len(), size)
                &&& 0 <= m < batch(indices, size, l).len()
                &&& #[trigger] batch(indices, size, l)[m] == sample
            } ==> k == l && j == m,
{
    let n = indices.len();
    let p = lemma_permutation_holds_all(indices, n, sample);
    let k = p / (size as int);
    let j = p % (size as int);
    assert(p == k * size + j && 0 <= j < size && k >= 0) by (nonlinear_arith)
        requires
            k == p / (size as int),
            j == p % (size as int),
            size > 0,
            p >= 0,
    ;
    lemma_batch_inside(n, size, k);
    assert(batch(indices, size, k)[j] == indices[p]);
    assert forall|k: int, j: int, l: int, m: int|
        {
            &&& 0 <= k < batch_count(indices.len(), size)
            &&& 0 <= j < batch(indices, size, k).len()
            &&& #[trigger] batch(indices, size, k)[j] == sample
            &&& 0 <= l < batch_count(indices.len(), size)
            &&& 0 <= m < batch(indices, size, l).len()
            &&& #[trigger] batch(indices, size, l)[m] == sample
        } implies k == l && j == m by {
        lemma_batch_bounds(n, size, k);
        lemma_batch_bounds(n, size, l);
        assert(batch(indices, size, k)[j] == indices[k * size + j]);
        assert(batch(indices, size, l)[m] == indices[l * size + m]);
        assert(k * size + j == l * size + m);
        assert(k == l && j == m) by (nonlinear_arith)
            requires
                k * size + j == l * size + m,
                0 <= j < size,
                0 <= m < size,
        ;
    }
}

} // verus!

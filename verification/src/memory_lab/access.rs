//! Access patterns over memory: sequential, strided, shuffled and
//! pointer-chasing sums, all with wrapping `u64` arithmetic.
use vstd::prelude::*;

use vstd::arithmetic::div_mod::lemma_add_mod_noop_right;
use vstd::wrapping::u64_specs::wrapping_add;

verus! {

/// `std::hint::black_box`: hands its argument back unchanged, while keeping
/// the optimizer from assuming anything about it.
#[verifier::external_body]
fn opaque(value: u64) -> (r: u64)
    ensures
        r == value,
{
    std::hint::black_box(value)
}

/// The wrapping sum of `values`.
pub open spec fn wrapping_sum(values: Seq<u64>) -> u64
    decreases values.len(),
{
    if values.len() == 0 {
        0
    } else {
        wrapping_add(wrapping_sum(values.drop_last()), values.last())
    }
}

/// The elements of `data` at `indexes`, in order.
pub open spec fn picks(data: Seq<u64>, indexes: Seq<usize>) -> Seq<u64> {
    indexes.map_values(|i: usize| data[i as int])
}

/// The multiples of `stride` below `len`, in increasing order (none for a
/// zero stride).
pub open spec fn is_stride_plan(plan: Seq<usize>, len: int, stride: int) -> bool {
    if stride == 0 {
        plan.len() == 0
    } else {
        &&& forall|k: int| 0 <= k < plan.len() ==> #[trigger] plan[k] == k * stride && plan[k] < len
        &&& plan.len() * stride >= len
    }
}

/// The indexes `0, stride, 2 * stride, ...` below `len` (`(0..len).step_by(stride)`);
/// none for a zero stride.
pub fn stride_indexes(len: usize, stride: usize) -> (r: Vec<usize>)
    ensures
        is_stride_plan(r@, len as int, stride as int),
{
    let mut plan: Vec<usize> = Vec::new();
    if stride == 0 {
        return plan;
    }
    let mut i: usize = 0;
    assert(plan@.len() * stride == 0) by (nonlinear_arith)
        requires
            plan@.len() == 0,
    ;
    while i < len
        invariant
            stride > 0,
            i == plan@.len() * stride,
            forall|k: int| 0 <= k < plan@.len() ==> #[trigger] plan@[k] == k * stride && plan@[k] < len,
            i <= len || plan@.len() * stride >= len,
        decreases len - i,
    {
        plan.push(i);
        proof {
            assert(plan@.len() * stride == (plan@.len() - 1) * stride + stride) by (nonlinear_arith);
        }
        if len - i <= stride {
            assert(plan@.len() * stride >= len);
            return plan;
        }
        i += stride;
    }
    plan
}

/// The wrapping sum of every element, first to last.
pub fn sequential_sum(data: &[u64]) -> (r: u64)
    ensures
        r == wrapping_sum(data@),
{
    let mut sum: u64 = 0;
    let mut k: usize = 0;
    while k < data.len()
        invariant
            k <= data@.len(),
            sum == wrapping_sum(data@.take(k as int)),
        decreases data@.len() - k,
    {
        sum = sum.wrapping_add(opaque(data[k]));
        k += 1;
        assert(data@.take(k as int).drop_last() =~= data@.take(k - 1));
    }
    assert(data@.take(k as int) =~= data@);
    sum
}

/// The wrapping sum of the elements at `indexes`, in order.
pub fn random_index_sum(data: &[u64], indexes: &[usize]) -> (r: u64)
    requires
        forall|k: int| 0 <= k < indexes@.len() ==> #[trigger] indexes@[k] < data@.len(),
    ensures
        r == wrapping_sum(picks(data@, indexes@)),
{
    let mut sum: u64 = 0;
    let mut k: usize = 0;
    while k < indexes.len()
        invariant
            k <= indexes@.len(),
            forall|m: int| 0 <= m < indexes@.len() ==> #[trigger] indexes@[m] < data@.len(),
            sum == wrapping_sum(picks(data@, indexes@.take(k as int))),
        decreases indexes@.len() - k,
    {
        let i = indexes[k];
        sum = sum.wrapping_add(opaque(data[i]));
        k += 1;
        assert(picks(data@, indexes@.take(k as int)).drop_last() =~= picks(data@, indexes@.take(k - 1)));
    }
    assert(indexes@.take(k as int) =~= indexes@);
    sum
}

/// The wrapping sum of the elements at `0, stride, 2 * stride, ...` below the length.
pub fn strided_sum(data: &[u64], stride: usize) -> (r: u64)
    ensures
        exists|plan: Seq<usize>|
            is_stride_plan(plan, data@.len() as int, stride as int) && r == wrapping_sum(
                #[trigger] picks(data@, plan),
            ),
{
    let plan = stride_indexes(data.len(), stride);
    assert forall|k: int| 0 <= k < plan@.len() implies #[trigger] plan@[k] < data@.len() by {
        if stride > 0 {
            assert(plan@[k] == k * stride && plan@[k] < data@.len());
        }
    }
    let r = random_index_sum(data, plan.as_slice());
    assert(is_stride_plan(plan@, data@.len() as int, stride as int));
    r
}

/// The index of visit `k` when walking `stride` steps at a time round a
/// buffer of `len` elements, starting at 0.
pub open spec fn visit_index(len: int, stride: int, k: nat) -> int
    decreases k,
{
    if k == 0 {
        0
    } else {
        (visit_index(len, stride, (k - 1) as nat) + stride) % len
    }
}

/// The fixed-visit strided walk starts at index 0 and visit `k` reads index
/// `k * stride` modulo the length.
pub proof fn visit_index_is_multiple_of_stride(len: int, stride: int, k: nat)
    requires
        len > 0,
        stride >= 0,
    ensures
        visit_index(len, stride, k) == (k * stride) % len,
    decreases k,
{
    if k > 0 {
        visit_index_is_multiple_of_stride(len, stride, (k - 1) as nat);
        let x = (k - 1) * stride;
        lemma_add_mod_noop_right(stride, x, len);
        assert(x + stride == k * stride) by (nonlinear_arith)
            requires
                x == (k - 1) * stride,
        ;
        assert((x % len + stride) % len == (stride + x % len) % len);
        assert((stride + x) % len == (x + stride) % len);
        assert(visit_index(len, stride, k) == (visit_index(len, stride, (k - 1) as nat) + stride) % len);
    } else {
        assert(k * stride == 0) by (nonlinear_arith)
            requires
                k == 0,
        ;
        assert(0int % len == 0);
    }
}

/// What the fixed-visit strided walk reads: `data[(k * stride) % len]` for each
/// visit `k` below `visits`, in order.
pub proof fn visited_are_strided_elements(data: Seq<u64>, stride: int, visits: nat)
    requires
        data.len() > 0,
        stride >= 0,
    ensures
        visited(data, stride, visits) == Seq::new(
            visits,
            |k: int| data[(k * stride) % (data.len() as int)],
        ),
{
    assert forall|k: int| 0 <= k < visits implies #[trigger] visited(data, stride, visits)[k]
        == data[(k * stride) % (data.len() as int)] by {
        visit_index_is_multiple_of_stride(data.len() as int, stride, k as nat);
    }
    assert(visited(data, stride, visits) =~= Seq::new(
        visits,
        |k: int| data[(k * stride) % (data.len() as int)],
    ));
}

/// The elements the first `visits` visits read.
pub open spec fn visited(data: Seq<u64>, stride: int, visits: nat) -> Seq<u64> {
    Seq::new(visits, |k: int| data[visit_index(data.len() as int, stride, k as nat)])
}

/// Reads `visits` elements, stepping `stride` at a time round the buffer
/// from index 0, and returns their wrapping sum; 0 for an empty buffer or a
/// zero stride. The work is `visits` loads whatever the stride. The step to
/// the next index must not overflow a `usize` on any visit.
pub fn strided_sum_fixed_visits(data: &[u64], stride: usize, visits: usize) -> (r: u64)
    requires
        data@.len() == 0 || stride == 0 || forall|k: nat|
            k < visits ==> #[trigger] visit_index(data@.len() as int, stride as int, k) + stride
                <= usize::MAX,
    ensures
        data@.len() == 0 || stride == 0 ==> r == 0,
        data@.len() > 0 && stride > 0 ==> r == wrapping_sum(
            visited(data@, stride as int, visits as nat),
        ),
{
    if data.len() == 0 || stride == 0 {
        return 0;
    }
    let mut sum: u64 = 0;
    let mut index: usize = 0;
    let mut k: usize = 0;
    while k < visits
        invariant
            data@.len() > 0,
            stride > 0,
            forall|j: nat|
                j < visits ==> #[trigger] visit_index(data@.len() as int, stride as int, j) + stride
                    <= usize::MAX,
            k <= visits,
            index == visit_index(data@.len() as int, stride as int, k as nat),
            index < data@.len(),
            sum == wrapping_sum(visited(data@, stride as int, k as nat)),
        decreases visits - k,
    {
        sum = sum.wrapping_add(opaque(data[index]));
        assert(visit_index(data@.len() as int, stride as int, k as nat) + stride <= usize::MAX);
        index = (index + stride) % data.len();
        k += 1;
        assert(visited(data@, stride as int, k as nat).drop_last() =~= visited(
            data@,
            stride as int,
            (k - 1) as nat,
        ));
    }
    sum
}

pub struct Node {
    pub value: u64,
    pub next: Option<Box<Node>>,
}

/// The values of a linked list, head first.
pub open spec fn list_values(list: Option<Box<Node>>) -> Seq<u64>
    decreases list,
{
    match list {
        None => Seq::empty(),
        Some(node) => seq![node.value] + list_values(node.next),
    }
}

/// A linked list holding `0, 1, ..., len - 1`, head first.
pub fn build_list(len: usize) -> (r: Option<Box<Node>>)
    requires
        len <= u64::MAX,
    ensures
        list_values(r) == Seq::new(len as nat, |i: int| i as u64),
{
    let mut head: Option<Box<Node>> = None;
    let mut value: u64 = len as u64;
    assert(list_values(head) =~= Seq::new(0, |i: int| (len - i) as u64));
    while value > 0
        invariant
            value <= len,
            list_values(head) == Seq::new((len - value) as nat, |i: int| (value + i) as u64),
        decreases value,
    {
        value -= 1;
        let ghost rest = list_values(head);
        head = Some(Box::new(Node { value, next: head }));
        assert(list_values(head) =~= Seq::new((len - value) as nat, |i: int| (value + i) as u64));
    }
    assert(list_values(head) =~= Seq::new(len as nat, |i: int| i as u64));
    head
}

/// The wrapping sum of a linked list's values, following the links.
pub fn list_sum(head: &Option<Box<Node>>) -> (r: u64)
    ensures
        r == wrapping_sum(list_values(*head)),
{
    let mut sum: u64 = 0;
    let mut current = head;
    let ghost all = list_values(*head);
    let ghost mut seen: Seq<u64> = Seq::empty();
    while current.is_some()
        invariant
            all == seen + list_values(*current),
            sum == wrapping_sum(seen),
        decreases list_values(*current).len(),
    {
        match current {
            Some(node) => {
                sum = sum.wrapping_add(opaque(node.value));
                proof {
                    assert(seen.push(node.value).drop_last() =~= seen);
                    assert(seen + list_values(*current) =~= seen.push(node.value) + list_values(
                        node.next,
                    ));
                    seen = seen.push(node.value);
                }
                current = &node.next;
            },
            None => {},
        }
    }
    assert(seen + list_values(*current) =~= seen);
    sum
}

/// One xorshift step of the shuffle's generator.
pub open spec fn shuffle_step(state: u64) -> u64 {
    let a = state ^ (state << 7u64);
    a ^ (a >> 9u64)
}

/// `v` with the elements at `i` and `j` exchanged.
pub open spec fn swapped(v: Seq<usize>, i: int, j: int) -> Seq<usize> {
    v.update(i, v[j]).update(j, v[i])
}

/// Fisher-Yates from position `i` down to 1, drawing from the generator state.
pub open spec fn shuffle_from(v: Seq<usize>, i: int, state: u64) -> Seq<usize>
    decreases i,
{
    if i < 1 {
        v
    } else {
        let s = shuffle_step(state);
        let j = (s as usize) as int % (i + 1);
        shuffle_from(swapped(v, i, j), i - 1, s)
    }
}

/// The shuffled indexes of `0..len`.
pub open spec fn shuffled_indexes(len: int) -> Seq<usize> {
    shuffle_from(Seq::new(len as nat, |k: int| k as usize), len - 1, 0x9e37_79b9_7f4a_7c15u64)
}

/// The indexes `0..len` in a fixed pseudo-random order (a Fisher-Yates
/// shuffle driven by xorshift).
pub fn make_shuffled_indexes(len: usize) -> (r: Vec<usize>)
    ensures
        r@ == shuffled_indexes(len as int),
        r@.len() == len,
        forall|k: int| 0 <= k < len ==> #[trigger] r@[k] < len,
        forall|a: int, b: int| 0 <= a < b < len ==> #[trigger] r@[a] != #[trigger] r@[b],
{
    let mut indexes: Vec<usize> = Vec::new();
    let mut k: usize = 0;
    while k < len
        invariant
            k <= len,
            indexes@ == Seq::new(k as nat, |m: int| m as usize),
        decreases len - k,
    {
        indexes.push(k);
        k += 1;
        assert(indexes@ =~= Seq::new(k as nat, |m: int| m as usize));
    }
    let mut state: u64 = 0x9e37_79b9_7f4a_7c15u64;
    if len < 2 {
        return indexes;
    }
    let mut i: usize = len - 1;
    while i >= 1
        invariant
            i < len,
            indexes@.len() == len,
            shuffle_from(indexes@, i as int, state) == shuffled_indexes(len as int),
            forall|m: int| 0 <= m < len ==> #[trigger] indexes@[m] < len,
            forall|a: int, b: int|
                0 <= a < b < len ==> #[trigger] indexes@[a] != #[trigger] indexes@[b],
        decreases i,
    {
        state = state ^ (state << 7u64);
        state = state ^ (state >> 9u64);
        let j = (state as usize) % (i + 1);
        let ghost before = indexes@;
        let a = indexes[i];
        let b = indexes[j];
        indexes.set(i, b);
        indexes.set(j, a);
        assert(indexes@ =~= swapped(before, i as int, j as int));
        proof {
            assert forall|x: int, y: int| 0 <= x < y < len implies #[trigger] indexes@[x]
                != #[trigger] indexes@[y] by {
                let px = if x == i { j as int } else if x == j { i as int } else { x };
                let py = if y == i { j as int } else if y == j { i as int } else { y };
                assert(indexes@[x] == before[px]);
                assert(indexes@[y] == before[py]);
                if px < py {
                    assert(before[px] != before[py]);
                } else {
                    assert(before[py] != before[px]);
                }
            }
        }
        if i == 1 {
            assert(shuffle_from(indexes@, 0, state) == indexes@);
            return indexes;
        }
        i -= 1;
    }
    indexes
}

/// The shuffled indexes are a permutation of `0..len`: every one lies below
/// `len` and no two are equal.
pub proof fn shuffled_indexes_are_distinct(len: nat)
    requires
        len <= usize::MAX,
    ensures
        shuffled_indexes(len as int).len() == len,
        forall|k: int| 0 <= k < len ==> #[trigger] shuffled_indexes(len as int)[k] < len,
        forall|a: int, b: int|
            0 <= a < b < len ==> #[trigger] shuffled_indexes(len as int)[a]
                != #[trigger] shuffled_indexes(len as int)[b],
{
    let v = Seq::new(len, |k: int| k as usize);
    assert forall|a: int, b: int| 0 <= a < b < len implies #[trigger] v[a] != #[trigger] v[b] by {
        assert(v[a] == a && v[b] == b);
    }
    lemma_shuffle_from_keeps(v, len - 1, 0x9e37_79b9_7f4a_7c15u64, len as int);
}

/// A swap shuffle keeps the length, the range and the distinctness of the elements.
proof fn lemma_shuffle_from_keeps(v: Seq<usize>, i: int, state: u64, n: int)
    requires
        v.len() == n,
        i < n,
        forall|m: int| 0 <= m < n ==> #[trigger] v[m] < n,
        forall|a: int, b: int| 0 <= a < b < n ==> #[trigger] v[a] != #[trigger] v[b],
    ensures
        shuffle_from(v, i, state).len() == n,
        forall|m: int| 0 <= m < n ==> #[trigger] shuffle_from(v, i, state)[m] < n,
        forall|a: int, b: int|
            0 <= a < b < n ==> #[trigger] shuffle_from(v, i, state)[a]
                != #[trigger] shuffle_from(v, i, state)[b],
    decreases i,
{
    if i >= 1 {
        let s = shuffle_step(state);
        let j = (s as usize) as int % (i + 1);
        let w = swapped(v, i, j);
        assert forall|x: int, y: int| 0 <= x < y < n implies #[trigger] w[x] != #[trigger] w[y] by {
            let px = if x == i { j } else if x == j { i } else { x };
            let py = if y == i { j } else if y == j { i } else { y };
            assert(w[x] == v[px]);
            assert(w[y] == v[py]);
            if px < py {
                assert(v[px] != v[py]);
            } else {
                assert(v[py] != v[px]);
            }
        }
        lemma_shuffle_from_keeps(w, i - 1, s, n);
    }
}

} // verus!

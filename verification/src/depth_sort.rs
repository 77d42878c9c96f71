//! Front-to-back ordering of projected splats: a two-pass, 16-bit LSD radix
//! sort on the bit pattern of the (positive) view depth.
//!
//! An item is `(key, payload)`: the key is the depth's bit pattern, the
//! payload is whatever the caller uses to find the splat again (its index).
use vstd::prelude::*;
use vstd::relations::injective_on;
use vstd::set_lib::*;

verus! {

broadcast use vstd::seq_lib::group_to_multiset_ensures;

/// Number of buckets of one radix pass (16 bits).
pub const RADIX_BUCKETS: usize = 65536;

/// Bucket of `key` in the low (`high == false`) or the high pass.
pub open spec fn digit(key: u32, high: bool) -> int {
    if high {
        key as int / 65536
    } else {
        key as int % 65536
    }
}

/// Number of the first `i` items whose digit equals `d`.
pub open spec fn count_digit_eq(s: Seq<(u32, u32)>, high: bool, d: int, i: int) -> nat
    decreases i,
{
    if i <= 0 {
        0
    } else {
        count_digit_eq(s, high, d, i - 1) + if digit(s[i - 1].0, high) == d {
            1nat
        } else {
            0nat
        }
    }
}

/// Number of the first `i` items whose digit is below `d`.
pub open spec fn count_digit_lt(s: Seq<(u32, u32)>, high: bool, d: int, i: int) -> nat
    decreases i,
{
    if i <= 0 {
        0
    } else {
        count_digit_lt(s, high, d, i - 1) + if digit(s[i - 1].0, high) < d {
            1nat
        } else {
            0nat
        }
    }
}

/// Where one stable counting pass puts item `i`: after every item with a
/// smaller digit and after the earlier items with the same digit.
pub open spec fn scatter_pos(s: Seq<(u32, u32)>, high: bool, i: int) -> int {
    let d = digit(s[i].0, high);
    (count_digit_lt(s, high, d, s.len() as int) + count_digit_eq(s, high, d, i)) as int
}

/// Item `i` comes before item `j` in a stable sort by key.
pub open spec fn sorts_before(s: Seq<(u32, u32)>, i: int, j: int) -> bool {
    s[i].0 < s[j].0 || (s[i].0 == s[j].0 && i < j)
}

/// `p` sends each input position to its output position, and the output is
/// the input laid out in stable key order.
pub open spec fn stable_sort_witness(
    input: Seq<(u32, u32)>,
    output: Seq<(u32, u32)>,
    p: spec_fn(int) -> int,
) -> bool {
    &&& output.len() == input.len()
    &&& forall|i: int|
        0 <= i < input.len() ==> 0 <= #[trigger] p(i) < input.len() && output[p(i)] == input[i]
    &&& forall|i: int, j: int|
        0 <= i < input.len() && 0 <= j < input.len() && sorts_before(input, i, j) ==> #[trigger] p(
            i,
        ) < #[trigger] p(j)
}

/// `output` is `input` sorted by key, items with equal keys kept in their
/// input order.
pub open spec fn is_stable_sort_by_key(input: Seq<(u32, u32)>, output: Seq<(u32, u32)>) -> bool {
    exists|p: spec_fn(int) -> int| #[trigger] stable_sort_witness(input, output, p)
}

/// Keys do not decrease along `s`.
pub open spec fn sorted_by_key(s: Seq<(u32, u32)>) -> bool {
    forall|k: int, l: int| 0 <= k <= l < s.len() ==> #[trigger] s[k].0 <= #[trigger] s[l].0
}

/// Scratch space reused across frames.
pub struct ScratchBuffers {
    /// Auxiliary buffer of the radix passes.
    pub sort_aux: Vec<(u32, u32)>,
    /// Tile bins of the tiled compositor.
    pub tiles: crate::tiles::TileBins,
}

impl ScratchBuffers {
    /// Empty scratch buffers.
    pub fn new() -> (s: Self)
        ensures
            s.sort_aux@.len() == 0,
            s.tiles.is_empty(),
    {
        ScratchBuffers { sort_aux: Vec::new(), tiles: crate::tiles::TileBins::new() }
    }
}

impl Default for ScratchBuffers {
    /// Empty scratch buffers (see [`ScratchBuffers::new`]).
    fn default() -> (s: Self)
        ensures
            s.sort_aux@.len() == 0,
            s.tiles.is_empty(),
    {
        ScratchBuffers::new()
    }
}

// ---------------------------------------------------------------------------
// Counting facts.
proof fn lemma_count_eq_le(s: Seq<(u32, u32)>, high: bool, d: int, i: int)
    requires
        0 <= i,
    ensures
        count_digit_eq(s, high, d, i) <= i,
    decreases i,
{
    if i > 0 {
        lemma_count_eq_le(s, high, d, i - 1);
    }
}

proof fn lemma_count_eq_mono(s: Seq<(u32, u32)>, high: bool, d: int, i: int, j: int)
    requires
        0 <= i <= j,
    ensures
        count_digit_eq(s, high, d, i) <= count_digit_eq(s, high, d, j),
    decreases j,
{
    if j > i {
        lemma_count_eq_mono(s, high, d, i, j - 1);
    }
}

proof fn lemma_count_lt_step(s: Seq<(u32, u32)>, high: bool, d: int, i: int)
    requires
        0 <= i,
    ensures
        count_digit_lt(s, high, d + 1, i) == count_digit_lt(s, high, d, i) + count_digit_eq(
            s,
            high,
            d,
            i,
        ),
    decreases i,
{
    if i > 0 {
        lemma_count_lt_step(s, high, d, i - 1);
    }
}

proof fn lemma_count_lt_mono(s: Seq<(u32, u32)>, high: bool, d1: int, d2: int, i: int)
    requires
        0 <= i,
        d1 <= d2,
    ensures
        count_digit_lt(s, high, d1, i) <= count_digit_lt(s, high, d2, i),
    decreases i,
{
    if i > 0 {
        lemma_count_lt_mono(s, high, d1, d2, i - 1);
    }
}

proof fn lemma_count_lt_zero(s: Seq<(u32, u32)>, high: bool, i: int)
    requires
        0 <= i,
    ensures
        count_digit_lt(s, high, 0, i) == 0,
    decreases i,
{
    if i > 0 {
        lemma_count_lt_zero(s, high, i - 1);
        lemma_digit_range(s[i - 1].0, high);
    }
}

proof fn lemma_digit_range(key: u32, high: bool)
    ensures
        0 <= digit(key, high) < 65536,
{
}

proof fn lemma_count_lt_all(s: Seq<(u32, u32)>, high: bool, i: int)
    requires
        0 <= i <= s.len(),
    ensures
        count_digit_lt(s, high, 65536, i) == i,
    decreases i,
{
    if i > 0 {
        lemma_count_lt_all(s, high, i - 1);
        lemma_digit_range(s[i - 1].0, high);
    }
}

/// One counting pass places items in digit order, stably, inside `[0, n)`.
proof fn lemma_scatter_order(s: Seq<(u32, u32)>, high: bool, i: int, j: int)
    requires
        0 <= i < s.len(),
        0 <= j < s.len(),
    ensures
        0 <= scatter_pos(s, high, i) < s.len(),
        digit(s[i].0, high) < digit(s[j].0, high) ==> scatter_pos(s, high, i) < scatter_pos(
            s,
            high,
            j,
        ),
        digit(s[i].0, high) == digit(s[j].0, high) && i < j ==> scatter_pos(s, high, i)
            < scatter_pos(s, high, j),
{
    let n = s.len() as int;
    let di = digit(s[i].0, high);
    let dj = digit(s[j].0, high);
    lemma_digit_range(s[i].0, high);
    lemma_digit_range(s[j].0, high);
    lemma_count_eq_mono(s, high, di, i + 1, n);
    lemma_count_lt_step(s, high, di, n);
    lemma_count_lt_mono(s, high, di + 1, 65536, n);
    lemma_count_lt_all(s, high, n);
    if di < dj {
        lemma_count_lt_mono(s, high, di + 1, dj, n);
    }
    if di == dj && i < j {
        lemma_count_eq_mono(s, high, di, i + 1, j);
    }
}

/// Some point of `[0, n)` is sent to `k`.
pub open spec fn hits(p: spec_fn(int) -> int, n: int, k: int) -> bool {
    exists|i: int| 0 <= i < n && #[trigger] p(i) == k
}

/// An injective map of `[0, n)` into itself reaches every point.
proof fn lemma_injective_onto(p: spec_fn(int) -> int, n: int)
    requires
        0 <= n,
        forall|i: int| 0 <= i < n ==> 0 <= #[trigger] p(i) < n,
        injective_on(p, set_int_range(0, n)),
    ensures
        forall|k: int| 0 <= k < n ==> #[trigger] hits(p, n, k),
{
    let r = set_int_range(0, n);
    lemma_int_range(0, n);
    let img = r.map(p);
    lemma_map_size(r, img, p);
    assert(img.subset_of(r)) by {
        assert forall|k: int| img.contains(k) implies r.contains(k) by {
            let i = choose|i: int| r.contains(i) && p(i) == k;
        }
    }
    lemma_subset_equality(img, r);
    assert forall|k: int| 0 <= k < n implies #[trigger] hits(p, n, k) by {
        assert(r.contains(k));
        assert(img.contains(k));
    }
}

/// Positions of the first `i` items that satisfy `pred`.
pub open spec fn index_set(s: Seq<(u32, u32)>, pred: spec_fn((u32, u32)) -> bool, i: int) -> Set<
    int,
> {
    Set::new(|j: int| 0 <= j < i && pred(s[j]))
}

/// `p` is a bijection of `[0, n)` with `output[p(i)] == input[i]`.
pub open spec fn is_index_bijection(
    input: Seq<(u32, u32)>,
    output: Seq<(u32, u32)>,
    p: spec_fn(int) -> int,
) -> bool {
    &&& output.len() == input.len()
    &&& forall|i: int|
        0 <= i < input.len() ==> 0 <= #[trigger] p(i) < input.len() && output[p(i)] == input[i]
    &&& injective_on(p, set_int_range(0, input.len() as int))
}

/// A bijection of positions keeps the number of items that satisfy any
/// predicate.
proof fn lemma_bijection_keeps_counts(
    input: Seq<(u32, u32)>,
    output: Seq<(u32, u32)>,
    p: spec_fn(int) -> int,
    pred: spec_fn((u32, u32)) -> bool,
)
    requires
        is_index_bijection(input, output, p),
    ensures
        index_set(input, pred, input.len() as int).finite(),
        index_set(output, pred, input.len() as int).finite(),
        index_set(input, pred, input.len() as int).len() == index_set(
            output,
            pred,
            input.len() as int,
        ).len(),
{
    let n = input.len() as int;
    let a = index_set(input, pred, n);
    let b = index_set(output, pred, n);
    lemma_int_range(0, n);
    assert(a.subset_of(set_int_range(0, n)));
    vstd::set_lib::lemma_len_subset(a, set_int_range(0, n));
    lemma_injective_onto(p, n);
    assert(a.map(p) =~= b) by {
        assert forall|k: int| a.map(p).contains(k) implies b.contains(k) by {
            let i = choose|i: int| a.contains(i) && p(i) == k;
        }
        assert forall|k: int| b.contains(k) implies a.map(p).contains(k) by {
            assert(hits(p, n, k));
            let i = choose|i: int| 0 <= i < n && #[trigger] p(i) == k;
            assert(a.contains(i));
        }
    }
    assert(injective_on(p, a));
    lemma_map_size(a, b, p);
}

proof fn lemma_index_set_digit(s: Seq<(u32, u32)>, high: bool, d: int, i: int)
    requires
        0 <= i <= s.len(),
    ensures
        index_set(s, |x: (u32, u32)| digit(x.0, high) == d, i).finite(),
        index_set(s, |x: (u32, u32)| digit(x.0, high) == d, i).len() == count_digit_eq(
            s,
            high,
            d,
            i,
        ),
    decreases i,
{
    let pred = |x: (u32, u32)| digit(x.0, high) == d;
    if i == 0 {
        assert(index_set(s, pred, 0) =~= Set::<int>::empty());
    } else {
        lemma_index_set_digit(s, high, d, i - 1);
        if pred(s[i - 1]) {
            assert(index_set(s, pred, i) =~= index_set(s, pred, i - 1).insert(i - 1));
        } else {
            assert(index_set(s, pred, i) =~= index_set(s, pred, i - 1));
        }
    }
}

/// A bijection of positions keeps every digit count.
proof fn lemma_bijection_keeps_digit_counts(
    input: Seq<(u32, u32)>,
    output: Seq<(u32, u32)>,
    p: spec_fn(int) -> int,
    high: bool,
    d: int,
)
    requires
        is_index_bijection(input, output, p),
    ensures
        count_digit_eq(input, high, d, input.len() as int) == count_digit_eq(
            output,
            high,
            d,
            output.len() as int,
        ),
{
    let pred = |x: (u32, u32)| digit(x.0, high) == d;
    lemma_bijection_keeps_counts(input, output, p, pred);
    lemma_index_set_digit(input, high, d, input.len() as int);
    lemma_index_set_digit(output, high, d, output.len() as int);
}

/// The positions of a counting pass form a bijection onto the output.
proof fn lemma_scatter_bijection(src: Seq<(u32, u32)>, dst: Seq<(u32, u32)>, high: bool)
    requires
        dst.len() == src.len(),
        forall|i: int| 0 <= i < src.len() ==> dst[scatter_pos(src, high, i)] == src[i],
    ensures
        is_index_bijection(src, dst, |i: int| scatter_pos(src, high, i)),
{
    let p = |i: int| scatter_pos(src, high, i);
    assert forall|i: int| 0 <= i < src.len() implies 0 <= #[trigger] p(i) < src.len() && dst[p(
        i,
    )] == src[i] by {
        lemma_scatter_order(src, high, i, i);
    }
    assert forall|x1: int, x2: int|
        set_int_range(0, src.len() as int).contains(x1) && set_int_range(
            0,
            src.len() as int,
        ).contains(x2) && #[trigger] p(x1) == #[trigger] p(x2) implies x1 == x2 by {
        lemma_scatter_order(src, high, x1, x2);
        lemma_scatter_order(src, high, x2, x1);
    }
}

// ---------------------------------------------------------------------------
// Executable passes.
fn digit_lo(key: u32) -> (b: usize)
    ensures
        b as int == digit(key, false),
        b < 65536,
{
    assert(key & 0xFFFFu32 == key % 65536u32) by (bit_vector);
    (key & 0xFFFF) as usize
}

fn digit_hi(key: u32) -> (b: usize)
    ensures
        b as int == digit(key, true),
        b < 65536,
{
    assert(key >> 16u32 == key / 65536u32) by (bit_vector);
    (key >> 16) as usize
}

/// One stable counting pass of `src` into `dst` by the chosen digit, given
/// the histogram of that digit.
fn scatter_by_digit(
    src: &Vec<(u32, u32)>,
    dst: &mut Vec<(u32, u32)>,
    counts: &Vec<u32>,
    high: bool,
)
    requires
        old(dst)@.len() == src@.len(),
        src@.len() <= u32::MAX,
        counts@.len() == RADIX_BUCKETS,
        forall|b: int|
            0 <= b < RADIX_BUCKETS ==> #[trigger] counts@[b] == count_digit_eq(
                src@,
                high,
                b,
                src@.len() as int,
            ),
    ensures
        final(dst)@.len() == src@.len(),
        forall|i: int|
            0 <= i < src@.len() ==> final(dst)@[scatter_pos(src@, high, i)] == src@[i],
{
    let n = src.len();
    let ghost s = src@;
    let mut offsets: Vec<u32> = vec![0u32; RADIX_BUCKETS];
    let mut sum: u32 = 0;
    let mut b: usize = 0;
    proof {
        lemma_count_lt_all(s, high, n as int);
        lemma_count_lt_zero(s, high, n as int);
    }
    while b < RADIX_BUCKETS
        invariant
            s == src@,
            n == s.len(),
            n <= u32::MAX,
            offsets@.len() == RADIX_BUCKETS,
            0 <= b <= RADIX_BUCKETS,
            sum == count_digit_lt(s, high, b as int, n as int),
            count_digit_lt(s, high, 65536, n as int) == n,
            counts@.len() == RADIX_BUCKETS,
            forall|c: int|
                0 <= c < RADIX_BUCKETS ==> #[trigger] counts@[c] == count_digit_eq(
                    s,
                    high,
                    c,
                    n as int,
                ),
            forall|c: int|
                0 <= c < b ==> #[trigger] offsets@[c] == count_digit_lt(s, high, c, n as int),
        decreases RADIX_BUCKETS - b,
    {
        offsets.set(b, sum);
        proof {
            lemma_count_lt_step(s, high, b as int, n as int);
            lemma_count_lt_mono(s, high, b as int + 1, 65536, n as int);
        }
        sum = sum + counts[b];
        b += 1;
    }
    let mut i: usize = 0;
    while i < n
        invariant
            s == src@,
            n == s.len(),
            n <= u32::MAX,
            dst@.len() == n,
            0 <= i <= n,
            offsets@.len() == RADIX_BUCKETS,
            forall|c: int|
                0 <= c < RADIX_BUCKETS ==> #[trigger] offsets@[c] == count_digit_lt(
                    s,
                    high,
                    c,
                    n as int,
                ) + count_digit_eq(s, high, c, i as int),
            forall|j: int| 0 <= j < i ==> dst@[scatter_pos(s, high, j)] == s[j],
        decreases n - i,
    {
        let item = src[i];
        let bucket = if high {
            digit_hi(item.0)
        } else {
            digit_lo(item.0)
        };
        let pos = offsets[bucket];
        proof {
            assert(pos as int == scatter_pos(s, high, i as int));
            lemma_scatter_order(s, high, i as int, i as int);
        }
        offsets.set(bucket, pos + 1);
        let ghost before = dst@;
        dst.set(pos as usize, item);
        proof {
            assert forall|j: int| 0 <= j < i + 1 implies dst@[scatter_pos(s, high, j)] == s[j] by {
                if j < i {
                    lemma_scatter_order(s, high, j, i as int);
                    lemma_scatter_order(s, high, i as int, j);
                    assert(dst@[scatter_pos(s, high, j)] == before[scatter_pos(s, high, j)]);
                }
            }
        }
        i += 1;
    }
}

/// Sorts `items` front to back by key (the depth's bit pattern), keeping
/// items with equal keys in their input order.
pub fn sort_by_depth(items: &mut Vec<(u32, u32)>, scratch: &mut ScratchBuffers)
    requires
        old(items)@.len() <= u32::MAX,
    ensures
        is_stable_sort_by_key(old(items)@, final(items)@),
        final(scratch).tiles == old(scratch).tiles,
{
    let n = items.len();
    let ghost input = items@;
    if n <= 1 {
        let ghost id = |i: int| i;
        assert(stable_sort_witness(input, items@, id));
        return;
    }
    scratch.sort_aux.clear();
    scratch.sort_aux.resize(n, (0u32, 0u32));

    let mut counts_lo: Vec<u32> = vec![0u32; RADIX_BUCKETS];
    let mut counts_hi: Vec<u32> = vec![0u32; RADIX_BUCKETS];
    let mut i: usize = 0;
    while i < n
        invariant
            input == items@,
            n == input.len(),
            n <= u32::MAX,
            0 <= i <= n,
            counts_lo@.len() == RADIX_BUCKETS,
            counts_hi@.len() == RADIX_BUCKETS,
            forall|b: int|
                0 <= b < RADIX_BUCKETS ==> #[trigger] counts_lo@[b] == count_digit_eq(
                    input,
                    false,
                    b,
                    i as int,
                ),
            forall|b: int|
                0 <= b < RADIX_BUCKETS ==> #[trigger] counts_hi@[b] == count_digit_eq(
                    input,
                    true,
                    b,
                    i as int,
                ),
        decreases n - i,
    {
        let k = items[i].0;
        let lo = digit_lo(k);
        let hi = digit_hi(k);
        proof {
            lemma_count_eq_le(input, false, lo as int, i as int);
            lemma_count_eq_le(input, true, hi as int, i as int);
        }
        let c_lo = counts_lo[lo];
        counts_lo.set(lo, c_lo + 1);
        let c_hi = counts_hi[hi];
        counts_hi.set(hi, c_hi + 1);
        i += 1;
    }

    scatter_by_digit(items, &mut scratch.sort_aux, &counts_lo, false);
    let ghost aux = scratch.sort_aux@;
    proof {
        lemma_scatter_bijection(input, aux, false);
        assert forall|b: int| 0 <= b < RADIX_BUCKETS implies #[trigger] counts_hi@[b]
            == count_digit_eq(aux, true, b, aux.len() as int) by {
            lemma_bijection_keeps_digit_counts(
                input,
                aux,
                |i: int| scatter_pos(input, false, i),
                true,
                b,
            );
        }
    }
    scatter_by_digit(&scratch.sort_aux, items, &counts_hi, true);
    proof {
        let out = items@;
        let p1 = |i: int| scatter_pos(input, false, i);
        let p2 = |j: int| scatter_pos(aux, true, j);
        let p = |i: int| p2(p1(i));
        assert forall|i: int| 0 <= i < n implies 0 <= #[trigger] p(i) < n && out[p(i)]
            == input[i] by {
            lemma_scatter_order(input, false, i, i);
            lemma_scatter_order(aux, true, p1(i), p1(i));
        }
        assert forall|i: int, j: int|
            0 <= i < n && 0 <= j < n && sorts_before(input, i, j) implies #[trigger] p(i)
            < #[trigger] p(j) by {
            lemma_scatter_order(input, false, i, j);
            lemma_scatter_order(aux, true, p1(i), p1(j));
            lemma_key_digits(input[i].0, input[j].0);
        }
        assert(stable_sort_witness(input, out, p));
    }
}

/// Order on keys by their two 16-bit digits.
proof fn lemma_key_digits(a: u32, b: u32)
    ensures
        a < b ==> digit(a, true) < digit(b, true) || (digit(a, true) == digit(b, true) && digit(
            a,
            false,
        ) < digit(b, false)),
        a == b ==> digit(a, true) == digit(b, true) && digit(a, false) == digit(b, false),
{
    assert(a as int == digit(a, true) * 65536 + digit(a, false));
    assert(b as int == digit(b, true) * 65536 + digit(b, false));
}

// ---------------------------------------------------------------------------
// Laws of the depth order.
proof fn lemma_witness_onto(input: Seq<(u32, u32)>, output: Seq<(u32, u32)>, p: spec_fn(int) -> int)
    requires
        stable_sort_witness(input, output, p),
    ensures
        is_index_bijection(input, output, p),
        forall|k: int| 0 <= k < input.len() ==> #[trigger] hits(p, input.len() as int, k),
{
    let n = input.len() as int;
    assert forall|x1: int, x2: int|
        set_int_range(0, n).contains(x1) && set_int_range(0, n).contains(x2) && #[trigger] p(x1)
            == #[trigger] p(x2) implies x1 == x2 by {
        if x1 != x2 {
            assert(sorts_before(input, x1, x2) || sorts_before(input, x2, x1));
        }
    }
    lemma_injective_onto(p, n);
}

/// A stable sort by key leaves the keys in non-decreasing order.
pub proof fn lemma_stable_sort_is_sorted(input: Seq<(u32, u32)>, output: Seq<(u32, u32)>)
    requires
        is_stable_sort_by_key(input, output),
    ensures
        sorted_by_key(output),
{
    let p = choose|p: spec_fn(int) -> int| #[trigger] stable_sort_witness(input, output, p);
    let n = input.len() as int;
    lemma_witness_onto(input, output, p);
    assert forall|k: int, l: int| 0 <= k <= l < output.len() implies #[trigger] output[k].0
        <= #[trigger] output[l].0 by {
        assert(hits(p, n, k));
        assert(hits(p, n, l));
        let i = choose|i: int| 0 <= i < n && #[trigger] p(i) == k;
        let j = choose|j: int| 0 <= j < n && #[trigger] p(j) == l;
        if input[j].0 < input[i].0 {
            assert(sorts_before(input, j, i));
        }
    }
}

spec fn equals(v: (u32, u32)) -> spec_fn((u32, u32)) -> bool {
    |x: (u32, u32)| x == v
}

proof fn lemma_multiset_count(s: Seq<(u32, u32)>, v: (u32, u32))
    ensures
        index_set(s, equals(v), s.len() as int).finite(),
        s.to_multiset().count(v) == index_set(s, equals(v), s.len() as int).len(),
    decreases s.len(),
{
    let pred = equals(v);
    let n = s.len() as int;
    if n == 0 {
        assert(index_set(s, pred, 0) =~= Set::<int>::empty());
    } else {
        let t = s.drop_last();
        lemma_multiset_count(t, v);
        assert(s =~= t.push(s.last()));
        assert(s.to_multiset() =~= t.to_multiset().insert(s.last()));
        assert(index_set(t, pred, n - 1) =~= index_set(s, pred, n - 1));
        if s.last() == v {
            assert(index_set(s, pred, n) =~= index_set(s, pred, n - 1).insert(n - 1));
        } else {
            assert(index_set(s, pred, n) =~= index_set(s, pred, n - 1));
        }
    }
}

/// A stable sort by key rearranges the items and drops or adds none.
pub proof fn lemma_stable_sort_is_permutation(input: Seq<(u32, u32)>, output: Seq<(u32, u32)>)
    requires
        is_stable_sort_by_key(input, output),
    ensures
        output.to_multiset() == input.to_multiset(),
{
    let p = choose|p: spec_fn(int) -> int| #[trigger] stable_sort_witness(input, output, p);
    lemma_witness_onto(input, output, p);
    assert forall|v: (u32, u32)| #[trigger] output.to_multiset().count(v)
        == input.to_multiset().count(v) by {
        lemma_bijection_keeps_counts(input, output, p, equals(v));
        lemma_multiset_count(input, v);
        lemma_multiset_count(output, v);
    }
    assert(output.to_multiset() =~= input.to_multiset());
}

/// The keys of the items, in order.
pub open spec fn keys_of(s: Seq<(u32, u32)>) -> Seq<u32> {
    Seq::new(s.len(), |i: int| s[i].0)
}

proof fn lemma_remove_keeps_sorted(b: Seq<(u32, u32)>, j: int)
    requires
        sorted_by_key(b),
        0 <= j < b.len(),
    ensures
        sorted_by_key(b.remove(j)),
{
    let b2 = b.remove(j);
    assert forall|k: int, l: int| 0 <= k <= l < b2.len() implies #[trigger] b2[k].0
        <= #[trigger] b2[l].0 by {
        let k1 = if k < j {
            k
        } else {
            k + 1
        };
        let l1 = if l < j {
            l
        } else {
            l + 1
        };
        assert(b2[k] == b[k1] && b2[l] == b[l1]);
    }
}

proof fn lemma_last_keys_agree(a: Seq<(u32, u32)>, b: Seq<(u32, u32)>) -> (j: int)
    requires
        sorted_by_key(a),
        sorted_by_key(b),
        a.to_multiset() == b.to_multiset(),
        a.len() > 0,
    ensures
        a.len() == b.len(),
        0 <= j < b.len(),
        b[j] == a[a.len() - 1],
        a[a.len() - 1].0 == b[b.len() - 1].0,
{
    assert(a.len() == a.to_multiset().len());
    assert(b.len() == b.to_multiset().len());
    let n = a.len() as int;
    let x = a[n - 1];
    assert(a.contains(x));
    assert(a.to_multiset().count(x) > 0);
    assert(b.contains(x));
    let j = choose|j: int| 0 <= j < n && b[j] == x;
    let y = b[n - 1];
    assert(b.contains(y));
    assert(b.to_multiset().count(y) > 0);
    assert(a.contains(y));
    let i = choose|i: int| 0 <= i < n && a[i] == y;
    assert(a[i].0 <= a[n - 1].0);
    assert(b[j].0 <= b[n - 1].0);
    j
}

#[verifier::spinoff_prover]
proof fn lemma_sorted_equal_multisets_same_keys(a: Seq<(u32, u32)>, b: Seq<(u32, u32)>)
    requires
        sorted_by_key(a),
        sorted_by_key(b),
        a.to_multiset() == b.to_multiset(),
    ensures
        keys_of(a) == keys_of(b),
    decreases a.len(),
{
    assert(a.len() == a.to_multiset().len());
    assert(b.len() == b.to_multiset().len());
    let n = a.len() as int;
    if n == 0 {
        assert(keys_of(a) =~= keys_of(b));
    } else {
        let j = lemma_last_keys_agree(a, b);
        let x = a[n - 1];
        let a2 = a.drop_last();
        let b2 = b.remove(j);
        assert(a =~= a2.push(x));
        assert(a2.to_multiset() =~= a.to_multiset().remove(x)) by {
            assert(a.to_multiset() =~= a2.to_multiset().insert(x));
        }
        assert(b2.to_multiset() == b.to_multiset().remove(b[j]));
        lemma_remove_keeps_sorted(b, j);
        assert(sorted_by_key(a2)) by {
            assert forall|k: int, l: int| 0 <= k <= l < a2.len() implies #[trigger] a2[k].0
                <= #[trigger] a2[l].0 by {
                assert(a[k].0 <= a[l].0);
            }
        }
        lemma_sorted_equal_multisets_same_keys(a2, b2);
        assert forall|k: int| 0 <= k < n implies keys_of(a)[k] == keys_of(b)[k] by {
            if k < n - 1 {
                assert(keys_of(a2)[k] == keys_of(b2)[k]);
                if k >= j {
                    assert(b2[k] == b[k + 1]);
                    assert(b[j].0 <= b[k].0 && b[k].0 <= b[k + 1].0 && b[k + 1].0 <= b[n - 1].0);
                } else {
                    assert(b2[k] == b[k]);
                }
            }
        }
        assert(keys_of(a) =~= keys_of(b));
    }
}

/// Every ordering of the items by key that keeps them all (the parallel
/// sort's result) lists the keys exactly as the stable sort does.
pub proof fn lemma_sorted_permutation_keys(
    input: Seq<(u32, u32)>,
    stable: Seq<(u32, u32)>,
    other: Seq<(u32, u32)>,
)
    requires
        is_stable_sort_by_key(input, stable),
        sorted_by_key(other),
        other.to_multiset() == input.to_multiset(),
    ensures
        keys_of(other) == keys_of(stable),
{
    lemma_stable_sort_is_sorted(input, stable);
    lemma_stable_sort_is_permutation(input, stable);
    lemma_sorted_equal_multisets_same_keys(other, stable);
}

/// The input position whose item a witness `p` puts at output position `k`.
spec fn source_of(n: int, p: spec_fn(int) -> int, k: int) -> int {
    choose|i: int| 0 <= i < n && #[trigger] p(i) == k
}

proof fn lemma_same_sources(
    input: Seq<(u32, u32)>,
    o1: Seq<(u32, u32)>,
    o2: Seq<(u32, u32)>,
    p1: spec_fn(int) -> int,
    p2: spec_fn(int) -> int,
    k: int,
)
    requires
        stable_sort_witness(input, o1, p1),
        stable_sort_witness(input, o2, p2),
        forall|m: int| 0 <= m < input.len() ==> #[trigger] hits(p1, input.len() as int, m),
        forall|m: int| 0 <= m < input.len() ==> #[trigger] hits(p2, input.len() as int, m),
        0 <= k < input.len(),
    ensures
        source_of(input.len() as int, p1, k) == source_of(input.len() as int, p2, k),
    decreases k,
{
    let n = input.len() as int;
    assert forall|k2: int| 0 <= k2 < k implies source_of(n, p1, k2) == source_of(n, p2, k2) by {
        lemma_same_sources(input, o1, o2, p1, p2, k2);
    }
    assert(hits(p1, n, k));
    assert(hits(p2, n, k));
    let i1 = source_of(n, p1, k);
    let i2 = source_of(n, p2, k);
    assert(p1(i1) == k && p2(i2) == k);
    if i1 != i2 {
        if sorts_before(input, i1, i2) {
            let k2 = p2(i1);
            assert(0 <= k2 < k);
            assert(hits(p2, n, k2));
            let j = source_of(n, p2, k2);
            if j != i1 {
                assert(sorts_before(input, j, i1) || sorts_before(input, i1, j));
            }
            assert(j == i1);
            assert(source_of(n, p1, k2) == i1);
            assert(hits(p1, n, k2));
            assert(p1(i1) == k2);
        } else {
            assert(sorts_before(input, i2, i1));
            let k2 = p1(i2);
            assert(0 <= k2 < k);
            assert(hits(p1, n, k2));
            let j = source_of(n, p1, k2);
            if j != i2 {
                assert(sorts_before(input, j, i2) || sorts_before(input, i2, j));
            }
            assert(j == i2);
            assert(source_of(n, p2, k2) == i2);
            assert(hits(p2, n, k2));
            assert(p2(i2) == k2);
        }
    }
}

/// A stable sort by key is unique: two stable sorts of the same input
/// agree item for item (so the parallel sort, where it falls back to the
/// radix sort, gives exactly the radix sort's result).
pub proof fn lemma_stable_sort_unique(
    input: Seq<(u32, u32)>,
    o1: Seq<(u32, u32)>,
    o2: Seq<(u32, u32)>,
)
    requires
        is_stable_sort_by_key(input, o1),
        is_stable_sort_by_key(input, o2),
    ensures
        o1 == o2,
{
    let p1 = choose|p: spec_fn(int) -> int| #[trigger] stable_sort_witness(input, o1, p);
    let p2 = choose|p: spec_fn(int) -> int| #[trigger] stable_sort_witness(input, o2, p);
    lemma_witness_onto(input, o1, p1);
    lemma_witness_onto(input, o2, p2);
    let n = input.len() as int;
    assert forall|k: int| 0 <= k < n implies o1[k] == o2[k] by {
        lemma_same_sources(input, o1, o2, p1, p2, k);
        assert(hits(p1, n, k));
        assert(hits(p2, n, k));
        let i = source_of(n, p1, k);
        assert(p1(i) == k && p2(i) == k);
    }
    assert(o1 =~= o2);
}

} // verus!

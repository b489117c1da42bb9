use vstd::prelude::*;
use vstd::arithmetic::power2::{pow2, lemma2_to64, lemma2_to64_rest};
use vstd::bits::lemma_usize_shl_is_mul;
use crate::range_iter::{RangeIter, range_pairs, lemma_range_pairs_shape};

verus! {

/// The word widths that have a partition: 8, 16, 32 and 64 bits.
pub open spec fn supported_width(width: usize) -> bool {
    width == 8 || width == 16 || width == 32 || width == 64
}

/// Absolute bound on the ceiling of wide widths, which keeps tables small.
pub const WIDE_CAP: usize = 1048576;

/// Where the fine tier ends: every value up to here is its own bucket.
pub open spec fn fine_limit(width: usize) -> usize {
    if width <= 8 { 32 } else { 1024 }
}

/// The bucket width of the coarse tier.
pub open spec fn coarse_step(width: usize) -> usize {
    if width <= 8 { 8 } else { 1024 }
}

/// The largest value that has a bucket: `2^(width - 1)`, and for widths
/// above 8 bits at most `2^20`.
pub open spec fn ceiling(width: usize) -> usize {
    let half = pow2((width - 1) as nat);
    if width <= 8 || half <= WIDE_CAP {
        half as usize
    } else {
        WIDE_CAP
    }
}

/// The buckets of a width, in increasing order: the fine tier from zero,
/// then the coarse tier up to the ceiling.
pub open spec fn bucket_list(width: usize) -> Seq<(usize, usize)> {
    range_pairs(0, 1, fine_limit(width))
        + range_pairs(fine_limit(width), coarse_step(width), ceiling(width))
}

/// A well-formed bucket list: non-empty, starting at zero, each bucket
/// non-empty, and each bucket starting where the one before it ends.
pub open spec fn contiguous(bs: Seq<(usize, usize)>) -> bool {
    &&& bs.len() > 0
    &&& bs[0].0 == 0
    &&& forall|i: int| 0 <= i < bs.len() ==> (#[trigger] bs[i]).0 < bs[i].1
    &&& forall|i: int| 0 <= i < bs.len() - 1 ==> (#[trigger] bs[i]).1 == bs[i + 1].0
}

/// `r` is the smallest upper end among the buckets of `bs` that reach `v`.
pub open spec fn least_upper_at_least(bs: Seq<(usize, usize)>, v: int, r: int) -> bool {
    &&& exists|i: int| 0 <= i < bs.len() && (#[trigger] bs[i]).1 == r && bs[i].0 < v <= r
    &&& forall|j: int| 0 <= j < bs.len() && v <= (#[trigger] bs[j]).1 ==> r <= bs[j].1
}

/// In a contiguous list the upper ends strictly increase.
pub proof fn lemma_uppers_increase(bs: Seq<(usize, usize)>, i: int, j: int)
    requires
        contiguous(bs),
        0 <= i < j < bs.len(),
    ensures
        bs[i].1 < bs[j].1,
    decreases j - i,
{
    if i + 1 < j {
        lemma_uppers_increase(bs, i + 1, j);
    }
    assert(bs[i].1 == bs[i + 1].0);
    assert(bs[i + 1].0 < bs[i + 1].1);
}

/// The ceilings of the supported widths.
pub proof fn lemma_ceiling_values(width: usize)
    requires
        supported_width(width),
    ensures
        width == 8 ==> ceiling(width) == 128,
        width == 16 ==> ceiling(width) == 32768,
        width >= 32 ==> ceiling(width) == WIDE_CAP,
{
    lemma2_to64();
    lemma2_to64_rest();
}

/// A fine tier of unit buckets up to `f` followed by a coarse tier of step
/// `c` that ends exactly at `m` forms a contiguous list ending at `m`.
proof fn lemma_tiers_contiguous(f: usize, c: usize, m: usize, k: nat)
    requires
        f > 0,
        c > 0,
        k > 0,
        m == f + k * c,
    ensures
        contiguous(range_pairs(0, 1, f) + range_pairs(f, c, m)),
        (range_pairs(0, 1, f) + range_pairs(f, c, m)).last().1 == m,
{
    let fine = range_pairs(0, 1, f);
    let coarse = range_pairs(f, c, m);
    let bs = fine + coarse;
    lemma_range_pairs_shape(0, 1, f);
    lemma_range_pairs_shape(f, c, m);
    assert(fine.len() == f);
    let n = coarse.len();
    assert(n == k) by (nonlinear_arith)
        requires
            f + n * c <= m,
            m < f + n * c + c,
            m == f + k * c,
            c > 0,
    ;
    assert forall|i: int| 0 <= i < bs.len() implies (#[trigger] bs[i]).0 < bs[i].1 by {
        if i >= fine.len() {
            assert(bs[i] == coarse[i - fine.len()]);
        }
    }
    assert forall|i: int| 0 <= i < bs.len() - 1 implies (#[trigger] bs[i]).1 == bs[i + 1].0 by {
        if i >= fine.len() {
            assert(bs[i] == coarse[i - fine.len()]);
            assert(bs[i + 1] == coarse[i + 1 - fine.len()]);
        } else if i == fine.len() - 1 {
            assert(bs[i + 1] == coarse[0]);
        }
    }
    assert(bs.last() == coarse[n - 1]);
}

/// The partition of every supported width is contiguous from zero, its upper
/// ends strictly increase, and its last bucket ends at the width's ceiling.
pub proof fn lemma_partition_contiguous(width: usize)
    requires
        supported_width(width),
    ensures
        contiguous(bucket_list(width)),
        bucket_list(width).last().1 == ceiling(width),
        forall|i: int, j: int|
            0 <= i < j < bucket_list(width).len() ==> (#[trigger] bucket_list(width)[i]).1
                < (#[trigger] bucket_list(width)[j]).1,
{
    lemma_ceiling_values(width);
    if width == 8 {
        lemma_tiers_contiguous(32, 8, 128, 12);
    } else if width == 16 {
        lemma_tiers_contiguous(1024, 1024, 32768, 31);
    } else {
        lemma_tiers_contiguous(1024, 1024, WIDE_CAP, 1023);
    }
    let bs = bucket_list(width);
    assert forall|i: int, j: int| 0 <= i < j < bs.len() implies (#[trigger] bs[i]).1
        < (#[trigger] bs[j]).1 by {
        lemma_uppers_increase(bs, i, j);
    }
}

/// Why a partition could not be built.
#[derive(Debug, Clone, Copy, PartialEq, Eq, Structural)]
pub enum PartitionError {
    /// The word width is not 8, 16, 32 or 64.
    UnsupportedWidth(usize),
}

/// The buckets of one word width, built once and read by every quantization.
#[derive(Debug, Clone, PartialEq, Eq)]
pub struct Partition {
    width: usize,
    buckets: Vec<(usize, usize)>,
}

impl View for Partition {
    type V = Seq<(usize, usize)>;

    /// The buckets, as `(lower_exclusive, upper_inclusive)` pairs in increasing order.
    closed spec fn view(&self) -> Seq<(usize, usize)> {
        self.buckets@
    }
}

/// Pushes every pair that `run` still holds onto `buckets`, in order.
fn append_run(buckets: &mut Vec<(usize, usize)>, run: RangeIter)
    requires
        run.wf(),
    ensures
        final(buckets)@ == old(buckets)@ + run@,
{
    let mut run = run;
    let ghost target = old(buckets)@ + run@;
    loop
        invariant_except_break
            run.wf(),
            buckets@ + run@ == target,
        ensures
            buckets@ == target,
        decreases run@.len(),
    {
        match run.next() {
            Some(pair) => {
                let ghost before = buckets@;
                buckets.push(pair);
                proof {
                    assert(buckets@ + run@ =~= before + (seq![pair] + run@));
                }
            },
            None => {
                proof {
                    assert(buckets@ + run@ =~= buckets@);
                }
                break;
            },
        }
    }
}

/// The ceiling of a supported width, `min(2^(width - 1), 2^20)` for wide widths.
fn width_ceiling(width: usize) -> (r: usize)
    requires
        supported_width(width),
    ensures
        r == ceiling(width),
{
    let shift = width - 1;
    proof {
        lemma2_to64();
        lemma2_to64_rest();
    }
    if width <= 8 || shift < 20 {
        proof {
            lemma_usize_shl_is_mul(1, shift);
        }
        1usize << shift
    } else {
        WIDE_CAP
    }
}

impl Partition {
    /// Holds the buckets of a supported width; they are contiguous from zero
    /// and end at the width's ceiling.
    pub closed spec fn wf(&self) -> bool {
        &&& supported_width(self.width)
        &&& self.buckets@ == bucket_list(self.width)
        &&& contiguous(self.buckets@)
        &&& self.buckets@.last().1 == ceiling(self.width)
    }

    /// The word width the partition was built for.
    pub closed spec fn spec_width(&self) -> usize {
        self.width
    }

    /// The word width the partition was built for.
    pub fn width(&self) -> (r: usize)
        ensures
            r == self.spec_width(),
    {
        self.width
    }

    /// The buckets, in increasing order.
    pub fn buckets(&self) -> (r: &[(usize, usize)])
        ensures
            r@ == self@,
    {
        self.buckets.as_slice()
    }

    /// The largest value that has a bucket: the last bucket's upper end.
    pub fn ceiling(&self) -> (r: usize)
        requires
            self.wf(),
        ensures
            r == self@.last().1,
            r == ceiling(self.spec_width()),
    {
        self.buckets[self.buckets.len() - 1].1
    }
}

/// Builds the partition of `width`, or reports that the width has none.
pub fn build_partition(width: usize) -> (r: Result<Partition, PartitionError>)
    ensures
        supported_width(width) <==> r is Ok,
        r matches Ok(p) ==> {
            &&& p.wf()
            &&& p.spec_width() == width
            &&& p@ == bucket_list(width)
            &&& contiguous(p@)
            &&& p@.last().1 == ceiling(width)
        },
        r matches Err(e) ==> e == PartitionError::UnsupportedWidth(width),
{
    if !(width == 8 || width == 16 || width == 32 || width == 64) {
        return Err(PartitionError::UnsupportedWidth(width));
    }
    let (fine_max, step): (usize, usize) = if width <= 8 {
        (32, 8)
    } else {
        (1024, 1024)
    };
    let top = width_ceiling(width);
    let mut buckets: Vec<(usize, usize)> = Vec::new();
    append_run(&mut buckets, RangeIter::new(0, 1, fine_max));
    append_run(&mut buckets, RangeIter::new(fine_max, step, top));
    proof {
        lemma_partition_contiguous(width);
    }
    Ok(Partition { width, buckets })
}

/// Maps `value` to its bucket in `partition`: `0` for zero, the upper end
/// of the bucket that holds it for a value up to the ceiling, and what
/// `fallback` returns for a value above the ceiling. `fallback` is called
/// only then.
pub fn quantize<F: FnOnce() -> usize>(partition: &Partition, value: usize, fallback: F) -> (r: usize)
    requires
        partition.wf(),
        fallback.requires(()),
    ensures
        value == 0 ==> r == 0,
        0 < value <= partition@.last().1 ==> least_upper_at_least(partition@, value as int, r as int),
        value > partition@.last().1 ==> fallback.ensures((), r),
{
    if value == 0 {
        return 0;
    }
    let n = partition.buckets.len();
    if value > partition.buckets[n - 1].1 {
        return fallback();
    }
    let ghost bs = partition@;
    let mut i: usize = 0;
    while partition.buckets[i].1 < value
        invariant
            n == bs.len(),
            bs == partition.buckets@,
            contiguous(bs),
            0 < value <= bs[n - 1].1,
            0 <= i < n,
            forall|j: int| 0 <= j < i ==> (#[trigger] bs[j]).1 < value,
        decreases n - i,
    {
        i = i + 1;
    }
    let r = partition.buckets[i].1;
    proof {
        if i > 0 {
            assert(bs[i - 1].1 == bs[i as int].0);
        }
        assert forall|j: int| 0 <= j < bs.len() && value <= (#[trigger] bs[j]).1 implies r
            <= bs[j].1 by {
            if j > i {
                lemma_uppers_increase(bs, i as int, j);
            }
        }
    }
    r
}

/// Builds the partition of `width` and maps `input` to its bucket there, as
/// `quantize` does; `else_body` gives the value for an input above the
/// ceiling. An unsupported width is reported before any lookup.
pub fn usize_match<F: FnOnce() -> usize>(width: usize, input: usize, else_body: F) -> (r: Result<usize, PartitionError>)
    requires
        else_body.requires(()),
    ensures
        supported_width(width) <==> r is Ok,
        r matches Err(e) ==> e == PartitionError::UnsupportedWidth(width),
        r matches Ok(v) ==> {
            &&& input == 0 ==> v == 0
            &&& 0 < input <= ceiling(width) ==> least_upper_at_least(bucket_list(width), input as int, v as int)
            &&& input > ceiling(width) ==> else_body.ensures((), v)
        },
{
    match build_partition(width) {
        Ok(p) => Ok(quantize(&p, input, else_body)),
        Err(e) => Err(e),
    }
}

/// Any two well-formed partitions of one width hold the same buckets:
/// building a partition is deterministic.
pub proof fn lemma_build_deterministic(p: Partition, q: Partition)
    requires
        p.wf(),
        q.wf(),
        p.spec_width() == q.spec_width(),
    ensures
        p@ == q@,
{
}

/// At most one value is the least upper end reaching `v`, so the result of
/// a lookup is fully determined by the buckets.
pub proof fn lemma_least_upper_unique(bs: Seq<(usize, usize)>, v: int, r1: int, r2: int)
    requires
        least_upper_at_least(bs, v, r1),
        least_upper_at_least(bs, v, r2),
    ensures
        r1 == r2,
{
    let i1 = choose|i: int| 0 <= i < bs.len() && (#[trigger] bs[i]).1 == r1 && bs[i].0 < v <= r1;
    let i2 = choose|i: int| 0 <= i < bs.len() && (#[trigger] bs[i]).1 == r2 && bs[i].0 < v <= r2;
    assert(r1 <= bs[i2].1);
    assert(r2 <= bs[i1].1);
}

/// In a well-formed partition the ceiling itself lands in the last bucket,
/// whose upper end is the ceiling.
pub proof fn lemma_ceiling_in_last_bucket(p: Partition)
    requires
        p.wf(),
    ensures
        least_upper_at_least(p@, p@.last().1 as int, p@.last().1 as int),
        forall|r: int| least_upper_at_least(p@, p@.last().1 as int, r) ==> r == p@.last().1,
{
    let bs = p@;
    let n = bs.len() - 1;
    let c = bs.last().1 as int;
    if n > 0 {
        assert(bs[n - 1].1 == bs[n].0);
    }
    assert(bs[n].1 == c);
    assert forall|j: int| 0 <= j < bs.len() && c <= (#[trigger] bs[j]).1 implies c <= bs[j].1 by {}
    assert forall|r: int| least_upper_at_least(bs, c, r) implies r == c by {
        lemma_least_upper_unique(bs, c, c, r);
    }
}

} // verus!

//! Windowed step extrapolation of sparse block samples.
//!
//! Samples are ordered by block; each one stands for every block from its own
//! up to (not including) the next sample's block. The last sample only closes
//! the last span. This assumes the statistics are constant between samples,
//! so the result is a biased extrapolation, not an unbiased estimator.
use crate::record::Record;
use vstd::multiset::Multiset;
use vstd::prelude::*;

verus! {

/// Bytes stored per log besides its data and topics: block number, log index,
/// transaction index, address, topic count and data length.
pub const OVERHEAD_PER_LOG: u128 = 8 + 8 + 8 + 20 + 1 + 8;

/// Bytes stored per topic.
pub const TOPIC_SIZE: u128 = 32;

/// The blocks `start <= b`, and `b < end` where an end is given.
#[derive(Clone, Copy, Debug, PartialEq, Eq, Structural)]
pub struct BlockRange {
    pub start: u64,
    pub end: Option<u64>,
}

/// Why no estimate was produced.
#[derive(Clone, Copy, Debug, PartialEq, Eq, Structural)]
pub enum EstimateError {
    /// Fewer than two records lie in the requested block range.
    InsufficientData,
}

/// Totals extrapolated over the span that the samples cover.
#[derive(Clone, Copy, Debug, PartialEq, Eq, Structural)]
pub struct Estimate {
    /// Number of samples used.
    pub samples: usize,
    /// Lowest sampled block.
    pub first_block: u64,
    /// Highest sampled block.
    pub last_block: u64,
    pub total_blocks: u64,
    pub total_logs: u128,
    pub total_data: u128,
    pub total_topics: u128,
}

impl BlockRange {
    pub open spec fn spec_contains(self, block: u64) -> bool {
        &&& self.start <= block
        &&& self.end matches Some(e) ==> block < e
    }

    pub fn contains(&self, block: u64) -> (r: bool)
        ensures
            r == self.spec_contains(block),
    {
        match self.end {
            Some(e) => self.start <= block && block < e,
            None => self.start <= block,
        }
    }
}

/// The records whose block lies in `range`.
pub open spec fn in_range(range: BlockRange) -> spec_fn(Record) -> bool {
    |r: Record| range.spec_contains(r.block)
}

/// The records of block `k`.
pub open spec fn at_block(k: u64) -> spec_fn(Record) -> bool {
    |r: Record| r.block == k
}

pub open spec fn sorted_by_block(s: Seq<Record>) -> bool {
    forall|i: int, j: int| 0 <= i < j < s.len() ==> s[i].block <= s[j].block
}

/// `o` holds the records of `s` ordered by block, records of one block in the
/// order they have in `s`.
pub open spec fn is_block_order_of(o: Seq<Record>, s: Seq<Record>) -> bool {
    &&& o.len() == s.len()
    &&& sorted_by_block(o)
    &&& forall|k: u64| #[trigger] o.filter(at_block(k)) == s.filter(at_block(k))
}

/// The stable ordering of `s` by block; `lemma_block_order_unique` shows
/// that there is only one.
pub open spec fn block_order(s: Seq<Record>) -> Seq<Record> {
    choose|o: Seq<Record>| is_block_order_of(o, s)
}

/// Sum over adjacent pairs `(a, b)` of `stat(a) * (b.block - a.block)`.
pub open spec fn span_sum(s: Seq<Record>, stat: spec_fn(Record) -> int) -> int
    decreases s.len(),
{
    if s.len() < 2 {
        0
    } else {
        span_sum(s.drop_last(), stat) + stat(s[s.len() - 2]) * (s.last().block - s[s.len()
            - 2].block)
    }
}

pub open spec fn covered_blocks(s: Seq<Record>) -> int {
    span_sum(s, |r: Record| 1)
}

pub open spec fn extrapolated_logs(s: Seq<Record>) -> int {
    span_sum(s, |r: Record| r.log_count as int)
}

pub open spec fn extrapolated_data(s: Seq<Record>) -> int {
    span_sum(s, |r: Record| r.data_len as int)
}

pub open spec fn extrapolated_topics(s: Seq<Record>) -> int {
    span_sum(s, |r: Record| r.topic_count as int)
}

/// `e` is the extrapolation over the block-ordered samples `s`.
pub open spec fn is_estimate_of(e: Estimate, s: Seq<Record>) -> bool {
    &&& e.samples == s.len()
    &&& e.first_block == s[0].block
    &&& e.last_block == s.last().block
    &&& e.total_blocks == covered_blocks(s)
    &&& e.total_logs == extrapolated_logs(s)
    &&& e.total_data == extrapolated_data(s)
    &&& e.total_topics == extrapolated_topics(s)
}

/// The stored size that the overhead model gives to the totals.
pub open spec fn size_of(logs: int, data: int, topics: int) -> int {
    logs * OVERHEAD_PER_LOG + data + topics * TOPIC_SIZE
}

/// The records of `records` in `range`, in their order.
pub fn select_range(records: &[Record], range: BlockRange) -> (r: Vec<Record>)
    ensures
        r@ == records@.filter(in_range(range)),
{
    let mut out: Vec<Record> = Vec::new();
    let mut i: usize = 0;
    while i < records.len()
        invariant
            i <= records@.len(),
            out@ == records@.subrange(0, i as int).filter(in_range(range)),
        decreases records@.len() - i,
    {
        let rec = records[i];
        proof {
            reveal(Seq::filter);
            assert(records@.subrange(0, i + 1).drop_last() =~= records@.subrange(0, i as int));
        }
        if range.contains(rec.block) {
            out.push(rec);
        }
        i += 1;
    }
    assert(records@.subrange(0, records@.len() as int) =~= records@);
    out
}

/// Relies on std's `slice::sort_by_key`, documented as a sort that keeps
/// elements with equal keys in the order they had before.
#[verifier::external_body]
fn sort_by_block(v: &mut Vec<Record>)
    ensures
        is_block_order_of(final(v)@, old(v)@),
{
    v.sort_by_key(|r| r.block);
}

/// Extrapolates over samples that are already ordered by block.
pub fn extrapolate_sorted(s: &[Record]) -> (e: Estimate)
    requires
        s@.len() >= 2,
        sorted_by_block(s@),
    ensures
        is_estimate_of(e, s@),
{
    let n = s.len();
    let first = s[0].block;
    let mut blocks: u64 = 0;
    let mut logs: u128 = 0;
    let mut data: u128 = 0;
    let mut topics: u128 = 0;
    let mut i: usize = 0;
    while i + 1 < n
        invariant
            n == s@.len(),
            n >= 2,
            i + 1 <= n,
            sorted_by_block(s@),
            first == s@[0].block,
            blocks == s@[i as int].block - first,
            blocks == covered_blocks(s@.subrange(0, i + 1)),
            logs == extrapolated_logs(s@.subrange(0, i + 1)),
            data == extrapolated_data(s@.subrange(0, i + 1)),
            topics == extrapolated_topics(s@.subrange(0, i + 1)),
            logs <= u64::MAX as int * blocks,
            data <= u64::MAX as int * blocks,
            topics <= u64::MAX as int * blocks,
        decreases n - i,
    {
        let a = s[i];
        let b = s[i + 1];
        let w = b.block - a.block;
        proof {
            let m = u64::MAX as int;
            let nb = blocks + w;
            assert(m * blocks + m * w == m * nb) by (nonlinear_arith)
                requires
                    nb == blocks + w,
            ;
            assert(m * nb <= m * m) by (nonlinear_arith)
                requires
                    nb <= m,
                    m >= 0,
            ;
            assert(a.log_count * w <= m * w) by (nonlinear_arith)
                requires
                    a.log_count <= m,
                    w >= 0,
            ;
            assert(a.data_len * w <= m * w) by (nonlinear_arith)
                requires
                    a.data_len <= m,
                    w >= 0,
            ;
            assert(a.topic_count * w <= m * w) by (nonlinear_arith)
                requires
                    a.topic_count <= m,
                    w >= 0,
            ;
            let t = s@.subrange(0, i + 2);
            assert(t.drop_last() =~= s@.subrange(0, i + 1));
            assert(t[t.len() - 2] == a);
            assert(t.last() == b);
        }
        blocks = blocks + w;
        logs = logs + a.log_count as u128 * w as u128;
        data = data + a.data_len as u128 * w as u128;
        topics = topics + a.topic_count as u128 * w as u128;
        i += 1;
    }
    assert(s@.subrange(0, n as int) =~= s@);
    Estimate {
        samples: n,
        first_block: first,
        last_block: s[n - 1].block,
        total_blocks: blocks,
        total_logs: logs,
        total_data: data,
        total_topics: topics,
    }
}

/// Extrapolates totals over the records in `range`: they are ordered by
/// block, keeping records of one block in input order, so that the last one
/// written speaks for the span after that block.
pub fn extrapolate(records: &[Record], range: BlockRange) -> (r: Result<Estimate, EstimateError>)
    ensures
        r is Err <==> records@.filter(in_range(range)).len() < 2,
        r matches Err(e) ==> e == EstimateError::InsufficientData,
        r matches Ok(e) ==> is_estimate_of(e, block_order(records@.filter(in_range(range)))),
{
    let mut v = select_range(records, range);
    if v.len() < 2 {
        return Err(EstimateError::InsufficientData);
    }
    let ghost selected = v@;
    sort_by_block(&mut v);
    proof {
        let o = block_order(selected);
        assert(is_block_order_of(v@, selected));
        assert(is_block_order_of(o, selected));
        lemma_block_order_unique(v@, o, selected);
    }
    Ok(extrapolate_sorted(v.as_slice()))
}

/// The stored size of the totals under the overhead model, or `None` where
/// it does not fit in a `u128`.
pub fn estimated_size(logs: u128, data: u128, topics: u128) -> (r: Option<u128>)
    ensures
        r matches Some(v) ==> v == size_of(logs as int, data as int, topics as int),
        r is None <==> size_of(logs as int, data as int, topics as int) > u128::MAX,
{
    let a = match logs.checked_mul(OVERHEAD_PER_LOG) {
        Some(a) => a,
        None => return None,
    };
    let b = match topics.checked_mul(TOPIC_SIZE) {
        Some(b) => b,
        None => return None,
    };
    let c = match a.checked_add(data) {
        Some(c) => c,
        None => return None,
    };
    c.checked_add(b)
}

/// Where no record of `s` is at block `k`, none is kept by `at_block(k)`.
proof fn lemma_no_record_at_block(s: Seq<Record>, k: u64)
    requires
        forall|j: int| 0 <= j < s.len() ==> s[j].block != k,
    ensures
        s.filter(at_block(k)).len() == 0,
    decreases s.len(),
{
    reveal(Seq::filter);
    if s.len() > 0 {
        lemma_no_record_at_block(s.drop_last(), k);
    }
}

/// Two block-sorted sequences that hold the same records of every block, in
/// the same order, are equal.
proof fn lemma_same_blocks_equal(a: Seq<Record>, b: Seq<Record>)
    requires
        a.len() == b.len(),
        sorted_by_block(a),
        sorted_by_block(b),
        forall|k: u64| #[trigger] a.filter(at_block(k)) == b.filter(at_block(k)),
    ensures
        a == b,
    decreases a.len(),
{
    reveal(Seq::filter);
    if a.len() > 0 {
        let ka = a.last().block;
        let kb = b.last().block;
        assert(a.filter(at_block(ka)) == b.filter(at_block(ka)));
        assert(a.filter(at_block(kb)) == b.filter(at_block(kb)));
        if ka < kb {
            lemma_no_record_at_block(a, kb);
        }
        if kb < ka {
            lemma_no_record_at_block(b, ka);
        }
        let k = ka;
        let a0 = a.drop_last();
        let b0 = b.drop_last();
        assert(a.filter(at_block(k)) == a0.filter(at_block(k)).push(a.last()));
        assert(b.filter(at_block(k)) == b0.filter(at_block(k)).push(b.last()));
        assert(a.last() == a.filter(at_block(k)).last());
        assert(b.last() == b.filter(at_block(k)).last());
        assert forall|j: u64| #[trigger] a0.filter(at_block(j)) == b0.filter(at_block(j)) by {
            assert(a.filter(at_block(j)) == b.filter(at_block(j)));
            if j == k {
                assert(a0.filter(at_block(j)) =~= a.filter(at_block(j)).drop_last());
                assert(b0.filter(at_block(j)) =~= b.filter(at_block(j)).drop_last());
            }
        }
        lemma_same_blocks_equal(a0, b0);
        assert(a =~= a0.push(a.last()));
        assert(b =~= b0.push(b.last()));
    }
}

/// There is one stable ordering by block: two orderings of the same records
/// that both keep each block's records in input order are equal.
pub proof fn lemma_block_order_unique(a: Seq<Record>, b: Seq<Record>, s: Seq<Record>)
    requires
        is_block_order_of(a, s),
        is_block_order_of(b, s),
    ensures
        a == b,
{
    assert forall|k: u64| #[trigger] a.filter(at_block(k)) == b.filter(at_block(k)) by {
        assert(a.filter(at_block(k)) == s.filter(at_block(k)));
        assert(b.filter(at_block(k)) == s.filter(at_block(k)));
    }
    lemma_same_blocks_equal(a, b);
}

/// Where a record of block `b` goes in the block-sorted `o`: after every
/// record of block at most `b`.
spec fn insert_pos(o: Seq<Record>, b: u64) -> int
    decreases o.len(),
{
    if o.len() == 0 {
        0
    } else if o.last().block <= b {
        o.len() as int
    } else {
        insert_pos(o.drop_last(), b)
    }
}

proof fn lemma_insert_pos(o: Seq<Record>, b: u64)
    requires
        sorted_by_block(o),
    ensures
        0 <= insert_pos(o, b) <= o.len(),
        forall|i: int| 0 <= i < insert_pos(o, b) ==> o[i].block <= b,
        forall|i: int| insert_pos(o, b) <= i < o.len() ==> o[i].block > b,
    decreases o.len(),
{
    if o.len() > 0 {
        if o.last().block > b {
            let o0 = o.drop_last();
            assert(sorted_by_block(o0)) by {
                assert forall|i: int, j: int| 0 <= i < j < o0.len() implies o0[i].block
                    <= o0[j].block by {
                    assert(o0[i] == o[i] && o0[j] == o[j]);
                }
            }
            lemma_insert_pos(o0, b);
            assert forall|i: int| 0 <= i < o0.len() implies o0[i] == o[i] by {}
        } else {
            assert forall|i: int| 0 <= i < o.len() implies o[i].block <= b by {
                if i < o.len() - 1 {
                    assert(o[i].block <= o[o.len() - 1].block);
                }
            }
        }
    }
}

/// Every sequence of records has a stable ordering by block.
pub proof fn lemma_block_order_exists(s: Seq<Record>)
    ensures
        is_block_order_of(block_order(s), s),
    decreases s.len(),
{
    reveal(Seq::filter);
    if s.len() == 0 {
        assert(is_block_order_of(s, s));
    } else {
        let s0 = s.drop_last();
        let x = s.last();
        lemma_block_order_exists(s0);
        let o0 = block_order(s0);
        lemma_insert_pos(o0, x.block);
        let p = insert_pos(o0, x.block);
        let pre = o0.subrange(0, p);
        let post = o0.subrange(p, o0.len() as int);
        let o = pre + seq![x] + post;
        assert(o0 =~= pre + post);
        assert forall|i: int, j: int| 0 <= i < j < o.len() implies o[i].block <= o[j].block by {
            if j < p || i > p {
                let oi = if i < p { i } else { i - 1 };
                let oj = if j < p { j } else { j - 1 };
                assert(o[i] == o0[oi] && o[j] == o0[oj]);
            } else if i == p {
                assert(o[j] == o0[j - 1]);
            } else if j == p {
                assert(o[i] == o0[i]);
            } else {
                assert(o[i] == o0[i] && o[j] == o0[j - 1]);
            }
        }
        assert forall|k: u64| #[trigger] o.filter(at_block(k)) == s.filter(at_block(k)) by {
            let f = at_block(k);
            Seq::filter_distributes_over_add(pre + seq![x], post, f);
            Seq::filter_distributes_over_add(pre, seq![x], f);
            Seq::filter_distributes_over_add(pre, post, f);
            assert(seq![x].drop_last() =~= Seq::<Record>::empty());
            assert(s0.filter(f) == o0.filter(f));
            if k == x.block {
                assert forall|j: int| 0 <= j < post.len() implies post[j].block != k by {
                    assert(post[j] == o0[p + j]);
                }
                lemma_no_record_at_block(post, k);
                assert(post.filter(f) =~= Seq::<Record>::empty());
                assert(Seq::<Record>::empty().filter(f) =~= Seq::<Record>::empty());
                assert(seq![x].filter(f) =~= seq![x]);
                assert(s.filter(f) == s0.filter(f).push(x));
                assert(o.filter(f) =~= s.filter(f));
            } else {
                assert(Seq::<Record>::empty().filter(f) =~= Seq::<Record>::empty());
                assert(seq![x].filter(f) =~= Seq::<Record>::empty());
                assert(s.filter(f) == s0.filter(f));
                assert(o.filter(f) =~= s.filter(f));
            }
        }
        assert(is_block_order_of(o, s));
    }
}

/// Filtering by two predicates in either order keeps the same records.
proof fn lemma_filter_commutes(s: Seq<Record>, p: spec_fn(Record) -> bool, q: spec_fn(Record) -> bool)
    ensures
        s.filter(p).filter(q) == s.filter(q).filter(p),
    decreases s.len(),
{
    reveal(Seq::filter);
    if s.len() > 0 {
        lemma_filter_commutes(s.drop_last(), p, q);
        let x = s.last();
        assert(s.drop_last().filter(p).push(x).drop_last() =~= s.drop_last().filter(p));
        assert(s.drop_last().filter(q).push(x).drop_last() =~= s.drop_last().filter(q));
    }
}

/// A filter keeps each kept value as often as the sequence holds it.
proof fn lemma_filter_count(s: Seq<Record>, p: spec_fn(Record) -> bool, a: Record)
    ensures
        s.filter(p).to_multiset().count(a) == if p(a) {
            s.to_multiset().count(a)
        } else {
            0
        },
    decreases s.len(),
{
    broadcast use vstd::seq_lib::group_to_multiset_ensures;

    reveal(Seq::filter);
    if s.len() == 0 {
        assert(s.to_multiset() =~= Multiset::empty());
    } else {
        lemma_filter_count(s.drop_last(), p, a);
        assert(s =~= s.drop_last().push(s.last()));
    }
}

/// Where every record of block `k` in `s` is `x`, the records of block `k`
/// are `x`, as many times as `s` holds it.
proof fn lemma_uniform_block(s: Seq<Record>, k: u64, x: Record)
    requires
        x.block == k,
        forall|i: int| 0 <= i < s.len() && s[i].block == k ==> s[i] == x,
    ensures
        s.filter(at_block(k)) == Seq::new(s.to_multiset().count(x), |i: int| x),
    decreases s.len(),
{
    broadcast use vstd::seq_lib::group_to_multiset_ensures;

    reveal(Seq::filter);
    if s.len() == 0 {
        assert(s.to_multiset() =~= Multiset::empty());
        assert(s.filter(at_block(k)) =~= Seq::new(s.to_multiset().count(x), |i: int| x));
    } else {
        let s0 = s.drop_last();
        lemma_uniform_block(s0, k, x);
        assert(s =~= s0.push(s.last()));
        assert(s.filter(at_block(k)) =~= Seq::new(s.to_multiset().count(x), |i: int| x));
    }
}

/// Shuffling the records does not change the estimate, provided records that
/// share a block are identical: where they differ, the one written last gives
/// the statistics of that block's span, so their order matters.
pub proof fn lemma_shuffle_invariant(s1: Seq<Record>, s2: Seq<Record>, range: BlockRange)
    requires
        s1.to_multiset() == s2.to_multiset(),
        forall|i: int, j: int|
            0 <= i < s1.len() && 0 <= j < s1.len() && s1[i].block == s1[j].block ==> s1[i]
                == s1[j],
    ensures
        s1.filter(in_range(range)).len() == s2.filter(in_range(range)).len(),
        block_order(s1.filter(in_range(range))) == block_order(s2.filter(in_range(range))),
{
    broadcast use vstd::seq_lib::group_to_multiset_ensures;

    let r = in_range(range);
    let f1 = s1.filter(r);
    let f2 = s2.filter(r);
    assert forall|k: u64| #[trigger] f1.filter(at_block(k)) == f2.filter(at_block(k)) by {
        let x = if exists|i: int| 0 <= i < s1.len() && s1[i].block == k {
            let i = choose|i: int| 0 <= i < s1.len() && s1[i].block == k;
            s1[i]
        } else {
            Record { block: k, log_count: 0, data_len: 0, topic_count: 0 }
        };
        assert forall|j: int| 0 <= j < s2.len() && s2[j].block == k implies s2[j] == x by {
            assert(s2.to_multiset().count(s2[j]) > 0);
            assert(s1.contains(s2[j]));
        }
        lemma_uniform_block(s1, k, x);
        lemma_uniform_block(s2, k, x);
        lemma_filter_commutes(s1, r, at_block(k));
        lemma_filter_commutes(s2, r, at_block(k));
    }
    assert forall|a: Record| #[trigger] f1.to_multiset().count(a) == f2.to_multiset().count(a) by {
        lemma_filter_count(s1, r, a);
        lemma_filter_count(s2, r, a);
    }
    assert(f1.to_multiset() =~= f2.to_multiset());
    assert(f1.len() == f1.to_multiset().len());
    assert(f2.len() == f2.to_multiset().len());
    lemma_block_order_exists(f1);
    lemma_block_order_exists(f2);
    let o1 = block_order(f1);
    assert(is_block_order_of(o1, f2));
    lemma_block_order_unique(o1, block_order(f2), f2);
}

/// A record followed by one of the same block spans no blocks: dropping it
/// leaves every span sum unchanged, and the record after it, which comes
/// later in input order, speaks for the span that follows.
pub proof fn lemma_duplicate_adds_nothing(o: Seq<Record>, i: int, stat: spec_fn(Record) -> int)
    requires
        0 <= i,
        i + 1 < o.len(),
        o[i].block == o[i + 1].block,
    ensures
        span_sum(o.remove(i), stat) == span_sum(o, stat),
    decreases o.len(),
{
    let n = o.len() as int;
    let r = o.remove(i);
    if i + 2 < n {
        let o0 = o.drop_last();
        lemma_duplicate_adds_nothing(o0, i, stat);
        assert(r.drop_last() =~= o0.remove(i));
        assert(r[r.len() - 2] == o[n - 2]);
        assert(r.last() == o[n - 1]);
    } else {
        let t = o.drop_last().drop_last();
        assert(r =~= t.push(o[n - 1]));
        assert(r.drop_last() =~= t);
        assert(o.drop_last().drop_last() == t);
        assert(span_sum(o, stat) == span_sum(o.drop_last(), stat)) by {
            assert(i == n - 2);
            let w = o[n - 1].block - o[n - 2].block;
            assert(w == 0);
            assert(stat(o[n - 2]) * w == 0) by (nonlinear_arith)
                requires
                    w == 0,
            ;
        }
        if n > 2 {
            let d = o.drop_last();
            assert(r[r.len() - 2] == o[n - 3]);
            assert(d[d.len() - 2] == o[n - 3]);
            assert(d.last() == o[n - 2]);
            assert(span_sum(d, stat) == span_sum(t, stat) + stat(o[n - 3]) * (o[n - 2].block
                - o[n - 3].block));
            assert(span_sum(r, stat) == span_sum(t, stat) + stat(o[n - 3]) * (o[n - 1].block
                - o[n - 3].block));
        }
    }
}

} // verus!

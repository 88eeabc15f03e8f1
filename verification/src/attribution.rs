use vstd::prelude::*;
use crate::graph::Graph;
use crate::types::{NativeContextBucket, NativeContextId, NativeContextData};
use crate::native::size_in_bucket;
use crate::statistics::node_sum;

verus! {

/// Sum of the self sizes of the first `m` nodes, bucket by bucket, over the
/// buckets of the first `k` native contexts.
pub open spec fn context_bucket_sums(g: Graph, buckets: Seq<NativeContextBucket>, k: int, m: int) -> int
    decreases k,
{
    if k <= 0 {
        0
    } else {
        context_bucket_sums(g, buckets, k - 1, m) + node_sum(
            m,
            |v: int| size_in_bucket(g, buckets, v, NativeContextBucket::Context(NativeContextId((k - 1) as u32))),
        )
    }
}

/// What node `v` adds to the buckets of the first `k` native contexts.
pub open spec fn context_bucket_share(g: Graph, buckets: Seq<NativeContextBucket>, k: int, v: int) -> int
    decreases k,
{
    if k <= 0 {
        0
    } else {
        context_bucket_share(g, buckets, k - 1, v) + size_in_bucket(
            g,
            buckets,
            v,
            NativeContextBucket::Context(NativeContextId((k - 1) as u32)),
        )
    }
}

/// Sum of the sizes of the first `k` listed native contexts.
pub open spec fn context_size_sum(contexts: Seq<NativeContextData>, k: int) -> int
    decreases k,
{
    if k <= 0 {
        0
    } else {
        context_size_sum(contexts, k - 1) + contexts[k - 1].size
    }
}

/// Every node's bucket is shared, unattributed, or one of the first `k`
/// native contexts.
pub open spec fn buckets_in_range(buckets: Seq<NativeContextBucket>, k: int, n: int) -> bool {
    forall|v: int| 0 <= v < n ==> match #[trigger] buckets[v] {
        NativeContextBucket::Context(id) => id.0 < k,
        _ => true,
    }
}

proof fn lemma_bucket_sums_step(g: Graph, buckets: Seq<NativeContextBucket>, k: int, m: int)
    requires
        m >= 0,
    ensures
        context_bucket_sums(g, buckets, k, m + 1) == context_bucket_sums(g, buckets, k, m)
            + context_bucket_share(g, buckets, k, m),
    decreases k,
{
    if k > 0 {
        lemma_bucket_sums_step(g, buckets, k - 1, m);
    }
}

proof fn lemma_bucket_sums_empty(g: Graph, buckets: Seq<NativeContextBucket>, k: int)
    ensures
        context_bucket_sums(g, buckets, k, 0) == 0,
    decreases k,
{
    if k > 0 {
        lemma_bucket_sums_empty(g, buckets, k - 1);
    }
}

proof fn lemma_bucket_share(g: Graph, buckets: Seq<NativeContextBucket>, k: int, v: int)
    requires
        0 <= k <= 0xffff_ffff,
    ensures
        context_bucket_share(g, buckets, k, v) == match buckets[v] {
            NativeContextBucket::Context(id) => if id.0 < k { g.self_size(v) as int } else { 0 },
            _ => 0,
        },
    decreases k,
{
    if k > 0 {
        lemma_bucket_share(g, buckets, k - 1, v);
        let b = NativeContextBucket::Context(NativeContextId((k - 1) as u32));
        match buckets[v] {
            NativeContextBucket::Context(id) => {
                if id.0 == k - 1 {
                    assert(buckets[v] == b);
                } else {
                    assert(buckets[v] != b);
                }
            },
            _ => {},
        }
    }
}

proof fn lemma_bucket_partition_prefix(g: Graph, buckets: Seq<NativeContextBucket>, k: int, m: int)
    requires
        0 <= k <= 0xffff_ffff,
        0 <= m,
        buckets_in_range(buckets, k, m),
    ensures
        context_bucket_sums(g, buckets, k, m)
            + node_sum(m, |v: int| size_in_bucket(g, buckets, v, NativeContextBucket::Shared))
            + node_sum(m, |v: int| size_in_bucket(g, buckets, v, NativeContextBucket::Unattributed))
            == node_sum(m, |v: int| g.self_size(v) as int),
    decreases m,
{
    if m > 0 {
        lemma_bucket_partition_prefix(g, buckets, k, m - 1);
        lemma_bucket_sums_step(g, buckets, k, m - 1);
        lemma_bucket_share(g, buckets, k, m - 1);
        let b = buckets[m - 1];
        assert(match b {
            NativeContextBucket::Context(id) => id.0 < k,
            _ => true,
        });
    } else {
        lemma_bucket_sums_empty(g, buckets, k);
    }
}

proof fn lemma_context_sizes(
    g: Graph,
    contexts: Seq<NativeContextData>,
    buckets: Seq<NativeContextBucket>,
    k: int,
)
    requires
        0 <= k <= contexts.len(),
        forall|i: int| 0 <= i < contexts.len() ==> (#[trigger] contexts[i]).size == node_sum(
            g.node_count() as int,
            |v: int| size_in_bucket(g, buckets, v, NativeContextBucket::Context(NativeContextId(i as u32))),
        ),
    ensures
        context_size_sum(contexts, k) == context_bucket_sums(g, buckets, k, g.node_count() as int),
    decreases k,
{
    if k > 0 {
        lemma_context_sizes(g, contexts, buckets, k - 1);
        assert(contexts[k - 1].size == node_sum(
            g.node_count() as int,
            |v: int| size_in_bucket(g, buckets, v, NativeContextBucket::Context(NativeContextId((k - 1) as u32))),
        ));
    }
}

/// The sizes of the listed native contexts, the shared size and the
/// unattributed size add up to the total self size of the graph, when
/// every node's bucket is shared, unattributed or a listed context and
/// those sizes are the sums of their buckets.
pub proof fn lemma_attribution_partition(
    g: Graph,
    contexts: Seq<NativeContextData>,
    buckets: Seq<NativeContextBucket>,
    shared: int,
    unattributed: int,
)
    requires
        contexts.len() <= 0xffff_ffff,
        buckets_in_range(buckets, contexts.len() as int, g.node_count() as int),
        forall|i: int| 0 <= i < contexts.len() ==> (#[trigger] contexts[i]).size == node_sum(
            g.node_count() as int,
            |v: int| size_in_bucket(g, buckets, v, NativeContextBucket::Context(NativeContextId(i as u32))),
        ),
        shared == node_sum(g.node_count() as int, |v: int| size_in_bucket(g, buckets, v, NativeContextBucket::Shared)),
        unattributed == node_sum(g.node_count() as int, |v: int| size_in_bucket(g, buckets, v, NativeContextBucket::Unattributed)),
    ensures
        context_size_sum(contexts, contexts.len() as int) + shared + unattributed == node_sum(
            g.node_count() as int,
            |v: int| g.self_size(v) as int,
        ),
{
    lemma_context_sizes(g, contexts, buckets, contexts.len() as int);
    lemma_bucket_partition_prefix(g, buckets, contexts.len() as int, g.node_count() as int);
}

} // verus!

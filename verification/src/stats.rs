use crate::ledger::Ledger;
use crate::ledger::Node;
use crate::ledger::ValidNode;
use vstd::prelude::*;

verus! {

// ---------------------------------------------------------------------------
// The depth graph
// ---------------------------------------------------------------------------

/// Depth of the internal position `p` (0 is the origin) in the valid-
/// reference graph of the externally visible sequence `s`: the origin has
/// depth 0; a valid record's depth is one more than the least depth among
/// its resolved references to strictly earlier positions that themselves
/// have a depth; an invalid record, or one with no such reference, has
/// none.
pub open spec fn spec_node_depth(s: Seq<Node>, p: int) -> Option<int>
    decreases p,
{
    if p <= 0 {
        Some(0)
    } else {
        match s[p - 1] {
            Node::Invalid => None,
            Node::Valid(v) => {
                let ld = match v.left {
                    Option::Some(l) => if (l as int) < p {
                        spec_node_depth(s, l as int)
                    } else {
                        Option::<int>::None
                    },
                    Option::None => Option::<int>::None,
                };
                let rd = match v.right {
                    Option::Some(q) => if (q as int) < p {
                        spec_node_depth(s, q as int)
                    } else {
                        Option::<int>::None
                    },
                    Option::None => Option::<int>::None,
                };
                match (ld, rd) {
                    (Option::Some(a), Option::Some(b)) => Some(
                        1 + if a <= b {
                            a
                        } else {
                            b
                        },
                    ),
                    (Option::Some(a), Option::None) => Some(1 + a),
                    (Option::None, Option::Some(b)) => Some(1 + b),
                    (Option::None, Option::None) => None,
                }
            },
        }
    }
}

/// A position's depth never exceeds the position itself.
pub proof fn lemma_depth_bounds(s: Seq<Node>, p: int)
    ensures
        spec_node_depth(s, p) is Some ==> 0 <= spec_node_depth(s, p)->Some_0,
        spec_node_depth(s, p) is Some && p >= 0 ==> spec_node_depth(s, p)->Some_0 <= p,
    decreases p,
{
    if p > 0 {
        match s[p - 1] {
            Node::Valid(v) => {
                match v.left {
                    Option::Some(l) => {
                        if (l as int) < p {
                            lemma_depth_bounds(s, l as int);
                        }
                    },
                    Option::None => {},
                }
                match v.right {
                    Option::Some(q) => {
                        if (q as int) < p {
                            lemma_depth_bounds(s, q as int);
                        }
                    },
                    Option::None => {},
                }
            },
            Node::Invalid => {},
        }
    }
}

/// The finite depths of the internal positions `1..=k`, in position order:
/// the origin and every unreachable record are left out.
pub open spec fn spec_depth_seq(s: Seq<Node>, k: int) -> Seq<int>
    decreases k,
{
    if k <= 0 {
        Seq::empty()
    } else {
        spec_depth_seq(s, k - 1) + match spec_node_depth(s, k) {
            Option::Some(d) => seq![d],
            Option::None => Seq::<int>::empty(),
        }
    }
}

pub proof fn lemma_depth_seq_elems(s: Seq<Node>, k: int)
    ensures
        forall|j: int|
            0 <= j < spec_depth_seq(s, k).len() ==> 0 <= #[trigger] spec_depth_seq(s, k)[j],
    decreases k,
{
    if k > 0 {
        lemma_depth_seq_elems(s, k - 1);
        lemma_depth_bounds(s, k);
        let prev = spec_depth_seq(s, k - 1);
        let cur = spec_depth_seq(s, k);
        assert forall|j: int| 0 <= j < cur.len() implies 0 <= cur[j] by {
            if j < prev.len() {
                assert(cur[j] == prev[j]);
            } else {
                assert(cur[j] == spec_node_depth(s, k)->Some_0);
            }
        }
    }
}

// ---------------------------------------------------------------------------
// Sums, maxima, counts
// ---------------------------------------------------------------------------

pub open spec fn seq_sum(s: Seq<int>) -> int
    decreases s.len(),
{
    if s.len() == 0 {
        0
    } else {
        seq_sum(s.drop_last()) + s.last()
    }
}

/// The largest element, or 0 for an empty sequence.
pub open spec fn seq_max(s: Seq<int>) -> int
    decreases s.len(),
{
    if s.len() == 0 {
        0
    } else {
        let m = seq_max(s.drop_last());
        if s.last() > m {
            s.last()
        } else {
            m
        }
    }
}

/// For a sequence without negative elements, a prefix never sums to more
/// than the whole.
pub proof fn lemma_seq_sum_prefix(s: Seq<int>, k: int)
    requires
        0 <= k <= s.len(),
        forall|j: int| 0 <= j < s.len() ==> 0 <= #[trigger] s[j],
    ensures
        0 <= seq_sum(s.take(k)) <= seq_sum(s),
    decreases s.len() - k,
{
    if k == s.len() {
        assert(s.take(k) =~= s);
        assert(seq_sum(s.take(k)) >= 0) by {
            lemma_seq_sum_nonneg(s);
        }
    } else {
        assert(s.take(k + 1).drop_last() =~= s.take(k));
        lemma_seq_sum_prefix(s, k + 1);
        assert(s.take(k + 1).last() == s[k]);
        lemma_seq_sum_nonneg(s.take(k));
    }
}

pub proof fn lemma_seq_sum_nonneg(s: Seq<int>)
    requires
        forall|j: int| 0 <= j < s.len() ==> 0 <= #[trigger] s[j],
    ensures
        seq_sum(s) >= 0,
    decreases s.len(),
{
    if s.len() > 0 {
        lemma_seq_sum_nonneg(s.drop_last());
    }
}

/// The valid records of the externally visible prefix `s[..k]`, in order.
pub open spec fn spec_valid_seq(s: Seq<Node>, k: int) -> Seq<ValidNode>
    decreases k,
{
    if k <= 0 {
        Seq::empty()
    } else {
        spec_valid_seq(s, k - 1) + match s[k - 1] {
            Node::Valid(v) => seq![v],
            Node::Invalid => Seq::<ValidNode>::empty(),
        }
    }
}

pub proof fn lemma_valid_seq_len(s: Seq<Node>, k: int)
    requires
        0 <= k,
    ensures
        spec_valid_seq(s, k).len() <= k,
    decreases k,
{
    if k > 0 {
        lemma_valid_seq_len(s, k - 1);
    }
}

/// How many of one record's references resolved: an invalid record
/// contributes nothing, whatever its raw tokens said.
pub open spec fn spec_node_ref_count(node: Node) -> int {
    match node {
        Node::Invalid => 0,
        Node::Valid(v) => (match v.left {
            Option::Some(_) => 1 as int,
            Option::None => 0,
        }) + (match v.right {
            Option::Some(_) => 1 as int,
            Option::None => 0,
        }),
    }
}

/// Resolved references, summed over the first `k` records.
pub open spec fn spec_ref_count(s: Seq<Node>, k: int) -> int
    decreases k,
{
    if k <= 0 {
        0
    } else {
        spec_ref_count(s, k - 1) + spec_node_ref_count(s[k - 1])
    }
}

pub proof fn lemma_ref_count_mono(s: Seq<Node>, k1: int, k2: int)
    requires
        0 <= k1 <= k2,
    ensures
        0 <= spec_ref_count(s, k1) <= spec_ref_count(s, k2),
    decreases k2,
{
    if k2 > 0 {
        if k1 == k2 {
            lemma_ref_count_mono(s, k1 - 1, k2 - 1);
        } else {
            lemma_ref_count_mono(s, k1, k2 - 1);
        }
    }
}

// ---------------------------------------------------------------------------
// The statistics record
// ---------------------------------------------------------------------------

/// The aggregate statistics of a ledger, as exact integers. Each ratio
/// metric is kept as the numerator and denominator that define it:
/// `avg_dag_depth` is `dag_depth_num / dag_depth_den`; `avg_txs_per_depth`
/// is `txs_per_depth_num / txs_per_depth_den`, or zero when no record is
/// reachable; `avg_refs` is `refs_num / refs_den`; `pct_valid` is
/// `100 * valid_count / node_count`, or one hundred percent when the ledger
/// is empty; `avg_tx_rate` is `rate_num / rate_den`.
#[derive(Debug, PartialEq, Eq, Clone, Copy)]
pub struct Stats {
    pub dag_depth_num: usize,
    pub dag_depth_den: usize,
    pub txs_per_depth_num: usize,
    pub txs_per_depth_den: usize,
    pub refs_num: usize,
    pub refs_den: usize,
    pub valid_count: usize,
    pub node_count: usize,
    pub rate_num: usize,
    pub rate_den: u64,
}

/// The sole inputs on which the statistics are undefined: at least two
/// valid records whose inclusive timestamp window does not fit an unsigned
/// 64-bit number.
pub open spec fn rate_ok(s: Seq<Node>) -> bool {
    let vseq = spec_valid_seq(s, s.len() as int);
    vseq.len() >= 2 ==> vseq.first().timestamp <= vseq.last().timestamp && vseq.last().timestamp
        - vseq.first().timestamp < u64::MAX
}

/// What the statistics of a ledger are.
pub open spec fn spec_stats(s: Seq<Node>) -> Stats {
    let n = s.len() as int;
    let depths = spec_depth_seq(s, n);
    let vseq = spec_valid_seq(s, n);
    Stats {
        dag_depth_num: seq_sum(depths) as usize,
        dag_depth_den: (vseq.len() + 1) as usize,
        txs_per_depth_num: depths.len() as usize,
        txs_per_depth_den: seq_max(depths) as usize,
        refs_num: spec_ref_count(s, n) as usize,
        refs_den: (vseq.len() + 1) as usize,
        valid_count: vseq.len() as usize,
        node_count: s.len() as usize,
        rate_num: if vseq.len() >= 2 {
            vseq.len() as usize
        } else {
            0
        },
        rate_den: if vseq.len() >= 2 {
            (vseq.last().timestamp - vseq.first().timestamp + 1) as u64
        } else {
            1
        },
    }
}

/// The statistics are a pure function of the ledger: two computations on
/// the same ledger yield identical values.
pub proof fn lemma_stats_deterministic(s: Seq<Node>, a: Stats, b: Stats)
    requires
        a == spec_stats(s),
        b == spec_stats(s),
    ensures
        a == b,
{
}

impl Ledger {
    /// The valid records, in sequence order.
    #[verifier::loop_isolation(false)]
    pub fn valid_nodes(&self) -> (r: Vec<ValidNode>)
        ensures
            r@ == spec_valid_seq(self@, self@.len() as int),
    {
        let n = self.0.len();
        let mut r: Vec<ValidNode> = Vec::new();
        let mut i: usize = 0;
        while i < n
            invariant
                i <= n,
                r@ == spec_valid_seq(self@, i as int),
            decreases n - i,
        {
            let ghost old_r = r@;
            match self.0[i] {
                Node::Valid(v) => {
                    r.push(v);
                    proof {
                        assert(r@ =~= old_r + seq![v]);
                    }
                },
                Node::Invalid => {
                    proof {
                        assert(old_r + Seq::<ValidNode>::empty() =~= old_r);
                    }
                },
            }
            i = i + 1;
        }
        r
    }

    /// The finite depths of the records, in sequence order: unreachable
    /// records and the origin are left out.
    #[verifier::loop_isolation(false)]
    pub fn compute_depths(&self) -> (r: Vec<usize>)
        requires
            self@.len() < usize::MAX,
        ensures
            r@.map_values(|d: usize| d as int) == spec_depth_seq(self@, self@.len() as int),
    {
        let n = self.0.len();
        // `depths[p]` holds the depth of internal position `p`, with
        // `usize::MAX` standing for "unreachable".
        let mut depths: Vec<usize> = Vec::new();
        depths.push(0);
        let mut out: Vec<usize> = Vec::new();
        let mut i: usize = 0;
        while i < n
            invariant
                i <= n,
                depths@.len() == i + 1,
                forall|k: int|
                    0 <= k <= i ==> #[trigger] depths@[k] as int == (
                    match spec_node_depth(self@, k) {
                        Option::Some(d) => d,
                        Option::None => usize::MAX as int,
                    }),
                out@.map_values(|d: usize| d as int) == spec_depth_seq(self@, i as int),
            decreases n - i,
        {
            let d: usize = match self.0[i] {
                Node::Invalid => usize::MAX,
                Node::Valid(v) => {
                    let ld: usize = match v.left {
                        Option::Some(l) => {
                            if l < depths.len() {
                                proof {
                                    lemma_depth_bounds(self@, l as int);
                                }
                                if depths[l] == usize::MAX {
                                    usize::MAX
                                } else {
                                    depths[l] + 1
                                }
                            } else {
                                usize::MAX
                            }
                        },
                        Option::None => usize::MAX,
                    };
                    let rd: usize = match v.right {
                        Option::Some(q) => {
                            if q < depths.len() {
                                proof {
                                    lemma_depth_bounds(self@, q as int);
                                }
                                if depths[q] == usize::MAX {
                                    usize::MAX
                                } else {
                                    depths[q] + 1
                                }
                            } else {
                                usize::MAX
                            }
                        },
                        Option::None => usize::MAX,
                    };
                    if ld <= rd {
                        ld
                    } else {
                        rd
                    }
                },
            };
            proof {
                assert(d as int == match spec_node_depth(self@, i + 1) {
                    Option::Some(dd) => dd,
                    Option::None => usize::MAX as int,
                });
            }
            let ghost old_out = out@.map_values(|d: usize| d as int);
            if d != usize::MAX {
                out.push(d);
                proof {
                    assert(out@.map_values(|d: usize| d as int) =~= old_out + seq![d as int]);
                }
            } else {
                proof {
                    assert(old_out + Seq::<int>::empty() =~= old_out);
                }
            }
            depths.push(d);
            i = i + 1;
        }
        out
    }

    /// How many references, over all records, resolved to `Some`.
    #[verifier::loop_isolation(false)]
    pub fn count_refs(&self) -> (r: usize)
        requires
            spec_ref_count(self@, self@.len() as int) <= usize::MAX,
        ensures
            r as int == spec_ref_count(self@, self@.len() as int),
    {
        let n = self.0.len();
        let mut count: usize = 0;
        let mut i: usize = 0;
        while i < n
            invariant
                i <= n,
                count as int == spec_ref_count(self@, i as int),
            decreases n - i,
        {
            proof {
                lemma_ref_count_mono(self@, i + 1, n as int);
            }
            match self.0[i] {
                Node::Valid(v) => {
                    match v.left {
                        Option::Some(_) => {
                            count = count + 1;
                        },
                        Option::None => {},
                    }
                    match v.right {
                        Option::Some(_) => {
                            count = count + 1;
                        },
                        Option::None => {},
                    }
                },
                Node::Invalid => {},
            }
            i = i + 1;
        }
        count
    }

    /// Computes the aggregate statistics of the ledger in one pass over the
    /// depth graph and the valid records.
    #[verifier::loop_isolation(false)]
    pub fn compute_stats(&self) -> (r: Stats)
        requires
            self@.len() < usize::MAX,
            seq_sum(spec_depth_seq(self@, self@.len() as int)) <= usize::MAX,
            spec_ref_count(self@, self@.len() as int) <= usize::MAX,
            rate_ok(self@),
        ensures
            r == spec_stats(self@),
    {
        let valid_nodes = self.valid_nodes();
        proof {
            lemma_valid_seq_len(self@, self@.len() as int);
        }
        let total_nodes = valid_nodes.len() + 1;

        let depths = self.compute_depths();
        let ghost dspec = spec_depth_seq(self@, self@.len() as int);
        proof {
            lemma_depth_seq_elems(self@, self@.len() as int);
        }
        let mut depth_sum: usize = 0;
        let mut depth_max: usize = 0;
        let m = depths.len();
        let mut j: usize = 0;
        while j < m
            invariant
                j <= m,
                depth_sum as int == seq_sum(dspec.take(j as int)),
                depth_max as int == seq_max(dspec.take(j as int)),
            decreases m - j,
        {
            let d = depths[j];
            proof {
                assert(dspec.take(j + 1).drop_last() =~= dspec.take(j as int));
                assert(dspec[j as int] == depths@.map_values(|d: usize| d as int)[j as int]);
                lemma_seq_sum_prefix(dspec, j + 1);
            }
            depth_sum = depth_sum + d;
            if d > depth_max {
                depth_max = d;
            }
            j = j + 1;
        }
        proof {
            assert(dspec.take(m as int) =~= dspec);
        }

        let refs_count = self.count_refs();

        let (rate_num, rate_den) = if valid_nodes.len() > 1 {
            let start = valid_nodes[0].timestamp;
            let end = valid_nodes[valid_nodes.len() - 1].timestamp;
            // Measure the elapsed window inclusively.
            (valid_nodes.len(), end - start + 1)
        } else {
            (0, 1)
        };

        Stats {
            dag_depth_num: depth_sum,
            dag_depth_den: total_nodes,
            txs_per_depth_num: depths.len(),
            txs_per_depth_den: depth_max,
            refs_num: refs_count,
            refs_den: total_nodes,
            valid_count: valid_nodes.len(),
            node_count: self.0.len(),
            rate_num,
            rate_den,
        }
    }
}

} // verus!

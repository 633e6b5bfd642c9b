//! The chain of packed chunks: the full sequence.

use vstd::prelude::*;

verus! {

use crate::codec;
use crate::error::Error;
use crate::node::Node;

/// The codes of a run of chunks, concatenated in chunk order.
pub open spec fn flat(nodes: Seq<Node>) -> Seq<u64>
    decreases nodes.len(),
{
    if nodes.len() == 0 {
        Seq::empty()
    } else {
        flat(nodes.drop_last()) + nodes.last()@
    }
}

/// Appending a chunk appends its codes.
pub proof fn lemma_flat_push(nodes: Seq<Node>, n: Node)
    ensures
        flat(nodes.push(n)) == flat(nodes) + n@,
{
    assert(nodes.push(n).drop_last() =~= nodes);
}

/// The chain around one chunk: the codes before it, its own, those after.
pub proof fn lemma_flat_decompose(nodes: Seq<Node>, k: int)
    requires
        0 <= k < nodes.len(),
    ensures
        flat(nodes) == flat(nodes.take(k)) + nodes[k]@ + flat(nodes.skip(k + 1)),
    decreases nodes.len(),
{
    if k == nodes.len() - 1 {
        assert(nodes.take(k) =~= nodes.drop_last());
        assert(nodes.skip(k + 1) =~= Seq::<Node>::empty());
        assert(flat(nodes.take(k)) + nodes[k]@ + flat(nodes.skip(k + 1)) =~= flat(nodes));
    } else {
        let d = nodes.drop_last();
        lemma_flat_decompose(d, k);
        assert(d.take(k) =~= nodes.take(k));
        assert(nodes.skip(k + 1) =~= d.skip(k + 1).push(nodes.last()));
        lemma_flat_push(d.skip(k + 1), nodes.last());
        assert(flat(nodes) =~= flat(nodes.take(k)) + nodes[k]@ + flat(nodes.skip(k + 1)));
    }
}

/// Sequence with good edition time
pub struct DynSeq {
    nodes: Vec<Node>,
    node_index2pos: Vec<usize>,
}

impl DynSeq {
    /// The whole stored sequence, as 2-bit codes.
    pub closed spec fn view(&self) -> Seq<u64> {
        flat(self.nodes@)
    }

    /// The number of chunks in the chain.
    pub closed spec fn chunk_count(&self) -> nat {
        self.nodes@.len()
    }

    /// The number of symbols held by chunk `k`.
    pub closed spec fn chunk_len(&self, k: int) -> nat {
        self.nodes@[k]@.len()
    }

    /// Well-formed: every chunk is, and the position table maps each
    /// chunk ordinal to the number of symbols held by the chunks before
    /// it, its starting global offset.
    pub closed spec fn wf(&self) -> bool {
        &&& self.node_index2pos@.len() == self.nodes@.len()
        &&& forall|k: int| 0 <= k < self.nodes@.len() ==> (#[trigger] self.nodes@[k]).wf()
        &&& forall|k: int|
            0 <= k < self.nodes@.len() ==> (#[trigger] self.node_index2pos@[k]) == flat(
                self.nodes@.take(k),
            ).len()
    }

    /// Create a new DynSeq
    pub fn new(seq: &[u8], node_length: usize) -> (r: Result<DynSeq, Error>)
        requires
            node_length >= 1,
        ensures
            match r {
                Ok(d) => {
                    &&& node_length <= 29
                    &&& d.wf()
                    &&& d@ == codec::codes_of(seq@)
                    &&& d.chunk_count() == (seq@.len() + node_length - 1) / (node_length as int)
                    &&& forall|k: int|
                        0 <= k < d.chunk_count() ==> #[trigger] d.chunk_len(k) == if (k + 1)
                            * node_length <= seq@.len() {
                            node_length as int
                        } else {
                            seq@.len() - k * node_length
                        }
                },
                Err(e) => node_length > 29 && e == Error::SeqToLargeForNode,
            },
    {
        if node_length > 29 {
            return Err(Error::SeqToLargeForNode);
        }
        let n = seq.len();
        let mut nodes: Vec<Node> = Vec::new();
        let mut offs: Vec<usize> = Vec::new();
        let mut pos: usize = 0;
        proof {
            assert(flat(nodes@) =~= Seq::<u64>::empty());
            assert(codec::codes_of(seq@.take(0)) =~= Seq::<u64>::empty());
        }
        while pos < n
            invariant
                1 <= node_length <= 29,
                n == seq@.len(),
                pos <= n,
                offs@.len() == nodes@.len(),
                forall|k: int| 0 <= k < nodes@.len() ==> (#[trigger] nodes@[k]).wf(),
                forall|k: int|
                    0 <= k < nodes@.len() ==> (#[trigger] offs@[k]) == flat(
                        nodes@.take(k),
                    ).len(),
                flat(nodes@) == codec::codes_of(seq@.take(pos as int)),
                flat(nodes@).len() == pos,
                pos <= nodes@.len() * node_length,
                pos == nodes@.len() * node_length || (pos == n && nodes@.len() >= 1 && pos > (
                nodes@.len() - 1) * node_length),
                forall|k: int|
                    0 <= k < nodes@.len() ==> #[trigger] nodes@[k]@.len() == if (k + 1)
                        * node_length <= pos {
                        node_length as int
                    } else {
                        pos - k * node_length
                    },
            decreases n - pos,
        {
            let end = if n - pos < node_length {
                n
            } else {
                pos + node_length
            };
            let chunk = vstd::slice::slice_subrange(seq, pos, end);
            let nd = match Node::new(chunk) {
                Ok(nd) => nd,
                Err(_) => {
                    proof {
                        assert(false);
                    }
                    vstd::pervasive::unreached()
                },
            };
            let ghost old_nodes = nodes@;
            let ghost old_pos = pos as int;
            proof {
                lemma_flat_push(nodes@, nd);
                assert(codec::codes_of(seq@.take(end as int)) =~= codec::codes_of(
                    seq@.take(pos as int),
                ) + codec::codes_of(seq@.subrange(pos as int, end as int)));
            }
            nodes.push(nd);
            offs.push(pos);
            pos = end;
            proof {
                assert forall|k: int| 0 <= k < nodes@.len() implies (#[trigger] offs@[k]) == flat(
                    nodes@.take(k),
                ).len() by {
                    if k < nodes@.len() - 1 {
                        assert(nodes@.take(k) =~= old_nodes.take(k));
                    } else {
                        assert(nodes@.take(k) =~= old_nodes);
                    }
                }
                assert(nodes@[nodes@.len() - 1]@.len() == end - old_pos);
                let ll = node_length as int;
                let oc = old_nodes.len() as int;
                assert((oc + 1) * ll == oc * ll + ll) by {
                    vstd::arithmetic::mul::lemma_mul_is_distributive_add_other_way(ll, oc, 1);
                    vstd::arithmetic::mul::lemma_mul_basics(ll);
                }
                assert(old_pos == oc * ll);
                assert forall|k: int|
                    0 <= k < nodes@.len() implies #[trigger] nodes@[k]@.len() == (if (k + 1) * ll
                    <= pos {
                    ll
                } else {
                    pos as int - k * ll
                }) by {
                    if k < oc {
                        assert((k + 1) * ll <= oc * ll) by {
                            vstd::arithmetic::mul::lemma_mul_inequality(k + 1, oc, ll);
                        }
                    } else {
                        assert(k * ll == oc * ll);
                    }
                }
            }
        }
        proof {
            assert(seq@.take(n as int) =~= seq@);
            let cnt = nodes@.len() as int;
            let ll = node_length as int;
            vstd::arithmetic::mul::lemma_mul_is_commutative(cnt, ll);
            if pos == cnt * ll {
                vstd::arithmetic::div_mod::lemma_div_multiples_vanish_fancy(cnt, ll - 1, ll);
            } else {
                assert((cnt - 1) * ll == cnt * ll - ll) by {
                    vstd::arithmetic::mul::lemma_mul_is_distributive_sub_other_way(ll, cnt, 1);
                    vstd::arithmetic::mul::lemma_mul_basics(ll);
                }
                vstd::arithmetic::div_mod::lemma_div_multiples_vanish_fancy(
                    cnt,
                    n + ll - 1 - cnt * ll,
                    ll,
                );
            }
        }
        Ok(DynSeq { nodes, node_index2pos: offs })
    }

    /// Get local a value
    pub fn get(&self, index: usize) -> (r: Option<u8>)
        requires
            self.wf(),
        ensures
            r == if index < self@.len() {
                Some(codec::nuc_of(self@[index as int]))
            } else {
                None::<u8>
            },
    {
        let m = self.node_index2pos.len();
        if m == 0 {
            proof {
                assert(flat(self.nodes@) =~= Seq::<u64>::empty());
            }
            return None;
        }
        proof {
            assert(self.nodes@.take(0) =~= Seq::<Node>::empty());
            assert(flat(self.nodes@.take(0)) =~= Seq::<u64>::empty());
        }
        let mut j: usize = 1;
        while j < m && self.node_index2pos[j] <= index
            invariant
                self.wf(),
                m == self.node_index2pos@.len(),
                1 <= j <= m,
                forall|k: int| 0 <= k < j ==> (#[trigger] self.node_index2pos@[k]) <= index,
            decreases m - j,
        {
            j = j + 1;
        }
        let owner = j - 1;
        let local = index - self.node_index2pos[owner];
        let r = self.nodes[owner].get(local);
        proof {
            let k = owner as int;
            lemma_flat_decompose(self.nodes@, k);
            assert(self.nodes@.take(k + 1) =~= self.nodes@.take(k).push(self.nodes@[k]));
            lemma_flat_push(self.nodes@.take(k), self.nodes@[k]);
            if j < m {
                assert(self.node_index2pos@[k + 1] > index);
            } else {
                assert(self.nodes@.skip(k + 1) =~= Seq::<Node>::empty());
                assert(flat(self.nodes@.skip(k + 1)) =~= Seq::<u64>::empty());
                assert(self.nodes@.take(k + 1) =~= self.nodes@);
            }
        }
        r
    }

    /// Flatten the chain back into ascii representation
    pub fn in_vec(&self) -> (r: Vec<u8>)
        requires
            self.wf(),
        ensures
            r@ == codec::nucs_of(self@),
    {
        let mut out: Vec<u8> = Vec::new();
        let mut k: usize = 0;
        proof {
            assert(self.nodes@.take(0) =~= Seq::<Node>::empty());
            assert(flat(self.nodes@.take(0)) =~= Seq::<u64>::empty());
            assert(out@ =~= codec::nucs_of(flat(self.nodes@.take(0))));
        }
        while k < self.nodes.len()
            invariant
                self.wf(),
                k <= self.nodes@.len(),
                out@ == codec::nucs_of(flat(self.nodes@.take(k as int))),
            decreases self.nodes@.len() - k,
        {
            let mut part = self.nodes[k].seq();
            out.append(&mut part);
            proof {
                assert(self.nodes@.take(k as int + 1) =~= self.nodes@.take(k as int).push(
                    self.nodes@[k as int],
                ));
                lemma_flat_push(self.nodes@.take(k as int), self.nodes@[k as int]);
                assert(codec::nucs_of(
                    flat(self.nodes@.take(k as int)) + self.nodes@[k as int]@,
                ) =~= codec::nucs_of(flat(self.nodes@.take(k as int))) + codec::nucs_of(
                    self.nodes@[k as int]@,
                ));
            }
            k = k + 1;
        }
        proof {
            assert(self.nodes@.take(self.nodes@.len() as int) =~= self.nodes@);
        }
        out
    }
}

/// Round trip: a chain built from a sequence holds its codes, and
/// flattening those codes gives exactly the canonical form of the
/// sequence, whatever chunk length in `1..=29` was used.
pub proof fn lemma_round_trip(d: DynSeq, s: Seq<u8>)
    requires
        d@ == codec::codes_of(s),
    ensures
        codec::nucs_of(d@) == codec::canonicalize(s),
{
    assert(codec::nucs_of(codec::codes_of(s)) =~= codec::canonicalize(s));
}

/// Random access: a chain built from a sequence holds one symbol per
/// input symbol, and reading position `i` gives the canonical symbol at
/// `i`; past the end the lookup is absent by the contract of `get`.
pub proof fn lemma_random_access(d: DynSeq, s: Seq<u8>, i: int)
    requires
        d@ == codec::codes_of(s),
        0 <= i < s.len(),
    ensures
        d@.len() == s.len(),
        codec::nuc_of(d@[i]) == codec::canonicalize(s)[i],
{
}

} // verus!

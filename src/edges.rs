//! The first and the last block of each shard seen in an archive.

use vstd::prelude::*;

use crate::block_id::BlockId;

verus! {

/// `top` moved to the earliest (or latest) block of its shard among `ids`,
/// taken in order: a block replaces the current one only with a strictly
/// smaller (or larger) seqno.
pub open spec fn shard_edge(top: BlockId, ids: Seq<BlockId>, earliest: bool) -> BlockId
    decreases ids.len(),
{
    if ids.len() == 0 {
        top
    } else {
        let cur = shard_edge(top, ids.drop_last(), earliest);
        let id = ids.last();
        if id.shard == cur.shard && (if earliest {
            id.seqno < cur.seqno
        } else {
            id.seqno > cur.seqno
        }) {
            id
        } else {
            cur
        }
    }
}

/// The edge block stays in the shard of `top`, is `top` or one of `ids`, and
/// no block of that shard in `ids` lies beyond it.
proof fn lemma_shard_edge(top: BlockId, ids: Seq<BlockId>, earliest: bool)
    ensures
        shard_edge(top, ids, earliest).shard == top.shard,
        shard_edge(top, ids, earliest) == top || ids.contains(shard_edge(top, ids, earliest)),
        earliest ==> shard_edge(top, ids, earliest).seqno <= top.seqno,
        !earliest ==> shard_edge(top, ids, earliest).seqno >= top.seqno,
        forall|j: int|
            0 <= j < ids.len() && (#[trigger] ids[j]).shard == top.shard ==> if earliest {
                shard_edge(top, ids, earliest).seqno <= ids[j].seqno
            } else {
                shard_edge(top, ids, earliest).seqno >= ids[j].seqno
            },
    decreases ids.len(),
{
    if ids.len() > 0 {
        let rest = ids.drop_last();
        lemma_shard_edge(top, rest, earliest);
        let cur = shard_edge(top, rest, earliest);
        if shard_edge(top, ids, earliest) != top && shard_edge(top, ids, earliest) != ids.last() {
            let k = choose|k: int| 0 <= k < rest.len() && rest[k] == cur;
            assert(ids[k] == cur);
        }
        assert(ids[ids.len() - 1] == ids.last());
        assert forall|j: int|
            0 <= j < ids.len() && (#[trigger] ids[j]).shard == top.shard implies if earliest {
                shard_edge(top, ids, earliest).seqno <= ids[j].seqno
            } else {
                shard_edge(top, ids, earliest).seqno >= ids[j].seqno
            } by {
            if j < ids.len() - 1 {
                assert(ids[j] == rest[j]);
            }
        }
    }
}

/// For each block of `tops`, the earliest (`earliest == true`) or the
/// latest block of the same shard among it and `ids`: it stays in the shard
/// of its top, is the top or one of `ids`, and no block of that shard lies
/// beyond it. Among blocks with the same seqno the first met wins, the top
/// before `ids`, as `shard_edge` spells out.
pub fn shard_edges(tops: &Vec<BlockId>, ids: &Vec<BlockId>, earliest: bool) -> (r: Vec<BlockId>)
    ensures
        r@.len() == tops@.len(),
        forall|i: int| 0 <= i < r@.len() ==> r@[i] == shard_edge(tops@[i], ids@, earliest),
        forall|i: int|
            0 <= i < r@.len() ==> (#[trigger] r@[i]).shard == tops@[i].shard && (r@[i] == tops@[i]
                || ids@.contains(r@[i])),
        forall|i: int|
            0 <= i < r@.len() ==> if earliest {
                (#[trigger] r@[i]).seqno <= tops@[i].seqno
            } else {
                r@[i].seqno >= tops@[i].seqno
            },
        forall|i: int, j: int|
            0 <= i < r@.len() && 0 <= j < ids@.len() && (#[trigger] ids@[j]).shard == tops@[i].shard
                ==> if earliest {
                (#[trigger] r@[i]).seqno <= ids@[j].seqno
            } else {
                r@[i].seqno >= ids@[j].seqno
            },
{
    let mut out: Vec<BlockId> = Vec::new();
    let mut i: usize = 0;
    while i < tops.len()
        invariant
            i <= tops@.len(),
            out@.len() == i,
            forall|k: int| 0 <= k < i ==> out@[k] == shard_edge(tops@[k], ids@, earliest),
            forall|k: int| 0 <= k < i ==> {
                let e = #[trigger] out@[k];
                &&& e.shard == tops@[k].shard
                &&& (e == tops@[k] || ids@.contains(e))
                &&& (earliest ==> e.seqno <= tops@[k].seqno)
                &&& (!earliest ==> e.seqno >= tops@[k].seqno)
                &&& forall|j: int|
                    0 <= j < ids@.len() && (#[trigger] ids@[j]).shard == tops@[k].shard ==> if earliest {
                        e.seqno <= ids@[j].seqno
                    } else {
                        e.seqno >= ids@[j].seqno
                    }
            },
        decreases tops@.len() - i,
    {
        let mut cur = tops[i];
        let mut j: usize = 0;
        while j < ids.len()
            invariant
                i < tops@.len(),
                j <= ids@.len(),
                cur == shard_edge(tops@[i as int], ids@.take(j as int), earliest),
            decreases ids@.len() - j,
        {
            let id = ids[j];
            proof {
                assert(ids@.take(j + 1).drop_last() =~= ids@.take(j as int));
                assert(ids@.take(j + 1).last() == id);
            }
            let beyond = if earliest {
                id.seqno < cur.seqno
            } else {
                id.seqno > cur.seqno
            };
            if id.shard == cur.shard && beyond {
                cur = id;
            }
            j = j + 1;
        }
        assert(ids@.take(ids@.len() as int) =~= ids@);
        proof {
            lemma_shard_edge(tops@[i as int], ids@, earliest);
        }
        out.push(cur);
        i = i + 1;
    }
    out
}

} // verus!

//! Deterministic ordering of sampled records: records on unknown chromosomes
//! are dropped, the rest sort by chromosome rank and then by numeric start
//! coordinate.

use crate::chrom::{has_rank, rank_of, ChromOrder};
use crate::text::{
    chrom_of, chrom_str, dec_or_zero, parse_u32_or_zero, second_field, second_field_str,
};
use vstd::prelude::*;
use vstd::seq_lib::group_to_multiset_ensures;

verus! {

/// The start coordinate a record sorts by: its second tab field read as a
/// `u32`, with 0 for a missing, malformed or overflowing field.
pub open spec fn start_of(line: Seq<char>) -> int {
    dec_or_zero(second_field(line), u32::MAX as int)
}

/// Exec mirror of [`start_of`].
pub fn start_coord(line: &str) -> (r: u32)
    ensures
        r as int == start_of(line@),
{
    parse_u32_or_zero(second_field_str(line))
}

/// The rank a record's chromosome sorts by; an unknown chromosome ranks after
/// every known one (such records never survive the filter).
pub open spec fn rank_val(names: Seq<Seq<char>>, name: Seq<char>) -> int {
    match rank_of(names, name) {
        Option::Some(k) => k,
        Option::None => names.len() as int,
    }
}

/// The record order: chromosome rank ascending, then start coordinate
/// ascending. Records equal in both keys are tied; the sort keeps their
/// arrival order.
pub open spec fn key_le(names: Seq<Seq<char>>, a: Seq<char>, b: Seq<char>) -> bool {
    ||| rank_val(names, chrom_of(a)) < rank_val(names, chrom_of(b))
    ||| (rank_val(names, chrom_of(a)) == rank_val(names, chrom_of(b)) && start_of(a) <= start_of(
        b,
    ))
}

/// The retention rule: a record stays exactly when its chromosome is in the
/// table.
pub open spec fn keeps(names: Seq<Seq<char>>) -> spec_fn(String) -> bool {
    |l: String| has_rank(names, chrom_of(l@))
}

/// `x` placed into the already-sorted `s`, after every record that sorts at
/// or before it: ties keep their arrival order.
pub open spec fn insert_stably(names: Seq<Seq<char>>, s: Seq<String>, x: String) -> Seq<String>
    decreases s.len(),
{
    if s.len() == 0 {
        seq![x]
    } else if key_le(names, s.last()@, x@) {
        s.push(x)
    } else {
        insert_stably(names, s.drop_last(), x).push(s.last())
    }
}

/// The one ordering the pipeline emits: the retained records of `lines`,
/// stable-sorted by [`key_le`]. [`filter_sort`] returns exactly this.
pub open spec fn sort_stably(names: Seq<Seq<char>>, lines: Seq<String>) -> Seq<String>
    decreases lines.len(),
{
    if lines.len() == 0 {
        Seq::empty()
    } else {
        let rest = sort_stably(names, lines.drop_last());
        if has_rank(names, chrom_of(lines.last()@)) {
            insert_stably(names, rest, lines.last())
        } else {
            rest
        }
    }
}

/// Exec mirror of [`key_le`].
fn key_le_exec(order: &ChromOrder, a: &str, b: &str) -> (r: bool)
    ensures
        r == key_le(order@, a@, b@),
{
    let ca = chrom_str(a);
    let cb = chrom_str(b);
    let ra = match order.rank(ca) {
        Option::Some(k) => k,
        Option::None => order.len(),
    };
    let rb = match order.rank(cb) {
        Option::Some(k) => k,
        Option::None => order.len(),
    };
    if ra < rb {
        true
    } else if rb < ra {
        false
    } else {
        start_coord(a) <= start_coord(b)
    }
}

/// Drops the records whose chromosome the table does not know and sorts the
/// rest by (chromosome rank, start coordinate), keeping the arrival order of
/// records tied on both keys. The result holds exactly the retained records
/// of the input, as multisets.
pub fn filter_sort(lines: &Vec<String>, order: &ChromOrder) -> (out: Vec<String>)
    ensures
        forall|k: int| 0 <= k < out@.len() ==> has_rank(order@, chrom_of(#[trigger] out@[k]@)),
        forall|p: int, q: int|
            #![trigger out@[p], out@[q]]
            0 <= p <= q < out@.len() ==> key_le(order@, out@[p]@, out@[q]@),
        out@.to_multiset() == lines@.filter(keeps(order@)).to_multiset(),
        out@ == sort_stably(order@, lines@),
{
    broadcast use group_to_multiset_ensures;

    let ghost pred = keeps(order@);
    let mut out: Vec<String> = Vec::new();
    let mut i: usize = 0;
    proof {
        reveal(Seq::filter);
        assert(lines@.take(0) =~= Seq::<String>::empty());
        assert(lines@.take(0).filter(pred) =~= Seq::<String>::empty());
        assert(sort_stably(order@, lines@.take(0)) =~= Seq::<String>::empty());
    }
    while i < lines.len()
        invariant
            0 <= i <= lines@.len(),
            pred == keeps(order@),
            forall|k: int| 0 <= k < out@.len() ==> has_rank(order@, chrom_of(#[trigger] out@[k]@)),
            forall|p: int, q: int|
                #![trigger out@[p], out@[q]]
                0 <= p <= q < out@.len() ==> key_le(order@, out@[p]@, out@[q]@),
            out@.to_multiset() == lines@.take(i as int).filter(pred).to_multiset(),
            out@ == sort_stably(order@, lines@.take(i as int)),
        decreases lines@.len() - i,
    {
        let line = &lines[i];
        let ghost x = lines@[i as int];
        proof {
            reveal(Seq::filter);
            assert(lines@.take(i + 1) =~= lines@.take(i as int) + seq![x]);
            assert(lines@.take(i + 1).drop_last() =~= lines@.take(i as int));
            assert(lines@.take(i + 1).last() == x);
            Seq::filter_distributes_over_add(lines@.take(i as int), seq![x], pred);
            assert(seq![x].drop_last() =~= Seq::<String>::empty());
            assert(Seq::<String>::empty().filter(pred) =~= Seq::<String>::empty());
            if pred(x) {
                assert(seq![x].filter(pred) =~= seq![x]);
            } else {
                assert(seq![x].filter(pred) =~= Seq::<String>::empty());
            }
        }
        let keep = order.rank(chrom_str(line.as_str())).is_some();
        proof {
            assert(keep == pred(x));
        }
        if keep {
            let mut p: usize = out.len();
            proof {
                assert(out@.take(p as int) =~= out@);
                assert(out@.skip(p as int) =~= Seq::<String>::empty());
                assert(insert_stably(order@, out@.take(p as int), x) + out@.skip(p as int)
                    =~= insert_stably(order@, out@, x));
            }
            while p > 0 && !key_le_exec(order, out[p - 1].as_str(), line.as_str())
                invariant
                    0 <= p <= out@.len(),
                    line@ == x@,
                    line == x,
                    pred == keeps(order@),
                    forall|p2: int, q2: int|
                        #![trigger out@[p2], out@[q2]]
                        0 <= p2 <= q2 < out@.len() ==> key_le(order@, out@[p2]@, out@[q2]@),
                    forall|j: int|
                        p <= j < out@.len() ==> !key_le(order@, #[trigger] out@[j]@, x@),
                    insert_stably(order@, out@, x) == insert_stably(order@, out@.take(p as int), x)
                        + out@.skip(p as int),
                decreases p,
            {
                proof {
                    let cur = out@;
                    assert(cur.take(p as int).last() == cur[p - 1]);
                    assert(cur.take(p as int).drop_last() =~= cur.take(p - 1));
                    assert(!key_le(order@, cur[p - 1]@, x@));
                    assert(insert_stably(order@, cur.take(p as int), x) == insert_stably(
                        order@,
                        cur.take(p - 1),
                        x,
                    ).push(cur[p - 1]));
                    assert(cur.skip(p - 1) =~= seq![cur[p - 1]] + cur.skip(p as int));
                    assert(insert_stably(order@, cur.take(p - 1), x).push(cur[p - 1]) + cur.skip(
                        p as int,
                    ) =~= insert_stably(order@, cur.take(p - 1), x) + cur.skip(p - 1));
                }
                p = p - 1;
            }
            let ghost pre = out@;
            out.insert(p, line.clone());
            proof {
                pre.insert_ensures(p as int, x);
                assert(out@ == pre.insert(p as int, x));
                if p > 0 {
                    assert(pre.take(p as int).last() == pre[p - 1]);
                    assert(key_le(order@, pre[p - 1]@, x@));
                    assert(insert_stably(order@, pre.take(p as int), x) == pre.take(
                        p as int,
                    ).push(x));
                } else {
                    assert(pre.take(0) =~= Seq::<String>::empty());
                    assert(insert_stably(order@, pre.take(0), x) =~= seq![x]);
                }
                assert(out@ =~= pre.take(p as int).push(x) + pre.skip(p as int));
                assert(out@ == insert_stably(order@, pre, x));
                assert(out@ == sort_stably(order@, lines@.take(i + 1)));
                vstd::seq_lib::to_multiset_insert(pre, p as int, x);
                vstd::seq_lib::to_multiset_build(lines@.take(i as int).filter(pred), x);
                assert(lines@.take(i + 1).filter(pred) =~= lines@.take(i as int).filter(
                    pred,
                ).push(x));
                assert(lines@.take(i as int).filter(pred).push(x).to_multiset() == lines@.take(
                    i as int,
                ).filter(pred).to_multiset().insert(x));
                assert(out@.to_multiset() =~= lines@.take(i + 1).filter(pred).to_multiset());
                assert forall|p2: int, q2: int|
                    #![trigger out@[p2], out@[q2]]
                    0 <= p2 <= q2 < out@.len() implies key_le(order@, out@[p2]@, out@[q2]@) by {
                    let pi = p as int;
                    if p2 < pi && q2 == pi {
                        assert(out@[p2] == pre[p2]);
                        assert(key_le(order@, pre[p2]@, pre[pi - 1]@));
                        assert(key_le(order@, pre[pi - 1]@, x@));
                    } else if p2 == pi && q2 == pi {
                        assert(key_le(order@, x@, x@));
                    } else if p2 == pi && q2 > pi {
                        assert(out@[q2] == pre[q2 - 1]);
                        assert(!key_le(order@, pre[q2 - 1]@, x@));
                    } else if p2 < pi && q2 > pi {
                        assert(out@[p2] == pre[p2]);
                        assert(out@[q2] == pre[q2 - 1]);
                    } else if p2 > pi {
                        assert(out@[p2] == pre[p2 - 1]);
                        assert(out@[q2] == pre[q2 - 1]);
                    }
                }
            }
        } else {
            proof {
                assert(lines@.take(i as int).filter(pred) + Seq::<String>::empty()
                    =~= lines@.take(i as int).filter(pred));
                assert(lines@.take(i + 1).filter(pred) =~= lines@.take(i as int).filter(pred));
            }
        }
        i = i + 1;
    }
    proof {
        assert(lines@.take(lines@.len() as int) =~= lines@);
    }
    out
}

} // verus!

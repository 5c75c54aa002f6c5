//! Depth measurement for interval files: the count of usable records, which
//! feeds the statistical quality-control filter.

use crate::text::{blank_str, is_blank};
use vstd::prelude::*;

verus! {

/// How many of these lines are not blank.
pub open spec fn non_blank_count(lines: Seq<Seq<char>>) -> int
    decreases lines.len(),
{
    if lines.len() == 0 {
        0
    } else {
        non_blank_count(lines.drop_last()) + if is_blank(lines.last()) {
            0int
        } else {
            1int
        }
    }
}

/// The measured depth of an interval file given as its list of lines: the
/// number of non-blank lines after the first, the first being taken for a
/// header unconditionally. An empty file has depth 0.
pub open spec fn interval_depth(lines: Seq<Seq<char>>) -> int {
    if lines.len() == 0 {
        0
    } else {
        non_blank_count(lines.drop_first())
    }
}

/// Counts the usable records of an interval file: every non-blank line except
/// the header line.
pub fn count_fragments(lines: &Vec<String>) -> (r: u64)
    ensures
        r as int == interval_depth(lines.deep_view()),
        r as int <= lines.deep_view().len(),
{
    let ghost all = lines.deep_view();
    if lines.len() == 0 {
        return 0;
    }
    let mut count: u64 = 0;
    let mut i: usize = 1;
    proof {
        assert(all.subrange(1, 1) =~= Seq::<Seq<char>>::empty());
    }
    while i < lines.len()
        invariant
            1 <= i <= lines.len(),
            all == lines.deep_view(),
            all.len() == lines.len(),
            count as int == non_blank_count(all.subrange(1, i as int)),
            count < i,
        decreases lines.len() - i,
    {
        let line = &lines[i];
        proof {
            assert(all.subrange(1, i + 1).drop_last() =~= all.subrange(1, i as int));
            assert(all.subrange(1, i + 1).last() == line@);
        }
        if !blank_str(line.as_str()) {
            count = count + 1;
        }
        i = i + 1;
    }
    proof {
        assert(all.subrange(1, all.len() as int) =~= all.drop_first());
    }
    count
}

} // verus!

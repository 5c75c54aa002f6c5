//! Exact-size uniform downsampling of a file's records: single-pass
//! Algorithm-R reservoir sampling over the data lines, with the header kept
//! aside untouched.

use vstd::pervasive::VecAdditionalExecFns;
use vstd::prelude::*;

verus! {

/// How many records the reservoir keeps from `m` data lines at target size
/// `target`: exactly `min(target, m)`.
pub open spec fn sample_len(target: int, m: int) -> int {
    if m <= target {
        m
    } else {
        target
    }
}

/// A file's sample never exceeds the file's own number of data lines — its
/// measured depth — whatever the target is.
pub proof fn lemma_sample_within_depth(target: int, m: int)
    ensures
        sample_len(target, m) <= m,
        target >= 0 ==> sample_len(target, m) <= target,
{
}

/// Relies on rand::random: a machine word drawn from the thread-local
/// generator. Nothing is promised of the value; every caller must cope with
/// any result.
pub assume_specification<T>[ rand::random::<T> ]() -> (r: T)
    where
        rand::distr::StandardUniform: rand::distr::Distribution<T>,
;

/// How a sample relates to its source: record `k` of the sample is record
/// `src[k]` of the input, and no input record is taken twice. The sample is
/// then a sub-multiset of the input.
pub open spec fn picks_from(sample: Seq<String>, lines: Seq<String>, src: Seq<int>) -> bool {
    &&& src.len() == sample.len()
    &&& forall|k: int|
        0 <= k < src.len() ==> 0 <= #[trigger] src[k] < lines.len() && sample[k] == lines[src[k]]
    &&& forall|k: int, l: int| 0 <= k < l < src.len() ==> src[k] != src[l]
}

/// Algorithm-R uniform reservoir sampling over `lines` with reservoir size
/// `target`: the i-th line (0-based) goes straight in while the reservoir is
/// filling; after that a uniform draw `j` in `[0, i]` replaces slot `j` when
/// `j < target`. The result holds exactly `min(target, m)` lines, each a line
/// of the input; when `m <= target` it is the whole input in order.
pub fn reservoir_sample(lines: &Vec<String>, target: usize) -> (sample: Vec<String>)
    ensures
        sample@.len() == sample_len(target as int, lines@.len() as int),
        lines@.len() <= target ==> sample@ == lines@,
        forall|k: int| 0 <= k < sample@.len() ==> lines@.contains(#[trigger] sample@[k]),
        exists|src: Seq<int>| picks_from(sample@, lines@, src),
{
    let m = lines.len();
    let mut sample: Vec<String> = Vec::new();
    let ghost mut src: Seq<int> = Seq::empty();
    let mut i: usize = 0;
    proof {
        assert(lines@.take(0) =~= Seq::<String>::empty());
    }
    while i < m
        invariant
            0 <= i <= m,
            m == lines@.len(),
            sample@.len() == sample_len(target as int, i as int),
            i <= target ==> sample@ == lines@.take(i as int),
            forall|k: int| 0 <= k < sample@.len() ==> lines@.contains(#[trigger] sample@[k]),
            src.len() == sample@.len(),
            forall|k: int|
                0 <= k < src.len() ==> 0 <= #[trigger] src[k] < i && sample@[k] == lines@[src[k]],
            forall|k: int, l: int| 0 <= k < l < src.len() ==> src[k] != src[l],
        decreases m - i,
    {
        let line = &lines[i];
        proof {
            assert(lines@[i as int] == line);
            assert(lines@.contains(lines@[i as int]));
        }
        if i < target {
            sample.push(line.clone());
            proof {
                src = src.push(i as int);
                if i + 1 <= target {
                    assert(sample@ =~= lines@.take(i + 1));
                }
            }
        } else {
            let r = rand::random::<u64>();
            let j = (r % ((i + 1) as u64)) as usize;
            if j < target {
                sample.set(j, line.clone());
                proof {
                    src = src.update(j as int, i as int);
                }
            }
        }
        i = i + 1;
    }
    proof {
        assert(lines@.take(m as int) =~= lines@);
        assert(picks_from(sample@, lines@, src));
    }
    sample
}

/// Splits a file, given as its list of lines, into the header and a uniform
/// sample of the data lines. The first line is taken for the header
/// unconditionally (empty for an empty file) and never enters the sampling
/// population; the remaining lines stream through [`reservoir_sample`].
pub fn sample_file(lines: &Vec<String>, target: usize) -> (r: (String, Vec<String>))
    ensures
        lines@.len() == 0 ==> r.0@ == Seq::<char>::empty() && r.1@.len() == 0,
        lines@.len() > 0 ==> {
            &&& r.0 == lines@[0]
            &&& r.1@.len() == sample_len(target as int, lines@.len() - 1)
            &&& lines@.len() - 1 <= target ==> r.1@ == lines@.drop_first()
            &&& forall|k: int|
                0 <= k < r.1@.len() ==> lines@.drop_first().contains(#[trigger] r.1@[k])
            &&& exists|src: Seq<int>| picks_from(r.1@, lines@.drop_first(), src)
        },
{
    if lines.len() == 0 {
        return (String::new(), Vec::new());
    }
    let header = lines[0].clone();
    let mut data: Vec<String> = Vec::new();
    let mut i: usize = 1;
    proof {
        assert(lines@.subrange(1, 1) =~= Seq::<String>::empty());
    }
    while i < lines.len()
        invariant
            1 <= i <= lines@.len(),
            data@ == lines@.subrange(1, i as int),
        decreases lines@.len() - i,
    {
        data.push(lines[i].clone());
        proof {
            assert(data@ =~= lines@.subrange(1, i + 1));
        }
        i = i + 1;
    }
    proof {
        assert(lines@.subrange(1, lines@.len() as int) =~= lines@.drop_first());
    }
    let sample = reservoir_sample(&data, target);
    (header, sample)
}

} // verus!

//! The chromosome ordering: a name-to-rank table built from a sizes source,
//! immutable once built and shared read-only by every file task.

use crate::text::{blank_str, first_token, first_token_str, is_blank, str_eq};
use vstd::prelude::*;

verus! {

/// The ordered chromosome names of a sizes table: one per non-blank line, in
/// order, each the line's first whitespace-separated field. The rank of a name
/// is its position here; a repeated name counts once per occurrence and its
/// effective rank is the last one (see [`rank_of`]).
pub open spec fn names_of(lines: Seq<Seq<char>>) -> Seq<Seq<char>>
    decreases lines.len(),
{
    if lines.len() == 0 {
        Seq::empty()
    } else {
        let rest = names_of(lines.drop_last());
        if is_blank(lines.last()) {
            rest
        } else {
            rest.push(first_token(lines.last()))
        }
    }
}

/// The rank of `name` in the table: the index of its last occurrence, as a
/// map built by repeated insertion would record it; `None` for a name the
/// table does not hold.
pub open spec fn rank_of(names: Seq<Seq<char>>, name: Seq<char>) -> Option<int>
    decreases names.len(),
{
    if names.len() == 0 {
        None
    } else if names.last() == name {
        Some((names.len() - 1) as int)
    } else {
        rank_of(names.drop_last(), name)
    }
}

/// Whether the table knows `name` at all.
pub open spec fn has_rank(names: Seq<Seq<char>>, name: Seq<char>) -> bool {
    rank_of(names, name) is Some
}

/// The genome ordering: chromosome name to 0-based rank, in order of first
/// appearance in the sizes source.
pub struct ChromOrder {
    names: Vec<String>,
}

impl View for ChromOrder {
    type V = Seq<Seq<char>>;

    closed spec fn view(&self) -> Seq<Seq<char>> {
        self.names.deep_view()
    }
}

impl ChromOrder {
    /// Builds the ordering from the lines of a sizes source. Blank lines are
    /// skipped; every other line contributes its first whitespace-separated
    /// field, ranked by the count of non-blank lines seen before it.
    pub fn build(lines: &Vec<String>) -> (r: ChromOrder)
        ensures
            r@ == names_of(lines.deep_view()),
    {
        let ghost all = lines.deep_view();
        let mut names: Vec<String> = Vec::new();
        let mut i: usize = 0;
        proof {
            assert(all.take(0) =~= Seq::<Seq<char>>::empty());
            assert(names.deep_view() =~= names_of(all.take(0)));
        }
        while i < lines.len()
            invariant
                0 <= i <= lines.len(),
                all == lines.deep_view(),
                names.deep_view() == names_of(all.take(i as int)),
            decreases lines.len() - i,
        {
            let ghost pre = names.deep_view();
            let line = &lines[i];
            proof {
                assert(all.take(i + 1).drop_last() =~= all.take(i as int));
                assert(all.take(i + 1).last() == line@);
            }
            if !blank_str(line.as_str()) {
                let tok = first_token_str(line.as_str());
                names.push(tok.to_owned());
                proof {
                    assert(names.deep_view() =~= pre.push(first_token(line@)));
                }
            }
            i = i + 1;
        }
        proof {
            assert(all.take(lines.deep_view().len() as int) =~= all);
        }
        ChromOrder { names }
    }

    /// How many names the table holds.
    pub fn len(&self) -> (r: usize)
        ensures
            r == self@.len(),
    {
        self.names.len()
    }

    /// The rank of `name`, the last one when the sizes source repeated it;
    /// `None` when the table does not hold the name.
    pub fn rank(&self, name: &str) -> (r: Option<usize>)
        ensures
            match r {
                Some(k) => rank_of(self@, name@) == Some(k as int),
                None => !has_rank(self@, name@),
            },
    {
        let mut j: usize = self.names.len();
        proof {
            assert(self@.take(j as int) =~= self@);
        }
        while j > 0
            invariant
                0 <= j <= self@.len(),
                self@.len() == self.names.len(),
                self@ == self.names.deep_view(),
                rank_of(self@, name@) == rank_of(self@.take(j as int), name@),
            decreases j,
        {
            proof {
                assert(self@.take(j as int).last() == self@[j - 1]);
                assert(self@[j - 1] == self.names[j - 1]@);
                assert(self@.take(j as int).drop_last() =~= self@.take(j - 1));
            }
            if str_eq(self.names[j - 1].as_str(), name) {
                return Some(j - 1);
            }
            j = j - 1;
        }
        None
    }
}

} // verus!

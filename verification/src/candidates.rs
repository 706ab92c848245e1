//! The answer of the package index: one line for each package that provides
//! a file of the name that was asked for.
//!
//! A line starts with the package's name, which ends at the first space.
//! Columns of other data follow, and then the file's path in the package
//! store. The first three parts of that path name the store and the package,
//! so the path inside the package starts at the fourth `/` of the line.

use vstd::prelude::*;
use crate::error::Error;
use crate::text::{chars_of, find_nth, lines, nth_index, split_lines, string_of, texts};

verus! {

/// A package that provides a library, and where in the package it lies.
#[derive(Debug, Clone, PartialEq, Eq)]
pub struct Candidate {
    pub package: String,
    pub path: String,
}

/// What a `Candidate` holds, as plain texts.
pub struct CandidateView {
    pub package: Seq<char>,
    pub path: Seq<char>,
}

impl View for Candidate {
    type V = CandidateView;

    open spec fn view(&self) -> CandidateView {
        CandidateView { package: self.package@, path: self.path@ }
    }
}

impl DeepView for Candidate {
    type V = CandidateView;

    open spec fn deep_view(&self) -> CandidateView {
        self@
    }
}

/// The candidate that one line of the index's answer names: the package is
/// what stands before the first space, the path what starts at the fourth
/// `/`. A line without a space or with fewer than four `/` names none.
pub open spec fn candidate_of(line: Seq<char>) -> Option<CandidateView> {
    match (nth_index(line, ' ', 0), nth_index(line, '/', 3)) {
        (Some(space), Some(slash)) => Some(
            CandidateView { package: line.take(space), path: line.skip(slash) },
        ),
        _ => None,
    }
}

/// Line `k` names no candidate, and every line before it names one.
pub open spec fn is_first_malformed(rows: Seq<Seq<char>>, k: int) -> bool {
    &&& 0 <= k < rows.len()
    &&& candidate_of(rows[k]) is None
    &&& forall|j: int| 0 <= j < k ==> candidate_of(#[trigger] rows[j]) is Some
}

/// Every line names a candidate.
pub open spec fn well_formed(rows: Seq<Seq<char>>) -> bool {
    forall|k: int| 0 <= k < rows.len() ==> candidate_of(#[trigger] rows[k]) is Some
}

/// The candidates that the lines name, in the order of the lines.
pub open spec fn candidates_of(rows: Seq<Seq<char>>) -> Seq<CandidateView> {
    Seq::new(rows.len(), |k: int| candidate_of(rows[k]).unwrap())
}

/// Reads one line of the index's answer.
pub fn parse_candidate(line: &Vec<char>) -> (r: Option<Candidate>)
    ensures
        r.deep_view() == candidate_of(line@),
{
    let space = match find_nth(line, ' ', 0) {
        Some(i) => i,
        None => {
            return None;
        },
    };
    let slash = match find_nth(line, '/', 3) {
        Some(i) => i,
        None => {
            return None;
        },
    };
    let package = string_of(line, 0, space);
    let path = string_of(line, slash, line.len());
    Some(Candidate { package, path })
}

/// Reads the index's answer for one library. The candidates keep the order
/// of the lines, which is the order in which the index ranks them. The first
/// line that names no candidate fails the whole answer.
pub fn find_candidates(listing: &str) -> (r: Result<Vec<Candidate>, Error>)
    ensures
        r is Ok <==> well_formed(lines(listing@)),
        match r {
            Ok(found) => found.deep_view() == candidates_of(lines(listing@)),
            Err(Error::MalformedCandidate { line }) => exists|k: int|
                is_first_malformed(lines(listing@), k) && line@ == #[trigger] lines(listing@)[k],
            Err(_) => false,
        },
{
    let chars = chars_of(listing);
    let rows = split_lines(&chars);
    let mut found: Vec<Candidate> = Vec::new();
    let mut k: usize = 0;
    while k < rows.len()
        invariant
            k <= rows.len(),
            texts(rows@) == lines(listing@),
            found.deep_view() == candidates_of(lines(listing@).take(k as int)),
            well_formed(lines(listing@).take(k as int)),
        decreases rows.len() - k,
    {
        let ghost all = lines(listing@);
        assert(all[k as int] == rows[k as int]@);
        match parse_candidate(&rows[k]) {
            Some(candidate) => {
                let ghost before = found.deep_view();
                found.push(candidate);
                proof {
                    assert(all.take(k + 1)[k as int] == all[k as int]);
                    assert(found.deep_view() =~= before.push(candidate.deep_view()));
                    assert(found.deep_view() =~= candidates_of(all.take(k + 1)));
                    assert forall|j: int| 0 <= j < k + 1 implies candidate_of(
                        #[trigger] all.take(k + 1)[j],
                    ) is Some by {
                        if j < k {
                            assert(all.take(k + 1)[j] == all.take(k as int)[j]);
                        }
                    }
                }
            },
            None => {
                let line = string_of(&rows[k], 0, rows[k].len());
                proof {
                    assert(line@ =~= all[k as int]);
                    assert forall|j: int| 0 <= j < k implies candidate_of(#[trigger] all[j])
                        is Some by {
                        assert(all[j] == all.take(k as int)[j]);
                    }
                    assert(is_first_malformed(all, k as int));
                }
                return Err(Error::MalformedCandidate { line });
            },
        }
        k += 1;
    }
    proof {
        assert(lines(listing@).take(k as int) =~= lines(listing@));
    }
    Ok(found)
}

} // verus!

//! The packages that have been selected so far, and the rule that decides
//! what the candidates of one library add to them.
//!
//! Libraries are resolved one after the other. Each resolution sees the
//! packages selected by those before it, so the order of the libraries
//! matters: a package that was selected for one library satisfies every
//! later library that it provides too, and no question is asked for those.

use vstd::prelude::*;
use crate::candidates::{Candidate, CandidateView};
use crate::error::Error;
use crate::names::{ascending, contains, insert_sorted, sorted_set};
use crate::prompt::{asks_for, item_texts, provider_prompt, Prompt};

verus! {

/// What the candidates of one library call for.
#[derive(Debug, Clone, Copy, PartialEq, Eq)]
pub enum Action {
    /// There is no candidate: the library cannot be provided.
    Fail,
    /// There is one candidate: its package is selected without a question.
    Add,
    /// A package among the candidates is selected already: nothing is added
    /// and nothing is asked.
    Keep,
    /// There are several candidates and none is selected: a person chooses.
    Ask,
}

/// How the resolution of one library went on.
#[derive(Debug, Clone, PartialEq, Eq)]
pub enum Outcome {
    /// The package of the only candidate was selected.
    Added,
    /// A package that was selected before provides the library.
    Satisfied,
    /// A person has to choose; the selection waits for `pick`.
    Ask(Prompt),
}

/// Some candidate's package is among `selected`.
pub open spec fn covered(candidates: Seq<CandidateView>, selected: Set<Seq<char>>) -> bool {
    exists|i: int| 0 <= i < candidates.len() && selected.contains(#[trigger] candidates[i].package)
}

/// What `candidates` call for when `selected` are the packages selected so
/// far.
pub open spec fn action_for(candidates: Seq<CandidateView>, selected: Set<Seq<char>>) -> Action {
    if candidates.len() == 0 {
        Action::Fail
    } else if candidates.len() == 1 {
        Action::Add
    } else if covered(candidates, selected) {
        Action::Keep
    } else {
        Action::Ask
    }
}

/// The packages that are selected once `candidates` have been dealt with,
/// where `choice` is the answer that is given if a person is asked. There are
/// none if the library cannot be provided.
pub open spec fn selected_after(
    selected: Set<Seq<char>>,
    candidates: Seq<CandidateView>,
    choice: int,
) -> Option<Set<Seq<char>>> {
    match action_for(candidates, selected) {
        Action::Fail => None,
        Action::Add => Some(selected.insert(candidates[0].package)),
        Action::Keep => Some(selected),
        Action::Ask => Some(selected.insert(candidates[choice].package)),
    }
}

/// `r` reports that no package provides `library`.
pub open spec fn is_unresolvable(r: Result<Outcome, Error>, library: Seq<char>) -> bool {
    match r {
        Err(Error::Unresolvable { library: named }) => named@ == library,
        _ => false,
    }
}

/// `r` asks a person to choose among `candidates` for `library`, and offers
/// the first of them.
pub open spec fn is_question(
    r: Result<Outcome, Error>,
    library: Seq<char>,
    candidates: Seq<CandidateView>,
) -> bool {
    match r {
        Ok(Outcome::Ask(prompt)) => {
            &&& asks_for(prompt.text@, library)
            &&& prompt.items.deep_view() == item_texts(candidates)
            &&& prompt.default == 0
        },
        _ => false,
    }
}

/// The packages that are selected once the libraries whose candidates are
/// `results` have been resolved in their order, starting from `selected`.
/// `choices[k]` is the answer that is given if a person is asked about
/// library `k`. There are none if one of the libraries cannot be provided.
pub open spec fn resolved(
    selected: Set<Seq<char>>,
    results: Seq<Seq<CandidateView>>,
    choices: Seq<int>,
) -> Option<Set<Seq<char>>>
    decreases results.len(),
{
    if results.len() == 0 {
        Some(selected)
    } else {
        match resolved(selected, results.drop_last(), choices) {
            Some(so_far) => selected_after(so_far, results.last(), choices[results.len() - 1]),
            None => None,
        }
    }
}

/// A library that is covered stays covered when more packages are selected.
pub proof fn lemma_cover_kept(
    candidates: Seq<CandidateView>,
    selected: Set<Seq<char>>,
    more: Set<Seq<char>>,
)
    requires
        covered(candidates, selected),
        selected.subset_of(more),
    ensures
        covered(candidates, more),
{
    let i = choose|i: int|
        0 <= i < candidates.len() && selected.contains(#[trigger] candidates[i].package);
    assert(more.contains(candidates[i].package));
}

/// Resolving one library fails exactly when it has no candidate. Where it
/// does not fail, no package leaves the selection, and a package that
/// provides the library is selected afterwards.
pub proof fn lemma_step_covers(
    selected: Set<Seq<char>>,
    candidates: Seq<CandidateView>,
    choice: int,
)
    requires
        0 <= choice < candidates.len() || candidates.len() <= 1,
    ensures
        selected_after(selected, candidates, choice) is None <==> candidates.len() == 0,
        selected_after(selected, candidates, choice) matches Some(after) ==> selected.subset_of(
            after,
        ) && covered(candidates, after),
{
    match selected_after(selected, candidates, choice) {
        Some(after) => {
            match action_for(candidates, selected) {
                Action::Add => {
                    assert(after.contains(candidates[0].package));
                },
                Action::Ask => {
                    assert(after.contains(candidates[choice].package));
                },
                _ => {},
            }
        },
        None => {},
    }
}

/// Resolving a row of libraries fails exactly when one of them has no
/// candidate. Where it does not fail, the packages selected at the start are
/// still selected at the end, and every library is covered: a package that
/// provides it is selected.
pub proof fn lemma_resolved_covers(
    selected: Set<Seq<char>>,
    results: Seq<Seq<CandidateView>>,
    choices: Seq<int>,
)
    requires
        choices.len() == results.len(),
        forall|k: int|
            0 <= k < results.len() && results[k].len() > 1 ==> 0 <= #[trigger] choices[k]
                < results[k].len(),
    ensures
        resolved(selected, results, choices) is None <==> exists|k: int|
            0 <= k < results.len() && (#[trigger] results[k]).len() == 0,
        resolved(selected, results, choices) matches Some(after) ==> selected.subset_of(after)
            && forall|k: int| 0 <= k < results.len() ==> covered(#[trigger] results[k], after),
    decreases results.len(),
{
    if results.len() > 0 {
        let last = results.len() - 1;
        let earlier = results.drop_last();
        lemma_resolved_covers(selected, earlier, choices.drop_last());
        lemma_resolved_ignores(selected, earlier, choices, choices.drop_last());
        match resolved(selected, earlier, choices) {
            Some(so_far) => {
                lemma_step_covers(so_far, results[last], choices[last]);
                match selected_after(so_far, results[last], choices[last]) {
                    Some(after) => {
                        assert forall|k: int| 0 <= k < results.len() implies covered(
                            #[trigger] results[k],
                            after,
                        ) by {
                            if k < last {
                                assert(earlier[k] == results[k]);
                                lemma_cover_kept(results[k], so_far, after);
                            }
                        }
                        assert forall|k: int| 0 <= k < results.len() implies (
                        #[trigger] results[k]).len() != 0 by {
                            if k < last {
                                assert(earlier[k] == results[k]);
                            }
                        }
                    },
                    None => {
                        assert(results[last].len() == 0);
                    },
                }
            },
            None => {
                let k = choose|k: int| 0 <= k < earlier.len() && (#[trigger] earlier[k]).len() == 0;
                assert(results[k].len() == 0);
            },
        }
    }
}

/// Only the answers for the libraries at hand count.
proof fn lemma_resolved_ignores(
    selected: Set<Seq<char>>,
    results: Seq<Seq<CandidateView>>,
    choices: Seq<int>,
    others: Seq<int>,
)
    requires
        results.len() <= choices.len(),
        results.len() <= others.len(),
        forall|k: int| 0 <= k < results.len() ==> choices[k] == others[k],
    ensures
        resolved(selected, results, choices) == resolved(selected, results, others),
    decreases results.len(),
{
    if results.len() > 0 {
        lemma_resolved_ignores(selected, results.drop_last(), choices, others);
    }
}

/// The packages selected so far. Each is held once, and they are kept in
/// ascending order of their names.
pub struct PackageSelection {
    names: Vec<String>,
}

impl View for PackageSelection {
    type V = Set<Seq<char>>;

    /// The names of the selected packages.
    closed spec fn view(&self) -> Set<Seq<char>> {
        self.names.deep_view().to_set()
    }
}

impl PackageSelection {
    #[verifier::type_invariant]
    spec fn sorted(self) -> bool {
        ascending(self.names.deep_view())
    }

    /// Starts a selection with the packages that the caller wants in any
    /// case.
    pub fn new(initial: Vec<String>) -> (selection: PackageSelection)
        ensures
            selection@ == initial.deep_view().to_set(),
    {
        PackageSelection { names: sorted_set(initial) }
    }

    /// Tells whether the package `name` is selected.
    pub fn contains(&self, name: &str) -> (b: bool)
        ensures
            b == self@.contains(name@),
    {
        proof {
            use_type_invariant(self);
        }
        contains(&self.names, name)
    }

    /// Selects the package `name`. A package that is selected stays so.
    pub fn insert(&mut self, name: String)
        ensures
            final(self)@ == old(self)@.insert(name@),
            old(self)@.subset_of(final(self)@),
    {
        let mut taken = PackageSelection { names: Vec::new() };
        core::mem::swap(self, &mut taken);
        proof {
            use_type_invariant(&taken);
        }
        let mut names = taken.names;
        insert_sorted(&mut names, name);
        *self = PackageSelection { names };
    }

    /// The selected packages in ascending order, each of them once, whatever
    /// the order in which they were selected.
    pub fn packages(&self) -> (list: Vec<String>)
        ensures
            ascending(list.deep_view()),
            list.deep_view().to_set() == self@,
    {
        proof {
            use_type_invariant(self);
        }
        let list = self.names.clone();
        proof {
            assert(list.deep_view() =~= self.names.deep_view());
        }
        list
    }

    /// Tells whether a package among `candidates` is selected.
    pub fn covers(&self, candidates: &Vec<Candidate>) -> (b: bool)
        ensures
            b == covered(candidates.deep_view(), self@),
    {
        let mut k: usize = 0;
        while k < candidates.len()
            invariant
                k <= candidates.len(),
                forall|i: int|
                    0 <= i < k ==> !self@.contains(#[trigger] candidates.deep_view()[i].package),
            decreases candidates.len() - k,
        {
            if self.contains(candidates[k].package.as_str()) {
                assert(self@.contains(candidates.deep_view()[k as int].package));
                return true;
            }
            k += 1;
        }
        false
    }

    /// Decides what `candidates` call for, without changing the selection.
    pub fn decide(&self, candidates: &Vec<Candidate>) -> (action: Action)
        ensures
            action == action_for(candidates.deep_view(), self@),
    {
        if candidates.len() == 0 {
            Action::Fail
        } else if candidates.len() == 1 {
            Action::Add
        } else if self.covers(candidates) {
            Action::Keep
        } else {
            Action::Ask
        }
    }

    /// Resolves `library` with the candidates that the index names for it.
    /// Without a candidate the library is unresolvable, and that is final.
    /// With one candidate its package is selected. With several, of which one
    /// is selected already, nothing changes. With several, none of them
    /// selected, nothing changes yet: the question comes back, and `pick`
    /// takes the answer.
    pub fn resolve(&mut self, library: &str, candidates: &Vec<Candidate>) -> (r: Result<
        Outcome,
        Error,
    >)
        ensures
            match action_for(candidates.deep_view(), old(self)@) {
                Action::Fail => final(self)@ == old(self)@ && is_unresolvable(r, library@),
                Action::Add => final(self)@ == old(self)@.insert(
                    candidates.deep_view()[0].package,
                ) && r == Ok::<Outcome, Error>(Outcome::Added),
                Action::Keep => final(self)@ == old(self)@ && r == Ok::<Outcome, Error>(
                    Outcome::Satisfied,
                ),
                Action::Ask => final(self)@ == old(self)@ && is_question(
                    r,
                    library@,
                    candidates.deep_view(),
                ),
            },
            r is Err <==> candidates.len() == 0,
            !(action_for(candidates.deep_view(), old(self)@) is Ask) ==> (if r is Ok {
                Some(final(self)@)
            } else {
                None
            }) == selected_after(old(self)@, candidates.deep_view(), 0),
            old(self)@.subset_of(final(self)@),
            r == Ok::<Outcome, Error>(Outcome::Added) || r == Ok::<Outcome, Error>(
                Outcome::Satisfied,
            ) ==> covered(candidates.deep_view(), final(self)@),
    {
        match self.decide(candidates) {
            Action::Fail => Err(Error::Unresolvable { library: String::from_str(library) }),
            Action::Add => {
                self.insert(candidates[0].package.clone());
                assert(self@.contains(candidates.deep_view()[0].package));
                Ok(Outcome::Added)
            },
            Action::Keep => Ok(Outcome::Satisfied),
            Action::Ask => Ok(Outcome::Ask(provider_prompt(library, candidates))),
        }
    }

    /// Takes the answer to a question: selects the package of the candidate
    /// that was chosen.
    pub fn pick(&mut self, candidates: &Vec<Candidate>, choice: usize)
        requires
            choice < candidates.len(),
        ensures
            final(self)@ == old(self)@.insert(candidates.deep_view()[choice as int].package),
            action_for(candidates.deep_view(), old(self)@) is Ask ==> Some(final(self)@)
                == selected_after(old(self)@, candidates.deep_view(), choice as int),
            old(self)@.subset_of(final(self)@),
            covered(candidates.deep_view(), final(self)@),
    {
        self.insert(candidates[choice].package.clone());
        assert(self@.contains(candidates.deep_view()[choice as int].package));
    }
}

} // verus!

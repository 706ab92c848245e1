//! The question that is put to a person when several packages provide a
//! library and none of them is selected yet.
//!
//! The library only words the question. Showing it, and reading the answer,
//! is left to the program that uses the library.

use vstd::prelude::*;
use crate::candidates::{Candidate, CandidateView};

verus! {

/// A question with its choices. The answer is the index of one of `items`.
#[derive(Debug, Clone, PartialEq, Eq)]
pub struct Prompt {
    /// What is asked.
    pub text: String,
    /// The choices, one for each candidate and in the candidates' order.
    pub items: Vec<String>,
    /// The choice that is offered first.
    pub default: usize,
}

/// The codes that switch a terminal to red and to bold.
pub open spec fn emphasis_on() -> Seq<char> {
    "\x1b[31m\x1b[1m"@
}

/// The code that switches a terminal back to its plain style.
pub open spec fn emphasis_off() -> Seq<char> {
    "\x1b[0m"@
}

/// The question for `library`, with the library's name as `shown`.
pub open spec fn question(shown: Seq<char>) -> Seq<char> {
    "Pick provider for "@ + shown
}

/// `text` asks for a provider of `library`, and names the library either
/// plainly or in red and bold.
pub open spec fn asks_for(text: Seq<char>, library: Seq<char>) -> bool {
    ||| text == question(library)
    ||| text == question(emphasis_on() + library + emphasis_off())
}

/// The choice that stands for one candidate: the package and the path, with
/// a space between them.
pub open spec fn item_text(candidate: CandidateView) -> Seq<char> {
    candidate.package + " "@ + candidate.path
}

/// The choices that stand for `candidates`, in their order.
pub open spec fn item_texts(candidates: Seq<CandidateView>) -> Seq<Seq<char>> {
    Seq::new(candidates.len(), |k: int| item_text(candidates[k]))
}

/// Renders `name` in red and bold with `console::Style`, as
/// `Style::new().bold().red().apply_to(name)` is displayed. Where `console`
/// finds that the terminal takes colours, the name stands between the codes
/// for red and bold and the code that resets them; elsewhere it is the name
/// unchanged. Which of the two comes back depends on the terminal and on the
/// environment.
#[verifier::external_body]
fn emphasized(name: &str) -> (shown: String)
    ensures
        shown@ == name@ || shown@ == emphasis_on() + name@ + emphasis_off(),
{
    console::Style::new().bold().red().apply_to(name).to_string()
}

/// Words the question around the name of the library as it is to be shown.
pub fn question_for(shown: &str) -> (text: String)
    ensures
        text@ == question(shown@),
{
    String::from_str("Pick provider for ").concat(shown)
}

/// Words the choice that stands for `candidate`.
pub fn item_for(candidate: &Candidate) -> (text: String)
    ensures
        text@ == item_text(candidate@),
{
    let mut text = candidate.package.clone();
    text.append(" ");
    text.append(candidate.path.as_str());
    text
}

/// Makes the question that asks which of `candidates` is to provide
/// `library`. The choices keep the candidates' order, and the first of them
/// is the one offered.
pub fn provider_prompt(library: &str, candidates: &Vec<Candidate>) -> (prompt: Prompt)
    ensures
        asks_for(prompt.text@, library@),
        prompt.items.deep_view() == item_texts(candidates.deep_view()),
        prompt.default == 0,
{
    let shown = emphasized(library);
    let text = question_for(shown.as_str());
    let mut items: Vec<String> = Vec::new();
    let mut k: usize = 0;
    while k < candidates.len()
        invariant
            k <= candidates.len(),
            items.deep_view() == item_texts(candidates.deep_view().take(k as int)),
        decreases candidates.len() - k,
    {
        let ghost before = items.deep_view();
        let item = item_for(&candidates[k]);
        items.push(item);
        proof {
            let all = candidates.deep_view();
            assert(all.take(k + 1)[k as int] == candidates[k as int]@);
            assert(items.deep_view() =~= before.push(item@));
            assert(items.deep_view() =~= item_texts(all.take(k + 1)));
        }
        k += 1;
    }
    proof {
        assert(candidates.deep_view().take(k as int) =~= candidates.deep_view());
    }
    Prompt { text, items, default: 0 }
}

} // verus!

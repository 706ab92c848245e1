//! The sandbox definition and the wrapper script that builds and enters it.
//!
//! Everything here is text: the script is written to disk, and made
//! executable, by the program that uses this library.

use vstd::prelude::*;
use crate::text::occurs_at;

verus! {

/// The name of the wrapper script, which lies beside the program it runs.
pub const WRAPPER_NAME: &'static str = "run-with-nix";

/// The permission bits of the wrapper script.
pub const WRAPPER_MODE: u32 = 0o755;

/// `parts`, each but the last followed by `separator`.
pub open spec fn joined(parts: Seq<Seq<char>>, separator: Seq<char>) -> Seq<char>
    decreases parts.len(),
{
    if parts.len() == 0 {
        Seq::empty()
    } else if parts.len() == 1 {
        parts[0]
    } else {
        joined(parts.drop_last(), separator) + separator + parts.last()
    }
}

/// The definition of a sandbox that holds `packages` and runs `run`.
pub open spec fn fhs_text(run: Seq<char>, packages: Seq<Seq<char>>) -> Seq<char> {
    "with import <nixpkgs> {};\n  buildFHSUserEnv {\n    name = \"fhs\";\n    targetPkgs = p: with p; [ \n      "@
        + joined(packages, "\n      "@) + " \n    ];\n    runScript = \""@ + run + "\";\n  }"@
}

/// The command that has `builder` build the sandbox that `expression`
/// defines, and then enters it.
pub open spec fn launch_text(builder: Seq<char>, expression: Seq<char>) -> Seq<char> {
    "$("@ + builder + " '"@ + expression + "')/bin/fhs"@
}

/// A shell script that runs `command`.
pub open spec fn script_text(command: Seq<char>) -> Seq<char> {
    "#!/usr/bin/env bash\n\n"@ + command
}

/// The whole wrapper script for the program `run` and its `packages`.
pub open spec fn wrapper_text(
    builder: Seq<char>,
    run: Seq<char>,
    packages: Seq<Seq<char>>,
) -> Seq<char> {
    script_text(launch_text(builder, fhs_text(run, packages)))
}

/// `part` stands somewhere in `text`.
pub open spec fn embeds(text: Seq<char>, part: Seq<char>) -> bool {
    exists|i: int| occurs_at(text, part, i)
}

/// Joins `parts` with `separator` between them.
pub fn join(parts: &Vec<String>, separator: &str) -> (text: String)
    ensures
        text@ == joined(parts.deep_view(), separator@),
{
    let mut text = String::new();
    let mut k: usize = 0;
    while k < parts.len()
        invariant
            k <= parts.len(),
            text@ == joined(parts.deep_view().take(k as int), separator@),
        decreases parts.len() - k,
    {
        let ghost all = parts.deep_view();
        proof {
            assert(all.take(k + 1).drop_last() =~= all.take(k as int));
            assert(all.take(k + 1).last() == parts[k as int]@);
        }
        if k > 0 {
            text.append(separator);
        } else {
            assert(text@ + parts[k as int]@ =~= parts[k as int]@);
        }
        text.append(parts[k].as_str());
        k += 1;
    }
    proof {
        assert(parts.deep_view().take(k as int) =~= parts.deep_view());
    }
    text
}

/// Renders the definition of a sandbox that holds `packages`, in the order
/// given, and runs the program at `run`.
pub fn fhs_shell(run: &str, packages: Vec<String>) -> (text: String)
    ensures
        text@ == fhs_text(run@, packages.deep_view()),
{
    let mut text = String::from_str(
        "with import <nixpkgs> {};\n  buildFHSUserEnv {\n    name = \"fhs\";\n    targetPkgs = p: with p; [ \n      ",
    );
    let list = join(&packages, "\n      ");
    text.append(list.as_str());
    text.append(" \n    ];\n    runScript = \"");
    text.append(run);
    text.append("\";\n  }");
    text
}

/// Renders the command that builds the sandbox and enters it.
pub fn launch_command(builder: &str, expression: &str) -> (text: String)
    ensures
        text@ == launch_text(builder@, expression@),
{
    let mut text = String::from_str("$(");
    text.append(builder);
    text.append(" '");
    text.append(expression);
    text.append("')/bin/fhs");
    text
}

/// Renders a shell script that runs `command`.
pub fn bash_script(command: &str) -> (text: String)
    ensures
        text@ == script_text(command@),
{
    String::from_str("#!/usr/bin/env bash\n\n").concat(command)
}

/// Renders the whole wrapper script for the program at `run`.
pub fn wrapper_script(builder: &str, run: &str, packages: Vec<String>) -> (text: String)
    ensures
        text@ == wrapper_text(builder@, run@, packages.deep_view()),
{
    let expression = fhs_shell(run, packages);
    let command = launch_command(builder, expression.as_str());
    bash_script(command.as_str())
}

/// The wrapper script may be executed by its owner, by its group and by
/// everyone else.
pub proof fn lemma_wrapper_is_executable()
    ensures
        WRAPPER_MODE & 0o100 == 0o100,
        WRAPPER_MODE & 0o010 == 0o010,
        WRAPPER_MODE & 0o001 == 0o001,
{
    assert(0o755u32 & 0o100 == 0o100) by (bit_vector);
    assert(0o755u32 & 0o010 == 0o010) by (bit_vector);
    assert(0o755u32 & 0o001 == 0o001) by (bit_vector);
}

/// A text that stands in a part of a whole stands in the whole.
pub proof fn lemma_embeds_in_context(before: Seq<char>, part: Seq<char>, after: Seq<char>)
    ensures
        embeds(before + part + after, part),
{
    let whole = before + part + after;
    assert(whole.subrange(before.len() as int, (before.len() + part.len()) as int) =~= part);
    assert(occurs_at(whole, part, before.len() as int));
}

/// Being embedded carries over from a part to the whole.
pub proof fn lemma_embeds_transitive(before: Seq<char>, middle: Seq<char>, after: Seq<char>, part: Seq<char>)
    requires
        embeds(middle, part),
    ensures
        embeds(before + middle + after, part),
{
    let i = choose|i: int| occurs_at(middle, part, i);
    let whole = before + middle + after;
    assert(whole.subrange(before.len() + i, before.len() + i + part.len()) =~= middle.subrange(
        i,
        i + part.len(),
    ));
    assert(occurs_at(whole, part, before.len() + i));
}

/// Each of the joined parts stands in the joined text.
pub proof fn lemma_joined_embeds(parts: Seq<Seq<char>>, separator: Seq<char>, k: int)
    requires
        0 <= k < parts.len(),
    ensures
        embeds(joined(parts, separator), parts[k]),
    decreases parts.len(),
{
    let empty = Seq::<char>::empty();
    if parts.len() == 1 {
        lemma_embeds_in_context(empty, parts[0], empty);
        assert(empty + parts[0] + empty =~= parts[0]);
    } else if k == parts.len() - 1 {
        lemma_embeds_in_context(joined(parts.drop_last(), separator) + separator, parts[k], empty);
        assert(joined(parts.drop_last(), separator) + separator + parts[k] + empty =~= joined(
            parts,
            separator,
        ));
    } else {
        lemma_joined_embeds(parts.drop_last(), separator, k);
        lemma_embeds_transitive(
            empty,
            joined(parts.drop_last(), separator),
            separator + parts.last(),
            parts[k],
        );
        assert(empty + joined(parts.drop_last(), separator) + (separator + parts.last())
            =~= joined(parts, separator));
    }
}

/// The wrapper script holds the path of the program and the name of every
/// package.
pub proof fn lemma_wrapper_embeds(
    builder: Seq<char>,
    run: Seq<char>,
    packages: Seq<Seq<char>>,
)
    ensures
        embeds(wrapper_text(builder, run, packages), run),
        forall|k: int|
            0 <= k < packages.len() ==> embeds(
                wrapper_text(builder, run, packages),
                #[trigger] packages[k],
            ),
{
    let head = "with import <nixpkgs> {};\n  buildFHSUserEnv {\n    name = \"fhs\";\n    targetPkgs = p: with p; [ \n      "@;
    let list = joined(packages, "\n      "@);
    let middle = " \n    ];\n    runScript = \""@;
    let tail = "\";\n  }"@;
    let expression = fhs_text(run, packages);
    let whole = wrapper_text(builder, run, packages);
    let outer_before = "#!/usr/bin/env bash\n\n"@ + "$("@ + builder + " '"@;
    let outer_after = "')/bin/fhs"@;
    assert(whole =~= outer_before + expression + outer_after);
    lemma_embeds_in_context(head + list + middle, run, tail);
    assert(expression =~= head + list + middle + run + tail);
    lemma_embeds_transitive(outer_before, expression, outer_after, run);
    assert forall|k: int| 0 <= k < packages.len() implies embeds(whole, #[trigger] packages[k]) by {
        lemma_joined_embeds(packages, "\n      "@, k);
        lemma_embeds_transitive(head, list, middle + run + tail, packages[k]);
        assert(expression =~= head + list + (middle + run + tail));
        lemma_embeds_transitive(outer_before, expression, outer_after, packages[k]);
    }
}

} // verus!

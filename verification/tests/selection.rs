use nix_autobahn::candidates::{find_candidates, Candidate};
use nix_autobahn::error::Error;
use nix_autobahn::names::library_queue;
use nix_autobahn::prompt::Prompt;
use nix_autobahn::report::missing_libs;
use nix_autobahn::script::fhs_shell;
use nix_autobahn::selection::{Action, Outcome, PackageSelection};

fn strings(names: &[&str]) -> Vec<String> {
    names.iter().map(|n| n.to_string()).collect()
}

fn candidate(package: &str, path: &str) -> Candidate {
    Candidate { package: package.to_string(), path: path.to_string() }
}

fn plain_prompt(library: &str, items: &[&str]) -> Prompt {
    Prompt { text: format!("Pick provider for {}", library), items: strings(items), default: 0 }
}

fn asked(outcome: Result<Outcome, Error>) -> Prompt {
    match outcome {
        Ok(Outcome::Ask(prompt)) => prompt,
        other => panic!("no question: {:?}", other),
    }
}

fn run(
    packages: &[&str],
    report: &str,
    extra: &[&str],
    index: &[(&str, &str)],
    answers: &[usize],
) -> Result<(Vec<String>, Vec<String>, usize), Error> {
    let mut selection = PackageSelection::new(strings(packages));
    let queue = library_queue(missing_libs(report), strings(extra));
    let mut looked_up = Vec::new();
    let mut questions = 0;
    for library in queue {
        let listing = index.iter().find(|(name, _)| *name == library).map(|(_, l)| *l).unwrap_or("");
        looked_up.push(library.clone());
        let candidates = find_candidates(listing)?;
        if let Outcome::Ask(prompt) = selection.resolve(&library, &candidates)? {
            assert_eq!(prompt.default, 0);
            assert_eq!(prompt.items.len(), candidates.len());
            let choice = answers[questions];
            questions += 1;
            selection.pick(&candidates, choice);
        }
    }
    Ok((selection.packages(), looked_up, questions))
}

#[test]
fn no_candidate_is_an_error() {
    let mut selection = PackageSelection::new(strings(&["pkgX"]));
    assert_eq!(selection.decide(&Vec::new()), Action::Fail);
    assert_eq!(
        selection.resolve("libfoo.so.1", &Vec::new()),
        Err(Error::Unresolvable { library: "libfoo.so.1".to_string() })
    );
    assert_eq!(selection.packages(), strings(&["pkgX"]));
}

#[test]
fn one_candidate_is_selected_without_a_question() {
    let mut selection = PackageSelection::new(Vec::new());
    let candidates = vec![candidate("pkgA", "/a")];
    assert_eq!(selection.decide(&candidates), Action::Add);
    assert_eq!(selection.resolve("liba.so", &candidates), Ok(Outcome::Added));
    assert!(selection.contains("pkgA"));
    assert_eq!(selection.packages(), strings(&["pkgA"]));
}

#[test]
fn one_candidate_that_is_selected_already_changes_nothing() {
    let mut selection = PackageSelection::new(strings(&["pkgA"]));
    assert_eq!(selection.resolve("liba.so", &vec![candidate("pkgA", "/a")]), Ok(Outcome::Added));
    assert_eq!(selection.packages(), strings(&["pkgA"]));
}

#[test]
fn a_selected_candidate_satisfies_without_a_question() {
    let mut selection = PackageSelection::new(strings(&["pkgB"]));
    let candidates = vec![candidate("pkgA", "/a"), candidate("pkgB", "/b")];
    assert!(selection.covers(&candidates));
    assert_eq!(selection.decide(&candidates), Action::Keep);
    assert_eq!(selection.resolve("libab.so", &candidates), Ok(Outcome::Satisfied));
    assert_eq!(selection.packages(), strings(&["pkgB"]));
}

#[test]
fn several_unselected_candidates_call_for_a_question() {
    let mut selection = PackageSelection::new(Vec::new());
    let candidates = vec![candidate("pkgA", "/a"), candidate("pkgB", "/b")];
    assert!(!selection.covers(&candidates));
    assert_eq!(selection.decide(&candidates), Action::Ask);
    let prompt = asked(selection.resolve("libab.so", &candidates));
    assert_eq!(prompt.default, 0);
    assert_eq!(prompt.items, strings(&["pkgA /a", "pkgB /b"]));
    assert!(prompt.text.starts_with("Pick provider for "));
    assert!(prompt.text.contains("libab.so"));
    assert_eq!(selection.packages(), Vec::<String>::new());
    selection.pick(&candidates, 1);
    assert_eq!(selection.packages(), strings(&["pkgB"]));
}

#[test]
fn the_default_choice_is_the_first_candidate() {
    let mut selection = PackageSelection::new(Vec::new());
    let candidates = vec![candidate("pkgA", "/a"), candidate("pkgB", "/b")];
    let prompt = asked(selection.resolve("libab.so", &candidates));
    selection.pick(&candidates, prompt.default);
    assert_eq!(selection.packages(), strings(&["pkgA"]));
}

#[test]
fn the_question_keeps_the_order_of_the_index() {
    let mut selection = PackageSelection::new(Vec::new());
    let candidates = vec![candidate("zeta", "/lib/z"), candidate("alpha", "/lib/a"), candidate("mid", "/lib/m")];
    let prompt = asked(selection.resolve("lib.so", &candidates));
    assert_eq!(prompt.items, strings(&["zeta /lib/z", "alpha /lib/a", "mid /lib/m"]));
}

#[test]
fn the_plain_question_is_worded_as_expected() {
    let mut selection = PackageSelection::new(Vec::new());
    let candidates = vec![candidate("pkgA", "/a"), candidate("pkgB", "/b")];
    let prompt = asked(selection.resolve("libab.so", &candidates));
    let plain = plain_prompt("libab.so", &["pkgA /a", "pkgB /b"]);
    let styled = Prompt { text: "Pick provider for \u{1b}[31m\u{1b}[1mlibab.so\u{1b}[0m".to_string(), ..plain.clone() };
    assert!(prompt == plain || prompt == styled, "{:?}", prompt);
}

#[test]
fn the_selection_is_sorted_whatever_the_order_of_insertion() {
    let mut one = PackageSelection::new(strings(&["m", "c"]));
    one.insert("z".to_string());
    one.insert("a".to_string());
    one.insert("m".to_string());
    let mut other = PackageSelection::new(Vec::new());
    for name in ["a", "z", "c", "m", "a", "z"] {
        other.insert(name.to_string());
    }
    assert_eq!(one.packages(), strings(&["a", "c", "m", "z"]));
    assert_eq!(other.packages(), one.packages());
}

#[test]
fn the_initial_packages_are_sorted_and_held_once() {
    let selection = PackageSelection::new(strings(&["pkgB", "pkgA", "pkgB", "pkgC", "pkgA"]));
    assert_eq!(selection.packages(), strings(&["pkgA", "pkgB", "pkgC"]));
    assert!(selection.contains("pkgB"));
    assert!(!selection.contains("pkgD"));
}

#[test]
fn two_missing_libraries_one_question() {
    let report = "\tlibc.so.6 => /lib/libc.so.6 (0x0)\n\
                  \tlibfoo.so.1 => not found\n\
                  \tlibbar.so.2 => not found\n";
    let index = [
        ("libfoo.so.1", "pkgFoo 1 r /nix/store/aaa-foo/lib/libfoo.so.1\n"),
        (
            "libbar.so.2",
            "pkgBar1 2 r /nix/store/bbb-bar1/lib/libbar.so.2\npkgBar2 3 s /nix/store/ccc-bar2/lib64/libbar.so.2\n",
        ),
    ];
    let (packages, looked_up, questions) = run(&[], report, &[], &index, &[0]).unwrap();
    assert_eq!(packages, strings(&["pkgBar1", "pkgFoo"]));
    assert_eq!(looked_up, strings(&["libbar.so.2", "libfoo.so.1"]));
    assert_eq!(questions, 1);
    let (packages, _, questions) = run(&[], report, &[], &index, &[1]).unwrap();
    assert_eq!(packages, strings(&["pkgBar2", "pkgFoo"]));
    assert_eq!(questions, 1);
}

#[test]
fn nothing_missing_leaves_the_additional_packages() {
    let report = "\tlibc.so.6 => /lib/libc.so.6 (0x0)\n";
    let (packages, looked_up, questions) = run(&["zlib", "bash", "zlib"], report, &[], &[], &[]).unwrap();
    assert_eq!(packages, strings(&["bash", "zlib"]));
    assert_eq!(looked_up, Vec::<String>::new());
    assert_eq!(questions, 0);
}

#[test]
fn a_library_without_provider_ends_the_run() {
    let report = "\tliba.so => not found\n\tlibnone.so => not found\n";
    let index = [("liba.so", "pkgA 1 r /nix/store/aaa-a/lib/liba.so\n")];
    assert_eq!(
        run(&[], report, &[], &index, &[]),
        Err(Error::Unresolvable { library: "libnone.so".to_string() })
    );
}

#[test]
fn an_earlier_choice_satisfies_a_later_library() {
    let report = "\tlibb.so => not found\n\tliba.so => not found\n";
    let both = "one 1 r /nix/store/aaa-one/lib/l.so\ntwo 1 r /nix/store/bbb-two/lib/l.so\n";
    let index = [("liba.so", both), ("libb.so", both)];
    let (packages, looked_up, questions) = run(&[], report, &[], &index, &[1]).unwrap();
    assert_eq!(looked_up, strings(&["liba.so", "libb.so"]));
    assert_eq!(questions, 1);
    assert_eq!(packages, strings(&["two"]));
}

#[test]
fn additional_libraries_are_resolved_too() {
    let report = "\tlibm.so => not found\n";
    let index = [
        ("libm.so", "glibc 1 r /nix/store/aaa-glibc/lib/libm.so\n"),
        ("libextra.so", "extra 1 r /nix/store/bbb-extra/lib/libextra.so\n"),
    ];
    let (packages, looked_up, _) = run(&["seed"], report, &["libextra.so", "libm.so"], &index, &[]).unwrap();
    assert_eq!(looked_up, strings(&["libextra.so", "libm.so"]));
    assert_eq!(packages, strings(&["extra", "glibc", "seed"]));
}

#[test]
fn the_resolved_packages_end_up_in_the_sandbox() {
    let report = "\tlibfoo.so.1 => not found\n";
    let index = [("libfoo.so.1", "pkgFoo 1 r /nix/store/aaa-foo/lib/libfoo.so.1\n")];
    let (packages, _, _) = run(&["base"], report, &[], &index, &[]).unwrap();
    let text = fhs_shell("/abs/tool", packages);
    assert!(text.contains("[ \n      base\n      pkgFoo \n    ];"));
    assert!(text.contains("runScript = \"/abs/tool\";"));
}

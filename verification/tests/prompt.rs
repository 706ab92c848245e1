use nix_autobahn::candidates::Candidate;
use nix_autobahn::prompt::{item_for, provider_prompt, question_for};

#[test]
fn question_for_names_the_library() {
    assert_eq!(question_for("libfoo.so.1"), "Pick provider for libfoo.so.1");
    assert_eq!(question_for(""), "Pick provider for ");
}

#[test]
fn item_for_shows_package_and_path() {
    let candidate = Candidate { package: "glibc.out".to_string(), path: "/lib/libm.so.6".to_string() };
    assert_eq!(item_for(&candidate), "glibc.out /lib/libm.so.6");
}

#[test]
fn provider_prompt_offers_every_candidate() {
    let candidates = vec![
        Candidate { package: "b".to_string(), path: "/lib/1".to_string() },
        Candidate { package: "a".to_string(), path: "/lib/2".to_string() },
    ];
    let prompt = provider_prompt("libx.so", &candidates);
    assert_eq!(prompt.items, vec!["b /lib/1".to_string(), "a /lib/2".to_string()]);
    assert_eq!(prompt.default, 0);
    let plain = "Pick provider for libx.so";
    let styled = "Pick provider for \u{1b}[31m\u{1b}[1mlibx.so\u{1b}[0m";
    assert!(prompt.text == plain || prompt.text == styled, "{:?}", prompt.text);
}

#[test]
fn provider_prompt_without_candidates_has_no_items() {
    let prompt = provider_prompt("libx.so", &Vec::new());
    assert!(prompt.items.is_empty());
    assert_eq!(prompt.default, 0);
}

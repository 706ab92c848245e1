use nix_autobahn::names::{contains, insert_sorted, library_queue, position, rank, sorted_set, Rank};

fn strings(names: &[&str]) -> Vec<String> {
    names.iter().map(|n| n.to_string()).collect()
}

#[test]
fn rank_orders_names_by_their_characters() {
    assert_eq!(rank("a", "b"), Rank::Before);
    assert_eq!(rank("b", "a"), Rank::After);
    assert_eq!(rank("abc", "abc"), Rank::Same);
    assert_eq!(rank("", ""), Rank::Same);
    assert_eq!(rank("", "a"), Rank::Before);
    assert_eq!(rank("a", ""), Rank::After);
    assert_eq!(rank("lib", "libfoo"), Rank::Before);
    assert_eq!(rank("libfoo", "lib"), Rank::After);
    assert_eq!(rank("libZ", "liba"), Rank::Before);
    assert_eq!(rank("lib10", "lib9"), Rank::Before);
}

#[test]
fn rank_agrees_with_the_order_of_str() {
    let names = ["", "a", "ab", "b", "B", "\u{e9}", "e", "z\u{4e16}", "z", "\u{1f600}", "\u{ffff}", "~"];
    for a in names {
        for b in names {
            let expected = if a < b {
                Rank::Before
            } else if a == b {
                Rank::Same
            } else {
                Rank::After
            };
            assert_eq!(rank(a, b), expected, "{:?} {:?}", a, b);
        }
    }
}

#[test]
fn sorted_set_sorts_and_removes_repetitions() {
    assert_eq!(
        sorted_set(strings(&["libz", "liba", "libz", "libm", "liba", "liba"])),
        strings(&["liba", "libm", "libz"])
    );
    assert_eq!(sorted_set(Vec::new()), Vec::<String>::new());
    assert_eq!(sorted_set(strings(&["x"])), strings(&["x"]));
}

#[test]
fn sorted_set_removes_repetitions_that_are_apart() {
    assert_eq!(sorted_set(strings(&["b", "a", "b"])), strings(&["a", "b"]));
}

#[test]
fn sorted_set_does_not_depend_on_the_order_of_its_input() {
    let one = sorted_set(strings(&["c", "a", "b", "a"]));
    let other = sorted_set(strings(&["a", "b", "b", "c", "c"]));
    assert_eq!(one, other);
    assert_eq!(one, strings(&["a", "b", "c"]));
}

#[test]
fn sorted_set_agrees_with_sort_and_dedup() {
    let input = strings(&["pkgFoo", "pkgBar2", "", "pkgBar1", "\u{e9}", "pkgFoo", "Pkg", "pkg"]);
    let mut expected = input.clone();
    expected.sort();
    expected.dedup();
    assert_eq!(sorted_set(input), expected);
}

#[test]
fn library_queue_unites_detected_and_additional_names() {
    assert_eq!(
        library_queue(strings(&["libfoo.so.1", "libbar.so.2"]), strings(&["libextra.so", "libbar.so.2"])),
        strings(&["libbar.so.2", "libextra.so", "libfoo.so.1"])
    );
    assert_eq!(library_queue(Vec::new(), Vec::new()), Vec::<String>::new());
    assert_eq!(library_queue(Vec::new(), strings(&["b", "a"])), strings(&["a", "b"]));
}

#[test]
fn position_tells_where_a_name_belongs() {
    let list = strings(&["b", "d", "f"]);
    assert_eq!(position(&list, "a"), (0, false));
    assert_eq!(position(&list, "b"), (0, true));
    assert_eq!(position(&list, "c"), (1, false));
    assert_eq!(position(&list, "f"), (2, true));
    assert_eq!(position(&list, "g"), (3, false));
    assert_eq!(position(&Vec::new(), "a"), (0, false));
}

#[test]
fn contains_finds_names_of_an_ascending_list() {
    let list = strings(&["b", "d", "f"]);
    assert!(contains(&list, "d"));
    assert!(!contains(&list, "e"));
    assert!(!contains(&Vec::new(), ""));
}

#[test]
fn insert_sorted_keeps_the_list_ascending() {
    let mut list = strings(&["b", "d"]);
    insert_sorted(&mut list, "c".to_string());
    insert_sorted(&mut list, "a".to_string());
    insert_sorted(&mut list, "e".to_string());
    insert_sorted(&mut list, "c".to_string());
    assert_eq!(list, strings(&["a", "b", "c", "d", "e"]));
}

use nix_autobahn::candidates::{find_candidates, Candidate};
use nix_autobahn::error::Error;

#[test]
fn reads_one_candidate_per_line() {
    let listing = "glibc.out                0 s /nix/store/abc-glibc-2.30/lib/libm.so.6\n\
                   musl.out                 12 x /nix/store/def-musl-1.1/lib/libm.so.6\n";
    let found = find_candidates(listing).unwrap();
    assert_eq!(
        found,
        vec![
            Candidate { package: "glibc.out".to_string(), path: "/lib/libm.so.6".to_string() },
            Candidate { package: "musl.out".to_string(), path: "/lib/libm.so.6".to_string() },
        ]
    );
}

#[test]
fn a_line_with_three_slashes_is_malformed() {
    let listing = "good 0 s /nix/store/abc/lib/x.so\nbad 0 s /nix/store/abc\n";
    assert_eq!(
        find_candidates(listing),
        Err(Error::MalformedCandidate { line: "bad 0 s /nix/store/abc".to_string() })
    );
}

#[test]
fn an_empty_listing_names_no_candidate() {
    assert_eq!(find_candidates(""), Ok(Vec::new()));
}

#[test]
fn a_line_without_space_is_malformed() {
    assert_eq!(
        find_candidates("/a/b/c/d\n"),
        Err(Error::MalformedCandidate { line: "/a/b/c/d".to_string() })
    );
}

#[test]
fn an_empty_line_is_malformed() {
    assert_eq!(
        find_candidates("p 0 r /nix/store/h/lib/x\n\np 0 r /nix/store/h/lib/y\n"),
        Err(Error::MalformedCandidate { line: "".to_string() })
    );
}

#[test]
fn the_first_malformed_line_is_reported() {
    assert_eq!(
        find_candidates("ok 0 r /nix/store/h/x\nfirst bad\nsecond-bad\n"),
        Err(Error::MalformedCandidate { line: "first bad".to_string() })
    );
}

#[test]
fn slashes_are_counted_over_the_whole_line() {
    let found = find_candidates("a/b 0 r /nix/store/hash-name/lib/libx.so\n").unwrap();
    assert_eq!(found, vec![Candidate { package: "a/b".to_string(), path: "/hash-name/lib/libx.so".to_string() }]);
}

#[test]
fn the_path_may_hold_spaces_and_end_with_the_fourth_slash() {
    let found = find_candidates("pkg 0 r /nix/store/h/my lib/x y\nq 1 s /nix/store/h/").unwrap();
    assert_eq!(
        found,
        vec![
            Candidate { package: "pkg".to_string(), path: "/my lib/x y".to_string() },
            Candidate { package: "q".to_string(), path: "/".to_string() },
        ]
    );
}

#[test]
fn a_leading_space_gives_an_empty_package_name() {
    let found = find_candidates(" 0 r /nix/store/h/lib/x").unwrap();
    assert_eq!(found, vec![Candidate { package: "".to_string(), path: "/lib/x".to_string() }]);
}

#[test]
fn places_are_counted_in_characters() {
    let found = find_candidates("p\u{e9}kg 0 r /nix/st\u{f6}re/h\u{4e16}/lib/x\u{1f600}\r\n").unwrap();
    assert_eq!(
        found,
        vec![Candidate { package: "p\u{e9}kg".to_string(), path: "/lib/x\u{1f600}".to_string() }]
    );
}

use nix_bump_action::pins::{all_pins, bumps, skipped, skipped_pins, update, Bump, Pin};
use nix_bump_action::version::Version;
use std::collections::HashSet;

fn v(s: &str) -> Version {
    Version::parse(s).expect("test version should parse")
}

#[test]
fn all_pins_locates_versions() {
    let prefix = "github:nixos/nixpkgs/nixos-";
    let pin_at = |text: &str, ver: &str| -> Pin {
        let start = text.find(prefix).unwrap() + prefix.len();
        Pin {
            start,
            end: start + 5,
            version: v(ver),
        }
    };
    let basic = "\"github:nixos/nixpkgs/nixos-25.05\"";
    let suffixed = "\"github:nixos/nixpkgs/nixos-25.05-small\"";
    let single = "a = \"github:nixos/nixpkgs/nixos-24.05\";";
    let cases: Vec<(&str, HashSet<Pin>)> = vec![
        (basic, HashSet::from([pin_at(basic, "25.05")])),
        (suffixed, HashSet::from([pin_at(suffixed, "25.05")])),
        (single, HashSet::from([pin_at(single, "24.05")])),
        // A channel with no version is ignored.
        ("\"github:nixos/nixpkgs/nixos-unstable\"", HashSet::new()),
        // Matching is case-sensitive, so a capitalised owner is not a pin.
        ("\"github:NixOS/nixpkgs/nixos-26.11\"", HashSet::new()),
        ("nothing to see here", HashSet::new()),
    ];
    for (input, want) in cases {
        let found = all_pins(input, prefix);
        assert_eq!(found.len(), want.len(), "input {input:?}");
        assert_eq!(
            found.into_iter().collect::<HashSet<Pin>>(),
            want,
            "input {input:?}"
        );
    }
}

#[test]
fn bumps_only_stale_pins() {
    let target = v("26.05");
    let text = "- \"github:nixos/nixpkgs/nixos-20.09\"\n\
                 - \"github:nixos/nixpkgs/nixos-26.05\"\n\
                 - \"github:nixos/nixpkgs/nixos-99.11\"\n\
                 - \"github:nix-community/home-manager/release-25.11\"\n";
    let bumps = bumps(text, target);
    let mut from: Vec<Version> = bumps.iter().map(|b| b.from.version).collect();
    from.sort();
    assert_eq!(from, vec![v("20.09"), v("25.11")]);
    assert!(
        bumps
            .iter()
            .all(|b| b.to == target && b.from.end - b.from.start == 5),
        "bump targets and spans"
    );
}

#[test]
fn update_replaces_stale_but_keeps_others() {
    let target = v("26.05");
    let cases: [(&str, &str); 4] = [
        // Stale pins move; current, newer, suffixed and versionless
        // channels, mixed-case owners and non-pattern text are all left
        // alone.
        (
            "a = \"github:nixos/nixpkgs/nixos-20.09\"\n\
             b = \"github:nixos/nixpkgs/nixos-26.05\"\n\
             c = \"github:nixos/nixpkgs/nixos-99.11\"\n\
             d = \"github:nixos/nixpkgs/nixos-21.11-small\"\n\
             e = \"github:NixOS/nixpkgs/nixos-20.09\"\n\
             system.stateVersion = \"20.09\";",
            "a = \"github:nixos/nixpkgs/nixos-26.05\"\n\
             b = \"github:nixos/nixpkgs/nixos-26.05\"\n\
             c = \"github:nixos/nixpkgs/nixos-99.11\"\n\
             d = \"github:nixos/nixpkgs/nixos-26.05-small\"\n\
             e = \"github:NixOS/nixpkgs/nixos-20.09\"\n\
             system.stateVersion = \"20.09\";",
        ),
        // nixos-unstable is versionless, so it is skipped untouched.
        (
            "{ x = \"github:nixos/nixpkgs/nixos-unstable\"; }",
            "{ x = \"github:nixos/nixpkgs/nixos-unstable\"; }",
        ),
        // Several stale pins on one line all move.
        (
            "[ \"github:nixos/nixpkgs/nixos-24.05\" \"github:nixos/nixpkgs/nixos-25.11\" ]",
            "[ \"github:nixos/nixpkgs/nixos-26.05\" \"github:nixos/nixpkgs/nixos-26.05\" ]",
        ),
        // Nothing stale: the text comes back unchanged.
        (
            "a = \"github:nixos/nixpkgs/nixos-26.05\";",
            "a = \"github:nixos/nixpkgs/nixos-26.05\";",
        ),
    ];
    for (input, want) in cases {
        let out = update(input, bumps(input, target));
        assert_eq!(out, want, "input {input:?}");
    }
}

#[test]
fn small_suffix_pins_bump_with_suffix_kept() {
    // refs/heads/nixos-XX.YY-small exist upstream and read the same
    // version as the plain branch, so a small-profile pin moves with its
    // suffix preserved. Only the five version bytes change.
    let target = v("26.05");
    let stale = "a = \"github:nixos/nixpkgs/nixos-21.11-small\";";
    assert_eq!(
        update(stale, bumps(stale, target)),
        "a = \"github:nixos/nixpkgs/nixos-26.05-small\";"
    );
    // Already at the target: the suffix stays and nothing moves.
    let current = "a = \"github:nixos/nixpkgs/nixos-26.05-small\";";
    assert_eq!(update(current, bumps(current, target)), current);
}

#[test]
fn pins_come_in_order_of_appearance() {
    let prefix = "nixos-";
    let text = "nixos-25.05 nixos-unstable nixos-24.11 nixos-26.0";
    assert_eq!(
        all_pins(text, prefix),
        vec![
            Pin {
                start: 6,
                end: 11,
                version: v("25.05")
            },
            Pin {
                start: 33,
                end: 38,
                version: v("24.11")
            },
        ]
    );
}

#[test]
fn matches_of_a_prefix_do_not_overlap() {
    // Leftmost first: the match at 0 uses up "1.1", so the one at 2 is none.
    let found = all_pins("1.1.105.05", "1.1");
    assert_eq!(found, vec![]);
    let found = all_pins("--24.05", "--");
    assert_eq!(found.len(), 1);
    assert_eq!(found[0].start, 2);
}

#[test]
fn an_empty_prefix_matches_everywhere() {
    let found = all_pins("\u{e9}24.05.11", "");
    let starts: Vec<usize> = found.iter().map(|p| p.start).collect();
    assert_eq!(starts, vec![2, 5]);
    assert_eq!(found[0].version, v("24.05"));
    assert_eq!(found[1].version, v("05.11"));
    assert_eq!(all_pins("", "").len(), 0);
}

#[test]
fn a_pin_cut_short_is_none() {
    let prefix = "nixos-";
    for text in ["nixos-", "nixos-25.0", "nixos-25.0\u{e9}", "nixos-25.\u{20ac}5"] {
        assert!(all_pins(text, prefix).is_empty(), "input {text:?}");
    }
    assert_eq!(all_pins("nixos-25.05", prefix).len(), 1);
}

#[test]
fn prefixes_without_a_version_are_shown() {
    let piece = |s: &str| -> Option<String> { Some(s.to_string()) };
    let cases: Vec<(&str, Vec<Option<String>>)> = vec![
        ("nixos-unstable", vec![piece("unsta")]),
        ("nixos-25.05", vec![]),
        ("nixos-25.05-small", vec![]),
        (
            "nixos-25.5x nixos-24.11 nixos-nixos-",
            vec![piece("25.5x"), piece("nixos"), None],
        ),
        // The text ends too soon.
        ("nixos-", vec![None]),
        ("nixos-25.0", vec![None]),
        // Whole characters are shown, a cut one is not.
        ("nixos-25.\u{e9}5", vec![piece("25.\u{e9}")]),
        ("nixos-25.0\u{e9}", vec![None]),
        ("nothing to see here", vec![]),
        ("", vec![]),
    ];
    for (input, want) in cases {
        assert_eq!(skipped_pins(input, "nixos-"), want, "input {input:?}");
    }
    assert_eq!(
        format!("{:?}", skipped_pins("nixos-unstable", "nixos-")[0]),
        "Some(\"unsta\")"
    );
}

#[test]
fn an_empty_prefix_is_skipped_at_the_end_too() {
    assert_eq!(skipped_pins("", ""), vec![None]);
    assert_eq!(
        skipped_pins("a24.05", ""),
        vec![Some("a24.0".to_string()), None, None, None, None, None]
    );
}

#[test]
fn every_occurrence_is_a_pin_or_skipped() {
    for text in [
        "nixos-25.05 nixos-unstable nixos-24.11 nixos-26.0",
        "\u{20ac}nixos-nixos-20.09",
        "none",
        "",
    ] {
        for prefix in ["nixos-", "", "n", "no such prefix"] {
            assert_eq!(
                all_pins(text, prefix).len() + skipped_pins(text, prefix).len(),
                text.match_indices(prefix).count(),
                "input {text:?}, prefix {prefix:?}"
            );
        }
    }
}

#[test]
fn skipped_lists_nixpkgs_before_home_manager() {
    let text = "github:nix-community/home-manager/release-next1 \
                github:nixos/nixpkgs/nixos-20.09 \
                github:nixos/nixpkgs/nixos-unstable \
                github:NixOS/nixpkgs/nixos-unstable";
    assert_eq!(
        skipped(text),
        vec![Some("unsta".to_string()), Some("next1".to_string())]
    );
}

#[test]
fn text_around_pins_is_kept() {
    let text = "\u{20ac} github:nixos/nixpkgs/nixos-20.09\u{e9}\u{1f980}\r\n";
    assert_eq!(
        update(text, bumps(text, v("26.05"))),
        "\u{20ac} github:nixos/nixpkgs/nixos-26.05\u{e9}\u{1f980}\r\n"
    );
}

#[test]
fn bumping_twice_is_bumping_once() {
    let target = v("26.05");
    let text = "github:nixos/nixpkgs/nixos-20.09 \
                github:nix-community/home-manager/release-25.11 \
                github:nixos/nixpkgs/nixos-26.11";
    let once = update(text, bumps(text, target));
    assert!(bumps(&once, target).is_empty());
    assert_eq!(update(&once, bumps(&once, target)), once);
    assert_eq!(
        once,
        "github:nixos/nixpkgs/nixos-26.05 \
         github:nix-community/home-manager/release-26.05 \
         github:nixos/nixpkgs/nixos-26.11"
    );
    assert_eq!(once.len(), text.len());
}

#[test]
fn bumps_list_nixpkgs_before_home_manager() {
    let text = "github:nix-community/home-manager/release-25.11 github:nixos/nixpkgs/nixos-20.09";
    let found = bumps(text, v("26.05"));
    let from: Vec<Version> = found.iter().map(|b| b.from.version).collect();
    assert_eq!(from, vec![v("20.09"), v("25.11")]);
    assert!(found[0].from.start > found[1].from.start);
}

#[test]
fn the_order_of_bumps_does_not_matter() {
    let bump = |start: usize, end: usize, to: Version| -> Bump {
        Bump {
            from: Pin {
                start,
                end,
                version: v("00.00"),
            },
            to,
        }
    };
    let long = Version {
        year: 100,
        month: 5,
    };
    let a = bump(1, 6, long);
    let b = bump(8, 8, v("25.11"));
    let c = bump(10, 12, v("26.05"));
    let text = "[abcde] x[yz]";
    let want = "[100.05] 25.11x[26.05]";
    assert_eq!(update(text, vec![a, b, c]), want);
    assert_eq!(update(text, vec![c, b, a]), want);
    assert_eq!(update(text, vec![b, c, a]), want);
}

#[test]
fn an_empty_span_takes_an_insertion() {
    let bump = |at: usize| -> Bump {
        Bump {
            from: Pin {
                start: at,
                end: at,
                version: v("00.00"),
            },
            to: v("26.05"),
        }
    };
    assert_eq!(update("ab", vec![bump(0)]), "26.05ab");
    assert_eq!(update("ab", vec![bump(1)]), "a26.05b");
    assert_eq!(update("ab", vec![bump(2)]), "ab26.05");
    assert_eq!(update("", vec![bump(0)]), "26.05");
    assert_eq!(update("ab", vec![]), "ab");
}

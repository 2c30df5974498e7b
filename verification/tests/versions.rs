use nix_bump_action::version::{parse_version, Version};

fn v(s: &str) -> Version {
    Version::parse(s).expect("test version should parse")
}

#[test]
fn version_parse() {
    let cases = [
        ("25.05", Some(Version { year: 25, month: 5 })),
        (
            "26.11",
            Some(Version {
                year: 26,
                month: 11,
            }),
        ),
        ("00.00", Some(Version { year: 0, month: 0 })),
        ("25.05-small", None),
        ("2.05", None),
        ("25.5", None),
        ("25-05", None),
        ("aa.bb", None),
        ("", None),
        ("unstable", None),
    ];
    for (input, want) in cases {
        assert_eq!(Version::parse(input), want, "input {input:?}");
    }
}

#[test]
fn version_display() {
    let cases = [
        (Version { year: 25, month: 5 }, "25.05"),
        (
            Version {
                year: 26,
                month: 11,
            },
            "26.11",
        ),
        (Version { year: 7, month: 5 }, "07.05"),
    ];
    for (input, want) in cases {
        assert_eq!(input.to_string(), want);
    }
}

#[test]
fn version_ord() {
    let cases = [
        ("25.05", "25.11", true),
        ("25.11", "26.05", true),
        ("26.05", "26.05", false),
        ("26.11", "26.05", false),
        ("26.05", "25.11", false),
    ];
    for (a, b, want_lt) in cases {
        assert_eq!(v(a) < v(b), want_lt, "{a} < {b}");
    }
}

#[test]
fn parse_version_check_shapes() {
    assert_eq!(parse_version("25.05"), Ok(v("25.05")));
    assert_eq!(parse_version("26.11"), Ok(v("26.11")));
    for bad in ["2.05", "25.5", "25.05-small", "", "unstable"] {
        assert!(parse_version(bad).is_err(), "input {bad:?}");
    }
}

#[test]
fn parse_version_message_quotes_the_input() {
    assert_eq!(
        parse_version("25.5"),
        Err("'25.5' is not of the form XX.YY".to_string())
    );
    assert_eq!(
        parse_version(""),
        Err("'' is not of the form XX.YY".to_string())
    );
}

#[test]
fn version_parse_rejects_near_misses() {
    for bad in [
        "25.0a", "+5.05", "25.05 ", " 25.0", "2505.", "25,05", "\u{0662}5.05", "25.0\u{e9}",
    ] {
        assert_eq!(Version::parse(bad), None, "input {bad:?}");
    }
    assert_eq!(
        Version::parse("99.99"),
        Some(Version {
            year: 99,
            month: 99
        })
    );
}

#[test]
fn spelling_round_trips() {
    for year in 0..100u8 {
        for month in [0, 5, 9, 10, 11, 99] {
            let version = Version { year, month };
            let spelled = version.to_string();
            assert_eq!(spelled.len(), 5);
            assert_eq!(Version::parse(&spelled), Some(version));
        }
    }
}

#[test]
fn three_digit_numbers_are_spelled_whole() {
    assert_eq!(Version { year: 200, month: 5 }.to_string(), "200.05");
    assert_eq!(Version { year: 26, month: 255 }.to_string(), "26.255");
}

#[test]
fn derived_order_agrees_with_comparison() {
    let mut versions = vec![v("26.05"), v("25.11"), v("25.05"), v("00.99")];
    versions.sort();
    assert_eq!(
        versions,
        vec![v("00.99"), v("25.05"), v("25.11"), v("26.05")]
    );
    let mut spelled: Vec<String> = versions.iter().map(|v| v.to_string()).collect();
    let before = spelled.clone();
    spelled.sort();
    assert_eq!(spelled, before);
}

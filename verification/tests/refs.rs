use nix_bump_action::refs::{
    failure_message, latest_release, list_branches, ls_remote_args, newest_release, ref_names,
    versions_from_refs, GitRun,
};
use nix_bump_action::version::Version;
use std::collections::HashSet;

fn v(s: &str) -> Version {
    Version::parse(s).expect("test version should parse")
}

fn ended(success: bool, stdout: &[u8], stderr: &[u8]) -> GitRun {
    GitRun::Ended {
        success,
        stdout: stdout.to_vec(),
        stderr: stderr.to_vec(),
    }
}

#[test]
fn versions_from_refs_includes_suffixed_refs() {
    let cases: [(&[&str], &str, HashSet<Version>); 3] = [
        // refs/heads/nixos-25.05-small reads the same 25.05 as its plain
        // sibling, while a versionless branch like nixos-unstable is
        // skipped.
        (
            &[
                "refs/heads/nixos-25.05",
                "refs/heads/nixos-25.05-small",
                "refs/heads/nixos-26.05",
                "refs/heads/nixos-unstable",
            ],
            "nixos-",
            HashSet::from([v("25.05"), v("26.05")]),
        ),
        (
            &["refs/heads/release-24.11", "refs/heads/release-25.05"],
            "release-",
            HashSet::from([v("24.11"), v("25.05")]),
        ),
        (&[], "nixos-", HashSet::new()),
    ];
    for (refs, prefix, want) in cases {
        let found = versions_from_refs(refs, prefix);
        assert_eq!(found.len(), want.len(), "prefix {prefix}");
        assert_eq!(
            found.into_iter().collect::<HashSet<Version>>(),
            want,
            "prefix {prefix}"
        );
    }
}

#[test]
fn ref_names_extracts_refs_from_ls_remote_lines() {
    let out = "d6602ec5194c87b0fc87103ca4c6726cfaadf2e0\trefs/heads/release-24.11\n\
               d6602ec5194c87b0fc87103ca4c6726cfaadf2e0\trefs/heads/release-25.05\n";
    let names = ref_names(out);
    assert_eq!(names.len(), 2);
    assert_eq!(
        names.into_iter().collect::<HashSet<String>>(),
        HashSet::from([
            "refs/heads/release-24.11".to_string(),
            "refs/heads/release-25.05".to_string(),
        ])
    );
}

#[test]
fn versions_from_refs_are_ascending() {
    let refs = [
        "refs/heads/release-26.05",
        "refs/heads/release-24.11",
        "refs/heads/release-26.05-x",
        "refs/heads/release-25.05",
    ];
    assert_eq!(
        versions_from_refs(&refs, "release-"),
        vec![v("24.11"), v("25.05"), v("26.05")]
    );
}

#[test]
fn versions_from_refs_wants_the_whole_prefix() {
    let refs = [
        "refs/tags/release-26.05",
        "xrefs/heads/release-26.05",
        "refs/heads/release-",
        "refs/heads/release-26.0",
        "refs/heads/release-26.0\u{e9}",
        "refs/heads/nixos-26.05",
        "release-26.05",
    ];
    assert_eq!(versions_from_refs(&refs, "release-"), vec![]);
    assert_eq!(versions_from_refs(&["refs/heads/26.05"], ""), vec![v("26.05")]);
}

#[test]
fn ref_names_handles_odd_lines() {
    // no tab; an empty name; two tabs; a repeated name; CRLF; a carriage
    // return that ends no line; no final newline
    let out = "From origin\na\t\nb\tc\td\ne\td\nf\tg\r\nh\ti\rj\n\n\tk\r";
    assert_eq!(ref_names(out), vec!["d", "g", "i\rj", "k\r"]);
    assert!(ref_names("").is_empty());
    assert!(ref_names("\n\r\n").is_empty());
    assert_eq!(ref_names("x\t\u{20ac}\u{e9}\ny"), vec!["\u{20ac}\u{e9}"]);
}

#[test]
fn ls_remote_lists_matching_heads() {
    assert_eq!(
        ls_remote_args("nix-community/home-manager", "release-"),
        vec![
            "-c",
            "url.https://github.com/.insteadOf=https://github.com/",
            "ls-remote",
            "--heads",
            "https://github.com/nix-community/home-manager",
            "refs/heads/release-*",
        ]
    );
}

#[test]
fn list_branches_reads_what_git_wrote() {
    let run = ended(true, b"aa\trefs/heads/x\nbb\trefs/heads/y\n", b"warning: z\n");
    assert_eq!(
        list_branches("o/r", &run),
        Ok(vec!["refs/heads/x".to_string(), "refs/heads/y".to_string()])
    );
    // What is no UTF-8 is replaced, not fatal.
    let run = ended(true, b"aa\trefs/heads/\xff\n", b"");
    assert_eq!(
        list_branches("o/r", &run),
        Ok(vec!["refs/heads/\u{fffd}".to_string()])
    );
}

#[test]
fn list_branches_reports_why_git_failed() {
    assert_eq!(
        list_branches("o/r", &GitRun::NotStarted("no such file".to_string())),
        Err("could not run git: no such file".to_string())
    );
    assert_eq!(
        list_branches("o/r", &ended(false, b"aa\trefs/heads/x\n", b" \nfatal: nope\xc2\xa0\r\n")),
        Err("git ls-remote https://github.com/o/r failed: fatal: nope".to_string())
    );
}

#[test]
fn failure_message_trims_white_space_only() {
    assert_eq!(
        failure_message("o/r", "\u{2003}\tfatal: a  b\u{200b}\u{3000}\n"),
        "git ls-remote https://github.com/o/r failed: fatal: a  b\u{200b}"
    );
    assert_eq!(
        failure_message("o/r", " \n "),
        "git ls-remote https://github.com/o/r failed: "
    );
}

#[test]
fn latest_release_is_the_newest() {
    let run = ended(
        true,
        b"aa\trefs/heads/release-25.11\nbb\trefs/heads/release-26.05\ncc\trefs/heads/release-24.05\ndd\trefs/heads/release-next\n",
        b"",
    );
    assert_eq!(latest_release("o/r", "release-", &run), Ok(v("26.05")));
}

#[test]
fn latest_release_fails_without_releases() {
    let run = ended(true, b"aa\trefs/heads/master\n", b"");
    assert_eq!(
        latest_release("o/r", "release-", &run),
        Err("found no release-XX.YY branches in o/r".to_string())
    );
    assert_eq!(
        latest_release("o/r", "release-", &ended(false, b"", b"fatal: x\n")),
        Err("git ls-remote https://github.com/o/r failed: fatal: x".to_string())
    );
    assert_eq!(
        latest_release("o/r", "release-", &GitRun::NotStarted("gone".to_string())),
        Err("could not run git: gone".to_string())
    );
}

#[test]
fn newest_release_compares_years_first() {
    let names = vec![
        "refs/heads/nixos-25.11".to_string(),
        "refs/heads/nixos-26.05-small".to_string(),
    ];
    assert_eq!(newest_release("o/r", "nixos-", &names), Ok(v("26.05")));
    assert_eq!(
        newest_release("o/r", "nixos-", &vec![]),
        Err("found no nixos-XX.YY branches in o/r".to_string())
    );
}

use nix_bump_action::outputs::{emit, log_level, log_line, Level, Output};
use nix_bump_action::paths::SourceFile;
use nix_bump_action::run::{after_write, announce, nothing_to_bump, run, start, Start};
use nix_bump_action::version::Version;

fn v(s: &str) -> Version {
    Version::parse(s).expect("test version should parse")
}

fn file(path: &str, text: &str) -> SourceFile {
    SourceFile {
        path: path.as_bytes().to_vec(),
        shown: path.to_string(),
        text: text.to_string(),
    }
}

fn tree() -> Vec<SourceFile> {
    vec![
        file(
            "bumped.nix",
            "{ inputs = {\n    nixpkgs.url = \"github:nixos/nixpkgs/nixos-24.11\";\n    home-manager.url = \"github:nix-community/home-manager/release-24.11\";\n  };\n}",
        ),
        file(
            "sub/extra.nix",
            "{ inputs.nixpkgs.url = \"github:nixos/nixpkgs/nixos-20.09\"; }",
        ),
        file(
            "up-to-date.nix",
            "{ inputs.nixpkgs.url = \"github:nixos/nixpkgs/nixos-26.05\"; }",
        ),
    ]
}

fn rendered(outputs: &[Output]) -> String {
    outputs
        .iter()
        .map(|o| emit(&o.name, &o.value))
        .collect::<Vec<String>>()
        .concat()
}

#[test]
fn emit_writes_github_output_heredoc() {
    let mut written = emit("bumped", "true");
    written.push_str(&emit("files-changed", "a.nix\nb.nix"));
    assert_eq!(
        written,
        "bumped<<__NIX_BUMP_EOF__\ntrue\n__NIX_BUMP_EOF__\n\
         files-changed<<__NIX_BUMP_EOF__\na.nix\nb.nix\n__NIX_BUMP_EOF__\n"
    );
}

#[test]
fn emitted_values_read_back() {
    for value in ["", "one", "a\nb\n\nc", "__NIX_BUMP_EOF__x", "\n"] {
        let entry = emit("name", value);
        let rest = entry.strip_prefix("name<<__NIX_BUMP_EOF__\n").unwrap();
        let mut lines: Vec<&str> = Vec::new();
        for line in rest.split('\n') {
            if line == "__NIX_BUMP_EOF__" {
                break;
            }
            lines.push(line);
        }
        assert_eq!(lines.join("\n"), value);
    }
}

#[test]
fn run_bumps_pinned_target() {
    let files = tree();
    let scanned: Vec<Vec<u8>> = files.iter().map(|f| f.path.clone()).collect();
    let target = v("26.05");
    assert!(matches!(start(&scanned, Some(target)), Start::Pinned(t) if t == target));

    // Only the two files with stale pins are rewritten; the up-to-date file
    // is untouched and not reported.
    let plan = run(&files, target, false);
    assert_eq!(
        plan.changed,
        vec![b"bumped.nix".to_vec(), b"sub/extra.nix".to_vec()]
    );

    // Stale pins move to the target.
    assert_eq!(plan.writes.len(), 2);
    assert_eq!(
        plan.writes[0].text,
        "{ inputs = {\n    nixpkgs.url = \"github:nixos/nixpkgs/nixos-26.05\";\n    home-manager.url = \"github:nix-community/home-manager/release-26.05\";\n  };\n}"
    );
    assert_eq!(
        plan.writes[1].text,
        "{ inputs.nixpkgs.url = \"github:nixos/nixpkgs/nixos-26.05\"; }"
    );

    // The heredoc output reports the pinned target and the rewrite.
    let mut output = rendered(&announce(target));
    output.push_str(&rendered(&plan.summary));
    assert!(output.contains("target<<__NIX_BUMP_EOF__\n26.05\n__NIX_BUMP_EOF__"));
    assert!(output.contains("latest-home-manager<<__NIX_BUMP_EOF__\n26.05\n__NIX_BUMP_EOF__"));
    assert!(output.contains("bumped<<__NIX_BUMP_EOF__\ntrue\n__NIX_BUMP_EOF__"));
    assert!(output.contains("versions-bumped<<__NIX_BUMP_EOF__\n20.09,24.11\n__NIX_BUMP_EOF__"));
    assert!(output.contains(
        "files-changed<<__NIX_BUMP_EOF__\nbumped.nix\nsub/extra.nix\n__NIX_BUMP_EOF__"
    ));
}

#[test]
fn run_bumps_pinned_target_reports_noop_for_nixless_tree() {
    match start(&vec![], Some(v("26.05"))) {
        Start::NoFiles(outputs) => {
            let output = rendered(&outputs);
            assert!(output.contains("bumped<<__NIX_BUMP_EOF__\nfalse\n__NIX_BUMP_EOF__"));
            assert_eq!(output, rendered(&nothing_to_bump()));
        }
        other => panic!("unexpected start {other:?}"),
    }
}

#[test]
fn an_unpinned_target_is_looked_up() {
    assert!(matches!(
        start(&vec![b"a.nix".to_vec()], None),
        Start::LookUp
    ));
    assert!(matches!(start(&vec![], None), Start::NoFiles(_)));
}

#[test]
fn dry_run_reports_without_writing() {
    let plan = run(&tree(), v("26.05"), true);
    let full = run(&tree(), v("26.05"), false);
    assert!(plan.writes.is_empty());
    assert_eq!(plan.changed, full.changed);
    assert_eq!(plan.versions, full.versions);
    assert_eq!(rendered(&plan.summary), rendered(&full.summary));
}

#[test]
fn a_second_run_changes_nothing() {
    let mut files = tree();
    let plan = run(&files, v("26.05"), false);
    for write in plan.writes {
        for file in files.iter_mut() {
            if file.path == write.path {
                file.text = write.text.clone();
            }
        }
    }
    let again = run(&files, v("26.05"), false);
    assert!(again.writes.is_empty());
    assert!(again.changed.is_empty());
    assert!(again.versions.is_empty());
    assert_eq!(
        rendered(&again.summary),
        "bumped<<__NIX_BUMP_EOF__\nfalse\n__NIX_BUMP_EOF__\n\
         files-changed<<__NIX_BUMP_EOF__\n\n__NIX_BUMP_EOF__\n\
         versions-bumped<<__NIX_BUMP_EOF__\n\n__NIX_BUMP_EOF__\n"
    );
}

#[test]
fn a_failed_write_names_the_file() {
    let target = file("sub/a.nix", "");
    assert_eq!(after_write(&target, Ok(())), Ok(()));
    assert_eq!(
        after_write(&target, Err("read-only".to_string())),
        Err("could not write sub/a.nix: read-only".to_string())
    );
}

#[test]
fn log_lines_are_workflow_commands() {
    assert_eq!(log_line(Level::Error, "boom"), "::error::boom\n");
    assert_eq!(log_line(Level::Warn, "hm"), "::warning::hm\n");
    assert_eq!(log_line(Level::Info, "fyi"), "fyi\n");
    assert_eq!(log_line(Level::Debug, "x"), "::debug::x\n");
    assert_eq!(log_line(Level::Trace, "x"), "::debug::x\n");
}

#[test]
fn debug_logging_has_two_switches() {
    assert_eq!(log_level(false, false), Level::Info);
    assert_eq!(log_level(true, false), Level::Debug);
    assert_eq!(log_level(false, true), Level::Debug);
    assert_eq!(log_level(true, true), Level::Debug);
}

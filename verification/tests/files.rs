use nix_bump_action::paths::{
    load_files, nix_files, resolve_paths, Entry, FileRead, Found, Requested,
};

fn entry(path: &str, name: &str, is_file: bool) -> Option<Entry> {
    Some(Entry {
        path: path.as_bytes().to_vec(),
        name: name.as_bytes().to_vec(),
        is_file,
    })
}

fn root() -> Vec<Option<Entry>> {
    vec![
        entry("root", "root", false),
        entry("root/sub", "sub", false),
        entry("root/sub/b.nix", "b.nix", true),
        entry("root/sub/notnix.txt", "notnix.txt", true),
        None,
        entry("root/named.conf", "named.conf", true),
        entry("root/a.nix", "a.nix", true),
    ]
}

fn directory() -> Requested {
    Requested {
        path: b"root".to_vec(),
        shown: "root".to_string(),
        found: Found::Directory(root()),
    }
}

fn file(path: &str) -> Requested {
    Requested {
        path: path.as_bytes().to_vec(),
        shown: path.to_string(),
        found: Found::File,
    }
}

fn missing(path: &str) -> Requested {
    Requested {
        path: path.as_bytes().to_vec(),
        shown: path.to_string(),
        found: Found::Missing,
    }
}

fn bytes(paths: &[&str]) -> Vec<Vec<u8>> {
    paths.iter().map(|p| p.as_bytes().to_vec()).collect()
}

#[test]
fn resolve_paths_expands_dedups_and_sorts() {
    let cases: Vec<(Vec<Requested>, Vec<Vec<u8>>)> = vec![
        // A directory walks recursively and skips non-.nix.
        (vec![directory()], bytes(&["root/a.nix", "root/sub/b.nix"])),
        // A named file is honoured whatever its extension.
        (vec![file("root/named.conf")], bytes(&["root/named.conf"])),
        // A file already covered by a listed directory appears once.
        (
            vec![directory(), file("root/a.nix")],
            bytes(&["root/a.nix", "root/sub/b.nix"]),
        ),
        // Repeated paths collapse, and output is sorted.
        (
            vec![
                file("root/sub/b.nix"),
                file("root/a.nix"),
                file("root/a.nix"),
            ],
            bytes(&["root/a.nix", "root/sub/b.nix"]),
        ),
        (vec![], vec![]),
    ];
    for (input, want) in cases {
        assert_eq!(resolve_paths(&input), Ok(want), "input {input:?}");
    }
}

#[test]
fn resolve_paths_fails_on_the_first_missing_path() {
    let requests = vec![directory(), missing("typo"), file("x"), missing("other")];
    assert_eq!(
        resolve_paths(&requests),
        Err("path 'typo' does not exist".to_string())
    );
}

#[test]
fn resolve_paths_ignores_request_order() {
    let one = resolve_paths(&vec![file("b"), directory(), file("a"), file("ab")]);
    let other = resolve_paths(&vec![file("ab"), file("a"), file("b"), directory(), file("a")]);
    assert_eq!(one, other);
    assert_eq!(
        one,
        Ok(bytes(&["a", "ab", "b", "root/a.nix", "root/sub/b.nix"]))
    );
}

#[test]
fn nix_files_finds_only_nix_recursively() {
    let entries = vec![
        entry("root", "root", false),
        entry("root/a.nix", "a.nix", true),
        entry("root/sub", "sub", false),
        entry("root/sub/b.nix", "b.nix", true),
        entry("root/sub/c.txt", "c.txt", true),
        entry("root/sub/dir.nix", "dir.nix", false),
    ];
    assert_eq!(nix_files(&entries), bytes(&["root/a.nix", "root/sub/b.nix"]));
    // A file path is returned as-is.
    assert_eq!(
        nix_files(&vec![entry("root/a.nix", "a.nix", true)]),
        bytes(&["root/a.nix"])
    );
}

#[test]
fn the_extension_is_what_counts() {
    let counts = |name: &str| -> bool { nix_files(&vec![entry("p", name, true)]).len() == 1 };
    for name in ["a.nix", "..nix", ".a.nix", "a.b.nix", "\u{e9}.nix"] {
        assert!(counts(name), "name {name:?}");
    }
    for name in ["", ".nix", "nix", "anix", "a.NIX", "a.nix.bak", "a.nixx", "a.nix~"] {
        assert!(!counts(name), "name {name:?}");
    }
}

#[test]
fn load_files_reads_utf8_and_skips_others() {
    let read = |path: &str, text: Result<String, String>| -> FileRead {
        FileRead {
            path: path.as_bytes().to_vec(),
            shown: path.to_string(),
            text,
        }
    };
    let reads = vec![
        read("bad.nix", Err("stream did not contain valid UTF-8".to_string())),
        read("good.nix", Ok("hello\n".to_string())),
        read("missing.nix", Err("No such file or directory".to_string())),
        read("last.nix", Ok(String::new())),
    ];
    let files = load_files(&reads);
    assert_eq!(files.len(), 2);
    assert_eq!(files[0].path, b"good.nix".to_vec());
    assert_eq!(files[0].shown, "good.nix");
    assert_eq!(files[0].text, "hello\n");
    assert_eq!(files[1].shown, "last.nix");
    assert_eq!(files[1].text, "");
}

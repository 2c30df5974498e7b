# nix-bump-action

Bumps nixpkgs and home-manager release pins in `*.nix` files. It rewrites files
and nothing else; re-locking is left to `update-flake-lock`.

| Pattern | Becomes |
| --- | --- |
| `github:nixos/nixpkgs/nixos-XX.YY` | `nixos-<target>` |
| `github:nix-community/home-manager/release-XX.YY` | `release-<target>` |

Patterns are matched case-sensitively. What follows the version, such as
`-small`, is kept. A pin already at or past the target is left alone, so a run
is idempotent and never downgrades.

The target is the newest home-manager `release-XX.YY` branch, unless the caller
pins one.

## Layout

- `src/` is the library, verified with Verus.
  - `version.rs`: releases, their spelling and their order
  - `pins.rs`: finding pins, choosing the stale ones, rewriting them
  - `anchors.rs`: where pins stand, and that they never overlap
  - `laws.rs`: what holds of bumping a text as a whole
  - `refs.rs`: the releases that `git ls-remote` lists
  - `paths.rs`: which files are looked at
  - `outputs.rs`: step outputs and log lines
  - `run.rs`: the plan of a run, and what holds of it
  - `text.rs`: strings as UTF-8 bytes
- `app/` is the command: arguments, files, git and the logger.
- `tests/` holds the tests of the library.

//! Releases that a remote repository offers, read from `git ls-remote`.

use crate::anchors::lemma_contains_cons;
use crate::pins::{stands_at, VERSION_LEN};
use crate::text::{
    lemma_boundary_after_ascii, lemma_encode_injective, push_str, slice, CARRIAGE_RETURN, NEWLINE,
    TAB,
};
use crate::paths::lemma_contains_push;
use crate::version::{
    lemma_ordered_by_year_and_month, lemma_reads_two_numbers, lemma_spelled_parse, parse_at,
    parse_bytes, Version,
};
use vstd::prelude::*;
use vstd::string::*;
use vstd::utf8::*;

verus! {

/// Where a branch stands among the refs of a repository.
pub const HEADS: &'static str = "refs/heads/";

/// What came of running git.
#[derive(Debug)]
pub enum GitRun {
    /// It could not be started, and why.
    NotStarted(String),
    /// It ran to its end.
    Ended { success: bool, stdout: Vec<u8>, stderr: Vec<u8> },
}

/// The first newline of `text` from byte `from` on, or its end.
pub open spec fn line_break(text: Seq<u8>, from: int) -> int
    decreases text.len() - from,
{
    if from < 0 || from >= text.len() {
        text.len() as int
    } else if text[from] == NEWLINE {
        from
    } else {
        line_break(text, from + 1)
    }
}

/// Where the line that breaks at `brk` ends: a carriage return right in front
/// of the newline belongs to the line break.
pub open spec fn line_end(text: Seq<u8>, from: int, brk: int) -> int {
    if from < brk < text.len() && text[brk - 1] == CARRIAGE_RETURN {
        brk - 1
    } else {
        brk
    }
}

/// What stands behind the last tab of `text[from..to]`, if there is a tab.
pub open spec fn after_last_tab(text: Seq<u8>, from: int, to: int) -> Option<Seq<u8>>
    decreases to - from,
{
    if from >= to {
        None
    } else if text[to - 1] == TAB {
        Some(Seq::empty())
    } else {
        match after_last_tab(text, from, to - 1) {
            Some(name) => Some(name.push(text[to - 1])),
            None => None,
        }
    }
}

/// The ref names of the lines of `text` from byte `from` on, line by line.
pub open spec fn listed_refs(text: Seq<u8>, from: int) -> Seq<Seq<u8>>
    decreases text.len() - from,
{
    if from < 0 || from >= text.len() {
        Seq::empty()
    } else {
        let brk = line_break(text, from);
        let rest = if from <= brk < text.len() {
            listed_refs(text, brk + 1)
        } else {
            Seq::empty()
        };
        match after_last_tab(text, from, line_end(text, from, brk)) {
            Some(name) if name.len() > 0 => seq![name] + rest,
            _ => rest,
        }
    }
}

/// `items` without the ones that came up before.
pub open spec fn distinct(items: Seq<Seq<u8>>) -> Seq<Seq<u8>>
    decreases items.len(),
{
    if items.len() == 0 {
        Seq::empty()
    } else {
        let head = distinct(items.drop_last());
        if head.contains(items.last()) {
            head
        } else {
            head.push(items.last())
        }
    }
}

/// The bytes of each text.
pub open spec fn encoded(texts: Seq<String>) -> Seq<Seq<u8>> {
    texts.map_values(|s: String| encode_utf8(s@))
}

fn find_line_break(bytes: &[u8], from: usize) -> (r: usize)
    requires
        from <= bytes@.len(),
    ensures
        from <= r <= bytes@.len(),
        r == line_break(bytes@, from as int),
        r < bytes@.len() ==> bytes@[r as int] == NEWLINE,
{
    let mut i: usize = from;
    while i < bytes.len() && bytes[i] != NEWLINE
        invariant
            from <= i <= bytes@.len(),
            line_break(bytes@, i as int) == line_break(bytes@, from as int),
        decreases bytes@.len() - i,
    {
        i = i + 1;
    }
    i
}

/// Where what follows the last tab of `bytes[from..to]` begins.
fn find_after_tab(bytes: &[u8], from: usize, to: usize) -> (r: Option<usize>)
    requires
        from <= to <= bytes@.len(),
    ensures
        match r {
            Some(k) => from < k <= to && bytes@[k - 1] == TAB && after_last_tab(
                bytes@,
                from as int,
                to as int,
            ) == Some(bytes@.subrange(k as int, to as int)),
            None => after_last_tab(bytes@, from as int, to as int) is None,
        },
{
    let mut k: usize = to;
    while k > from && bytes[k - 1] != TAB
        invariant
            from <= k <= to <= bytes@.len(),
            match after_last_tab(bytes@, from as int, k as int) {
                Some(head) => after_last_tab(bytes@, from as int, to as int) == Some(
                    head + bytes@.subrange(k as int, to as int),
                ),
                None => after_last_tab(bytes@, from as int, to as int) is None,
            },
        decreases k,
    {
        proof {
            if let Some(head) = after_last_tab(bytes@, from as int, k - 1) {
                assert(head.push(bytes@[k - 1]) + bytes@.subrange(k as int, to as int) =~= head
                    + bytes@.subrange(k - 1, to as int));
            }
        }
        k = k - 1;
    }
    if k > from {
        assert(Seq::<u8>::empty() + bytes@.subrange(k as int, to as int) =~= bytes@.subrange(
            k as int,
            to as int,
        ));
        Some(k)
    } else {
        None
    }
}

/// Whether `name` is one of `names`.
fn holds(names: &Vec<String>, name: &String) -> (r: bool)
    ensures
        r == encoded(names@).contains(encode_utf8(name@)),
{
    let mut i: usize = 0;
    while i < names.len()
        invariant
            i <= names@.len(),
            forall|k: int| 0 <= k < i ==> encode_utf8((#[trigger] names@[k])@) != encode_utf8(name@),
        decreases names@.len() - i,
    {
        if names[i] == *name {
            assert(encoded(names@)[i as int] == encode_utf8(name@));
            return true;
        }
        proof {
            if encode_utf8(names@[i as int]@) == encode_utf8(name@) {
                lemma_encode_injective(names@[i as int]@, name@);
            }
        }
        i = i + 1;
    }
    proof {
        if encoded(names@).contains(encode_utf8(name@)) {
            let k = choose|k: int|
                0 <= k < encoded(names@).len() && encoded(names@)[k] == encode_utf8(name@);
            assert(encode_utf8(names@[k]@) == encode_utf8(name@));
        }
    }
    false
}

/// Ref names from `git ls-remote` stdout, whose lines are `<sha>\t<ref>`. Lines
/// without a tab are not refs and are skipped. A name that comes up again is
/// not repeated.
pub fn ref_names(stdout: &str) -> (r: Vec<String>)
    ensures
        encoded(r@) == distinct(listed_refs(encode_utf8(stdout@), 0)),
{
    let bytes = stdout.as_bytes();
    let ghost t = bytes@;
    let ghost all = listed_refs(t, 0);
    let ghost mut seen: Seq<Seq<u8>> = Seq::empty();
    let mut out: Vec<String> = Vec::new();
    let mut from: usize = 0;
    proof {
        encode_utf8_valid_utf8(stdout@);
        is_char_boundary_start_end_of_seq(t);
        assert(encoded(out@) =~= distinct(seen));
        assert(seen + listed_refs(t, 0) =~= all);
    }
    while from < bytes.len()
        invariant
            t == bytes@,
            t == encode_utf8(stdout@),
            valid_utf8(t),
            is_char_boundary(t, t.len() as int),
            from <= t.len(),
            seen + listed_refs(t, from as int) == all,
            encoded(out@) == distinct(seen),
        decreases t.len() - from,
    {
        let brk: usize = find_line_break(bytes, from);
        let end: usize = if from < brk && brk < bytes.len() && bytes[brk - 1] == CARRIAGE_RETURN {
            brk - 1
        } else {
            brk
        };
        proof {
            if end < t.len() {
                lemma_boundary_after_ascii(t, end as int);
            }
        }
        let ghost rest = if brk < t.len() {
            listed_refs(t, brk + 1)
        } else {
            Seq::empty()
        };
        let found: Option<usize> = find_after_tab(bytes, from, end);
        match found {
            Some(k) => {
                if k < end {
                    proof {
                        lemma_boundary_after_ascii(t, k - 1);
                    }
                    let name: String = slice(stdout, k, end).to_owned();
                    let ghost before = out@;
                    proof {
                        let grown = seen.push(encode_utf8(name@));
                        assert(grown.drop_last() =~= seen);
                        assert(grown + rest =~= seen + (seq![encode_utf8(name@)] + rest));
                        seen = grown;
                    }
                    if !holds(&out, &name) {
                        out.push(name);
                        assert(encoded(out@) =~= encoded(before).push(encode_utf8(name@)));
                    }
                }
            },
            None => {},
        }
        if brk < bytes.len() {
            from = brk + 1;
        } else {
            from = brk;
        }
    }
    assert(seen =~= all);
    out
}

/// Listed names keep every ref and repeat none.
pub proof fn lemma_distinct(items: Seq<Seq<u8>>)
    ensures
        distinct(items).no_duplicates(),
        forall|x: Seq<u8>| #[trigger] distinct(items).contains(x) <==> items.contains(x),
    decreases items.len(),
{
    if items.len() > 0 {
        let init = items.drop_last();
        let head = distinct(init);
        let all = distinct(items);
        lemma_distinct(init);
        assert(items =~= init.push(items.last()));
        assert forall|x: Seq<u8>| #[trigger] all.contains(x) <==> items.contains(x) by {
            lemma_contains_push(init, items.last(), x);
            lemma_contains_push(head, items.last(), x);
        }
    }
}

/// The release that the branch `name` is cut for, if it is a branch named
/// `prefix` and a release; what follows the release does not matter.
pub open spec fn branch_release(name: Seq<u8>, prefix: Seq<u8>) -> Option<Version> {
    let want = encode_utf8(HEADS@) + prefix;
    if name.len() >= want.len() + VERSION_LEN && name.subrange(0, want.len() as int) == want {
        parse_bytes(name.subrange(want.len() as int, want.len() + VERSION_LEN))
    } else {
        None
    }
}

/// One of `names` is a branch cut for `v`.
pub open spec fn released(names: Seq<Seq<u8>>, prefix: Seq<u8>, v: Version) -> bool {
    exists|i: int|
        0 <= i < names.len() && branch_release(#[trigger] names[i], prefix) == Some(v)
}

/// Each release stands behind all that are older.
pub open spec fn ascending(versions: Seq<Version>) -> bool {
    forall|i: int, j: int|
        0 <= i < j < versions.len() ==> (#[trigger] versions[i]).before(#[trigger] versions[j])
}

/// The bytes of each text.
pub open spec fn encoded_strs(texts: Seq<&str>) -> Seq<Seq<u8>> {
    texts.map_values(|s: &str| encode_utf8(s@))
}

/// Puts `v` in its place among `versions`, unless it is there already.
pub(crate) fn insert_version(versions: &mut Vec<Version>, v: Version)
    requires
        ascending(old(versions)@),
    ensures
        ascending(final(versions)@),
        forall|w: Version| #[trigger]
            final(versions)@.contains(w) <==> (old(versions)@.contains(w) || w == v),
{
    let ghost before = versions@;
    let mut i: usize = 0;
    while i < versions.len() && versions[i] < v
        invariant
            i <= versions@.len(),
            versions@ == before,
            ascending(before),
            forall|k: int| 0 <= k < i ==> (#[trigger] before[k]).before(v),
        decreases versions@.len() - i,
    {
        i = i + 1;
    }
    if i < versions.len() && versions[i] == v {
        assert(before[i as int] == v);
        return;
    }
    versions.insert(i, v);
    proof {
        let after = versions@;
        assert(after == before.insert(i as int, v));
        assert(after[i as int] == v);
        assert forall|a: int, b: int| 0 <= a < b < after.len() implies (#[trigger] after[a]).before(
            #[trigger] after[b],
        ) by {
            let x = if a < i {
                a
            } else {
                a - 1
            };
            let y = if b < i {
                b
            } else {
                b - 1
            };
            if a != i {
                assert(after[a] == before[x]);
            }
            if b != i {
                assert(after[b] == before[y]);
            }
            if a == i && y != i {
                assert(before[i as int].before(before[y]));
            }
        }
        assert forall|w: Version| #[trigger] after.contains(w) <==> (before.contains(w) || w
            == v) by {
            if after.contains(w) {
                let k = choose|k: int| 0 <= k < after.len() && after[k] == w;
                if k < i {
                    assert(before[k] == w);
                } else if k > i {
                    assert(before[k - 1] == w);
                }
            }
            if before.contains(w) {
                let k = choose|k: int| 0 <= k < before.len() && before[k] == w;
                if k < i {
                    assert(after[k] == w);
                } else {
                    assert(after[k + 1] == w);
                }
            }
        }
    }
}

/// The release that the branch `name` is cut for.
fn release_of(name: &str, want: &str) -> (r: Option<Version>)
    ensures
        forall|prefix: Seq<u8>|
            encode_utf8(want@) == encode_utf8(HEADS@) + prefix ==> r == #[trigger] branch_release(
                encode_utf8(name@),
                prefix,
            ),
{
    let bytes = name.as_bytes();
    let pat = want.as_bytes();
    if pat.len() <= bytes.len() && VERSION_LEN <= bytes.len() - pat.len() && stands_at(
        bytes,
        pat,
        0,
    ) {
        parse_at(bytes, pat.len(), pat.len() + VERSION_LEN)
    } else {
        None
    }
}

/// Versions among `refs/heads/<prefix><version>` ref names, ascending. A ref
/// with a suffix, such as `refs/heads/nixos-25.05-small`, reads the same
/// version as its plain sibling.
pub fn versions_from_refs(refs: &[&str], prefix: &str) -> (r: Vec<Version>)
    ensures
        ascending(r@),
        forall|v: Version| #[trigger]
            r@.contains(v) <==> released(encoded_strs(refs@), encode_utf8(prefix@), v),
{
    let mut want: String = String::new();
    push_str(&mut want, HEADS);
    push_str(&mut want, prefix);
    let ghost p = encode_utf8(prefix@);
    let ghost names = encoded_strs(refs@);
    let mut out: Vec<Version> = Vec::new();
    let mut i: usize = 0;
    assert(encode_utf8(want@) =~= encode_utf8(HEADS@) + p);
    while i < refs.len()
        invariant
            i <= refs@.len(),
            names == encoded_strs(refs@),
            encode_utf8(want@) == encode_utf8(HEADS@) + p,
            ascending(out@),
            forall|v: Version| #[trigger] out@.contains(v) <==> released(names.take(i as int), p, v),
        decreases refs@.len() - i,
    {
        let found: Option<Version> = release_of(refs[i], want.as_str());
        let ghost before = out@;
        assert(found == branch_release(names[i as int], p));
        if let Some(v) = found {
            insert_version(&mut out, v);
        }
        proof {
            let head = names.take(i as int);
            let next = names.take(i + 1);
            assert forall|v: Version| #[trigger] out@.contains(v) <==> released(next, p, v) by {
                assert(out@.contains(v) <==> (before.contains(v) || found == Some(v)));
                assert(before.contains(v) <==> released(head, p, v));
                if released(head, p, v) {
                    let k = choose|k: int|
                        0 <= k < head.len() && branch_release(#[trigger] head[k], p) == Some(v);
                    assert(next[k] == head[k]);
                }
                if found == Some(v) {
                    assert(next[i as int] == names[i as int]);
                }
                if released(next, p, v) {
                    let k = choose|k: int|
                        0 <= k < next.len() && branch_release(#[trigger] next[k], p) == Some(v);
                    if k < i {
                        assert(head[k] == next[k]);
                    }
                }
            }
        }
        i = i + 1;
    }
    assert(names.take(i as int) =~= names);
    out
}

/// A suffix behind the release, such as `-small`, changes nothing.
pub proof fn lemma_suffix_is_ignored(name: Seq<u8>, suffix: Seq<u8>, prefix: Seq<u8>)
    requires
        branch_release(name, prefix) is Some,
    ensures
        branch_release(name + suffix, prefix) == branch_release(name, prefix),
{
    let n = encode_utf8(HEADS@).len() + prefix.len();
    let long = name + suffix;
    assert(long.subrange(0, n as int) =~= name.subrange(0, n as int));
    assert(long.subrange(n as int, n + VERSION_LEN) =~= name.subrange(n as int, n + VERSION_LEN));
}

/// Every release that a branch is cut for can be spelled in a pin.
pub proof fn lemma_released_spellable(names: Seq<Seq<u8>>, prefix: Seq<u8>, v: Version)
    requires
        released(names, prefix, v),
    ensures
        v.spellable(),
{
    let i = choose|i: int|
        0 <= i < names.len() && branch_release(#[trigger] names[i], prefix) == Some(v);
    let n = encode_utf8(HEADS@).len() + prefix.len();
    lemma_spelled_parse(names[i].subrange(n as int, n + VERSION_LEN));
}

/// Ascending releases are told by what they hold.
pub proof fn lemma_ascending_unique(a: Seq<Version>, b: Seq<Version>)
    requires
        ascending(a),
        ascending(b),
        forall|v: Version| a.contains(v) <==> b.contains(v),
    ensures
        a == b,
    decreases a.len(),
{
    if a.len() == 0 {
        if b.len() > 0 {
            assert(b.contains(b[0]));
        }
        assert(a =~= b);
    } else {
        assert(a.contains(a.last()));
        assert(b.contains(a.last()));
        let m = a.len() - 1;
        let n = b.len() - 1;
        assert(b.contains(b[n]));
        assert(a.contains(b[n]));
        let k = choose|k: int| 0 <= k < b.len() && b[k] == a[m];
        let l = choose|l: int| 0 <= l < a.len() && a[l] == b[n];
        if k < n {
            assert(b[k].before(b[n]));
            if l < m {
                assert(a[l].before(a[m]));
            }
        }
        let x = a.drop_last();
        let y = b.drop_last();
        assert(a[m] == b[n]);
        assert forall|v: Version| x.contains(v) <==> y.contains(v) by {
            if x.contains(v) {
                let i = choose|i: int| 0 <= i < x.len() && x[i] == v;
                assert(a[i] == v && a[i].before(a[m]));
                assert(a.contains(v));
                let j = choose|j: int| 0 <= j < b.len() && b[j] == v;
                assert(y[j] == v);
            }
            if y.contains(v) {
                let i = choose|i: int| 0 <= i < y.len() && y[i] == v;
                assert(b[i] == v && b[i].before(b[n]));
                assert(b.contains(v));
                let j = choose|j: int| 0 <= j < a.len() && a[j] == v;
                assert(x[j] == v);
            }
        }
        lemma_ascending_unique(x, y);
        assert(a =~= x.push(a[m]));
        assert(b =~= y.push(b[n]));
    }
}

/// The address that the branches of `repo` are read from.
pub open spec fn repo_url(repo: Seq<char>) -> Seq<char> {
    "https://github.com/"@ + repo
}

fn url_of(repo: &str) -> (r: String)
    ensures
        r@ == repo_url(repo@),
{
    let mut url: String = String::new();
    push_str(&mut url, "https://github.com/");
    push_str(&mut url, repo);
    assert(url@ =~= repo_url(repo@));
    url
}

/// The arguments that make git list all branches of `repo` whose names begin
/// with `prefix`.
///
/// The identity insteadOf is deliberate. A caller with a global
/// `url.ssh://git@github.com.insteadOf = https://github.com` rewrite would
/// otherwise turn this into an SSH fetch and fail without keys. Git prefers
/// the longest matching insteadOf, and this one is longer by the slash.
pub fn ls_remote_args(repo: &str, prefix: &str) -> (r: Vec<String>)
    ensures
        r@.len() == 6,
        r@[0]@ == "-c"@,
        r@[1]@ == "url.https://github.com/.insteadOf=https://github.com/"@,
        r@[2]@ == "ls-remote"@,
        r@[3]@ == "--heads"@,
        r@[4]@ == repo_url(repo@),
        r@[5]@ == HEADS@ + prefix@ + "*"@,
        r@[4]@ == "https://github.com/"@ + repo@,
        r@[5]@ == "refs/heads/"@ + prefix@ + "*"@,
{
    let mut wanted: String = String::new();
    push_str(&mut wanted, HEADS);
    push_str(&mut wanted, prefix);
    push_str(&mut wanted, "*");
    assert(wanted@ =~= HEADS@ + prefix@ + "*"@);
    let mut args: Vec<String> = Vec::new();
    args.push("-c".to_owned());
    args.push("url.https://github.com/.insteadOf=https://github.com/".to_owned());
    args.push("ls-remote".to_owned());
    args.push("--heads".to_owned());
    args.push(url_of(repo));
    args.push(wanted);
    args
}

/// What `String::from_utf8_lossy` reads out of `bytes`.
pub uninterp spec fn lossy_text(bytes: Seq<u8>) -> Seq<char>;

/// `String::from_utf8_lossy`: the text that `bytes` encode, with a replacement
/// character for what is no UTF-8. Claimed of it are that it depends on the
/// bytes alone, that it reads valid UTF-8 as it stands, and that it replaces
/// something where the bytes are not valid; how it splits invalid bytes up is
/// left unsaid.
#[verifier::external_body]
fn lossy(bytes: &[u8]) -> (r: String)
    ensures
        r@ == lossy_text(bytes@),
        valid_utf8(bytes@) ==> encode_utf8(r@) == bytes@,
        !valid_utf8(bytes@) ==> r@.contains('\u{fffd}'),
{
    String::from_utf8_lossy(bytes).into_owned()
}

/// The text of what git wrote.
pub open spec fn read_text(bytes: Seq<u8>) -> Seq<char> {
    if valid_utf8(bytes) {
        decode_utf8(bytes)
    } else {
        lossy_text(bytes)
    }
}

fn read(bytes: &[u8]) -> (r: String)
    ensures
        r@ == read_text(bytes@),
        valid_utf8(bytes@) ==> encode_utf8(r@) == bytes@,
{
    let text: String = lossy(bytes);
    proof {
        encode_utf8_decode_utf8(text@);
    }
    text
}

/// A character with the Unicode property `White_Space`.
pub open spec fn white_space(c: char) -> bool {
    let n = c as int;
    ||| 0x09 <= n <= 0x0d
    ||| n == 0x20
    ||| n == 0x85
    ||| n == 0xa0
    ||| n == 0x1680
    ||| 0x2000 <= n <= 0x200a
    ||| n == 0x2028
    ||| n == 0x2029
    ||| n == 0x202f
    ||| n == 0x205f
    ||| n == 0x3000
}

/// `text` without the white space around it.
pub open spec fn trimmed(text: Seq<char>) -> Seq<char>
    decreases text.len(),
{
    if text.len() > 0 && white_space(text.first()) {
        trimmed(text.drop_first())
    } else if text.len() > 0 && white_space(text.last()) {
        trimmed(text.drop_last())
    } else {
        text
    }
}

/// `str::trim`: `text` without the white space in front of it and behind it,
/// where white space is what Unicode's `White_Space` property says.
#[verifier::external_body]
fn trim(text: &str) -> (r: &str)
    ensures
        r@ == trimmed(text@),
{
    text.trim()
}

/// The message for a `git ls-remote` on `repo` that failed with `stderr`.
pub open spec fn ls_remote_failure(repo: Seq<char>, stderr: Seq<char>) -> Seq<char> {
    "git ls-remote "@ + repo_url(repo) + " failed: "@ + trimmed(stderr)
}

/// What to report of a `git ls-remote` on `repo` that wrote `stderr` and failed.
pub fn failure_message(repo: &str, stderr: &str) -> (r: String)
    ensures
        r@ == ls_remote_failure(repo@, stderr@),
{
    let mut message: String = String::new();
    push_str(&mut message, "git ls-remote ");
    push_str(&mut message, url_of(repo).as_str());
    push_str(&mut message, " failed: ");
    push_str(&mut message, trim(stderr));
    assert(message@ =~= ls_remote_failure(repo@, stderr@));
    message
}

/// The ref names that a run of git with [`ls_remote_args`] listed, or why
/// there are none.
pub fn list_branches(repo: &str, run: &GitRun) -> (r: Result<Vec<String>, String>)
    ensures
        match *run {
            GitRun::NotStarted(reason) => r matches Err(message) && message@
                == "could not run git: "@ + reason@,
            GitRun::Ended { success, stdout, stderr } => if success {
                r matches Ok(names) && encoded(names@) == distinct(
                    listed_refs(encode_utf8(read_text(stdout@)), 0),
                )
            } else {
                r matches Err(message) && message@ == ls_remote_failure(
                    repo@,
                    read_text(stderr@),
                )
            },
        },
{
    match run {
        GitRun::NotStarted(reason) => {
            let mut message: String = String::new();
            push_str(&mut message, "could not run git: ");
            push_str(&mut message, reason.as_str());
            assert(message@ =~= "could not run git: "@ + reason@);
            Err(message)
        },
        GitRun::Ended { success, stdout, stderr } => {
            if *success {
                Ok(ref_names(read(stdout.as_slice()).as_str()))
            } else {
                Err(failure_message(repo, read(stderr.as_slice()).as_str()))
            }
        },
    }
}

/// `v` is released, and nothing later is.
pub open spec fn newest(names: Seq<Seq<u8>>, prefix: Seq<u8>, v: Version) -> bool {
    released(names, prefix, v) && forall|w: Version| #[trigger]
        released(names, prefix, w) ==> !v.before(w)
}

/// There is at most one newest release.
pub proof fn lemma_newest_unique(names: Seq<Seq<u8>>, prefix: Seq<u8>, v: Version, w: Version)
    requires
        newest(names, prefix, v),
        newest(names, prefix, w),
    ensures
        v == w,
{
    assert(!v.before(w) && !w.before(v));
}

/// The newest release among `names`, or the message that there is none.
pub fn newest_release(repo: &str, prefix: &str, names: &Vec<String>) -> (r: Result<
    Version,
    String,
>)
    ensures
        match r {
            Ok(v) => newest(encoded(names@), encode_utf8(prefix@), v),
            Err(message) => (forall|v: Version|
                !#[trigger] released(encoded(names@), encode_utf8(prefix@), v)) && message@
                == "found no "@ + prefix@ + "XX.YY branches in "@ + repo@,
        },
{
    let ghost all = encoded(names@);
    let mut refs: Vec<&str> = Vec::new();
    let mut i: usize = 0;
    while i < names.len()
        invariant
            i <= names@.len(),
            refs@.len() == i,
            forall|k: int| 0 <= k < i ==> (#[trigger] refs@[k])@ == names@[k]@,
        decreases names@.len() - i,
    {
        refs.push(names[i].as_str());
        i = i + 1;
    }
    assert(encoded_strs(refs@) =~= all);
    let mut versions: Vec<Version> = versions_from_refs(refs.as_slice(), prefix);
    let ghost found = versions@;
    let last: Option<Version> = versions.pop();
    match last {
        Some(v) => {
            proof {
                let n = found.len() - 1;
                assert(found[n] == v);
                assert(found.contains(v));
                assert forall|w: Version| #[trigger]
                    released(all, encode_utf8(prefix@), w) implies !v.before(w) by {
                    assert(found.contains(w));
                    let k = choose|k: int| 0 <= k < found.len() && found[k] == w;
                    if k < n {
                        assert(found[k].before(found[n]));
                    }
                }
            }
            Ok(v)
        },
        None => {
            proof {
                assert forall|v: Version| !#[trigger] released(all, encode_utf8(prefix@), v) by {
                    assert(!found.contains(v));
                }
            }
            let mut message: String = String::new();
            push_str(&mut message, "found no ");
            push_str(&mut message, prefix);
            push_str(&mut message, "XX.YY branches in ");
            push_str(&mut message, repo);
            assert(message@ =~= "found no "@ + prefix@ + "XX.YY branches in "@ + repo@);
            Err(message)
        },
    }
}

/// The latest release of `repo`, from a run of git with [`ls_remote_args`].
pub fn latest_release(repo: &str, prefix: &str, run: &GitRun) -> (r: Result<Version, String>)
    ensures
        match *run {
            GitRun::NotStarted(reason) => r matches Err(message) && message@
                == "could not run git: "@ + reason@,
            GitRun::Ended { success, stdout, stderr } => if success {
                let names = distinct(listed_refs(encode_utf8(read_text(stdout@)), 0));
                match r {
                    Ok(v) => newest(names, encode_utf8(prefix@), v),
                    Err(message) => (forall|v: Version|
                        !#[trigger] released(names, encode_utf8(prefix@), v)) && message@
                        == "found no "@ + prefix@ + "XX.YY branches in "@ + repo@,
                }
            } else {
                r matches Err(message) && message@ == ls_remote_failure(
                    repo@,
                    read_text(stderr@),
                )
            },
        },
{
    match list_branches(repo, run) {
        Ok(names) => newest_release(repo, prefix, &names),
        Err(message) => Err(message),
    }
}

/// The line `text[a..z]` ends in a tab at byte `t` and then `name`.
spec fn line_names(text: Seq<u8>, a: int, z: int, t: int, name: Seq<u8>) -> bool {
    let e = line_end(text, a, z);
    &&& 0 <= a <= t < e <= z <= text.len()
    &&& a == 0 || text[a - 1] == NEWLINE
    &&& z == text.len() || text[z] == NEWLINE
    &&& forall|i: int| a <= i < z ==> #[trigger] text[i] != NEWLINE
    &&& text[t] == TAB
    &&& forall|i: int| t < i < e ==> #[trigger] text[i] != TAB
    &&& name == text.subrange(t + 1, e)
}

proof fn lemma_line_break(text: Seq<u8>, from: int)
    requires
        0 <= from <= text.len(),
    ensures
        from <= line_break(text, from) <= text.len(),
        line_break(text, from) < text.len() ==> text[line_break(text, from)] == NEWLINE,
        forall|i: int| from <= i < line_break(text, from) ==> #[trigger] text[i] != NEWLINE,
    decreases text.len() - from,
{
    if from < text.len() && text[from] != NEWLINE {
        lemma_line_break(text, from + 1);
    }
}

proof fn lemma_last_tab(text: Seq<u8>, from: int, to: int) -> (t: int)
    requires
        0 <= from <= to <= text.len(),
    ensures
        match after_last_tab(text, from, to) {
            Some(name) => from <= t < to && text[t] == TAB && (forall|i: int|
                t < i < to ==> #[trigger] text[i] != TAB) && name == text.subrange(t + 1, to),
            None => forall|i: int| from <= i < to ==> #[trigger] text[i] != TAB,
        },
    decreases to - from,
{
    if from >= to {
        from
    } else if text[to - 1] == TAB {
        assert(text.subrange(to, to) =~= Seq::<u8>::empty());
        to - 1
    } else {
        let t = lemma_last_tab(text, from, to - 1);
        if after_last_tab(text, from, to - 1) is Some {
            assert(text.subrange(t + 1, to - 1).push(text[to - 1]) =~= text.subrange(t + 1, to));
        }
        t
    }
}

/// The names listed from a line on are those that it and later lines end in.
proof fn lemma_listed_from(text: Seq<u8>, from: int, name: Seq<u8>)
    requires
        0 <= from,
        from == 0 || (from <= text.len() && text[from - 1] == NEWLINE),
    ensures
        listed_refs(text, from).contains(name) <==> (name.len() > 0 && exists|
            a: int,
            z: int,
            t: int,
        |
            from <= a && #[trigger] line_names(text, a, z, t, name)),
    decreases text.len() - from,
{
    let all = listed_refs(text, from);
    if from >= text.len() {
        assert(!all.contains(name));
    } else {
        lemma_line_break(text, from);
        let brk = line_break(text, from);
        let e = line_end(text, from, brk);
        let rest = if brk < text.len() {
            listed_refs(text, brk + 1)
        } else {
            Seq::empty()
        };
        let t0 = lemma_last_tab(text, from, e);
        if brk < text.len() {
            lemma_listed_from(text, brk + 1, name);
        }
        let here = after_last_tab(text, from, e);
        if let Some(first) = here {
            lemma_contains_cons(first, rest, name);
            assert(line_names(text, from, brk, t0, first));
        }
        if name.len() > 0 && exists|a: int, z: int, t: int|
            from <= a && #[trigger] line_names(text, a, z, t, name) {
            let (a, z, t) = choose|a: int, z: int, t: int|
                from <= a && #[trigger] line_names(text, a, z, t, name);
            if a == from {
                if z < brk {
                    assert(text[z] == NEWLINE);
                }
                if brk < z {
                    assert(text[brk] == NEWLINE);
                }
                assert(z == brk);
                assert(text[t] == TAB);
                assert(here is Some);
                if t < t0 {
                    assert(text[t0] == TAB);
                }
                assert(t == t0);
            } else {
                assert(text[a - 1] == NEWLINE);
                assert(a > brk);
                assert(brk + 1 <= a && line_names(text, a, z, t, name));
            }
        }
    }
}

/// What the listing comes to: the names are exactly the non-empty ones that
/// stand behind the last tab of some line, each once. A line is a stretch
/// between newlines or the ends of the text, and a carriage return right in
/// front of its newline does not count.
pub proof fn lemma_names_are_what_lines_end_in(
    text: Seq<u8>,
    names: Seq<String>,
    name: Seq<u8>,
)
    requires
        encoded(names) == distinct(listed_refs(text, 0)),
    ensures
        (exists|k: int| 0 <= k < names.len() && encode_utf8((#[trigger] names[k])@) == name) <==> (
        name.len() > 0 && exists|a: int, z: int, t: int|
            #![trigger text.subrange(a, z), text[t]]
            {
                let e = if z < text.len() && text[z - 1] == 0x0d {
                    z - 1
                } else {
                    z
                };
                &&& 0 <= a <= t < e <= z <= text.len()
                &&& a == 0 || text[a - 1] == 0x0a
                &&& z == text.len() || text[z] == 0x0a
                &&& !text.subrange(a, z).contains(0x0a)
                &&& text[t] == 0x09
                &&& !text.subrange(t + 1, e).contains(0x09)
                &&& name == text.subrange(t + 1, e)
            }),
        forall|j: int, k: int|
            0 <= j < k < names.len() ==> (#[trigger] names[j])@ != (#[trigger] names[k])@,
{
    let all = listed_refs(text, 0);
    lemma_distinct(all);
    lemma_listed_from(text, 0, name);
    assert(encoded(names).len() == names.len());
    assert forall|k: int| 0 <= k < names.len() implies encoded(names)[k] == encode_utf8(
        (#[trigger] names[k])@,
    ) by {}
    if exists|k: int| 0 <= k < names.len() && encode_utf8((#[trigger] names[k])@) == name {
        let k = choose|k: int| 0 <= k < names.len() && encode_utf8((#[trigger] names[k])@) == name;
        assert(encoded(names)[k] == name);
        assert(distinct(all).contains(name));
        let (a, z, t) = choose|a: int, z: int, t: int|
            0 <= a && #[trigger] line_names(text, a, z, t, name);
        let e = line_end(text, a, z);
        let line = text.subrange(a, z);
        assert(line_names(text, a, z, t, name));
        assert(!line.contains(0x0a)) by {
            if line.contains(0x0a) {
                let i = choose|i: int| 0 <= i < line.len() && line[i] == 0x0a;
                assert(text[a + i] == 0x0a);
            }
        }
        let tail = text.subrange(t + 1, e);
        assert(!tail.contains(0x09)) by {
            if tail.contains(0x09) {
                let i = choose|i: int| 0 <= i < tail.len() && tail[i] == 0x09;
                assert(text[t + 1 + i] == 0x09);
            }
        }
        assert(text[t] == 0x09);
    }
    if name.len() > 0 && exists|a: int, z: int, t: int|
        #![trigger text.subrange(a, z), text[t]]
        {
            let e = if z < text.len() && text[z - 1] == 0x0d {
                z - 1
            } else {
                z
            };
            &&& 0 <= a <= t < e <= z <= text.len()
            &&& a == 0 || text[a - 1] == 0x0a
            &&& z == text.len() || text[z] == 0x0a
            &&& !text.subrange(a, z).contains(0x0a)
            &&& text[t] == 0x09
            &&& !text.subrange(t + 1, e).contains(0x09)
            &&& name == text.subrange(t + 1, e)
        } {
        let (a, z, t) = choose|a: int, z: int, t: int|
            #![trigger text.subrange(a, z), text[t]]
            {
                let e = if z < text.len() && text[z - 1] == 0x0d {
                    z - 1
                } else {
                    z
                };
                &&& 0 <= a <= t < e <= z <= text.len()
                &&& a == 0 || text[a - 1] == 0x0a
                &&& z == text.len() || text[z] == 0x0a
                &&& !text.subrange(a, z).contains(0x0a)
                &&& text[t] == 0x09
                &&& !text.subrange(t + 1, e).contains(0x09)
                &&& name == text.subrange(t + 1, e)
            };
        lemma_line_by_positions(text, a, z, t, name);
        assert(0 <= a && line_names(text, a, z, t, name));
        assert(distinct(all).contains(name));
        let k = choose|k: int| 0 <= k < encoded(names).len() && encoded(names)[k] == name;
        assert(encode_utf8(names[k]@) == name);
    }
    assert forall|j: int, k: int| 0 <= j < k < names.len() implies (#[trigger] names[j])@ != (
    #[trigger] names[k])@ by {
        assert(encoded(names)[j] != encoded(names)[k]);
    }
}

proof fn lemma_line_by_positions(text: Seq<u8>, a: int, z: int, t: int, name: Seq<u8>)
    requires
        ({
            let e = if z < text.len() && text[z - 1] == 0x0d {
                z - 1
            } else {
                z
            };
            &&& 0 <= a <= t < e <= z <= text.len()
            &&& a == 0 || text[a - 1] == 0x0a
            &&& z == text.len() || text[z] == 0x0a
            &&& !text.subrange(a, z).contains(0x0a)
            &&& text[t] == 0x09
            &&& !text.subrange(t + 1, e).contains(0x09)
            &&& name == text.subrange(t + 1, e)
        }),
    ensures
        line_names(text, a, z, t, name),
{
    let e = line_end(text, a, z);
    let line = text.subrange(a, z);
    let tail = text.subrange(t + 1, e);
    assert forall|i: int| a <= i < z implies #[trigger] text[i] != NEWLINE by {
        assert(line[i - a] == text[i]);
    }
    assert forall|i: int| t < i < e implies #[trigger] text[i] != TAB by {
        assert(tail[i - t - 1] == text[i]);
    }
}

/// What a branch must be named to stand for a release, byte by byte: heads,
/// the prefix, and `dd.dd`; what follows does not matter.
pub proof fn lemma_branch_spells_its_release(name: Seq<u8>, prefix: Seq<u8>, v: Version)
    ensures
        branch_release(name, prefix) == Some(v) <==> {
            let want = encode_utf8("refs/heads/"@) + prefix;
            let n = want.len() as int;
            &&& n + 5 <= name.len()
            &&& name.subrange(0, n) == want
            &&& 0x30 <= name[n] <= 0x39 && 0x30 <= name[n + 1] <= 0x39
            &&& name[n + 2] == 0x2e
            &&& 0x30 <= name[n + 3] <= 0x39 && 0x30 <= name[n + 4] <= 0x39
            &&& v.year == 10 * (name[n] - 0x30) + (name[n + 1] - 0x30)
            &&& v.month == 10 * (name[n + 3] - 0x30) + (name[n + 4] - 0x30)
        },
{
    let n = (encode_utf8(HEADS@) + prefix).len() as int;
    if n + 5 <= name.len() {
        let b = name.subrange(n, n + 5);
        assert(b[0] == name[n] && b[1] == name[n + 1] && b[2] == name[n + 2] && b[3] == name[n + 3]
            && b[4] == name[n + 4]);
        lemma_reads_two_numbers(b, v);
    }
}

/// The versions are exactly those that some ref spells, in strict order of
/// time: a ref counts whatever the others are.
pub proof fn lemma_versions_are_what_refs_spell(
    refs: Seq<&str>,
    prefix: Seq<u8>,
    versions: Seq<Version>,
    v: Version,
)
    requires
        ascending(versions),
        forall|w: Version| #[trigger]
            versions.contains(w) <==> released(encoded_strs(refs), prefix, w),
    ensures
        versions.contains(v) <==> exists|i: int|
            0 <= i < refs.len() && branch_release(encode_utf8((#[trigger] refs[i])@), prefix)
                == Some(v),
        forall|i: int, j: int|
            0 <= i < j < versions.len() ==> 256 * (#[trigger] versions[i]).year + versions[i].month
                < 256 * (#[trigger] versions[j]).year + versions[j].month,
{
    let names = encoded_strs(refs);
    assert(names.len() == refs.len());
    assert forall|i: int| 0 <= i < refs.len() implies names[i] == encode_utf8(
        (#[trigger] refs[i])@,
    ) by {}
    assert(versions.contains(v) <==> released(names, prefix, v));
    if released(names, prefix, v) {
        let i = choose|i: int|
            0 <= i < names.len() && branch_release(#[trigger] names[i], prefix) == Some(v);
        assert(names[i] == encode_utf8(refs[i]@));
    }
    if exists|i: int|
        0 <= i < refs.len() && branch_release(encode_utf8((#[trigger] refs[i])@), prefix) == Some(
            v,
        ) {
        let i = choose|i: int|
            0 <= i < refs.len() && branch_release(encode_utf8((#[trigger] refs[i])@), prefix)
                == Some(v);
        assert(branch_release(names[i], prefix) == Some(v));
    }
    assert forall|i: int, j: int| 0 <= i < j < versions.len() implies 256 * (
    #[trigger] versions[i]).year + versions[i].month < 256 * (#[trigger] versions[j]).year
        + versions[j].month by {
        assert(versions[i].before(versions[j]));
        lemma_ordered_by_year_and_month(versions[i], versions[j]);
    }
}

/// The release picked among names is that of one of them, and no other name
/// is a branch for a later one; where none is picked, no name is a branch.
pub proof fn lemma_picked_release_is_the_last(
    names: Seq<String>,
    prefix: Seq<u8>,
    picked: Option<Version>,
)
    requires
        match picked {
            Some(v) => newest(encoded(names), prefix, v),
            None => forall|v: Version| !#[trigger] released(encoded(names), prefix, v),
        },
    ensures
        picked matches Some(v) ==> exists|i: int|
            0 <= i < names.len() && branch_release(encode_utf8((#[trigger] names[i])@), prefix)
                == Some(v),
        forall|i: int|
            0 <= i < names.len() ==> match branch_release(
                encode_utf8((#[trigger] names[i])@),
                prefix,
            ) {
                Some(w) => picked matches Some(v) && 256 * w.year + w.month <= 256 * v.year
                    + v.month,
                None => true,
            },
{
    let all = encoded(names);
    assert(all.len() == names.len());
    assert forall|i: int| 0 <= i < names.len() implies all[i] == encode_utf8(
        (#[trigger] names[i])@,
    ) by {}
    if let Some(v) = picked {
        assert(released(all, prefix, v));
        let i = choose|i: int|
            0 <= i < all.len() && branch_release(#[trigger] all[i], prefix) == Some(v);
        assert(all[i] == encode_utf8(names[i]@));
    }
    assert forall|i: int| 0 <= i < names.len() implies match branch_release(
        encode_utf8((#[trigger] names[i])@),
        prefix,
    ) {
        Some(w) => picked matches Some(v) && 256 * w.year + w.month <= 256 * v.year + v.month,
        None => true,
    } by {
        if let Some(w) = branch_release(all[i], prefix) {
            assert(released(all, prefix, w));
            if let Some(v) = picked {
                lemma_ordered_by_year_and_month(v, w);
            }
        }
    }
}

/// The target is the newest release that any line of git's listing names:
/// whatever branch stands behind the last tab of a line, wherever in the
/// listing that line is, the picked release is no older.
pub proof fn lemma_no_line_names_a_later_release(
    stdout: Seq<u8>,
    prefix: Seq<u8>,
    picked: Option<Version>,
    a: int,
    z: int,
    t: int,
)
    requires
        valid_utf8(stdout),
        ({
            let names = distinct(listed_refs(encode_utf8(read_text(stdout)), 0));
            match picked {
                Some(v) => newest(names, prefix, v),
                None => forall|v: Version| !#[trigger] released(names, prefix, v),
            }
        }),
        0 <= a <= t < z <= stdout.len(),
        a == 0 || stdout[a - 1] == 0x0a,
        z == stdout.len() || stdout[z] == 0x0a,
        !stdout.subrange(a, z).contains(0x0a),
        stdout[t] == 0x09,
        !stdout.subrange(t + 1, z).contains(0x09),
    ensures
        ({
            let e = if z < stdout.len() && stdout[z - 1] == 0x0d {
                z - 1
            } else {
                z
            };
            match branch_release(stdout.subrange(t + 1, e), prefix) {
                Some(w) => picked matches Some(v) && 256 * w.year + w.month <= 256 * v.year
                    + v.month,
                None => true,
            }
        }),
{
    let e = if z < stdout.len() && stdout[z - 1] == 0x0d {
        z - 1
    } else {
        z
    };
    let name = stdout.subrange(t + 1, e);
    let all = listed_refs(stdout, 0);
    lemma_text_is_read_as_it_stands(stdout);
    if let Some(w) = branch_release(name, prefix) {
        assert(t < e);
        let line = stdout.subrange(t + 1, z);
        assert(!name.contains(0x09)) by {
            if name.contains(0x09) {
                let i = choose|i: int| 0 <= i < name.len() && name[i] == 0x09;
                assert(line[i] == 0x09);
            }
        }
        lemma_line_by_positions(stdout, a, z, t, name);
        lemma_listed_from(stdout, 0, name);
        assert(0 <= a && line_names(stdout, a, z, t, name));
        lemma_distinct(all);
        let names = distinct(all);
        assert(names.contains(name));
        let i = choose|i: int| 0 <= i < names.len() && names[i] == name;
        assert(branch_release(names[i], prefix) == Some(w));
        assert(released(names, prefix, w));
        if let Some(v) = picked {
            lemma_ordered_by_year_and_month(v, w);
        }
    }
}

/// The picked release is one that a line of git's listing names.
pub proof fn lemma_a_line_names_the_picked_release(
    stdout: Seq<u8>,
    prefix: Seq<u8>,
    v: Version,
) -> (r: (int, int, int))
    requires
        valid_utf8(stdout),
        newest(distinct(listed_refs(encode_utf8(read_text(stdout)), 0)), prefix, v),
    ensures
        ({
            let (a, z, t) = r;
            let e = if z < stdout.len() && stdout[z - 1] == 0x0d {
                z - 1
            } else {
                z
            };
            &&& 0 <= a <= t < e <= z <= stdout.len()
            &&& a == 0 || stdout[a - 1] == 0x0a
            &&& z == stdout.len() || stdout[z] == 0x0a
            &&& forall|i: int| a <= i < z ==> #[trigger] stdout[i] != 0x0a
            &&& stdout[t] == 0x09
            &&& forall|i: int| t < i < e ==> #[trigger] stdout[i] != 0x09
            &&& branch_release(stdout.subrange(t + 1, e), prefix) == Some(v)
        }),
{
    lemma_text_is_read_as_it_stands(stdout);
    let all = listed_refs(stdout, 0);
    let names = distinct(all);
    assert(released(names, prefix, v));
    let i = choose|i: int|
        0 <= i < names.len() && branch_release(#[trigger] names[i], prefix) == Some(v);
    lemma_distinct(all);
    assert(names.contains(names[i]));
    lemma_listed_from(stdout, 0, names[i]);
    choose|a: int, z: int, t: int| 0 <= a && #[trigger] line_names(stdout, a, z, t, names[i])
}

/// What git wrote is read as it stands where it is UTF-8, and else as
/// `String::from_utf8_lossy` reads it.
pub proof fn lemma_text_is_read_as_it_stands(bytes: Seq<u8>)
    ensures
        valid_utf8(bytes) ==> encode_utf8(read_text(bytes)) == bytes,
        !valid_utf8(bytes) ==> read_text(bytes) == lossy_text(bytes),
{
    if valid_utf8(bytes) {
        decode_utf8_encode_utf8(bytes);
    }
}

/// White space, character by character.
pub proof fn lemma_white_space_listed(c: char)
    ensures
        white_space(c) <==> set![
            0x09int, 0x0a, 0x0b, 0x0c, 0x0d, 0x20, 0x85, 0xa0, 0x1680, 0x2000, 0x2001, 0x2002,
            0x2003, 0x2004, 0x2005, 0x2006, 0x2007, 0x2008, 0x2009, 0x200a, 0x2028, 0x2029, 0x202f,
            0x205f, 0x3000,
        ].contains(c as int),
{
}

/// Trimming takes white space off both ends, all of it, and nothing else.
pub proof fn lemma_trimmed_is_the_middle(text: Seq<char>) -> (r: (int, int))
    ensures
        0 <= r.0 <= r.1 <= text.len(),
        trimmed(text) == text.subrange(r.0, r.1),
        forall|i: int| 0 <= i < r.0 || r.1 <= i < text.len() ==> white_space(#[trigger] text[i]),
        r.0 < r.1 ==> !white_space(text[r.0]) && !white_space(text[r.1 - 1]),
    decreases text.len(),
{
    if text.len() > 0 && white_space(text.first()) {
        let rest = text.drop_first();
        let (a, b) = lemma_trimmed_is_the_middle(rest);
        assert(rest.subrange(a, b) =~= text.subrange(a + 1, b + 1));
        assert forall|i: int| 0 <= i < a + 1 || b + 1 <= i < text.len() implies white_space(
            #[trigger] text[i],
        ) by {
            assert(i > 0 ==> rest[i - 1] == text[i]);
        }
        (a + 1, b + 1)
    } else if text.len() > 0 && white_space(text.last()) {
        let rest = text.drop_last();
        let (a, b) = lemma_trimmed_is_the_middle(rest);
        assert(rest.subrange(a, b) =~= text.subrange(a, b));
        assert forall|i: int| 0 <= i < a || b <= i < text.len() implies white_space(
            #[trigger] text[i],
        ) by {
            assert(i < rest.len() ==> rest[i] == text[i]);
        }
        (a, b)
    } else {
        assert(text.subrange(0, text.len() as int) =~= text);
        (0, text.len() as int)
    }
}

/// The message of a failed listing holds the address of the repository and
/// what git said, trimmed.
pub proof fn lemma_failure_names_address_and_reason(repo: Seq<char>, stderr: Seq<char>)
    ensures
        ls_remote_failure(repo, stderr) == "git ls-remote https://github.com/"@ + repo
            + " failed: "@ + trimmed(stderr),
{
    reveal_strlit("git ls-remote https://github.com/");
    reveal_strlit("git ls-remote ");
    reveal_strlit("https://github.com/");
    assert("git ls-remote https://github.com/"@ =~= "git ls-remote "@ + "https://github.com/"@);
    assert(ls_remote_failure(repo, stderr) =~= "git ls-remote https://github.com/"@ + repo
        + " failed: "@ + trimmed(stderr));
}

} // verus!

//! Which files are looked at. A path is the bytes of its normalised spelling:
//! two paths are the same exactly when those bytes are.

use crate::text::{
    comes_before, lemma_encode_injective, lemma_lex_total, lemma_lex_transitive, lex_before,
    push_str,
};
use vstd::prelude::*;
use vstd::string::*;
use vstd::utf8::*;

verus! {

/// Something met on a walk through a directory.
#[derive(Debug)]
pub struct Entry {
    pub path: Vec<u8>,
    /// The last component of the path.
    pub name: Vec<u8>,
    /// A regular file; a directory or a symbolic link is none.
    pub is_file: bool,
}

/// What stands at a requested path.
#[derive(Debug)]
pub enum Found {
    /// A directory, and what a walk through it met: nothing for an entry that
    /// could not be read.
    Directory(Vec<Option<Entry>>),
    File,
    Missing,
}

/// A path that the caller named.
#[derive(Debug)]
pub struct Requested {
    pub path: Vec<u8>,
    /// The path as messages show it.
    pub shown: String,
    pub found: Found,
}

/// What came of reading a file.
#[derive(Debug)]
pub struct FileRead {
    pub path: Vec<u8>,
    /// The path as messages show it.
    pub shown: String,
    /// The text, or why there is none: it cannot be read or is not UTF-8.
    pub text: Result<String, String>,
}

/// A file and its text.
#[derive(Debug)]
pub struct SourceFile {
    pub path: Vec<u8>,
    /// The path as messages show it.
    pub shown: String,
    pub text: String,
}

/// A file as contracts speak of it.
pub struct FileView {
    pub path: Seq<u8>,
    pub shown: Seq<char>,
    pub text: Seq<u8>,
}

impl View for SourceFile {
    type V = FileView;

    open spec fn view(&self) -> FileView {
        FileView { path: self.path@, shown: self.shown@, text: encode_utf8(self.text@) }
    }
}

/// The bytes of each path.
pub open spec fn paths_of(paths: Seq<Vec<u8>>) -> Seq<Seq<u8>> {
    paths.map_values(|p: Vec<u8>| p@)
}

/// The path of each file.
pub open spec fn view_paths(files: Seq<FileView>) -> Seq<Seq<u8>> {
    files.map_values(|f: FileView| f.path)
}

/// Each file as contracts speak of it.
pub open spec fn views(files: Seq<SourceFile>) -> Seq<FileView> {
    files.map_values(|f: SourceFile| f@)
}

/// The file name `name` has the extension `nix`. A name that is nothing but
/// `.nix` has no extension.
pub open spec fn has_nix_extension(name: Seq<u8>) -> bool {
    name.len() > 4 && name.subrange(name.len() - 4, name.len() as int) == seq![
        0x2eu8,
        0x6eu8,
        0x69u8,
        0x78u8,
    ]
}

/// The paths of the `*.nix` files among `entries`, in the order they were met.
pub open spec fn nix_paths(entries: Seq<Option<Entry>>) -> Seq<Seq<u8>>
    decreases entries.len(),
{
    if entries.len() == 0 {
        Seq::empty()
    } else {
        let head = nix_paths(entries.drop_last());
        match entries.last() {
            Some(e) if e.is_file && has_nix_extension(e.name@) => head.push(e.path@),
            _ => head,
        }
    }
}

fn is_nix_name(name: &Vec<u8>) -> (r: bool)
    ensures
        r == has_nix_extension(name@),
{
    let n: usize = name.len();
    if n <= 4 {
        return false;
    }
    let r: bool = name[n - 4] == 0x2e && name[n - 3] == 0x6e && name[n - 2] == 0x69 && name[n - 1]
        == 0x78;
    proof {
        let tail = name@.subrange(n - 4, n as int);
        assert(tail[0] == name@[n - 4] && tail[1] == name@[n - 3] && tail[2] == name@[n - 2]
            && tail[3] == name@[n - 1]);
        let ext = seq![0x2eu8, 0x6eu8, 0x69u8, 0x78u8];
        if r {
            assert(tail =~= ext);
        }
        if tail == ext {
            assert(ext[0] == 0x2e && ext[1] == 0x6e && ext[2] == 0x69 && ext[3] == 0x78);
        }
    }
    r
}

pub(crate) fn copy_bytes(bytes: &Vec<u8>) -> (r: Vec<u8>)
    ensures
        r@ == bytes@,
{
    vstd::slice::slice_to_vec(bytes.as_slice())
}

/// The `*.nix` files among what a walk met. Directories do not count, whatever
/// their name, nor do symbolic links, which keeps a `result` build symlink
/// from dragging the walk into the Nix store.
pub fn nix_files(entries: &Vec<Option<Entry>>) -> (r: Vec<Vec<u8>>)
    ensures
        paths_of(r@) == nix_paths(entries@),
{
    let mut out: Vec<Vec<u8>> = Vec::new();
    let mut i: usize = 0;
    assert(paths_of(out@) =~= nix_paths(entries@.take(0)));
    while i < entries.len()
        invariant
            i <= entries@.len(),
            paths_of(out@) == nix_paths(entries@.take(i as int)),
        decreases entries@.len() - i,
    {
        assert(entries@.take(i + 1).drop_last() =~= entries@.take(i as int));
        let ghost before = out@;
        if let Some(e) = &entries[i] {
            if e.is_file && is_nix_name(&e.name) {
                out.push(copy_bytes(&e.path));
                assert(paths_of(out@) =~= paths_of(before).push(e.path@));
            }
        }
        i = i + 1;
    }
    assert(entries@.take(i as int) =~= entries@);
    out
}

/// Each path comes before all that follow it.
pub open spec fn in_order(paths: Seq<Seq<u8>>) -> bool {
    forall|i: int, j: int|
        0 <= i < j < paths.len() ==> lex_before(#[trigger] paths[i], #[trigger] paths[j])
}

/// The request stands for `path`: it is the file itself, or a directory with
/// that `*.nix` file in it.
pub open spec fn stands_for(request: Requested, path: Seq<u8>) -> bool {
    match request.found {
        Found::Directory(entries) => nix_paths(entries@).contains(path),
        Found::File => request.path@ == path,
        Found::Missing => false,
    }
}

/// Some request stands for `path`.
pub open spec fn wanted(requests: Seq<Requested>, path: Seq<u8>) -> bool {
    exists|i: int| 0 <= i < requests.len() && stands_for(#[trigger] requests[i], path)
}

/// Puts `path` in its place among `paths`, unless it is there already.
fn insert_path(paths: &mut Vec<Vec<u8>>, path: Vec<u8>)
    requires
        in_order(paths_of(old(paths)@)),
    ensures
        in_order(paths_of(final(paths)@)),
        forall|p: Seq<u8>| #[trigger]
            paths_of(final(paths)@).contains(p) <==> (paths_of(old(paths)@).contains(p) || p
                == path@),
{
    let ghost before = paths_of(paths@);
    let ghost p0 = path@;
    let mut i: usize = 0;
    while i < paths.len() && comes_before(paths[i].as_slice(), path.as_slice())
        invariant
            i <= paths@.len(),
            paths_of(paths@) == before,
            in_order(before),
            p0 == path@,
            forall|k: int| 0 <= k < i ==> lex_before(#[trigger] before[k], p0),
        decreases paths@.len() - i,
    {
        assert(before[i as int] == paths@[i as int]@);
        i = i + 1;
    }
    if i < paths.len() {
        assert(before[i as int] == paths@[i as int]@);
        proof {
            lemma_lex_total(before[i as int], p0);
        }
        if !comes_before(path.as_slice(), paths[i].as_slice()) {
            return;
        }
    }
    paths.insert(i, path);
    proof {
        let after = paths_of(paths@);
        assert(after =~= before.insert(i as int, p0));
        assert(after[i as int] == p0);
        assert forall|a: int, b: int| 0 <= a < b < after.len() implies lex_before(
            #[trigger] after[a],
            #[trigger] after[b],
        ) by {
            if a < i && b > i {
                assert(after[a] == before[a] && after[b] == before[b - 1]);
            } else if b < i {
                assert(after[a] == before[a] && after[b] == before[b]);
            } else if a > i {
                assert(after[a] == before[a - 1] && after[b] == before[b - 1]);
            } else if b == i {
                assert(after[a] == before[a]);
            } else {
                assert(after[b] == before[b - 1]);
                if b - 1 > i {
                    assert(lex_before(before[i as int], before[b - 1]));
                    lemma_lex_transitive(p0, before[i as int], before[b - 1]);
                }
            }
        }
        assert forall|p: Seq<u8>| #[trigger] after.contains(p) <==> (before.contains(p) || p
            == p0) by {
            if after.contains(p) {
                let k = choose|k: int| 0 <= k < after.len() && after[k] == p;
                if k < i {
                    assert(before[k] == p);
                } else if k > i {
                    assert(before[k - 1] == p);
                }
            }
            if before.contains(p) {
                let k = choose|k: int| 0 <= k < before.len() && before[k] == p;
                if k < i {
                    assert(after[k] == p);
                } else {
                    assert(after[k + 1] == p);
                }
            }
        }
    }
}

/// Puts every one of `more` in its place among `paths`.
fn insert_paths(paths: &mut Vec<Vec<u8>>, more: &Vec<Vec<u8>>)
    requires
        in_order(paths_of(old(paths)@)),
    ensures
        in_order(paths_of(final(paths)@)),
        forall|p: Seq<u8>| #[trigger]
            paths_of(final(paths)@).contains(p) <==> (paths_of(old(paths)@).contains(p)
                || paths_of(more@).contains(p)),
{
    let ghost before = paths_of(paths@);
    let ghost extra = paths_of(more@);
    let mut i: usize = 0;
    while i < more.len()
        invariant
            i <= more@.len(),
            extra == paths_of(more@),
            in_order(paths_of(paths@)),
            forall|p: Seq<u8>| #[trigger]
                paths_of(paths@).contains(p) <==> (before.contains(p) || extra.take(
                    i as int,
                ).contains(p)),
        decreases more@.len() - i,
    {
        let ghost mid = paths_of(paths@);
        insert_path(paths, copy_bytes(&more[i]));
        proof {
            assert(extra[i as int] == more@[i as int]@);
            let head = extra.take(i as int);
            let next = extra.take(i + 1);
            assert(next =~= head.push(extra[i as int]));
            assert forall|p: Seq<u8>| #[trigger]
                paths_of(paths@).contains(p) <==> (before.contains(p) || next.contains(p)) by {
                assert(paths_of(paths@).contains(p) <==> (mid.contains(p) || p
                    == extra[i as int]));
                assert(mid.contains(p) <==> (before.contains(p) || head.contains(p)));
                lemma_contains_push(head, extra[i as int], p);
            }
        }
        i = i + 1;
    }
    assert(extra.take(i as int) =~= extra);
}

pub(crate) proof fn lemma_contains_push(s: Seq<Seq<u8>>, x: Seq<u8>, p: Seq<u8>)
    ensures
        s.push(x).contains(p) <==> (s.contains(p) || p == x),
{
    let t = s.push(x);
    if t.contains(p) {
        let k = choose|k: int| 0 <= k < t.len() && t[k] == p;
        assert(k < s.len() ==> s[k] == p);
    }
    if s.contains(p) {
        let k = choose|k: int| 0 <= k < s.len() && s[k] == p;
        assert(t[k] == p);
    }
    assert(t[s.len() as int] == x);
}

/// Expands the requested paths into a deduplicated, sorted file list.
///
/// A directory stands for the `*.nix` files in it. A file is taken as given,
/// extension and all, because naming a file explicitly is the caller being
/// deliberate. A path that does not exist is an error rather than a warning: a
/// typo that silently bumps nothing would leave a scheduled job green while
/// quietly falling behind upstream. The error names the first such path.
pub fn resolve_paths(requests: &Vec<Requested>) -> (r: Result<Vec<Vec<u8>>, String>)
    ensures
        match r {
            Ok(files) => {
                &&& forall|i: int|
                    0 <= i < requests@.len() ==> !((#[trigger] requests@[i]).found is Missing)
                &&& in_order(paths_of(files@))
                &&& forall|p: Seq<u8>| #[trigger]
                    paths_of(files@).contains(p) <==> wanted(requests@, p)
            },
            Err(message) => exists|i: int|
                {
                    &&& 0 <= i < requests@.len()
                    &&& (#[trigger] requests@[i]).found is Missing
                    &&& forall|j: int|
                        0 <= j < i ==> !((#[trigger] requests@[j]).found is Missing)
                    &&& message@ == "path '"@ + requests@[i].shown@ + "' does not exist"@
                },
        },
{
    let mut out: Vec<Vec<u8>> = Vec::new();
    let mut i: usize = 0;
    while i < requests.len()
        invariant
            i <= requests@.len(),
            forall|k: int| 0 <= k < i ==> !((#[trigger] requests@[k]).found is Missing),
            in_order(paths_of(out@)),
            forall|p: Seq<u8>| #[trigger]
                paths_of(out@).contains(p) <==> wanted(requests@.take(i as int), p),
        decreases requests@.len() - i,
    {
        let ghost before = paths_of(out@);
        let request = &requests[i];
        match &request.found {
            Found::Directory(entries) => {
                insert_paths(&mut out, &nix_files(entries));
            },
            Found::File => {
                insert_path(&mut out, copy_bytes(&request.path));
            },
            Found::Missing => {
                let mut message: String = String::new();
                push_str(&mut message, "path '");
                push_str(&mut message, request.shown.as_str());
                push_str(&mut message, "' does not exist");
                assert(message@ =~= "path '"@ + requests@[i as int].shown@ + "' does not exist"@);
                return Err(message);
            },
        }
        proof {
            let head = requests@.take(i as int);
            let next = requests@.take(i + 1);
            assert forall|p: Seq<u8>| #[trigger]
                paths_of(out@).contains(p) <==> wanted(next, p) by {
                assert(paths_of(out@).contains(p) <==> (before.contains(p) || stands_for(
                    requests@[i as int],
                    p,
                )));
                assert(before.contains(p) <==> wanted(head, p));
                if wanted(head, p) {
                    let k = choose|k: int|
                        0 <= k < head.len() && stands_for(#[trigger] head[k], p);
                    assert(next[k] == head[k]);
                }
                if stands_for(requests@[i as int], p) {
                    assert(next[i as int] == requests@[i as int]);
                }
                if wanted(next, p) {
                    let k = choose|k: int|
                        0 <= k < next.len() && stands_for(#[trigger] next[k], p);
                    if k < i {
                        assert(head[k] == next[k]);
                    }
                }
            }
        }
        i = i + 1;
    }
    assert(requests@.take(i as int) =~= requests@);
    Ok(out)
}

/// A sorted file list repeats nothing and is told by what it holds.
pub proof fn lemma_file_list_unique(a: Seq<Seq<u8>>, b: Seq<Seq<u8>>)
    requires
        in_order(a),
        in_order(b),
        forall|p: Seq<u8>| a.contains(p) <==> b.contains(p),
    ensures
        a.no_duplicates(),
        a == b,
    decreases a.len(),
{
    assert forall|i: int, j: int| 0 <= i < a.len() && 0 <= j < a.len() && i != j implies a[i]
        != a[j] by {
        lemma_lex_total(a[i], a[j]);
        if i < j {
            assert(lex_before(a[i], a[j]));
        } else {
            assert(lex_before(a[j], a[i]));
        }
    }
    if a.len() == 0 {
        if b.len() > 0 {
            assert(b.contains(b[0]));
        }
        assert(a =~= b);
    } else {
        let m = a.len() - 1;
        let n = b.len() - 1;
        assert(a.contains(a[m]));
        assert(b.contains(a[m]));
        assert(b.contains(b[n]));
        assert(a.contains(b[n]));
        let k = choose|k: int| 0 <= k < b.len() && b[k] == a[m];
        let l = choose|l: int| 0 <= l < a.len() && a[l] == b[n];
        lemma_lex_total(a[m], b[n]);
        if k < n {
            assert(lex_before(b[k], b[n]));
            if l < m {
                assert(lex_before(a[l], a[m]));
            }
        }
        assert(a[m] == b[n]);
        let x = a.drop_last();
        let y = b.drop_last();
        assert forall|p: Seq<u8>| x.contains(p) <==> y.contains(p) by {
            lemma_lex_total(p, a[m]);
            if x.contains(p) {
                let i = choose|i: int| 0 <= i < x.len() && x[i] == p;
                assert(a[i] == p && lex_before(a[i], a[m]));
                assert(a.contains(p));
                let j = choose|j: int| 0 <= j < b.len() && b[j] == p;
                assert(y[j] == p);
            }
            if y.contains(p) {
                let i = choose|i: int| 0 <= i < y.len() && y[i] == p;
                assert(b[i] == p && lex_before(b[i], b[n]));
                assert(b.contains(p));
                let j = choose|j: int| 0 <= j < a.len() && a[j] == p;
                assert(x[j] == p);
            }
        }
        assert(in_order(x) && in_order(y));
        lemma_file_list_unique(x, y);
        assert(a =~= x.push(a[m]));
        assert(b =~= y.push(b[n]));
    }
}

/// The two requests stand for the same files.
pub open spec fn alike(x: Requested, y: Requested) -> bool {
    forall|p: Seq<u8>| #[trigger] stands_for(x, p) <==> stands_for(y, p)
}

/// One of `requests` is like `x`.
pub open spec fn has_like(x: Requested, requests: Seq<Requested>) -> bool {
    exists|j: int| 0 <= j < requests.len() && alike(x, #[trigger] requests[j])
}

/// Every one of `a` has a request like it in `b`.
pub open spec fn named_in(a: Seq<Requested>, b: Seq<Requested>) -> bool {
    forall|i: int| 0 <= i < a.len() ==> has_like(#[trigger] a[i], b)
}

proof fn lemma_wanted_as_well(a: Seq<Requested>, b: Seq<Requested>, p: Seq<u8>)
    requires
        named_in(a, b),
        wanted(a, p),
    ensures
        wanted(b, p),
{
    let i = choose|i: int| 0 <= i < a.len() && stands_for(#[trigger] a[i], p);
    assert(has_like(a[i], b));
    let j = choose|j: int| 0 <= j < b.len() && alike(a[i], #[trigger] b[j]);
    assert(stands_for(a[i], p) <==> stands_for(b[j], p));
}

/// Naming a path again, or naming paths in another order, resolves to the same
/// file list.
pub proof fn lemma_requests_in_any_order(
    a: Seq<Requested>,
    b: Seq<Requested>,
    files_a: Seq<Seq<u8>>,
    files_b: Seq<Seq<u8>>,
)
    requires
        named_in(a, b),
        named_in(b, a),
        in_order(files_a),
        in_order(files_b),
        forall|p: Seq<u8>| #[trigger] files_a.contains(p) <==> wanted(a, p),
        forall|p: Seq<u8>| #[trigger] files_b.contains(p) <==> wanted(b, p),
    ensures
        files_a == files_b,
        files_a.no_duplicates(),
{
    assert forall|p: Seq<u8>| files_a.contains(p) <==> files_b.contains(p) by {
        assert(files_a.contains(p) <==> wanted(a, p));
        assert(files_b.contains(p) <==> wanted(b, p));
        if wanted(a, p) {
            lemma_wanted_as_well(a, b, p);
        }
        if wanted(b, p) {
            lemma_wanted_as_well(b, a, p);
        }
    }
    lemma_file_list_unique(files_a, files_b);
}

/// The files whose text was read, in the order they were.
pub open spec fn loaded(reads: Seq<FileRead>) -> Seq<FileView>
    decreases reads.len(),
{
    if reads.len() == 0 {
        Seq::empty()
    } else {
        let head = loaded(reads.drop_last());
        let last = reads.last();
        match last.text {
            Ok(text) => head.push(
                FileView { path: last.path@, shown: last.shown@, text: encode_utf8(text@) },
            ),
            Err(_) => head,
        }
    }
}

/// The contents of each file. Anything that is not UTF-8 is skipped rather
/// than aborting the run, and so is a file that cannot be read.
pub fn load_files(reads: &Vec<FileRead>) -> (r: Vec<SourceFile>)
    ensures
        views(r@) == loaded(reads@),
{
    let mut out: Vec<SourceFile> = Vec::new();
    let mut i: usize = 0;
    assert(views(out@) =~= loaded(reads@.take(0)));
    while i < reads.len()
        invariant
            i <= reads@.len(),
            views(out@) == loaded(reads@.take(i as int)),
        decreases reads@.len() - i,
    {
        assert(reads@.take(i + 1).drop_last() =~= reads@.take(i as int));
        let ghost before = out@;
        let read = &reads[i];
        if let Ok(text) = &read.text {
            let file: SourceFile = SourceFile {
                path: copy_bytes(&read.path),
                shown: read.shown.clone(),
                text: text.clone(),
            };
            out.push(file);
            assert(views(out@) =~= views(before).push(file@));
        }
        i = i + 1;
    }
    assert(reads@.take(i as int) =~= reads@);
    out
}

/// A walk's files are exactly its regular files whose names end in `.nix` with
/// something in front, one for one and in the order they were met: an entry
/// counts whatever the others are.
pub proof fn lemma_walk_keeps_every_nix_file(
    entries: Seq<Option<Entry>>,
    files: Seq<Vec<u8>>,
) -> (at: Seq<int>)
    requires
        paths_of(files) == nix_paths(entries),
    ensures
        files.len() == at.len(),
        forall|j: int, k: int| 0 <= j < k < at.len() ==> #[trigger] at[j] < #[trigger] at[k],
        forall|k: int|
            0 <= k < at.len() ==> 0 <= #[trigger] at[k] < entries.len() && (entries[at[k]] matches
                Some(e) && files[k]@ == e.path@),
        forall|i: int|
            0 <= i < entries.len() ==> (at.contains(i) <==> match #[trigger] entries[i] {
                Some(e) => {
                    let n = e.name@.len() as int;
                    e.is_file && n > 4 && e.name@[n - 4] == 0x2e && e.name@[n - 3] == 0x6e
                        && e.name@[n - 2] == 0x69 && e.name@[n - 1] == 0x78
                },
                None => false,
            }),
{
    assert(paths_of(files).len() == files.len());
    assert forall|k: int| 0 <= k < files.len() implies paths_of(files)[k] == (
    #[trigger] files[k])@ by {}
    lemma_nix_positions(entries)
}

proof fn lemma_nix_name(name: Seq<u8>)
    ensures
        has_nix_extension(name) <==> ({
            let n = name.len() as int;
            n > 4 && name[n - 4] == 0x2e && name[n - 3] == 0x6e && name[n - 2] == 0x69 && name[n
                - 1] == 0x78
        }),
{
    let n = name.len() as int;
    if n > 4 {
        let tail = name.subrange(n - 4, n);
        let ext = seq![0x2eu8, 0x6eu8, 0x69u8, 0x78u8];
        assert(tail[0] == name[n - 4] && tail[1] == name[n - 3] && tail[2] == name[n - 2] && tail[3]
            == name[n - 1]);
        assert(ext[0] == 0x2e && ext[1] == 0x6e && ext[2] == 0x69 && ext[3] == 0x78);
        if tail[0] == 0x2e && tail[1] == 0x6e && tail[2] == 0x69 && tail[3] == 0x78 {
            assert(tail =~= ext);
        }
    }
}

proof fn lemma_nix_positions(entries: Seq<Option<Entry>>) -> (at: Seq<int>)
    ensures
        nix_paths(entries).len() == at.len(),
        forall|j: int, k: int| 0 <= j < k < at.len() ==> #[trigger] at[j] < #[trigger] at[k],
        forall|k: int|
            0 <= k < at.len() ==> 0 <= #[trigger] at[k] < entries.len() && (entries[at[k]] matches
                Some(e) && nix_paths(entries)[k] == e.path@),
        forall|i: int|
            0 <= i < entries.len() ==> (at.contains(i) <==> match #[trigger] entries[i] {
                Some(e) => {
                    let n = e.name@.len() as int;
                    e.is_file && n > 4 && e.name@[n - 4] == 0x2e && e.name@[n - 3] == 0x6e
                        && e.name@[n - 2] == 0x69 && e.name@[n - 1] == 0x78
                },
                None => false,
            }),
    decreases entries.len(),
{
    if entries.len() == 0 {
        Seq::empty()
    } else {
        let init = entries.drop_last();
        let n = init.len() as int;
        let head = lemma_nix_positions(init);
        let counts = match entries[n] {
            Some(e) => e.is_file && has_nix_extension(e.name@),
            None => false,
        };
        if let Some(e) = entries[n] {
            lemma_nix_name(e.name@);
        }
        let at = if counts {
            head.push(n)
        } else {
            head
        };
        assert forall|k: int| 0 <= k < at.len() implies 0 <= #[trigger] at[k] < entries.len() && (
        entries[at[k]] matches Some(e) && nix_paths(entries)[k] == e.path@) by {
            if k < head.len() {
                assert(at[k] == head[k]);
                assert(entries[at[k]] == init[head[k]]);
                assert(nix_paths(entries)[k] == nix_paths(init)[k]);
            }
        }
        assert forall|j: int, k: int| 0 <= j < k < at.len() implies #[trigger] at[j]
            < #[trigger] at[k] by {
            assert(at[j] == head[j]);
            assert(k < head.len() ==> at[k] == head[k]);
        }
        assert forall|i: int| 0 <= i < entries.len() implies (at.contains(i) <==> match
            #[trigger] entries[i] {
            Some(e) => {
                let n = e.name@.len() as int;
                e.is_file && n > 4 && e.name@[n - 4] == 0x2e && e.name@[n - 3] == 0x6e && e.name@[n
                    - 2] == 0x69 && e.name@[n - 1] == 0x78
            },
            None => false,
        }) by {
            lemma_position_kept(head, n, counts, i);
            if i < n {
                assert(init[i] == entries[i]);
            } else if head.contains(i) {
                let k = choose|k: int| 0 <= k < head.len() && head[k] == i;
                assert(head[k] < n);
            }
        }
        at
    }
}

/// Where a list of positions grows by `n` or stays.
pub(crate) proof fn lemma_position_kept(head: Seq<int>, n: int, grows: bool, i: int)
    ensures
        (if grows {
            head.push(n)
        } else {
            head
        }).contains(i) <==> (head.contains(i) || (grows && i == n)),
{
    if grows {
        let at = head.push(n);
        assert(at[head.len() as int] == n);
        if head.contains(i) {
            let k = choose|k: int| 0 <= k < head.len() && head[k] == i;
            assert(at[k] == i);
        }
        if at.contains(i) {
            let k = choose|k: int| 0 <= k < at.len() && at[k] == i;
            assert(k < head.len() ==> head[k] == i);
        }
    }
}

/// A path is in a walk's files exactly when some entry has it, is a regular
/// file, and has a name that ends in `.nix` with something in front.
pub proof fn lemma_walk_membership(
    entries: Seq<Option<Entry>>,
    files: Seq<Vec<u8>>,
    path: Seq<u8>,
)
    requires
        paths_of(files) == nix_paths(entries),
    ensures
        (exists|k: int| 0 <= k < files.len() && (#[trigger] files[k])@ == path) <==> exists|i: int|
            0 <= i < entries.len() && match #[trigger] entries[i] {
                Some(e) => {
                    let n = e.name@.len() as int;
                    e.path@ == path && e.is_file && n > 4 && e.name@[n - 4] == 0x2e && e.name@[n
                        - 3] == 0x6e && e.name@[n - 2] == 0x69 && e.name@[n - 1] == 0x78
                },
                None => false,
            },
{
    let all = paths_of(files);
    assert(all.len() == files.len());
    assert forall|k: int| 0 <= k < files.len() implies all[k] == (#[trigger] files[k])@ by {}
    lemma_nix_path_membership(entries, path);
    if exists|k: int| 0 <= k < files.len() && (#[trigger] files[k])@ == path {
        let k = choose|k: int| 0 <= k < files.len() && (#[trigger] files[k])@ == path;
        assert(all[k] == path);
    }
    if all.contains(path) {
        let k = choose|k: int| 0 <= k < all.len() && all[k] == path;
        assert(files[k]@ == path);
    }
}

/// The resolved files are exactly the files that were named and the `*.nix`
/// files of the walks through directories that were named: a request counts
/// whatever the others are. They stand in the order of their bytes, each once.
pub proof fn lemma_files_are_what_was_asked_for(
    requests: Seq<Requested>,
    files: Seq<Vec<u8>>,
    path: Seq<u8>,
)
    requires
        in_order(paths_of(files)),
        forall|p: Seq<u8>| #[trigger] paths_of(files).contains(p) <==> wanted(requests, p),
    ensures
        (exists|k: int| 0 <= k < files.len() && (#[trigger] files[k])@ == path) <==> exists|i: int|
            0 <= i < requests.len() && match (#[trigger] requests[i]).found {
                Found::File => requests[i].path@ == path,
                Found::Directory(entries) => exists|j: int|
                    0 <= j < entries@.len() && match #[trigger] entries@[j] {
                        Some(e) => {
                            let n = e.name@.len() as int;
                            e.path@ == path && e.is_file && n > 4 && e.name@[n - 4] == 0x2e
                                && e.name@[n - 3] == 0x6e && e.name@[n - 2] == 0x69 && e.name@[n
                                - 1] == 0x78
                        },
                        None => false,
                    },
                Found::Missing => false,
            },
        forall|j: int, k: int|
            0 <= j < k < files.len() ==> lex_before(
                (#[trigger] files[j])@,
                (#[trigger] files[k])@,
            ) && files[j]@ != files[k]@,
{
    let all = paths_of(files);
    assert(all.len() == files.len());
    assert forall|k: int| 0 <= k < files.len() implies all[k] == (#[trigger] files[k])@ by {}
    assert(all.contains(path) <==> wanted(requests, path));
    assert forall|i: int| 0 <= i < requests.len() implies (stands_for(#[trigger] requests[i], path)
        <==> match requests[i].found {
        Found::File => requests[i].path@ == path,
        Found::Directory(entries) => exists|j: int|
            0 <= j < entries@.len() && match #[trigger] entries@[j] {
                Some(e) => {
                    let n = e.name@.len() as int;
                    e.path@ == path && e.is_file && n > 4 && e.name@[n - 4] == 0x2e && e.name@[n
                        - 3] == 0x6e && e.name@[n - 2] == 0x69 && e.name@[n - 1] == 0x78
                },
                None => false,
            },
        Found::Missing => false,
    }) by {
        if let Found::Directory(entries) = requests[i].found {
            lemma_nix_path_membership(entries@, path);
        }
    }
    if exists|k: int| 0 <= k < files.len() && (#[trigger] files[k])@ == path {
        let k = choose|k: int| 0 <= k < files.len() && (#[trigger] files[k])@ == path;
        assert(all[k] == path);
        let i = choose|i: int|
            0 <= i < requests.len() && stands_for(#[trigger] requests[i], path);
        assert(stands_for(requests[i], path));
    }
    if wanted(requests, path) {
        let k = choose|k: int| 0 <= k < all.len() && all[k] == path;
        assert(files[k]@ == path);
    }
    assert forall|j: int, k: int| 0 <= j < k < files.len() implies lex_before(
        (#[trigger] files[j])@,
        (#[trigger] files[k])@,
    ) && files[j]@ != files[k]@ by {
        assert(lex_before(all[j], all[k]));
        lemma_lex_total(all[j], all[k]);
    }
}

proof fn lemma_nix_path_membership(entries: Seq<Option<Entry>>, path: Seq<u8>)
    ensures
        nix_paths(entries).contains(path) <==> exists|j: int|
            0 <= j < entries.len() && match #[trigger] entries[j] {
                Some(e) => {
                    let n = e.name@.len() as int;
                    e.path@ == path && e.is_file && n > 4 && e.name@[n - 4] == 0x2e && e.name@[n
                        - 3] == 0x6e && e.name@[n - 2] == 0x69 && e.name@[n - 1] == 0x78
                },
                None => false,
            },
{
    let at = lemma_nix_positions(entries);
    let all = nix_paths(entries);
    if all.contains(path) {
        let k = choose|k: int| 0 <= k < all.len() && all[k] == path;
        assert(at.contains(at[k]));
        assert(entries[at[k]] is Some);
    }
    if exists|j: int|
        0 <= j < entries.len() && match #[trigger] entries[j] {
            Some(e) => {
                let n = e.name@.len() as int;
                e.path@ == path && e.is_file && n > 4 && e.name@[n - 4] == 0x2e && e.name@[n - 3]
                    == 0x6e && e.name@[n - 2] == 0x69 && e.name@[n - 1] == 0x78
            },
            None => false,
        } {
        let j = choose|j: int|
            0 <= j < entries.len() && match #[trigger] entries[j] {
                Some(e) => {
                    let n = e.name@.len() as int;
                    e.path@ == path && e.is_file && n > 4 && e.name@[n - 4] == 0x2e && e.name@[n
                        - 3] == 0x6e && e.name@[n - 2] == 0x69 && e.name@[n - 1] == 0x78
                },
                None => false,
            };
        assert(at.contains(j));
        let k = choose|k: int| 0 <= k < at.len() && at[k] == j;
        assert(all[k] == path);
    }
}

proof fn lemma_loaded_positions(reads: Seq<FileRead>) -> (at: Seq<int>)
    ensures
        loaded(reads).len() == at.len(),
        forall|j: int, k: int| 0 <= j < k < at.len() ==> #[trigger] at[j] < #[trigger] at[k],
        forall|k: int|
            0 <= k < at.len() ==> 0 <= #[trigger] at[k] < reads.len() && loaded(reads)[k].path
                == reads[at[k]].path@ && loaded(reads)[k].shown == reads[at[k]].shown@ && (
            reads[at[k]].text matches Ok(text) && loaded(reads)[k].text == encode_utf8(text@)),
        forall|i: int|
            0 <= i < reads.len() ==> (at.contains(i) <==> (#[trigger] reads[i]).text is Ok),
    decreases reads.len(),
{
    if reads.len() == 0 {
        Seq::empty()
    } else {
        let init = reads.drop_last();
        let n = init.len() as int;
        let head = lemma_loaded_positions(init);
        let counts = reads[n].text is Ok;
        let at = if counts {
            head.push(n)
        } else {
            head
        };
        assert forall|k: int| 0 <= k < at.len() implies 0 <= #[trigger] at[k] < reads.len()
            && loaded(reads)[k].path == reads[at[k]].path@ && loaded(reads)[k].shown
            == reads[at[k]].shown@ && (reads[at[k]].text matches Ok(text) && loaded(reads)[k].text
            == encode_utf8(text@)) by {
            if k < head.len() {
                assert(at[k] == head[k]);
                assert(reads[at[k]] == init[head[k]]);
                assert(loaded(reads)[k] == loaded(init)[k]);
            }
        }
        assert forall|j: int, k: int| 0 <= j < k < at.len() implies #[trigger] at[j]
            < #[trigger] at[k] by {
            assert(at[j] == head[j]);
            assert(k < head.len() ==> at[k] == head[k]);
        }
        assert forall|i: int| 0 <= i < reads.len() implies (at.contains(i) <==> (
        #[trigger] reads[i]).text is Ok) by {
            lemma_position_kept(head, n, counts, i);
            if i < n {
                assert(init[i] == reads[i]);
            } else if head.contains(i) {
                let k = choose|k: int| 0 <= k < head.len() && head[k] == i;
                assert(head[k] < n);
            }
        }
        at
    }
}

/// Every file that was read is loaded as it is and no other, one for one and
/// in the order they were read: a read counts whatever the others are. So
/// there are as many files as reads that came back with a text.
pub proof fn lemma_every_read_file_is_loaded(
    reads: Seq<FileRead>,
    files: Seq<SourceFile>,
) -> (at: Seq<int>)
    requires
        views(files) == loaded(reads),
    ensures
        files.len() == at.len(),
        files.len() == reads.filter(|f: FileRead| f.text is Ok).len(),
        forall|j: int, k: int| 0 <= j < k < at.len() ==> #[trigger] at[j] < #[trigger] at[k],
        forall|k: int|
            0 <= k < at.len() ==> 0 <= #[trigger] at[k] < reads.len() && files[k].path@
                == reads[at[k]].path@ && files[k].shown@ == reads[at[k]].shown@ && (
            reads[at[k]].text matches Ok(text) && files[k].text@ == text@),
        forall|i: int|
            0 <= i < reads.len() ==> (at.contains(i) <==> (#[trigger] reads[i]).text is Ok),
{
    let at = lemma_loaded_positions(reads);
    assert(views(files).len() == files.len());
    assert forall|k: int| 0 <= k < at.len() implies 0 <= #[trigger] at[k] < reads.len()
        && files[k].path@ == reads[at[k]].path@ && files[k].shown@ == reads[at[k]].shown@ && (
    reads[at[k]].text matches Ok(text) && files[k].text@ == text@) by {
        assert(views(files)[k] == files[k]@);
        if let Ok(text) = reads[at[k]].text {
            lemma_encode_injective(files[k].text@, text@);
        }
    }
    lemma_loaded_count(reads);
    at
}

proof fn lemma_loaded_count(reads: Seq<FileRead>)
    ensures
        loaded(reads).len() == reads.filter(|f: FileRead| f.text is Ok).len(),
    decreases reads.len(),
{
    reveal(Seq::filter);
    if reads.len() > 0 {
        lemma_loaded_count(reads.drop_last());
    }
}

/// A file is among the loaded ones exactly when some read has its path and
/// shown path and came back with its text.
pub proof fn lemma_loaded_membership(
    reads: Seq<FileRead>,
    files: Seq<SourceFile>,
    path: Seq<u8>,
    shown: Seq<char>,
    text: Seq<char>,
)
    requires
        views(files) == loaded(reads),
    ensures
        (exists|k: int|
            0 <= k < files.len() && (#[trigger] files[k]).path@ == path && files[k].shown@ == shown
                && files[k].text@ == text) <==> exists|i: int|
            0 <= i < reads.len() && (#[trigger] reads[i]).path@ == path && reads[i].shown@ == shown
                && (reads[i].text matches Ok(t) && t@ == text),
{
    let at = lemma_every_read_file_is_loaded(reads, files);
    if exists|k: int|
        0 <= k < files.len() && (#[trigger] files[k]).path@ == path && files[k].shown@ == shown
            && files[k].text@ == text {
        let k = choose|k: int|
            0 <= k < files.len() && (#[trigger] files[k]).path@ == path && files[k].shown@ == shown
                && files[k].text@ == text;
        assert(reads[at[k]].path@ == path);
    }
    if exists|i: int|
        0 <= i < reads.len() && (#[trigger] reads[i]).path@ == path && reads[i].shown@ == shown && (
        reads[i].text matches Ok(t) && t@ == text) {
        let i = choose|i: int|
            0 <= i < reads.len() && (#[trigger] reads[i]).path@ == path && reads[i].shown@ == shown
                && (reads[i].text matches Ok(t) && t@ == text);
        assert(at.contains(i));
        let k = choose|k: int| 0 <= k < at.len() && at[k] == i;
        assert(files[k].path@ == path);
    }
}

} // verus!

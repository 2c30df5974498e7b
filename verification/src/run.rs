//! One run: what to rewrite and what to report.

use crate::anchors::{is_pin, lemma_pin_bytes, lemma_stale_pins_exact};
use crate::laws::{bumped, lemma_changed_iff_stale, lemma_idempotent};
use crate::outputs::{joined, outputs_of, Output, OutputView};
use crate::paths::{
    copy_bytes, lemma_position_kept, paths_of, view_paths, views, FileView, SourceFile,
};
use crate::pins::{bumps, stale_pins, update, updated, Bump, Pin};
use crate::refs::{ascending, insert_version, lemma_ascending_unique};
use crate::text::{lemma_encode_injective, lex_before, push_str};
use crate::version::{lemma_ordered_by_year_and_month, lemma_spelled_order, Version};
use vstd::prelude::*;
use vstd::string::*;
use vstd::utf8::*;

verus! {

/// The branches that a home-manager release is cut on.
pub const RELEASE_PREFIX: &'static str = "release-";

/// How a run goes on once its files are known.
#[derive(Debug)]
pub enum Start {
    /// There is nothing to scan: these step outputs, and the run is over.
    NoFiles(Vec<Output>),
    /// The caller pinned the target, so no upstream lookup is made.
    Pinned(Version),
    /// The target is the newest home-manager release.
    LookUp,
}

/// What a run does once its files are read and its target is known.
#[derive(Debug)]
pub struct RunPlan {
    /// The files to write, with their new text.
    pub writes: Vec<SourceFile>,
    /// The paths of the files that change, written or not.
    pub changed: Vec<Vec<u8>>,
    /// The releases that stale pins were at, ascending.
    pub versions: Vec<Version>,
    /// The step outputs once all is written.
    pub summary: Vec<Output>,
}

/// The step output `name` with the text value `value`.
pub open spec fn text_output(name: Seq<char>, value: Seq<char>) -> OutputView {
    OutputView { name, value: encode_utf8(value) }
}

/// The step outputs of a run that changes nothing.
pub open spec fn unchanged_outputs() -> Seq<OutputView> {
    seq![
        text_output("bumped"@, "false"@),
        text_output("files-changed"@, ""@),
        text_output("versions-bumped"@, ""@),
    ]
}

/// The step outputs that name the target.
pub open spec fn target_outputs(target: Version) -> Seq<OutputView> {
    seq![
        OutputView { name: "latest-home-manager"@, value: target.spelled() },
        OutputView { name: "target"@, value: target.spelled() },
    ]
}

/// The files whose text changes when bumped to `target`, with their new text.
pub open spec fn rewrites(files: Seq<FileView>, target: Version) -> Seq<FileView>
    decreases files.len(),
{
    if files.len() == 0 {
        Seq::empty()
    } else {
        let head = rewrites(files.drop_last(), target);
        let last = files.last();
        if bumped(last.text, target) == last.text {
            head
        } else {
            head.push(FileView { text: bumped(last.text, target), ..last })
        }
    }
}

/// Some file has a stale pin at `v`.
pub open spec fn was_stale(files: Seq<FileView>, target: Version, v: Version) -> bool {
    exists|i: int|
        0 <= i < files.len() && #[trigger] stale_at(stale_pins(files[i].text, target), v)
}

/// One of `bumps` is from `v`.
pub open spec fn stale_at(bumps: Seq<Bump>, v: Version) -> bool {
    exists|k: int| 0 <= k < bumps.len() && (#[trigger] bumps[k]).from.version == v
}

/// The step outputs of a run that changes `changed` and moves pins off `versions`.
pub open spec fn summary_outputs(changed: Seq<FileView>, versions: Seq<Version>) -> Seq<
    OutputView,
> {
    if changed.len() == 0 {
        unchanged_outputs()
    } else {
        seq![
            text_output("bumped"@, "true"@),
            OutputView {
                name: "files-changed"@,
                value: joined(
                    changed.map_values(|f: FileView| encode_utf8(f.shown)),
                    encode_utf8("\n"@),
                ),
            },
            OutputView {
                name: "versions-bumped"@,
                value: joined(versions.map_values(|v: Version| v.spelled()), encode_utf8(","@)),
            },
        ]
    }
}

/// `plan` is the plan for bumping `files` to `target`: it writes the files that
/// change unless the run is dry, and reports them and the releases that their
/// stale pins were at.
pub open spec fn planned(
    files: Seq<FileView>,
    target: Version,
    dry_run: bool,
    plan: RunPlan,
) -> bool {
    &&& views(plan.writes@) == if dry_run {
        Seq::empty()
    } else {
        rewrites(files, target)
    }
    &&& paths_of(plan.changed@) == view_paths(rewrites(files, target))
    &&& ascending(plan.versions@)
    &&& forall|v: Version| #[trigger]
        plan.versions@.contains(v) <==> was_stale(files, target, v)
    &&& outputs_of(plan.summary@) == summary_outputs(rewrites(files, target), plan.versions@)
}

fn output(name: &str, value: &str) -> (r: Output)
    ensures
        r@ == text_output(name@, value@),
{
    Output { name: name.to_owned(), value: value.to_owned() }
}

/// The step outputs of a run that changes nothing.
pub fn nothing_to_bump() -> (r: Vec<Output>)
    ensures
        outputs_of(r@) == unchanged_outputs(),
{
    let mut out: Vec<Output> = Vec::new();
    out.push(output("bumped", "false"));
    out.push(output("files-changed", ""));
    out.push(output("versions-bumped", ""));
    assert(outputs_of(out@) =~= unchanged_outputs());
    out
}

/// How to go on with the resolved `files`. An empty scan means that every
/// requested path exists but yielded no `*.nix` files. That is not a typo, just
/// a tree with nothing to bump: a no-op.
pub fn start(files: &Vec<Vec<u8>>, pinned: Option<Version>) -> (r: Start)
    ensures
        if files@.len() == 0 {
            r matches Start::NoFiles(outputs) && outputs_of(outputs@) == unchanged_outputs()
        } else {
            match pinned {
                Some(v) => r == Start::Pinned(v),
                None => r == Start::LookUp,
            }
        },
{
    if files.len() == 0 {
        Start::NoFiles(nothing_to_bump())
    } else {
        match pinned {
            Some(v) => Start::Pinned(v),
            None => Start::LookUp,
        }
    }
}

/// Adds the releases that `found` moves pins off to `versions`.
fn insert_stale(versions: &mut Vec<Version>, found: &Vec<Bump>)
    requires
        ascending(old(versions)@),
    ensures
        ascending(final(versions)@),
        forall|v: Version| #[trigger]
            final(versions)@.contains(v) <==> (old(versions)@.contains(v) || stale_at(found@, v)),
{
    let ghost before = versions@;
    let mut i: usize = 0;
    while i < found.len()
        invariant
            i <= found@.len(),
            ascending(versions@),
            forall|v: Version| #[trigger]
                versions@.contains(v) <==> (before.contains(v) || stale_at(
                    found@.take(i as int),
                    v,
                )),
        decreases found@.len() - i,
    {
        let ghost mid = versions@;
        insert_version(versions, found[i].from.version);
        proof {
            let head = found@.take(i as int);
            let next = found@.take(i + 1);
            assert forall|v: Version| #[trigger]
                versions@.contains(v) <==> (before.contains(v) || stale_at(next, v)) by {
                assert(versions@.contains(v) <==> (mid.contains(v) || v
                    == found@[i as int].from.version));
                assert(mid.contains(v) <==> (before.contains(v) || stale_at(head, v)));
                if stale_at(head, v) {
                    let k = choose|k: int|
                        0 <= k < head.len() && (#[trigger] head[k]).from.version == v;
                    assert(next[k] == head[k]);
                }
                if v == found@[i as int].from.version {
                    assert(next[i as int] == found@[i as int]);
                }
                if stale_at(next, v) {
                    let k = choose|k: int|
                        0 <= k < next.len() && (#[trigger] next[k]).from.version == v;
                    if k < i {
                        assert(head[k] == next[k]);
                    }
                }
            }
        }
        i = i + 1;
    }
    assert(found@.take(i as int) =~= found@);
}

/// The shown paths of `files`, one on a line.
fn shown_paths(files: &Vec<SourceFile>) -> (r: String)
    ensures
        encode_utf8(r@) == joined(
            views(files@).map_values(|f: FileView| encode_utf8(f.shown)),
            encode_utf8("\n"@),
        ),
{
    let ghost items = views(files@).map_values(|f: FileView| encode_utf8(f.shown));
    let mut out: String = String::new();
    let mut i: usize = 0;
    assert(encode_utf8(out@) =~= joined(items.take(0), encode_utf8("\n"@)));
    while i < files.len()
        invariant
            i <= files@.len(),
            items == views(files@).map_values(|f: FileView| encode_utf8(f.shown)),
            encode_utf8(out@) == joined(items.take(i as int), encode_utf8("\n"@)),
        decreases files@.len() - i,
    {
        if i > 0 {
            push_str(&mut out, "\n");
        }
        push_str(&mut out, files[i].shown.as_str());
        proof {
            let next = items.take(i + 1);
            assert(next.drop_last() =~= items.take(i as int));
            assert(next.last() == encode_utf8(files@[i as int].shown@));
            if i == 0 {
                assert(encode_utf8(out@) =~= next[0]);
            }
        }
        i = i + 1;
    }
    assert(items.take(i as int) =~= items);
    out
}

/// The spelled `versions`, separated by commas.
fn spelled_versions(versions: &Vec<Version>) -> (r: String)
    ensures
        encode_utf8(r@) == joined(
            versions@.map_values(|v: Version| v.spelled()),
            encode_utf8(","@),
        ),
{
    let ghost items = versions@.map_values(|v: Version| v.spelled());
    let mut out: String = String::new();
    let mut i: usize = 0;
    assert(encode_utf8(out@) =~= joined(items.take(0), encode_utf8(","@)));
    while i < versions.len()
        invariant
            i <= versions@.len(),
            items == versions@.map_values(|v: Version| v.spelled()),
            encode_utf8(out@) == joined(items.take(i as int), encode_utf8(","@)),
        decreases versions@.len() - i,
    {
        if i > 0 {
            push_str(&mut out, ",");
        }
        let spelled: String = versions[i].to_string();
        push_str(&mut out, spelled.as_str());
        proof {
            let next = items.take(i + 1);
            assert(next.drop_last() =~= items.take(i as int));
            assert(next.last() == versions@[i as int].spelled());
            if i == 0 {
                assert(encode_utf8(out@) =~= next[0]);
            }
        }
        i = i + 1;
    }
    assert(items.take(i as int) =~= items);
    out
}

/// The step outputs that name the target, before any file is read.
pub fn announce(target: Version) -> (r: Vec<Output>)
    ensures
        outputs_of(r@) == target_outputs(target),
{
    let spelled: String = target.to_string();
    let mut out: Vec<Output> = Vec::new();
    out.push(output("latest-home-manager", spelled.as_str()));
    out.push(output("target", spelled.as_str()));
    assert(outputs_of(out@) =~= target_outputs(target));
    out
}

fn summary_of(changed: &Vec<SourceFile>, versions: &Vec<Version>) -> (r: Vec<Output>)
    ensures
        outputs_of(r@) == summary_outputs(views(changed@), versions@),
{
    if changed.len() == 0 {
        return nothing_to_bump();
    }
    let mut out: Vec<Output> = Vec::new();
    out.push(output("bumped", "true"));
    out.push(output("files-changed", shown_paths(changed).as_str()));
    out.push(output("versions-bumped", spelled_versions(versions).as_str()));
    assert(outputs_of(out@) =~= summary_outputs(views(changed@), versions@));
    out
}

/// Plans a run on `files`: which of them change and how, what is written and
/// what is reported. A file whose pins are all current or newer comes back
/// byte-identical, so it counts as untouched: it is neither written nor
/// reported. A dry run reports what would change and writes nothing.
pub fn run(files: &Vec<SourceFile>, target: Version, dry_run: bool) -> (r: RunPlan)
    ensures
        planned(views(files@), target, dry_run, r),
{
    let ghost all = views(files@);
    let mut versions: Vec<Version> = Vec::new();
    let mut rewritten: Vec<SourceFile> = Vec::new();
    let mut changed: Vec<Vec<u8>> = Vec::new();
    let mut i: usize = 0;
    assert(views(rewritten@) =~= rewrites(all.take(0), target));
    assert(paths_of(changed@) =~= view_paths(rewrites(all.take(0), target)));
    while i < files.len()
        invariant
            i <= files@.len(),
            all == views(files@),
            views(rewritten@) == rewrites(all.take(i as int), target),
            paths_of(changed@) == view_paths(rewrites(all.take(i as int), target)),
            ascending(versions@),
            forall|v: Version| #[trigger]
                versions@.contains(v) <==> was_stale(all.take(i as int), target, v),
        decreases files@.len() - i,
    {
        let file = &files[i];
        let ghost head = all.take(i as int);
        let ghost next = all.take(i + 1);
        let ghost mid = versions@;
        let ghost before = rewritten@;
        let ghost paths_before = changed@;
        let found: Vec<Bump> = bumps(file.text.as_str(), target);
        let ghost stale = found@;
        insert_stale(&mut versions, &found);
        let text: String = update(file.text.as_str(), found);
        proof {
            assert(next.drop_last() =~= head);
            assert(next.last() == file@);
            assert(encode_utf8(text@) == bumped(file@.text, target));
            assert(stale == stale_pins(next[i as int].text, target));
            assert forall|v: Version| #[trigger]
                versions@.contains(v) <==> was_stale(next, target, v) by {
                assert(versions@.contains(v) <==> (mid.contains(v) || stale_at(stale, v)));
                assert(mid.contains(v) <==> was_stale(head, target, v));
                if was_stale(head, target, v) {
                    let k = choose|k: int|
                        0 <= k < head.len() && #[trigger] stale_at(
                            stale_pins(head[k].text, target),
                            v,
                        );
                    assert(next[k] == head[k]);
                }
                if was_stale(next, target, v) {
                    let k = choose|k: int|
                        0 <= k < next.len() && #[trigger] stale_at(
                            stale_pins(next[k].text, target),
                            v,
                        );
                    if k < i {
                        assert(head[k] == next[k]);
                    }
                }
            }
        }
        if text != file.text {
            let path: Vec<u8> = copy_bytes(&file.path);
            let new_file: SourceFile = SourceFile {
                path: copy_bytes(&file.path),
                shown: file.shown.clone(),
                text,
            };
            changed.push(path);
            rewritten.push(new_file);
            proof {
                if encode_utf8(new_file.text@) == encode_utf8(file.text@) {
                    lemma_encode_injective(new_file.text@, file.text@);
                }
                assert(views(rewritten@) =~= views(before).push(new_file@));
                assert(rewrites(next, target) =~= rewrites(head, target).push(new_file@));
                assert(paths_of(changed@) =~= paths_of(paths_before).push(file.path@));
                assert(view_paths(rewrites(next, target)) =~= view_paths(
                    rewrites(head, target),
                ).push(file.path@));
            }
        }
        i = i + 1;
    }
    assert(all.take(i as int) =~= all);
    let summary: Vec<Output> = summary_of(&rewritten, &versions);
    let writes: Vec<SourceFile> = if dry_run {
        Vec::new()
    } else {
        rewritten
    };
    assert(dry_run ==> views(writes@) =~= Seq::empty());
    RunPlan { writes, changed, versions, summary }
}

/// What a failed write of `file` ends the run with.
pub fn after_write(file: &SourceFile, outcome: Result<(), String>) -> (r: Result<(), String>)
    ensures
        match outcome {
            Ok(_) => r is Ok,
            Err(reason) => r matches Err(message) && message@ == "could not write "@ + file.shown@
                + ": "@ + reason@,
        },
{
    match outcome {
        Ok(_) => Ok(()),
        Err(reason) => {
            let mut message: String = String::new();
            push_str(&mut message, "could not write ");
            push_str(&mut message, file.shown.as_str());
            push_str(&mut message, ": ");
            push_str(&mut message, reason.as_str());
            assert(message@ =~= "could not write "@ + file.shown@ + ": "@ + reason@);
            Err(message)
        },
    }
}

/// The text of a file is UTF-8 that fits in memory.
pub open spec fn is_text(file: FileView) -> bool {
    valid_utf8(file.text) && file.text.len() <= usize::MAX
}

/// `files` once their stale pins have moved to `target`.
pub open spec fn after_run(files: Seq<FileView>, target: Version) -> Seq<FileView> {
    files.map_values(|f: FileView| FileView { text: bumped(f.text, target), ..f })
}

/// A dry run writes nothing and reports what the real run reports.
pub proof fn lemma_dry_run_reports_the_same(
    files: Seq<FileView>,
    target: Version,
    dry: RunPlan,
    full: RunPlan,
)
    requires
        planned(files, target, true, dry),
        planned(files, target, false, full),
    ensures
        dry.writes@.len() == 0,
        paths_of(dry.changed@) == paths_of(full.changed@),
        dry.versions@ == full.versions@,
        outputs_of(dry.summary@) == outputs_of(full.summary@),
{
    assert(views(dry.writes@).len() == dry.writes@.len());
    assert forall|v: Version| dry.versions@.contains(v) <==> full.versions@.contains(v) by {
        assert(dry.versions@.contains(v) <==> was_stale(files, target, v));
        assert(full.versions@.contains(v) <==> was_stale(files, target, v));
    }
    lemma_ascending_unique(dry.versions@, full.versions@);
}

proof fn lemma_rewrites_members(files: Seq<FileView>, target: Version, g: FileView)
    ensures
        rewrites(files, target).contains(g) <==> exists|i: int|
            0 <= i < files.len() && bumped(files[i].text, target) != files[i].text && g == (
            FileView { text: bumped(files[i].text, target), ..#[trigger] files[i] }),
    decreases files.len(),
{
    let all = rewrites(files, target);
    if files.len() > 0 {
        let init = files.drop_last();
        let head = rewrites(init, target);
        let last = files.last();
        let n = files.len() - 1;
        let new_last = FileView { text: bumped(last.text, target), ..last };
        lemma_rewrites_members(init, target, g);
        if all.contains(g) {
            let k = choose|k: int| 0 <= k < all.len() && all[k] == g;
            if k < head.len() {
                assert(head[k] == g);
                let i = choose|i: int|
                    0 <= i < init.len() && bumped(init[i].text, target) != init[i].text && g == (
                    FileView { text: bumped(init[i].text, target), ..#[trigger] init[i] });
                assert(files[i] == init[i]);
            } else {
                assert(g == new_last && files[n] == last);
            }
        }
        if exists|i: int|
            0 <= i < files.len() && bumped(files[i].text, target) != files[i].text && g == (
            FileView { text: bumped(files[i].text, target), ..#[trigger] files[i] }) {
            let i = choose|i: int|
                0 <= i < files.len() && bumped(files[i].text, target) != files[i].text && g == (
                FileView { text: bumped(files[i].text, target), ..#[trigger] files[i] });
            if i < n {
                assert(init[i] == files[i]);
                assert(head.contains(g));
                let k = choose|k: int| 0 <= k < head.len() && head[k] == g;
                assert(all[k] == g);
            } else {
                assert(all == head.push(new_last));
                assert(all[head.len() as int] == g);
            }
        }
    }
}

/// A file is written and reported exactly when one of its pins is stale, and
/// then with all its stale pins moved.
pub proof fn lemma_rewritten_iff_stale(files: Seq<FileView>, target: Version, g: FileView)
    requires
        forall|i: int| 0 <= i < files.len() ==> is_text(#[trigger] files[i]),
    ensures
        rewrites(files, target).contains(g) <==> exists|i: int|
            0 <= i < files.len() && stale_pins(files[i].text, target).len() > 0 && g == (
            FileView { text: bumped(files[i].text, target), ..#[trigger] files[i] }),
{
    lemma_rewrites_members(files, target, g);
    assert forall|i: int| 0 <= i < files.len() implies (bumped((#[trigger] files[i]).text, target)
        != files[i].text <==> stale_pins(files[i].text, target).len() > 0) by {
        lemma_changed_iff_stale(files[i].text, target);
    }
}

/// Running again on what a run left changes nothing: nothing is stale, nothing
/// is written, and the run reports a no-op.
pub proof fn lemma_second_run_is_a_no_op(
    files: Seq<FileView>,
    target: Version,
    dry_run: bool,
    plan: RunPlan,
)
    requires
        forall|i: int| 0 <= i < files.len() ==> is_text(#[trigger] files[i]),
        target.spellable(),
        planned(after_run(files, target), target, dry_run, plan),
    ensures
        plan.writes@.len() == 0,
        plan.changed@.len() == 0,
        plan.versions@.len() == 0,
        outputs_of(plan.summary@) == unchanged_outputs(),
{
    let after = after_run(files, target);
    let again = rewrites(after, target);
    assert forall|i: int| 0 <= i < after.len() implies stale_pins(
        (#[trigger] after[i]).text,
        target,
    ).len() == 0 && bumped(after[i].text, target) == after[i].text by {
        assert(is_text(files[i]));
        lemma_idempotent(files[i].text, target);
        assert(after[i].text == bumped(files[i].text, target));
    }
    if again.len() > 0 {
        assert(again.contains(again[0]));
        lemma_rewrites_members(after, target, again[0]);
    }
    assert(views(plan.writes@).len() == plan.writes@.len());
    assert(paths_of(plan.changed@).len() == plan.changed@.len());
    assert(view_paths(again).len() == 0);
    if plan.versions@.len() > 0 {
        let v = plan.versions@[0];
        assert(plan.versions@.contains(v));
        assert(was_stale(after, target, v));
        let i = choose|i: int|
            0 <= i < after.len() && #[trigger] stale_at(stale_pins(after[i].text, target), v);
        assert(stale_pins(after[i].text, target).len() == 0);
    }
}

/// The reported releases are all older than the target, and sorting them in
/// time is sorting their spellings as text.
pub proof fn lemma_reported_versions(
    files: Seq<FileView>,
    target: Version,
    dry_run: bool,
    plan: RunPlan,
)
    requires
        forall|i: int| 0 <= i < files.len() ==> is_text(#[trigger] files[i]),
        planned(files, target, dry_run, plan),
    ensures
        forall|i: int|
            0 <= i < plan.versions@.len() ==> (#[trigger] plan.versions@[i]).before(target),
        forall|i: int, j: int|
            0 <= i < j < plan.versions@.len() ==> lex_before(
                (#[trigger] plan.versions@[i]).spelled(),
                (#[trigger] plan.versions@[j]).spelled(),
            ),
{
    let vs = plan.versions@;
    assert forall|k: int| 0 <= k < vs.len() implies (#[trigger] vs[k]).before(target)
        && vs[k].spellable() by {
        let v = vs[k];
        assert(vs.contains(v));
        assert(was_stale(files, target, v));
        let i = choose|i: int|
            0 <= i < files.len() && #[trigger] stale_at(stale_pins(files[i].text, target), v);
        let found = stale_pins(files[i].text, target);
        let m = choose|m: int| 0 <= m < found.len() && (#[trigger] found[m]).from.version == v;
        assert(is_text(files[i]));
        assert(found.contains(found[m]));
        lemma_stale_pins_exact(files[i].text, target, found[m]);
        lemma_pin_bytes(files[i].text, found[m].from);
    }
    assert forall|i: int, j: int| 0 <= i < j < vs.len() implies lex_before(
        (#[trigger] vs[i]).spelled(),
        (#[trigger] vs[j]).spelled(),
    ) by {
        assert(vs[i].before(vs[j]));
        lemma_spelled_order(vs[i], vs[j]);
    }
}

/// Every release that a stale pin of any file is at is reported, and every
/// reported release is that of such a pin; they come in strict order of time.
pub proof fn lemma_reported_versions_are_those_of_stale_pins(
    files: Seq<SourceFile>,
    target: Version,
    dry_run: bool,
    plan: RunPlan,
)
    requires
        planned(views(files), target, dry_run, plan),
        forall|i: int|
            0 <= i < files.len() ==> encode_utf8((#[trigger] files[i]).text@).len() <= usize::MAX,
    ensures
        forall|i: int, pin: Pin|
            0 <= i < files.len() && #[trigger] is_pin(encode_utf8(files[i].text@), pin)
                && pin.version.before(target) ==> plan.versions@.contains(pin.version),
        forall|v: Version| #[trigger]
            plan.versions@.contains(v) ==> exists|i: int, pin: Pin|
                0 <= i < files.len() && #[trigger] is_pin(encode_utf8(files[i].text@), pin)
                    && pin.version.before(target) && pin.version == v,
        forall|j: int, k: int|
            0 <= j < k < plan.versions@.len() ==> 256 * (#[trigger] plan.versions@[j]).year
                + plan.versions@[j].month < 256 * (#[trigger] plan.versions@[k]).year
                + plan.versions@[k].month,
{
    let all = views(files);
    assert(all.len() == files.len());
    assert forall|i: int| 0 <= i < files.len() implies all[i].text == encode_utf8(
        (#[trigger] files[i]).text@,
    ) by {
        assert(all[i] == files[i]@);
    }
    assert forall|i: int, pin: Pin|
        0 <= i < files.len() && #[trigger] is_pin(encode_utf8(files[i].text@), pin)
            && pin.version.before(target) implies plan.versions@.contains(pin.version) by {
        let text = encode_utf8(files[i].text@);
        let found = stale_pins(text, target);
        let b = Bump { from: pin, to: target };
        lemma_stale_pins_exact(text, target, b);
        let m = choose|m: int| 0 <= m < found.len() && found[m] == b;
        assert(found[m].from.version == pin.version);
        assert(stale_at(stale_pins(all[i].text, target), pin.version));
        assert(was_stale(all, target, pin.version));
    }
    assert forall|v: Version| #[trigger] plan.versions@.contains(v) implies exists|
        i: int,
        pin: Pin,
    |
        0 <= i < files.len() && #[trigger] is_pin(encode_utf8(files[i].text@), pin)
            && pin.version.before(target) && pin.version == v by {
        assert(was_stale(all, target, v));
        let i = choose|i: int|
            0 <= i < all.len() && #[trigger] stale_at(stale_pins(all[i].text, target), v);
        let found = stale_pins(all[i].text, target);
        let m = choose|m: int| 0 <= m < found.len() && (#[trigger] found[m]).from.version == v;
        assert(found.contains(found[m]));
        assert(encode_utf8(files[i].text@) == all[i].text);
        lemma_stale_pins_exact(all[i].text, target, found[m]);
        assert(is_pin(encode_utf8(files[i].text@), found[m].from));
    }
    assert forall|j: int, k: int| 0 <= j < k < plan.versions@.len() implies 256 * (
    #[trigger] plan.versions@[j]).year + plan.versions@[j].month < 256 * (
    #[trigger] plan.versions@[k]).year + plan.versions@[k].month by {
        assert(plan.versions@[j].before(plan.versions@[k]));
        lemma_ordered_by_year_and_month(plan.versions@[j], plan.versions@[k]);
    }
}

proof fn lemma_rewrites_positions(files: Seq<FileView>, target: Version) -> (at: Seq<int>)
    ensures
        rewrites(files, target).len() == at.len(),
        forall|j: int, k: int| 0 <= j < k < at.len() ==> #[trigger] at[j] < #[trigger] at[k],
        forall|k: int|
            0 <= k < at.len() ==> 0 <= #[trigger] at[k] < files.len() && rewrites(files, target)[k]
                == (FileView { text: bumped(files[at[k]].text, target), ..files[at[k]] }),
        forall|i: int|
            0 <= i < files.len() ==> (at.contains(i) <==> bumped(
                (#[trigger] files[i]).text,
                target,
            ) != files[i].text),
    decreases files.len(),
{
    if files.len() == 0 {
        Seq::empty()
    } else {
        let init = files.drop_last();
        let n = init.len() as int;
        let head = lemma_rewrites_positions(init, target);
        let counts = bumped(files[n].text, target) != files[n].text;
        let at = if counts {
            head.push(n)
        } else {
            head
        };
        assert forall|k: int| 0 <= k < at.len() implies 0 <= #[trigger] at[k] < files.len()
            && rewrites(files, target)[k] == (FileView {
            text: bumped(files[at[k]].text, target),
            ..files[at[k]]
        }) by {
            if k < head.len() {
                assert(at[k] == head[k]);
                assert(files[at[k]] == init[head[k]]);
                assert(rewrites(files, target)[k] == rewrites(init, target)[k]);
            }
        }
        assert forall|j: int, k: int| 0 <= j < k < at.len() implies #[trigger] at[j]
            < #[trigger] at[k] by {
            assert(at[j] == head[j]);
            assert(k < head.len() ==> at[k] == head[k]);
        }
        assert forall|i: int| 0 <= i < files.len() implies (at.contains(i) <==> bumped(
            (#[trigger] files[i]).text,
            target,
        ) != files[i].text) by {
            lemma_position_kept(head, n, counts, i);
            if i < n {
                assert(init[i] == files[i]);
            } else if head.contains(i) {
                let k = choose|k: int| 0 <= k < head.len() && head[k] == i;
                assert(head[k] < n);
            }
        }
        at
    }
}

proof fn lemma_stale_iff_some_pin(text: Seq<u8>, target: Version)
    requires
        text.len() <= usize::MAX,
    ensures
        stale_pins(text, target).len() > 0 <==> exists|pin: Pin| #[trigger]
            is_pin(text, pin) && pin.version.before(target),
{
    let found = stale_pins(text, target);
    if found.len() > 0 {
        assert(found.contains(found[0]));
        lemma_stale_pins_exact(text, target, found[0]);
        assert(is_pin(text, found[0].from));
    }
    if exists|pin: Pin| #[trigger] is_pin(text, pin) && pin.version.before(target) {
        let pin = choose|pin: Pin| #[trigger] is_pin(text, pin) && pin.version.before(target);
        lemma_stale_pins_exact(text, target, Bump { from: pin, to: target });
    }
}

/// What a run does, file by file. The files that change are exactly those with
/// a stale pin, one for one and in order: a file counts whatever the others
/// are. Each is written with its stale pins moved, or nothing is written when
/// the run is dry. The step outputs say whether anything changed, which files
/// did, and which releases their stale pins were at.
pub proof fn lemma_run_changes_every_stale_file(
    files: Seq<SourceFile>,
    target: Version,
    dry_run: bool,
    plan: RunPlan,
) -> (at: Seq<int>)
    requires
        planned(views(files), target, dry_run, plan),
        forall|i: int|
            0 <= i < files.len() ==> encode_utf8((#[trigger] files[i]).text@).len() <= usize::MAX,
    ensures
        forall|j: int, k: int| 0 <= j < k < at.len() ==> #[trigger] at[j] < #[trigger] at[k],
        forall|k: int| 0 <= k < at.len() ==> 0 <= #[trigger] at[k] < files.len(),
        forall|i: int|
            0 <= i < files.len() ==> (at.contains(i) <==> exists|pin: Pin| #[trigger]
                is_pin(encode_utf8((#[trigger] files[i]).text@), pin) && pin.version.before(
                    target,
                )),
        plan.changed@.len() == at.len(),
        forall|k: int|
            0 <= k < at.len() ==> (#[trigger] plan.changed@[k])@ == files[at[k]].path@,
        plan.writes@.len() == if dry_run {
            0
        } else {
            at.len()
        },
        forall|k: int|
            0 <= k < plan.writes@.len() ==> (#[trigger] plan.writes@[k]).path@
                == files[at[k]].path@ && plan.writes@[k].shown@ == files[at[k]].shown@
                && encode_utf8(plan.writes@[k].text@) == updated(
                encode_utf8(files[at[k]].text@),
                stale_pins(encode_utf8(files[at[k]].text@), target),
            ),
        plan.summary@.len() == 3,
        plan.summary@[0].name@ == "bumped"@,
        plan.summary@[1].name@ == "files-changed"@,
        plan.summary@[2].name@ == "versions-bumped"@,
        at.len() == 0 ==> plan.summary@[0].value@ == "false"@ && plan.summary@[1].value@ == ""@
            && plan.summary@[2].value@ == ""@,
        at.len() > 0 ==> {
            &&& plan.summary@[0].value@ == "true"@
            &&& encode_utf8(plan.summary@[1].value@) == joined(
                at.map_values(|i: int| encode_utf8(files[i].shown@)),
                encode_utf8("\n"@),
            )
            &&& encode_utf8(plan.summary@[2].value@) == joined(
                plan.versions@.map_values(|v: Version| v.spelled()),
                encode_utf8(","@),
            )
        },
{
    let all = views(files);
    let changed = rewrites(all, target);
    assert(all.len() == files.len());
    assert forall|i: int| 0 <= i < files.len() implies all[i] == (#[trigger] files[i])@ by {}
    let at = lemma_rewrites_positions(all, target);
    assert forall|i: int| 0 <= i < files.len() implies (at.contains(i) <==> exists|
        pin: Pin,
    | #[trigger]
        is_pin(encode_utf8((#[trigger] files[i]).text@), pin) && pin.version.before(target)) by {
        let text = encode_utf8(files[i].text@);
        assert(all[i].text == text);
        encode_utf8_valid_utf8(files[i].text@);
        lemma_changed_iff_stale(text, target);
        lemma_stale_iff_some_pin(text, target);
    }
    let paths = paths_of(plan.changed@);
    assert(paths.len() == plan.changed@.len());
    assert(view_paths(changed).len() == changed.len());
    assert forall|k: int| 0 <= k < at.len() implies (#[trigger] plan.changed@[k])@
        == files[at[k]].path@ by {
        assert(paths[k] == plan.changed@[k]@);
        assert(view_paths(changed)[k] == changed[k].path);
        assert(changed[k].path == all[at[k]].path);
    }
    let written = views(plan.writes@);
    assert(written.len() == plan.writes@.len());
    assert forall|k: int| 0 <= k < plan.writes@.len() implies (#[trigger] plan.writes@[k]).path@
        == files[at[k]].path@ && plan.writes@[k].shown@ == files[at[k]].shown@ && encode_utf8(
        plan.writes@[k].text@,
    ) == updated(
        encode_utf8(files[at[k]].text@),
        stale_pins(encode_utf8(files[at[k]].text@), target),
    ) by {
        assert(written[k] == plan.writes@[k]@);
        assert(changed[k] == written[k]);
        assert(all[at[k]] == files[at[k]]@);
    }
    let outs = outputs_of(plan.summary@);
    assert(outs.len() == plan.summary@.len());
    assert forall|k: int| 0 <= k < plan.summary@.len() implies outs[k] == (
    #[trigger] plan.summary@[k])@ by {}
    assert(outs == summary_outputs(changed, plan.versions@));
    assert(plan.summary@[0]@ == outs[0] && plan.summary@[1]@ == outs[1] && plan.summary@[2]@
        == outs[2]);
    if at.len() == 0 {
        lemma_no_op_is_said(plan.summary@);
    } else {
        lemma_encode_injective(plan.summary@[0].value@, "true"@);
        let shown = changed.map_values(|f: FileView| encode_utf8(f.shown));
        let meant = at.map_values(|i: int| encode_utf8(files[i].shown@));
        assert forall|k: int| 0 <= k < at.len() implies shown[k] == meant[k] by {
            assert(changed[k].shown == all[at[k]].shown);
        }
        assert(shown =~= meant);
    }
    at
}

/// A run that changes nothing says so: not bumped, no files, no versions.
pub proof fn lemma_no_op_is_said(outputs: Seq<Output>)
    requires
        outputs_of(outputs) == unchanged_outputs(),
    ensures
        outputs.len() == 3,
        outputs[0].name@ == "bumped"@,
        outputs[0].value@ == "false"@,
        outputs[1].name@ == "files-changed"@,
        outputs[1].value@ == ""@,
        outputs[2].name@ == "versions-bumped"@,
        outputs[2].value@ == ""@,
{
    let outs = outputs_of(outputs);
    assert(outs.len() == outputs.len());
    assert(outs[0] == outputs[0]@ && outs[1] == outputs[1]@ && outs[2] == outputs[2]@);
    lemma_encode_injective(outputs[0].value@, "false"@);
    lemma_encode_injective(outputs[1].value@, ""@);
    lemma_encode_injective(outputs[2].value@, ""@);
}

/// The target is announced by its spelling, as the latest home-manager release
/// and as the target.
pub proof fn lemma_target_is_announced(target: Version, outputs: Seq<Output>)
    requires
        outputs_of(outputs) == target_outputs(target),
    ensures
        outputs.len() == 2,
        outputs[0].name@ == "latest-home-manager"@,
        encode_utf8(outputs[0].value@) == target.spelled(),
        outputs[1].name@ == "target"@,
        encode_utf8(outputs[1].value@) == target.spelled(),
{
    let outs = outputs_of(outputs);
    assert(outs.len() == outputs.len());
    assert(outs[0] == outputs[0]@ && outs[1] == outputs[1]@);
}

} // verus!

//! Release pins in a text: finding them, choosing the stale ones, rewriting them.

use crate::anchors::lemma_stale_pins_applicable;
use crate::text::{push_str, slice};
use crate::version::{parse_at, parse_bytes, Version};
use vstd::prelude::*;
use vstd::string::*;
use vstd::utf8::*;

verus! {

/// What stands in front of a nixpkgs release.
pub const NIXPKGS_PREFIX: &'static str = "github:nixos/nixpkgs/nixos-";

/// What stands in front of a home-manager release.
pub const HOME_MANAGER_PREFIX: &'static str = "github:nix-community/home-manager/release-";

/// How many bytes a release takes in a text.
pub const VERSION_LEN: usize = 5;

/// Where a release is pinned: the bytes `start..end` spell `version`.
#[derive(Debug, Clone, Copy, Hash, PartialEq, Eq, Structural)]
pub struct Pin {
    pub start: usize,
    pub end: usize,
    pub version: Version,
}

/// A pin and the release it moves to.
#[derive(Debug, Clone, Copy, Hash, PartialEq, Eq, Structural)]
pub struct Bump {
    pub from: Pin,
    pub to: Version,
}

/// `prefix` stands in `text` at byte `i`.
pub open spec fn occurs_at(text: Seq<u8>, prefix: Seq<u8>, i: int) -> bool {
    &&& 0 <= i <= i + prefix.len() <= text.len()
    &&& text.subrange(i, i + prefix.len()) == prefix
    &&& is_char_boundary(text, i)
}

/// The pin whose release begins at byte `start`, if one does.
pub open spec fn pin_at(text: Seq<u8>, start: int) -> Option<Pin> {
    if 0 <= start && start + VERSION_LEN <= text.len() {
        match parse_bytes(text.subrange(start, start + VERSION_LEN)) {
            Some(version) => Some(
                Pin { start: start as usize, end: (start + VERSION_LEN) as usize, version },
            ),
            None => None,
        }
    } else {
        None
    }
}

/// The pins right behind the occurrences of `prefix` from byte `from` on,
/// where occurrences are taken leftmost first and do not overlap.
pub open spec fn pins_from(text: Seq<u8>, prefix: Seq<u8>, from: int) -> Seq<Pin>
    decreases text.len() - from,
{
    if from < 0 || from >= text.len() {
        Seq::empty()
    } else if occurs_at(text, prefix, from) {
        let after = from + prefix.len();
        let next = if prefix.len() == 0 {
            from + 1
        } else {
            after
        };
        match pin_at(text, after) {
            Some(pin) => seq![pin] + pins_from(text, prefix, next),
            None => pins_from(text, prefix, next),
        }
    } else {
        pins_from(text, prefix, from + 1)
    }
}

/// Whether `pat` stands in `bytes` at `i`.
pub(crate) fn stands_at(bytes: &[u8], pat: &[u8], i: usize) -> (r: bool)
    requires
        i + pat@.len() <= bytes@.len(),
    ensures
        r == (bytes@.subrange(i as int, i + pat@.len()) == pat@),
{
    let len: usize = bytes.len();
    let mut k: usize = 0;
    while k < pat.len()
        invariant
            k <= pat@.len(),
            len == bytes@.len(),
            i + pat@.len() <= bytes@.len(),
            forall|j: int| 0 <= j < k ==> bytes@[i + j] == pat@[j],
        decreases pat@.len() - k,
    {
        if bytes[i + k] != pat[k] {
            assert(bytes@.subrange(i as int, i + pat@.len())[k as int] != pat@[k as int]);
            return false;
        }
        k = k + 1;
    }
    assert(bytes@.subrange(i as int, i + pat@.len()) =~= pat@);
    true
}

/// Every `prefix`-anchored version in `text`, in order of appearance.
pub fn all_pins(text: &str, prefix: &str) -> (r: Vec<Pin>)
    ensures
        r@ == pins_from(encode_utf8(text@), encode_utf8(prefix@), 0),
{
    let bytes = text.as_bytes();
    let pat = prefix.as_bytes();
    let ghost t = bytes@;
    let ghost p = pat@;
    let mut out: Vec<Pin> = Vec::new();
    let mut i: usize = 0;
    assert(out@ + pins_from(t, p, 0) =~= pins_from(t, p, 0));
    while i < bytes.len()
        invariant
            t == bytes@,
            p == pat@,
            t == encode_utf8(text@),
            i <= bytes@.len(),
            out@ + pins_from(t, p, i as int) == pins_from(t, p, 0),
        decreases bytes@.len() - i,
    {
        if pat.len() <= bytes.len() - i && text.is_char_boundary(i) && stands_at(bytes, pat, i) {
            let start: usize = i + pat.len();
            // A prefix with no version after it, e.g. a `nixos-unstable` URL, is no pin.
            if VERSION_LEN <= bytes.len() - start {
                if let Some(version) = parse_at(bytes, start, start + VERSION_LEN) {
                    out.push(Pin { start, end: start + VERSION_LEN, version });
                }
            }
            if pat.len() == 0 {
                i = i + 1;
            } else {
                i = start;
            }
            assert(out@ + pins_from(t, p, i as int) =~= pins_from(t, p, 0));
        } else {
            i = i + 1;
        }
    }
    assert(out@ =~= pins_from(t, p, 0));
    out
}

/// The bytes where a release would begin at byte `start`, if `text` goes on for
/// that long and they are whole characters.
pub open spec fn piece_at(text: Seq<u8>, start: int) -> Option<Seq<u8>> {
    let end = start + VERSION_LEN;
    if 0 <= start && end <= text.len() && is_char_boundary(text, start) && is_char_boundary(
        text,
        end,
    ) {
        Some(text.subrange(start, end))
    } else {
        None
    }
}

/// What stands behind the occurrences of `prefix` from byte `from` on that no
/// pin follows, where occurrences are taken as in [`pins_from`].
pub open spec fn skipped_from(text: Seq<u8>, prefix: Seq<u8>, from: int) -> Seq<Option<Seq<u8>>>
    decreases text.len() + 1 - from,
{
    if from < 0 || from > text.len() {
        Seq::empty()
    } else if occurs_at(text, prefix, from) {
        let after = from + prefix.len();
        let next = if prefix.len() == 0 {
            from + 1
        } else {
            after
        };
        match pin_at(text, after) {
            Some(_) => skipped_from(text, prefix, next),
            None => seq![piece_at(text, after)] + skipped_from(text, prefix, next),
        }
    } else {
        skipped_from(text, prefix, from + 1)
    }
}

/// The bytes of each piece.
pub open spec fn pieces(found: Seq<Option<String>>) -> Seq<Option<Seq<u8>>> {
    found.map_values(
        |piece: Option<String>|
            match piece {
                Some(s) => Some(encode_utf8(s@)),
                None => None,
            },
    )
}

/// The five bytes of `text` from byte `start` on, as text.
fn piece_from(text: &str, start: usize) -> (r: Option<String>)
    requires
        start <= encode_utf8(text@).len(),
    ensures
        match r {
            Some(s) => piece_at(encode_utf8(text@), start as int) == Some(encode_utf8(s@)),
            None => piece_at(encode_utf8(text@), start as int) is None,
        },
{
    let len: usize = text.as_bytes().len();
    if VERSION_LEN <= len - start && text.is_char_boundary(start) && text.is_char_boundary(
        start + VERSION_LEN,
    ) {
        Some(slice(text, start, start + VERSION_LEN).to_owned())
    } else {
        None
    }
}

/// What stands behind each occurrence of `prefix` in `text` that no version
/// follows, e.g. the `unsta` of a `nixos-unstable` URL, in order of appearance.
/// Where `text` ends too soon, or a character is cut, there is nothing to show.
pub fn skipped_pins(text: &str, prefix: &str) -> (r: Vec<Option<String>>)
    ensures
        pieces(r@) == skipped_from(encode_utf8(text@), encode_utf8(prefix@), 0),
{
    let bytes = text.as_bytes();
    let pat = prefix.as_bytes();
    let ghost t = bytes@;
    let ghost p = pat@;
    let mut out: Vec<Option<String>> = Vec::new();
    let mut i: usize = 0;
    assert(pieces(out@) + skipped_from(t, p, 0) =~= skipped_from(t, p, 0));
    while i < bytes.len()
        invariant
            t == bytes@,
            p == pat@,
            t == encode_utf8(text@),
            i <= bytes@.len(),
            pieces(out@) + skipped_from(t, p, i as int) == skipped_from(t, p, 0),
        decreases bytes@.len() - i,
    {
        if pat.len() <= bytes.len() - i && text.is_char_boundary(i) && stands_at(bytes, pat, i) {
            let start: usize = i + pat.len();
            let ghost before = out@;
            let pinned: bool = VERSION_LEN <= bytes.len() - start && parse_at(
                bytes,
                start,
                start + VERSION_LEN,
            ).is_some();
            if !pinned {
                let piece: Option<String> = piece_from(text, start);
                out.push(piece);
                assert(pieces(out@) =~= pieces(before).push(piece_at(t, start as int)));
            }
            if pat.len() == 0 {
                i = i + 1;
            } else {
                i = start;
            }
            assert(pieces(out@) + skipped_from(t, p, i as int) =~= skipped_from(t, p, 0));
        } else {
            i = i + 1;
        }
    }
    proof {
        encode_utf8_valid_utf8(text@);
        is_char_boundary_start_end_of_seq(t);
        assert(t.subrange(i as int, i as int) =~= Seq::<u8>::empty());
        assert(p.len() == 0 ==> p =~= Seq::<u8>::empty());
        assert(skipped_from(t, p, i + 1) =~= Seq::empty());
    }
    let ghost before = out@;
    // An empty prefix also occurs at the very end.
    if pat.len() == 0 {
        out.push(None);
        assert(pieces(out@) =~= pieces(before).push(None));
        assert(skipped_from(t, p, i as int) =~= seq![piece_at(t, i as int)]);
    } else {
        assert(skipped_from(t, p, i as int) =~= Seq::empty());
    }
    assert(pieces(out@) =~= skipped_from(t, p, 0));
    out
}

/// What stands behind the known prefixes of `text` that no pin follows: those
/// of nixpkgs, then those of home-manager.
pub open spec fn skipped_behind_known(text: Seq<u8>) -> Seq<Option<Seq<u8>>> {
    skipped_from(text, encode_utf8(NIXPKGS_PREFIX@), 0) + skipped_from(
        text,
        encode_utf8(HOME_MANAGER_PREFIX@),
        0,
    )
}

/// What a scan of `text` for pins passes over, for the run's commentary.
pub fn skipped(text: &str) -> (r: Vec<Option<String>>)
    ensures
        pieces(r@) == skipped_behind_known(encode_utf8(text@)),
{
    let mut out: Vec<Option<String>> = skipped_pins(text, NIXPKGS_PREFIX);
    let mut more: Vec<Option<String>> = skipped_pins(text, HOME_MANAGER_PREFIX);
    let ghost a = out@;
    let ghost b = more@;
    out.append(&mut more);
    assert(pieces(out@) =~= pieces(a) + pieces(b));
    out
}

/// The pins among `pins` that are older than `target`, as bumps to it.
pub open spec fn stale(pins: Seq<Pin>, target: Version) -> Seq<Bump>
    decreases pins.len(),
{
    if pins.len() == 0 {
        Seq::empty()
    } else if pins.last().version.before(target) {
        stale(pins.drop_last(), target).push(Bump { from: pins.last(), to: target })
    } else {
        stale(pins.drop_last(), target)
    }
}

/// Every pin of `text` below `target`: those of nixpkgs, then those of home-manager.
pub open spec fn stale_pins(text: Seq<u8>, target: Version) -> Seq<Bump> {
    stale(pins_from(text, encode_utf8(NIXPKGS_PREFIX@), 0), target) + stale(
        pins_from(text, encode_utf8(HOME_MANAGER_PREFIX@), 0),
        target,
    )
}

/// Appends the stale ones of `pins` to `out`.
fn push_stale(out: &mut Vec<Bump>, pins: &Vec<Pin>, target: Version)
    ensures
        final(out)@ == old(out)@ + stale(pins@, target),
{
    let ghost before = out@;
    let mut i: usize = 0;
    assert(pins@.take(0) =~= Seq::<Pin>::empty());
    while i < pins.len()
        invariant
            i <= pins@.len(),
            out@ == before + stale(pins@.take(i as int), target),
        decreases pins@.len() - i,
    {
        assert(pins@.take(i + 1).drop_last() =~= pins@.take(i as int));
        if pins[i].version < target {
            out.push(Bump { from: pins[i], to: target });
        }
        i = i + 1;
        assert(out@ =~= before + stale(pins@.take(i as int), target));
    }
    assert(pins@.take(i as int) =~= pins@);
}

/// Every pin below `target`.
pub fn bumps(text: &str, target: Version) -> (r: Vec<Bump>)
    ensures
        r@ == stale_pins(encode_utf8(text@), target),
        applicable(encode_utf8(text@), r@),
{
    let mut out: Vec<Bump> = Vec::new();
    push_stale(&mut out, &all_pins(text, NIXPKGS_PREFIX), target);
    push_stale(&mut out, &all_pins(text, HOME_MANAGER_PREFIX), target);
    assert(out@ =~= stale_pins(encode_utf8(text@), target));
    let len: usize = text.as_bytes().len();
    proof {
        assert(encode_utf8(text@).len() == len);
        encode_utf8_valid_utf8(text@);
        lemma_stale_pins_applicable(encode_utf8(text@), target);
    }
    out
}

/// Some bump of `bumps` begins at byte `pos`.
pub open spec fn starts_at(bumps: Seq<Bump>, pos: int) -> bool {
    exists|b: Bump| #[trigger] bumps.contains(b) && b.from.start == pos
}

/// The bump that begins at byte `pos`.
pub open spec fn bump_at(bumps: Seq<Bump>, pos: int) -> Bump {
    choose|b: Bump| #[trigger] bumps.contains(b) && b.from.start == pos
}

/// Byte `i` lies in the span of some bump.
pub open spec fn covered(bumps: Seq<Bump>, i: int) -> bool {
    exists|b: Bump| #[trigger] bumps.contains(b) && b.from.start <= i < b.from.end
}

/// What byte `i` of `text` becomes: the new release where a bump begins, then
/// the byte itself unless it lies in a replaced span.
pub open spec fn rewritten(text: Seq<u8>, bumps: Seq<Bump>, i: int) -> Seq<u8> {
    let release = if starts_at(bumps, i) {
        bump_at(bumps, i).to.spelled()
    } else {
        Seq::empty()
    };
    if 0 <= i < text.len() && !covered(bumps, i) {
        release.push(text[i])
    } else {
        release
    }
}

/// What the first `n` bytes of `text` become.
pub open spec fn rewritten_upto(text: Seq<u8>, bumps: Seq<Bump>, n: nat) -> Seq<u8>
    decreases n,
{
    if n == 0 {
        Seq::empty()
    } else {
        rewritten_upto(text, bumps, (n - 1) as nat) + rewritten(text, bumps, n - 1)
    }
}

/// `text` with the span of every bump replaced by the release it moves to.
pub open spec fn updated(text: Seq<u8>, bumps: Seq<Bump>) -> Seq<u8> {
    rewritten_upto(text, bumps, text.len() + 1)
}

/// `a` ends before `b` begins, and begins before it.
pub open spec fn ahead(a: Pin, b: Pin) -> bool {
    a.start < b.start && a.end <= b.start
}

/// The spans of `bumps` are whole characters of `text` and do not overlap.
pub open spec fn applicable(text: Seq<u8>, bumps: Seq<Bump>) -> bool {
    &&& forall|b: Bump| #[trigger]
        bumps.contains(b) ==> b.from.start <= b.from.end <= text.len() && is_char_boundary(
            text,
            b.from.start as int,
        ) && is_char_boundary(text, b.from.end as int)
    &&& forall|a: Bump, b: Bump| #[trigger]
        bumps.contains(a) && #[trigger] bumps.contains(b) && a != b ==> ahead(a.from, b.from)
            || ahead(b.from, a.from)
}

/// A stretch that no bump begins in or covers is kept.
pub(crate) proof fn lemma_kept_run(text: Seq<u8>, bumps: Seq<Bump>, a: int, t: int)
    requires
        0 <= a <= t <= text.len(),
        forall|i: int| a <= i < t ==> !#[trigger] starts_at(bumps, i),
        forall|i: int| a <= i < t ==> !#[trigger] covered(bumps, i),
    ensures
        rewritten_upto(text, bumps, t as nat) == rewritten_upto(text, bumps, a as nat)
            + text.subrange(a, t),
    decreases t - a,
{
    if a < t {
        lemma_kept_run(text, bumps, a, t - 1);
        assert(!starts_at(bumps, t - 1) && !covered(bumps, t - 1));
        assert(rewritten(text, bumps, t - 1) =~= seq![text[t - 1]]);
        assert(text.subrange(a, t) =~= text.subrange(a, t - 1) + seq![text[t - 1]]);
    }
    assert(rewritten_upto(text, bumps, t as nat) =~= rewritten_upto(text, bumps, a as nat)
        + text.subrange(a, t));
}

/// Inside a replaced span nothing is kept and nothing begins.
pub(crate) proof fn lemma_replaced_run(text: Seq<u8>, bumps: Seq<Bump>, b: Bump, t: int)
    requires
        applicable(text, bumps),
        bumps.contains(b),
        b.from.start < t <= b.from.end,
    ensures
        rewritten_upto(text, bumps, t as nat) == rewritten_upto(text, bumps, b.from.start as nat)
            + b.to.spelled(),
    decreases t,
{
    let s = b.from.start as int;
    assert(covered(bumps, t - 1));
    if t - 1 == s {
        lemma_bump_at(text, bumps, b);
        assert(rewritten(text, bumps, s) =~= b.to.spelled());
    } else {
        lemma_replaced_run(text, bumps, b, t - 1);
        if starts_at(bumps, t - 1) {
            let c = choose|c: Bump| #[trigger] bumps.contains(c) && c.from.start == t - 1;
            assert(ahead(b.from, c.from) || ahead(c.from, b.from));
        }
        assert(rewritten(text, bumps, t - 1) =~= Seq::<u8>::empty());
    }
    assert(rewritten_upto(text, bumps, t as nat) =~= rewritten_upto(text, bumps, s as nat)
        + b.to.spelled());
}

/// Bumps that do not overlap are told apart by where they begin.
pub(crate) proof fn lemma_bump_at(text: Seq<u8>, bumps: Seq<Bump>, b: Bump)
    requires
        applicable(text, bumps),
        bumps.contains(b),
    ensures
        starts_at(bumps, b.from.start as int),
        bump_at(bumps, b.from.start as int) == b,
{
    let c = bump_at(bumps, b.from.start as int);
    if c != b {
        assert(ahead(b.from, c.from) || ahead(c.from, b.from));
    }
}

/// The first bump that begins behind `last`, or the first of all.
fn next_bump(bumps: &Vec<Bump>, last: Option<usize>) -> (r: Option<Bump>)
    ensures
        match r {
            Some(b) => bumps@.contains(b) && behind(b, last) && forall|c: Bump| #[trigger]
                bumps@.contains(c) && behind(c, last) ==> b.from.start <= c.from.start,
            None => forall|c: Bump| #[trigger] bumps@.contains(c) ==> !behind(c, last),
        },
{
    let mut best: Option<Bump> = None;
    let mut i: usize = 0;
    while i < bumps.len()
        invariant
            i <= bumps@.len(),
            match best {
                Some(b) => bumps@.contains(b) && behind(b, last) && forall|k: int|
                    0 <= k < i && behind(#[trigger] bumps@[k], last) ==> b.from.start
                        <= bumps@[k].from.start,
                None => forall|k: int| 0 <= k < i ==> !behind(#[trigger] bumps@[k], last),
            },
        decreases bumps@.len() - i,
    {
        let b: Bump = bumps[i];
        assert(bumps@.contains(bumps@[i as int]));
        let late: bool = match last {
            Some(s) => s < b.from.start,
            None => true,
        };
        let better: bool = match best {
            Some(c) => b.from.start < c.from.start,
            None => true,
        };
        if late && better {
            best = Some(b);
        }
        i = i + 1;
    }
    best
}

/// `b` begins behind byte `last`.
spec fn behind(b: Bump, last: Option<usize>) -> bool {
    match last {
        Some(s) => s < b.from.start,
        None => true,
    }
}

/// `written` is what `text` becomes up to byte `pos`, where the span of the
/// bump that begins at `last` ends. An empty span there has its release
/// written already.
spec fn progress(
    text: Seq<u8>,
    bumps: Seq<Bump>,
    last: Option<usize>,
    pos: int,
    written: Seq<u8>,
) -> bool {
    let upto = rewritten_upto(text, bumps, pos as nat);
    &&& 0 <= pos <= text.len()
    &&& is_char_boundary(text, pos)
    &&& forall|b: Bump| #[trigger] bumps.contains(b) && !behind(b, last) ==> b.from.end <= pos
    &&& match last {
        Some(s) => {
            let b = bump_at(bumps, s as int);
            &&& starts_at(bumps, s as int)
            &&& s <= b.from.end == pos
            &&& written == if s == pos {
                upto + b.to.spelled()
            } else {
                upto
            }
        },
        None => pos == 0 && written == upto,
    }
}

/// Between the last replaced span and the next one the text is kept.
proof fn lemma_gap(
    text: Seq<u8>,
    bumps: Seq<Bump>,
    last: Option<usize>,
    pos: int,
    written: Seq<u8>,
    next: Option<Bump>,
    stop: int,
)
    requires
        applicable(text, bumps),
        progress(text, bumps, last, pos, written),
        match next {
            Some(b) => bumps.contains(b) && behind(b, last) && stop == b.from.start
                && forall|c: Bump| #[trigger]
                bumps.contains(c) && behind(c, last) ==> b.from.start <= c.from.start,
            None => stop == text.len() && forall|c: Bump| #[trigger]
                bumps.contains(c) ==> !behind(c, last),
        },
    ensures
        pos <= stop <= text.len(),
        next is Some ==> rewritten_upto(text, bumps, stop as nat) == written + text.subrange(
            pos,
            stop,
        ),
        next is None ==> updated(text, bumps) == written + text.subrange(pos, stop),
{
    if let Some(b) = next {
        if let Some(s) = last {
            let c = bump_at(bumps, s as int);
            assert(bumps.contains(c) && c != b);
            assert(ahead(c.from, b.from) || ahead(b.from, c.from));
        }
    }
    assert forall|i: int| pos <= i < stop implies !#[trigger] covered(bumps, i) by {
        if covered(bumps, i) {
            let c = choose|c: Bump| #[trigger]
                bumps.contains(c) && c.from.start <= i < c.from.end;
            assert(behind(c, last));
        }
    }
    let empty_span = last == Some(pos as usize);
    let from = if empty_span {
        pos + 1
    } else {
        pos
    };
    assert forall|i: int| from <= i <= stop && (next is None || i < stop) implies !#[trigger] starts_at(
        bumps,
        i,
    ) by {
        if starts_at(bumps, i) {
            let c = choose|c: Bump| #[trigger] bumps.contains(c) && c.from.start == i;
            assert(behind(c, last));
        }
    }
    let kept = text.subrange(pos, stop);
    if from <= stop {
        lemma_kept_run(text, bumps, from, stop);
        if empty_span {
            assert(!covered(bumps, pos));
            assert(rewritten_upto(text, bumps, (pos + 1) as nat) =~= written + seq![text[pos]]);
            assert(kept =~= seq![text[pos]] + text.subrange(pos + 1, stop));
        }
        assert(rewritten_upto(text, bumps, stop as nat) =~= written + kept);
        if next is None {
            assert(!starts_at(bumps, stop));
            assert(rewritten(text, bumps, stop) =~= Seq::<u8>::empty());
            assert(updated(text, bumps) =~= written + kept);
        }
    } else {
        assert(rewritten(text, bumps, stop) =~= bump_at(bumps, pos).to.spelled());
        assert(updated(text, bumps) =~= written + kept);
    }
}

/// Replaces the span of every bump by the release it moves to. The spans are
/// taken by position, so neither the order of `bumps` nor the length of a
/// replacement matters to the others.
pub fn update(text: &str, bumps: Vec<Bump>) -> (r: String)
    requires
        applicable(encode_utf8(text@), bumps@),
    ensures
        encode_utf8(r@) == updated(encode_utf8(text@), bumps@),
{
    let ghost t = encode_utf8(text@);
    let ghost bs = bumps@;
    let len: usize = text.as_bytes().len();
    let mut out: String = String::new();
    let mut pos: usize = 0;
    let mut last: Option<usize> = None;
    proof {
        encode_utf8_valid_utf8(text@);
        is_char_boundary_start_end_of_seq(t);
        assert(encode_utf8(out@) =~= rewritten_upto(t, bs, 0));
    }
    loop
        invariant_except_break
            t == encode_utf8(text@),
            bs == bumps@,
            len == t.len(),
            applicable(t, bs),
            is_char_boundary(t, len as int),
            progress(t, bs, last, pos as int, encode_utf8(out@)),
        ensures
            encode_utf8(out@) == updated(t, bs),
        decreases
                (if last is None {
                    len + 1
                } else {
                    len - last->0
                }),
    {
        let next: Option<Bump> = next_bump(&bumps, last);
        let stop: usize = match next {
            Some(b) => b.from.start,
            None => len,
        };
        proof {
            lemma_gap(t, bs, last, pos as int, encode_utf8(out@), next, stop as int);
        }
        push_str(&mut out, slice(text, pos, stop));
        match next {
            Some(b) => {
                let release: String = b.to.to_string();
                push_str(&mut out, release.as_str());
                proof {
                    lemma_bump_at(t, bs, b);
                    if b.from.start < b.from.end {
                        lemma_replaced_run(t, bs, b, b.from.end as int);
                    }
                    assert forall|c: Bump| #[trigger]
                        bs.contains(c) && !behind(c, Some(b.from.start)) implies c.from.end
                        <= b.from.end by {
                        if c != b {
                            assert(ahead(c.from, b.from) || ahead(b.from, c.from));
                        }
                    }
                }
                pos = b.from.end;
                last = Some(b.from.start);
            },
            None => {
                break;
            },
        }
    }
    out
}

} // verus!

//! Where pins stand: each right behind one of the two known prefixes, and no
//! two of them overlapping.

use crate::pins::{
    ahead, applicable, occurs_at, piece_at, pieces, pin_at, pins_from, skipped_behind_known,
    skipped_from, stale, stale_pins, Bump, Pin, HOME_MANAGER_PREFIX, NIXPKGS_PREFIX, VERSION_LEN,
};
use crate::text::{lemma_boundary_after_ascii, DOT};
use crate::version::{is_digit, lemma_reads_two_numbers, parse_bytes, Version};
use vstd::prelude::*;
use vstd::utf8::*;

verus! {

/// One of the prefixes that a release is pinned behind.
pub open spec fn known_prefix(prefix: Seq<u8>) -> bool {
    prefix == encode_utf8(NIXPKGS_PREFIX@) || prefix == encode_utf8(HOME_MANAGER_PREFIX@)
}

/// `pin` stands in `text` right behind `prefix`.
pub open spec fn anchored(text: Seq<u8>, prefix: Seq<u8>, pin: Pin) -> bool {
    occurs_at(text, prefix, pin.start - prefix.len()) && pin_at(text, pin.start as int) == Some(pin)
}

/// `pin` stands in `text` right behind a known prefix.
pub open spec fn is_pin(text: Seq<u8>, pin: Pin) -> bool {
    anchored(text, encode_utf8(NIXPKGS_PREFIX@), pin) || anchored(
        text,
        encode_utf8(HOME_MANAGER_PREFIX@),
        pin,
    )
}

/// A byte that a spelled release may hold.
pub open spec fn is_version_byte(b: u8) -> bool {
    is_digit(b) || b == DOT
}

/// What the two prefixes have in common: they are ASCII and hold no byte of a
/// release; their one colon is the seventh byte; they end in a hyphen, and
/// none stands in front of the colon.
pub open spec fn prefix_shape(prefix: Seq<u8>) -> bool {
    &&& prefix.len() > 7
    &&& forall|i: int|
        0 <= i < prefix.len() ==> #[trigger] prefix[i] < 0x80 && !is_version_byte(prefix[i])
    &&& forall|i: int| 0 <= i < prefix.len() ==> (#[trigger] prefix[i] == 0x3a <==> i == 6)
    &&& prefix.last() == 0x2d
    &&& forall|i: int| 0 <= i < 6 ==> #[trigger] prefix[i] != 0x2d
}

/// Both prefixes have that shape.
pub(crate) proof fn lemma_prefix_shape(prefix: Seq<u8>)
    requires
        known_prefix(prefix),
    ensures
        prefix_shape(prefix),
{
    reveal_strlit("github:nixos/nixpkgs/nixos-");
    reveal_strlit("github:nix-community/home-manager/release-");
    let a = NIXPKGS_PREFIX@;
    let b = HOME_MANAGER_PREFIX@;
    is_ascii_chars_encode_utf8(a);
    is_ascii_chars_encode_utf8(b);
}

/// Two occurrences of one prefix never overlap.
proof fn lemma_no_overlap(text: Seq<u8>, prefix: Seq<u8>, i: int, j: int)
    requires
        prefix_shape(prefix),
        occurs_at(text, prefix, i),
        occurs_at(text, prefix, j),
        i < j,
    ensures
        i + prefix.len() <= j,
{
    let n = prefix.len() as int;
    let k = j - i;
    if k < n {
        let a = text.subrange(i, i + n);
        let b = text.subrange(j, j + n);
        if k <= 6 {
            // the colon of the first one, seen from the second
            assert(a[6] == text[i + 6] && b[6 - k] == text[i + 6]);
        } else if k + 6 < n {
            // the colon of the second one, seen from the first
            assert(b[6] == text[j + 6] && a[k + 6] == text[j + 6]);
        } else {
            // the last hyphen of the first one, seen from the second
            assert(a[n - 1] == text[i + n - 1] && b[n - 1 - k] == text[i + n - 1]);
        }
    }
}

/// The pins found from `from` on are exactly those anchored there.
proof fn lemma_pins_from_exact(text: Seq<u8>, prefix: Seq<u8>, from: int, pin: Pin)
    requires
        prefix_shape(prefix),
        text.len() <= usize::MAX,
        0 <= from,
    ensures
        pins_from(text, prefix, from).contains(pin) <==> (anchored(text, prefix, pin)
            && pin.start - prefix.len() >= from),
    decreases text.len() - from,
{
    let found = pins_from(text, prefix, from);
    if from >= text.len() {
        assert(!found.contains(pin));
    } else if occurs_at(text, prefix, from) {
        let after = from + prefix.len();
        let rest = pins_from(text, prefix, after);
        lemma_pins_from_exact(text, prefix, after, pin);
        if anchored(text, prefix, pin) && pin.start - prefix.len() > from {
            lemma_no_overlap(text, prefix, from, pin.start - prefix.len());
        }
        match pin_at(text, after) {
            Some(first) => {
                assert(found == seq![first] + rest);
                if found.contains(pin) {
                    let k = choose|k: int| 0 <= k < found.len() && found[k] == pin;
                    if k > 0 {
                        assert(rest[k - 1] == pin);
                    }
                }
                if pin == first {
                    assert(found[0] == pin);
                }
                if rest.contains(pin) {
                    let k = choose|k: int| 0 <= k < rest.len() && rest[k] == pin;
                    assert(found[k + 1] == pin);
                }
            },
            None => {},
        }
    } else {
        lemma_pins_from_exact(text, prefix, from + 1, pin);
    }
}

/// Behind a known prefix every occurrence counts: the pins found are exactly
/// the releases that stand right behind it.
pub proof fn lemma_pins_exact(text: Seq<u8>, prefix: Seq<u8>, pin: Pin)
    requires
        known_prefix(prefix),
        text.len() <= usize::MAX,
    ensures
        pins_from(text, prefix, 0).contains(pin) <==> anchored(text, prefix, pin),
{
    lemma_prefix_shape(prefix);
    lemma_pins_from_exact(text, prefix, 0, pin);
}

/// `prefix` stands in `text` at byte `i`, no pin follows it, and `piece` is what
/// stands there instead.
pub open spec fn unpinned_at(
    text: Seq<u8>,
    prefix: Seq<u8>,
    i: int,
    piece: Option<Seq<u8>>,
) -> bool {
    &&& occurs_at(text, prefix, i)
    &&& pin_at(text, i + prefix.len()) is None
    &&& piece == piece_at(text, i + prefix.len())
}

/// What is skipped from `from` on is exactly what stands unpinned there.
proof fn lemma_skipped_from_exact(
    text: Seq<u8>,
    prefix: Seq<u8>,
    from: int,
    piece: Option<Seq<u8>>,
)
    requires
        prefix_shape(prefix),
        0 <= from,
    ensures
        skipped_from(text, prefix, from).contains(piece) <==> exists|i: int|
            from <= i && #[trigger] unpinned_at(text, prefix, i, piece),
    decreases text.len() + 1 - from,
{
    let found = skipped_from(text, prefix, from);
    if from > text.len() {
        assert(!found.contains(piece));
    } else if occurs_at(text, prefix, from) {
        let after = from + prefix.len();
        let rest = skipped_from(text, prefix, after);
        lemma_skipped_from_exact(text, prefix, after, piece);
        if exists|i: int| from <= i && #[trigger] unpinned_at(text, prefix, i, piece) {
            let i = choose|i: int| from <= i && #[trigger] unpinned_at(text, prefix, i, piece);
            if i > from {
                lemma_no_overlap(text, prefix, from, i);
            }
        }
        if pin_at(text, after) is None {
            let first = piece_at(text, after);
            assert(found == seq![first] + rest);
            assert(found[0] == first);
            assert(unpinned_at(text, prefix, from, first));
            if found.contains(piece) {
                let k = choose|k: int| 0 <= k < found.len() && found[k] == piece;
                assert(k > 0 ==> rest[k - 1] == piece);
            }
            if rest.contains(piece) {
                let k = choose|k: int| 0 <= k < rest.len() && rest[k] == piece;
                assert(found[k + 1] == piece);
            }
        }
    } else {
        lemma_skipped_from_exact(text, prefix, from + 1, piece);
        if exists|i: int| from <= i && #[trigger] unpinned_at(text, prefix, i, piece) {
            let i = choose|i: int| from <= i && #[trigger] unpinned_at(text, prefix, i, piece);
            assert(i != from);
        }
    }
}

/// Behind a known prefix nothing is passed over in silence: what is skipped is
/// exactly what stands behind it where no pin does.
pub proof fn lemma_skipped_exact(text: Seq<u8>, prefix: Seq<u8>, piece: Option<Seq<u8>>)
    requires
        known_prefix(prefix),
    ensures
        skipped_from(text, prefix, 0).contains(piece) <==> exists|i: int| #[trigger]
            unpinned_at(text, prefix, i, piece),
{
    lemma_prefix_shape(prefix);
    lemma_skipped_from_exact(text, prefix, 0, piece);
    if exists|i: int| #[trigger] unpinned_at(text, prefix, i, piece) {
        let i = choose|i: int| #[trigger] unpinned_at(text, prefix, i, piece);
        assert(0 <= i);
    }
}

/// How often `prefix` occurs from byte `from` on, leftmost first and without
/// overlap.
pub open spec fn occurrences(text: Seq<u8>, prefix: Seq<u8>, from: int) -> nat
    decreases text.len() + 1 - from,
{
    if from < 0 || from > text.len() {
        0
    } else if occurs_at(text, prefix, from) {
        let step = if prefix.len() == 0 {
            1
        } else {
            prefix.len()
        };
        1 + occurrences(text, prefix, from + step)
    } else {
        occurrences(text, prefix, from + 1)
    }
}

/// Every occurrence of a prefix is either a pin or skipped, and never both.
pub proof fn lemma_pinned_or_skipped(text: Seq<u8>, prefix: Seq<u8>, from: int)
    ensures
        pins_from(text, prefix, from).len() + skipped_from(text, prefix, from).len()
            == occurrences(text, prefix, from),
    decreases text.len() + 1 - from,
{
    if 0 <= from <= text.len() {
        if occurs_at(text, prefix, from) {
            let step: int = if prefix.len() == 0 {
                1
            } else {
                prefix.len() as int
            };
            lemma_pinned_or_skipped(text, prefix, from + step);
        } else {
            lemma_pinned_or_skipped(text, prefix, from + 1);
        }
    }
}

/// Each of `pins` begins before those that follow it, and none before `bound`.
pub open spec fn in_appearance_order(pins: Seq<Pin>, bound: int) -> bool {
    &&& forall|i: int| 0 <= i < pins.len() ==> bound <= (#[trigger] pins[i]).start
    &&& forall|i: int, j: int|
        0 <= i < j < pins.len() ==> (#[trigger] pins[i]).start < (#[trigger] pins[j]).start
}

/// Pins are found in order of appearance, each once.
pub proof fn lemma_pins_in_order(text: Seq<u8>, prefix: Seq<u8>, from: int)
    requires
        text.len() <= usize::MAX,
        0 <= from,
    ensures
        in_appearance_order(pins_from(text, prefix, from), from + prefix.len()),
    decreases text.len() - from,
{
    let found = pins_from(text, prefix, from);
    if from >= text.len() {
        assert(found.len() == 0);
    } else if occurs_at(text, prefix, from) {
        let after = from + prefix.len();
        let next = if prefix.len() == 0 {
            from + 1
        } else {
            after
        };
        let rest = pins_from(text, prefix, next);
        lemma_pins_in_order(text, prefix, next);
        match pin_at(text, after) {
            Some(first) => {
                assert(found == seq![first] + rest);
                assert(first.start == after);
                assert forall|i: int, j: int| 0 <= i < j < found.len() implies (
                #[trigger] found[i]).start < (#[trigger] found[j]).start by {
                    assert(found[j] == rest[j - 1]);
                    if i > 0 {
                        assert(found[i] == rest[i - 1]);
                    }
                }
            },
            None => {
                assert(found == rest);
            },
        }
    } else {
        lemma_pins_in_order(text, prefix, from + 1);
        assert(found == pins_from(text, prefix, from + 1));
    }
}

proof fn lemma_stale_exact(pins: Seq<Pin>, target: Version, b: Bump)
    ensures
        stale(pins, target).contains(b) <==> (pins.contains(b.from) && b.from.version.before(target)
            && b.to == target),
    decreases pins.len(),
{
    if pins.len() > 0 {
        let rest = pins.drop_last();
        lemma_stale_exact(rest, target, b);
        let all = stale(pins, target);
        if rest.contains(b.from) {
            let k = choose|k: int| 0 <= k < rest.len() && rest[k] == b.from;
            assert(pins[k] == b.from);
        }
        if pins.contains(b.from) {
            let k = choose|k: int| 0 <= k < pins.len() && pins[k] == b.from;
            assert(k < rest.len() ==> rest[k] == b.from);
        }
        if pins.last().version.before(target) {
            let last = Bump { from: pins.last(), to: target };
            let head = stale(rest, target);
            assert(all == head.push(last));
            assert(all[all.len() - 1] == last);
            if head.contains(b) {
                let k = choose|k: int| 0 <= k < head.len() && head[k] == b;
                assert(all[k] == b);
            }
            if all.contains(b) {
                let k = choose|k: int| 0 <= k < all.len() && all[k] == b;
                assert(k < head.len() ==> head[k] == b);
            }
        }
        assert(pins[pins.len() - 1] == pins.last());
    }
}

/// The stale pins are exactly the pins older than the target, each bumped to it.
pub proof fn lemma_stale_pins_exact(text: Seq<u8>, target: Version, b: Bump)
    requires
        text.len() <= usize::MAX,
    ensures
        stale_pins(text, target).contains(b) <==> (is_pin(text, b.from)
            && b.from.version.before(target) && b.to == target),
{
    let p1 = encode_utf8(NIXPKGS_PREFIX@);
    let p2 = encode_utf8(HOME_MANAGER_PREFIX@);
    lemma_prefix_shape(p1);
    lemma_prefix_shape(p2);
    lemma_pins_from_exact(text, p1, 0, b.from);
    lemma_pins_from_exact(text, p2, 0, b.from);
    lemma_stale_exact(pins_from(text, p1, 0), target, b);
    lemma_stale_exact(pins_from(text, p2, 0), target, b);
    let s1 = stale(pins_from(text, p1, 0), target);
    let s2 = stale(pins_from(text, p2, 0), target);
    let all = stale_pins(text, target);
    assert(all == s1 + s2);
    if s1.contains(b) {
        let k = choose|k: int| 0 <= k < s1.len() && s1[k] == b;
        assert(all[k] == b);
    }
    if s2.contains(b) {
        let k = choose|k: int| 0 <= k < s2.len() && s2[k] == b;
        assert(all[s1.len() + k] == b);
    }
    if all.contains(b) {
        let k = choose|k: int| 0 <= k < all.len() && all[k] == b;
        if k < s1.len() {
            assert(s1[k] == b);
        } else {
            assert(s2[k - s1.len()] == b);
        }
    }
}

/// A pin is five bytes of a release, right behind a hyphen.
pub proof fn lemma_pin_bytes(text: Seq<u8>, pin: Pin)
    requires
        text.len() <= usize::MAX,
        is_pin(text, pin),
    ensures
        7 < pin.start,
        pin.start + VERSION_LEN == pin.end,
        pin.end <= text.len(),
        text[pin.start - 1] == 0x2d,
        forall|i: int| pin.start <= i < pin.end ==> is_version_byte(#[trigger] text[i]),
        parse_bytes(text.subrange(pin.start as int, pin.end as int)) == Some(pin.version),
        pin.version.spellable(),
{
    let p1 = encode_utf8(NIXPKGS_PREFIX@);
    let prefix = if anchored(text, p1, pin) {
        p1
    } else {
        encode_utf8(HOME_MANAGER_PREFIX@)
    };
    lemma_prefix_shape(prefix);
    let n = prefix.len() as int;
    assert(anchored(text, prefix, pin));
    assert(text.subrange(pin.start - n, pin.start as int)[n - 1] == prefix[n - 1]);
    let v = text.subrange(pin.start as int, pin.start + VERSION_LEN);
    assert(v[0] == text[pin.start + 0] && v[1] == text[pin.start + 1] && v[2] == text[pin.start + 2]
        && v[3] == text[pin.start + 3] && v[4] == text[pin.start + 4]);
    assert forall|i: int| pin.start <= i < pin.end implies is_version_byte(#[trigger] text[i]) by {
        assert(v[i - pin.start] == text[i]);
    }
}

/// Two pins of a text do not overlap.
pub proof fn lemma_pins_apart(text: Seq<u8>, a: Pin, b: Pin)
    requires
        text.len() <= usize::MAX,
        is_pin(text, a),
        is_pin(text, b),
        a != b,
    ensures
        ahead(a, b) || ahead(b, a),
{
    lemma_pin_bytes(text, a);
    lemma_pin_bytes(text, b);
    if a.start < b.start && b.start < a.end {
        assert(is_version_byte(text[b.start - 1]));
    }
    if b.start < a.start && a.start < b.end {
        assert(is_version_byte(text[a.start - 1]));
    }
}

/// What is stale in a text can be rewritten in it.
pub proof fn lemma_stale_pins_applicable(text: Seq<u8>, target: Version)
    requires
        valid_utf8(text),
        text.len() <= usize::MAX,
    ensures
        applicable(text, stale_pins(text, target)),
{
    let bumps = stale_pins(text, target);
    assert forall|b: Bump| #[trigger] bumps.contains(b) implies b.from.start <= b.from.end
        <= text.len() && is_char_boundary(text, b.from.start as int) && is_char_boundary(
        text,
        b.from.end as int,
    ) by {
        lemma_stale_pins_exact(text, target, b);
        lemma_pin_bytes(text, b.from);
        lemma_boundary_after_ascii(text, b.from.start - 1);
        assert(is_version_byte(text[b.from.end - 1]));
        lemma_boundary_after_ascii(text, b.from.end - 1);
    }
    assert forall|a: Bump, b: Bump| #[trigger]
        bumps.contains(a) && #[trigger] bumps.contains(b) && a != b implies ahead(a.from, b.from)
        || ahead(b.from, a.from) by {
        lemma_stale_pins_exact(text, target, a);
        lemma_stale_pins_exact(text, target, b);
        lemma_pins_apart(text, a.from, b.from);
    }
}

/// A shaped prefix occurs wherever its bytes stand.
proof fn lemma_occurs_where_it_stands(text: Seq<u8>, prefix: Seq<u8>, i: int)
    requires
        valid_utf8(text),
        prefix_shape(prefix),
    ensures
        occurs_at(text, prefix, i) <==> (0 <= i && i + prefix.len() <= text.len() && text.subrange(
            i,
            i + prefix.len(),
        ) == prefix),
{
    if 0 <= i && i + prefix.len() <= text.len() && text.subrange(i, i + prefix.len()) == prefix {
        assert(text.subrange(i, i + prefix.len())[0] == text[i]);
        lemma_boundary_after_ascii(text, i);
    }
}

/// What a pin is, byte by byte: five bytes `dd.dd` right behind one of the two
/// prefixes, wherever in the text that is.
pub proof fn lemma_pin_is_a_release_behind_a_prefix(text: Seq<u8>, pin: Pin)
    requires
        valid_utf8(text),
        text.len() <= usize::MAX,
    ensures
        is_pin(text, pin) <==> {
            let a = encode_utf8("github:nixos/nixpkgs/nixos-"@);
            let b = encode_utf8("github:nix-community/home-manager/release-"@);
            let s = pin.start as int;
            &&& pin.end == s + 5
            &&& s + 5 <= text.len()
            &&& (a.len() <= s && text.subrange(s - a.len(), s) == a) || (b.len() <= s
                && text.subrange(s - b.len(), s) == b)
            &&& 0x30 <= text[s] <= 0x39 && 0x30 <= text[s + 1] <= 0x39
            &&& text[s + 2] == 0x2e
            &&& 0x30 <= text[s + 3] <= 0x39 && 0x30 <= text[s + 4] <= 0x39
            &&& pin.version.year == 10 * (text[s] - 0x30) + (text[s + 1] - 0x30)
            &&& pin.version.month == 10 * (text[s + 3] - 0x30) + (text[s + 4] - 0x30)
        },
{
    let a = encode_utf8(NIXPKGS_PREFIX@);
    let b = encode_utf8(HOME_MANAGER_PREFIX@);
    let s = pin.start as int;
    lemma_prefix_shape(a);
    lemma_prefix_shape(b);
    lemma_occurs_where_it_stands(text, a, s - a.len());
    lemma_occurs_where_it_stands(text, b, s - b.len());
    if s + 5 <= text.len() {
        let v = text.subrange(s, s + 5);
        assert(v[0] == text[s] && v[1] == text[s + 1] && v[2] == text[s + 2] && v[3] == text[s + 3]
            && v[4] == text[s + 4]);
        lemma_reads_two_numbers(v, pin.version);
    }
}

/// Every release behind a prefix is found and nothing else is: the pins hold
/// the one at bytes `start..end` exactly when the prefix stands in front of it
/// and the five bytes there are its digits, wherever in the text that is.
pub proof fn lemma_every_release_is_found(text: Seq<u8>, prefix: Seq<u8>, pin: Pin)
    requires
        valid_utf8(text),
        text.len() <= usize::MAX,
        prefix == encode_utf8("github:nixos/nixpkgs/nixos-"@) || prefix == encode_utf8(
            "github:nix-community/home-manager/release-"@,
        ),
    ensures
        pins_from(text, prefix, 0).contains(pin) <==> {
            let s = pin.start as int;
            &&& pin.end == s + 5
            &&& s + 5 <= text.len()
            &&& prefix.len() <= s && text.subrange(s - prefix.len(), s) == prefix
            &&& 0x30 <= text[s] <= 0x39 && 0x30 <= text[s + 1] <= 0x39
            &&& text[s + 2] == 0x2e
            &&& 0x30 <= text[s + 3] <= 0x39 && 0x30 <= text[s + 4] <= 0x39
            &&& pin.version.year == 10 * (text[s] - 0x30) + (text[s + 1] - 0x30)
            &&& pin.version.month == 10 * (text[s + 3] - 0x30) + (text[s + 4] - 0x30)
        },
{
    let s = pin.start as int;
    lemma_prefix_shape(prefix);
    lemma_pins_from_exact(text, prefix, 0, pin);
    lemma_occurs_where_it_stands(text, prefix, s - prefix.len());
    if s + 5 <= text.len() {
        let v = text.subrange(s, s + 5);
        assert(v[0] == text[s] && v[1] == text[s + 1] && v[2] == text[s + 2] && v[3] == text[s + 3]
            && v[4] == text[s + 4]);
        lemma_reads_two_numbers(v, pin.version);
    }
}

/// How far a scan goes on behind an occurrence.
spec fn stride(prefix: Seq<u8>) -> int {
    if prefix.len() == 0 {
        1
    } else {
        prefix.len() as int
    }
}

/// Where the occurrences from byte `from` on begin.
spec fn starts_from(text: Seq<u8>, prefix: Seq<u8>, from: int) -> Seq<int>
    decreases text.len() + 1 - from,
{
    if from < 0 || from > text.len() {
        Seq::empty()
    } else if occurs_at(text, prefix, from) {
        seq![from] + starts_from(text, prefix, from + stride(prefix))
    } else {
        starts_from(text, prefix, from + 1)
    }
}

/// Where the occurrences without a pin begin.
spec fn unpinned_from(text: Seq<u8>, prefix: Seq<u8>, from: int) -> Seq<int>
    decreases text.len() + 1 - from,
{
    if from < 0 || from > text.len() {
        Seq::empty()
    } else if occurs_at(text, prefix, from) {
        let rest = unpinned_from(text, prefix, from + stride(prefix));
        if pin_at(text, from + prefix.len()) is None {
            seq![from] + rest
        } else {
            rest
        }
    } else {
        unpinned_from(text, prefix, from + 1)
    }
}

pub(crate) proof fn lemma_contains_cons<A>(x: A, rest: Seq<A>, y: A)
    ensures
        (seq![x] + rest).contains(y) <==> (y == x || rest.contains(y)),
{
    let all = seq![x] + rest;
    assert(all[0] == x);
    if rest.contains(y) {
        let k = choose|k: int| 0 <= k < rest.len() && rest[k] == y;
        assert(all[k + 1] == y);
    }
    if all.contains(y) {
        let k = choose|k: int| 0 <= k < all.len() && all[k] == y;
        assert(k > 0 ==> rest[k - 1] == y);
    }
}

proof fn lemma_starts(text: Seq<u8>, prefix: Seq<u8>, from: int)
    requires
        0 <= from,
    ensures
        forall|k: int|
            0 <= k < starts_from(text, prefix, from).len() ==> from <= #[trigger] starts_from(
                text,
                prefix,
                from,
            )[k] && occurs_at(text, prefix, starts_from(text, prefix, from)[k]),
        forall|j: int, k: int|
            0 <= j < k < starts_from(text, prefix, from).len() ==> #[trigger] starts_from(
                text,
                prefix,
                from,
            )[j] + stride(prefix) <= #[trigger] starts_from(text, prefix, from)[k],
    decreases text.len() + 1 - from,
{
    let all = starts_from(text, prefix, from);
    if from > text.len() {
    } else if occurs_at(text, prefix, from) {
        let next = from + stride(prefix);
        let rest = starts_from(text, prefix, next);
        lemma_starts(text, prefix, next);
        assert(all == seq![from] + rest);
        assert forall|k: int| 0 <= k < all.len() implies from <= #[trigger] all[k] && occurs_at(
            text,
            prefix,
            all[k],
        ) by {
            assert(k > 0 ==> all[k] == rest[k - 1]);
        }
        assert forall|j: int, k: int| 0 <= j < k < all.len() implies #[trigger] all[j] + stride(
            prefix,
        ) <= #[trigger] all[k] by {
            assert(all[k] == rest[k - 1]);
            assert(j > 0 ==> all[j] == rest[j - 1]);
        }
    } else {
        lemma_starts(text, prefix, from + 1);
        assert(all == starts_from(text, prefix, from + 1));
    }
}

/// An occurrence that is not taken overlaps one that is.
proof fn lemma_none_missed(text: Seq<u8>, prefix: Seq<u8>, from: int, i: int)
    requires
        0 <= from <= i,
        occurs_at(text, prefix, i),
    ensures
        exists|k: int|
            0 <= k < starts_from(text, prefix, from).len() && #[trigger] starts_from(
                text,
                prefix,
                from,
            )[k] <= i < starts_from(text, prefix, from)[k] + stride(prefix),
    decreases text.len() + 1 - from,
{
    let all = starts_from(text, prefix, from);
    if occurs_at(text, prefix, from) {
        let next = from + stride(prefix);
        let rest = starts_from(text, prefix, next);
        assert(all == seq![from] + rest);
        if i < next {
            assert(all[0] == from);
        } else {
            lemma_none_missed(text, prefix, next, i);
            let k = choose|k: int|
                0 <= k < rest.len() && #[trigger] rest[k] <= i < rest[k] + stride(prefix);
            assert(all[k + 1] == rest[k]);
        }
    } else {
        lemma_none_missed(text, prefix, from + 1, i);
        assert(all == starts_from(text, prefix, from + 1));
    }
}

proof fn lemma_pins_behind_starts(text: Seq<u8>, prefix: Seq<u8>, from: int, pin: Pin)
    requires
        0 <= from,
        text.len() <= usize::MAX,
    ensures
        pins_from(text, prefix, from).contains(pin) <==> (starts_from(text, prefix, from).contains(
            pin.start - prefix.len(),
        ) && pin_at(text, pin.start as int) == Some(pin)),
    decreases text.len() + 1 - from,
{
    let n = prefix.len();
    if from > text.len() {
    } else if occurs_at(text, prefix, from) {
        let next = from + stride(prefix);
        lemma_pins_behind_starts(text, prefix, next, pin);
        lemma_contains_cons(from, starts_from(text, prefix, next), pin.start - n);
        if from < text.len() {
            if let Some(first) = pin_at(text, from + n) {
                lemma_contains_cons(first, pins_from(text, prefix, next), pin);
            }
        }
    } else {
        lemma_pins_behind_starts(text, prefix, from + 1, pin);
    }
}

proof fn lemma_skipped_at_unpinned(text: Seq<u8>, prefix: Seq<u8>, from: int)
    requires
        0 <= from,
    ensures
        skipped_from(text, prefix, from) == unpinned_from(text, prefix, from).map_values(
            |i: int| piece_at(text, i + prefix.len()),
        ),
        forall|k: int|
            0 <= k < unpinned_from(text, prefix, from).len() ==> from <= #[trigger] unpinned_from(
                text,
                prefix,
                from,
            )[k],
        forall|j: int, k: int|
            0 <= j < k < unpinned_from(text, prefix, from).len() ==> #[trigger] unpinned_from(
                text,
                prefix,
                from,
            )[j] < #[trigger] unpinned_from(text, prefix, from)[k],
    decreases text.len() + 1 - from,
{
    let all = unpinned_from(text, prefix, from);
    let f = |i: int| piece_at(text, i + prefix.len());
    if from > text.len() {
        assert(skipped_from(text, prefix, from) =~= all.map_values(f));
    } else if occurs_at(text, prefix, from) {
        let next = from + stride(prefix);
        let rest = unpinned_from(text, prefix, next);
        lemma_skipped_at_unpinned(text, prefix, next);
        if pin_at(text, from + prefix.len()) is None {
            assert(all == seq![from] + rest);
            assert forall|k: int| 0 <= k < all.len() implies from <= #[trigger] all[k] by {
                assert(k > 0 ==> all[k] == rest[k - 1]);
            }
            assert forall|j: int, k: int| 0 <= j < k < all.len() implies #[trigger] all[j]
                < #[trigger] all[k] by {
                assert(all[k] == rest[k - 1]);
                assert(j > 0 ==> all[j] == rest[j - 1]);
            }
            assert(all.map_values(f) =~= seq![f(from)] + rest.map_values(f));
        } else {
            assert(all == rest);
        }
    } else {
        lemma_skipped_at_unpinned(text, prefix, from + 1);
        assert(all == unpinned_from(text, prefix, from + 1));
    }
}

proof fn lemma_unpinned_starts(text: Seq<u8>, prefix: Seq<u8>, from: int, i: int)
    requires
        0 <= from,
    ensures
        unpinned_from(text, prefix, from).contains(i) <==> (starts_from(
            text,
            prefix,
            from,
        ).contains(i) && pin_at(text, i + prefix.len()) is None),
    decreases text.len() + 1 - from,
{
    if from > text.len() {
    } else if occurs_at(text, prefix, from) {
        let next = from + stride(prefix);
        lemma_unpinned_starts(text, prefix, next, i);
        lemma_contains_cons(from, starts_from(text, prefix, next), i);
        lemma_contains_cons(from, unpinned_from(text, prefix, next), i);
    } else {
        lemma_unpinned_starts(text, prefix, from + 1, i);
    }
}

/// What a scan for any `prefix` sees. Its occurrences are taken leftmost first:
/// each is one, none overlaps the one before, and whatever is left out overlaps
/// one that is taken. The pins are the releases right behind them, and what is
/// skipped is what stands behind the others, in their order.
pub proof fn lemma_scan_is_leftmost_first(text: Seq<u8>, prefix: Seq<u8>) -> (r: (
    Seq<int>,
    Seq<int>,
))
    requires
        valid_utf8(text),
        text.len() <= usize::MAX,
    ensures
        forall|k: int|
            0 <= k < r.0.len() ==> 0 <= #[trigger] r.0[k] && r.0[k] + prefix.len() <= text.len()
                && is_char_boundary(text, r.0[k]) && text.subrange(r.0[k], r.0[k] + prefix.len())
                == prefix,
        forall|j: int, k: int|
            0 <= j < k < r.0.len() ==> #[trigger] r.0[j] < #[trigger] r.0[k] && r.0[j]
                + prefix.len() <= r.0[k],
        forall|i: int, e: int|
            0 <= i && i + prefix.len() == e && e <= text.len() && is_char_boundary(text, i)
                && #[trigger] text.subrange(i, e) == prefix ==> r.0.contains(i) || exists|k: int|
                0 <= k < r.0.len() && #[trigger] r.0[k] < i < r.0[k] + prefix.len(),
        forall|pin: Pin| #[trigger]
            pins_from(text, prefix, 0).contains(pin) <==> (r.0.contains(pin.start - prefix.len())
                && pin.end == pin.start + 5 && pin.end <= text.len() && parse_bytes(
                text.subrange(pin.start as int, pin.end as int),
            ) == Some(pin.version)),
        forall|j: int, k: int|
            0 <= j < k < pins_from(text, prefix, 0).len() ==> (#[trigger] pins_from(
                text,
                prefix,
                0,
            )[j]).start < (#[trigger] pins_from(text, prefix, 0)[k]).start,
        forall|j: int, k: int| 0 <= j < k < r.1.len() ==> #[trigger] r.1[j] < #[trigger] r.1[k],
        forall|i: int| #[trigger]
            r.1.contains(i) <==> (r.0.contains(i) && !(i + prefix.len() + 5 <= text.len()
                && parse_bytes(text.subrange(i + prefix.len(), i + prefix.len() + 5)) is Some)),
        skipped_from(text, prefix, 0).len() == r.1.len(),
        forall|k: int|
            0 <= k < r.1.len() ==> #[trigger] skipped_from(text, prefix, 0)[k] == {
                let s = r.1[k] + prefix.len();
                if s + 5 <= text.len() && is_char_boundary(text, s) && is_char_boundary(
                    text,
                    s + 5,
                ) {
                    Some(text.subrange(s, s + 5))
                } else {
                    None
                }
            },
{
    let starts = starts_from(text, prefix, 0);
    let at = unpinned_from(text, prefix, 0);
    let n = prefix.len();
    lemma_starts(text, prefix, 0);
    lemma_pins_in_order(text, prefix, 0);
    lemma_skipped_at_unpinned(text, prefix, 0);
    assert forall|i: int, e: int|
        0 <= i && i + n == e && e <= text.len() && is_char_boundary(text, i)
            && #[trigger] text.subrange(i, e) == prefix implies starts.contains(i) || exists|
        k: int,
    |
        0 <= k < starts.len() && #[trigger] starts[k] < i < starts[k] + n by {
        lemma_none_missed(text, prefix, 0, i);
        let k = choose|k: int|
            0 <= k < starts.len() && #[trigger] starts[k] <= i < starts[k] + stride(prefix);
        if starts[k] == i {
            assert(starts.contains(i));
        }
    }
    assert forall|pin: Pin| #[trigger]
        pins_from(text, prefix, 0).contains(pin) <==> (starts.contains(pin.start - n) && pin.end
            == pin.start + 5 && pin.end <= text.len() && parse_bytes(
            text.subrange(pin.start as int, pin.end as int),
        ) == Some(pin.version)) by {
        lemma_pins_behind_starts(text, prefix, 0, pin);
    }
    assert forall|i: int| #[trigger]
        at.contains(i) <==> (starts.contains(i) && !(i + n + 5 <= text.len() && parse_bytes(
            text.subrange(i + n, i + n + 5),
        ) is Some)) by {
        lemma_unpinned_starts(text, prefix, 0, i);
        if starts.contains(i) {
            let k = choose|k: int| 0 <= k < starts.len() && starts[k] == i;
            assert(0 <= starts[k]);
        }
    }
    assert forall|k: int| 0 <= k < at.len() implies #[trigger] skipped_from(text, prefix, 0)[k]
        == piece_at(text, at[k] + n) && 0 <= at[k] by {}
    (starts, at)
}

/// What is passed over in a text is what the scan for the nixpkgs prefix skips,
/// then what the scan for the home-manager prefix skips.
pub proof fn lemma_skipped_behind_both(text: Seq<u8>, shown: Seq<Option<String>>)
    requires
        pieces(shown) == skipped_behind_known(text),
    ensures
        ({
            let a = skipped_from(text, encode_utf8("github:nixos/nixpkgs/nixos-"@), 0);
            let b = skipped_from(
                text,
                encode_utf8("github:nix-community/home-manager/release-"@),
                0,
            );
            &&& shown.len() == a.len() + b.len()
            &&& forall|k: int|
                0 <= k < shown.len() ==> match #[trigger] shown[k] {
                    Some(s) => (a + b)[k] == Some(encode_utf8(s@)),
                    None => (a + b)[k] is None,
                }
        }),
{
    let a = skipped_from(text, encode_utf8(NIXPKGS_PREFIX@), 0);
    let b = skipped_from(text, encode_utf8(HOME_MANAGER_PREFIX@), 0);
    assert(pieces(shown) == a + b);
    assert(pieces(shown).len() == shown.len());
    assert forall|k: int| 0 <= k < shown.len() implies match #[trigger] shown[k] {
        Some(s) => pieces(shown)[k] == Some(encode_utf8(s@)),
        None => pieces(shown)[k] is None,
    } by {}
}

/// Shown pieces are the bytes that were skipped, one for one.
pub proof fn lemma_shown_is_what_was_skipped(
    text: Seq<u8>,
    prefix: Seq<u8>,
    shown: Seq<Option<String>>,
)
    requires
        pieces(shown) == skipped_from(text, prefix, 0),
    ensures
        shown.len() == skipped_from(text, prefix, 0).len(),
        forall|k: int|
            0 <= k < shown.len() ==> match #[trigger] shown[k] {
                Some(s) => skipped_from(text, prefix, 0)[k] == Some(encode_utf8(s@)),
                None => skipped_from(text, prefix, 0)[k] is None,
            },
{
    assert forall|k: int| 0 <= k < shown.len() implies match #[trigger] shown[k] {
        Some(s) => pieces(shown)[k] == Some(encode_utf8(s@)),
        None => pieces(shown)[k] is None,
    } by {}
}

proof fn lemma_stale_keeps_order(pins: Seq<Pin>, target: Version)
    requires
        in_appearance_order(pins, 0),
    ensures
        forall|i: int, j: int|
            0 <= i < j < stale(pins, target).len() ==> (#[trigger] stale(
                pins,
                target,
            )[i]).from.start < (#[trigger] stale(pins, target)[j]).from.start,
    decreases pins.len(),
{
    if pins.len() > 0 {
        let init = pins.drop_last();
        let head = stale(init, target);
        let all = stale(pins, target);
        lemma_stale_keeps_order(init, target);
        assert forall|i: int, j: int| 0 <= i < j < all.len() implies (
        #[trigger] all[i]).from.start < (#[trigger] all[j]).from.start by {
            if j < head.len() {
                assert(all[i] == head[i] && all[j] == head[j]);
            } else {
                assert(all[i] == head[i] && all[j].from == pins.last());
                lemma_stale_exact(init, target, head[i]);
                assert(head.contains(head[i]));
                let k = choose|k: int| 0 <= k < init.len() && init[k] == head[i].from;
                assert(pins[k] == init[k]);
            }
        }
    }
}

/// Bumps come once each: first those behind the nixpkgs prefix, then those
/// behind the home-manager prefix, each in order of appearance.
pub proof fn lemma_bumps_come_in_order(text: Seq<u8>, target: Version) -> (n: int)
    requires
        valid_utf8(text),
        text.len() <= usize::MAX,
    ensures
        0 <= n <= stale_pins(text, target).len(),
        forall|b: Bump|
            stale_pins(text, target).take(n).contains(b) <==> (pins_from(
                text,
                encode_utf8("github:nixos/nixpkgs/nixos-"@),
                0,
            ).contains(b.from) && b.from.version.before(target) && b.to == target),
        forall|b: Bump|
            stale_pins(text, target).skip(n).contains(b) <==> (pins_from(
                text,
                encode_utf8("github:nix-community/home-manager/release-"@),
                0,
            ).contains(b.from) && b.from.version.before(target) && b.to == target),
        forall|i: int, j: int|
            0 <= i < j < n ==> (#[trigger] stale_pins(text, target)[i]).from.start < (
            #[trigger] stale_pins(text, target)[j]).from.start,
        forall|i: int, j: int|
            n <= i < j < stale_pins(text, target).len() ==> (#[trigger] stale_pins(
                text,
                target,
            )[i]).from.start < (#[trigger] stale_pins(text, target)[j]).from.start,
{
    let p1 = pins_from(text, encode_utf8(NIXPKGS_PREFIX@), 0);
    let p2 = pins_from(text, encode_utf8(HOME_MANAGER_PREFIX@), 0);
    let s1 = stale(p1, target);
    let s2 = stale(p2, target);
    let all = stale_pins(text, target);
    lemma_pins_in_order(text, encode_utf8(NIXPKGS_PREFIX@), 0);
    lemma_pins_in_order(text, encode_utf8(HOME_MANAGER_PREFIX@), 0);
    lemma_stale_keeps_order(p1, target);
    lemma_stale_keeps_order(p2, target);
    let n = s1.len() as int;
    assert(all.take(n) =~= s1);
    assert(all.skip(n) =~= s2);
    assert forall|b: Bump|
        all.take(n).contains(b) <==> (p1.contains(b.from) && b.from.version.before(target) && b.to
            == target) by {
        lemma_stale_exact(p1, target, b);
    }
    assert forall|b: Bump|
        all.skip(n).contains(b) <==> (p2.contains(b.from) && b.from.version.before(target) && b.to
            == target) by {
        lemma_stale_exact(p2, target, b);
    }
    assert forall|i: int, j: int| n <= i < j < all.len() implies (#[trigger] all[i]).from.start < (
    #[trigger] all[j]).from.start by {
        assert(all[i] == s2[i - n] && all[j] == s2[j - n]);
    }
    n
}

} // verus!

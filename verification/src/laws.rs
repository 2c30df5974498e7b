//! What holds of bumping a text as a whole.

use crate::anchors::{
    is_pin, is_version_byte, known_prefix, lemma_pin_bytes, lemma_pins_apart, lemma_prefix_shape,
    lemma_stale_pins_applicable, lemma_stale_pins_exact,
};
use crate::pins::{
    ahead, applicable, bump_at, covered, lemma_bump_at, lemma_kept_run, lemma_replaced_run,
    occurs_at, rewritten, rewritten_upto, stale_pins, starts_at, updated, Bump, Pin,
    HOME_MANAGER_PREFIX, NIXPKGS_PREFIX,
};
use crate::text::{lemma_ascii_swap, lemma_ascii_valid, lemma_boundary_after_ascii};
use crate::version::{lemma_parse_spelled, lemma_spells_two_numbers, Version};
use vstd::prelude::*;
use vstd::utf8::*;

verus! {

/// `text` with every stale pin moved to `target`.
pub open spec fn bumped(text: Seq<u8>, target: Version) -> Seq<u8> {
    updated(text, stale_pins(text, target))
}

/// The later of two releases.
pub open spec fn later(a: Version, b: Version) -> Version {
    if a.before(b) {
        b
    } else {
        a
    }
}

/// Every bump puts as many bytes as it takes.
pub open spec fn in_place(bumps: Seq<Bump>) -> bool {
    forall|b: Bump| #[trigger]
        bumps.contains(b) ==> b.from.start < b.from.end && b.to.spelled().len() == b.from.end
            - b.from.start
}

/// The bump whose span byte `i` lies in.
pub open spec fn cover(bumps: Seq<Bump>, i: int) -> Bump {
    choose|b: Bump| #[trigger] bumps.contains(b) && b.from.start <= i < b.from.end
}

/// What byte `i` becomes under bumps that keep every length.
pub open spec fn byte_after(text: Seq<u8>, bumps: Seq<Bump>, i: int) -> u8 {
    if covered(bumps, i) {
        cover(bumps, i).to.spelled()[i - cover(bumps, i).from.start]
    } else {
        text[i]
    }
}

proof fn lemma_cover(text: Seq<u8>, bumps: Seq<Bump>, b: Bump, i: int)
    requires
        applicable(text, bumps),
        bumps.contains(b),
        b.from.start <= i < b.from.end,
    ensures
        covered(bumps, i),
        cover(bumps, i) == b,
{
    let c = cover(bumps, i);
    assert(bumps.contains(c) && c.from.start <= i < c.from.end);
    if c != b {
        assert(ahead(b.from, c.from) || ahead(c.from, b.from));
    }
}

/// How many bytes are written once the first `n` are handled: a span that has
/// begun is written whole.
spec fn front(text: Seq<u8>, bumps: Seq<Bump>, n: int) -> int {
    if n > text.len() {
        text.len() as int
    } else if covered(bumps, n) && !starts_at(bumps, n) {
        cover(bumps, n).from.end as int
    } else {
        n
    }
}

proof fn lemma_in_place_upto(text: Seq<u8>, bumps: Seq<Bump>, n: int)
    requires
        applicable(text, bumps),
        in_place(bumps),
        0 <= n <= text.len() + 1,
    ensures
        rewritten_upto(text, bumps, n as nat).len() == front(text, bumps, n),
        n <= front(text, bumps, n) || n == text.len() + 1,
        front(text, bumps, n) <= text.len(),
        forall|i: int|
            0 <= i < front(text, bumps, n) ==> #[trigger] rewritten_upto(text, bumps, n as nat)[i]
                == byte_after(text, bumps, i),
    decreases n,
{
    if covered(bumps, n) {
        let c = cover(bumps, n);
        assert(bumps.contains(c) && c.from.start <= n < c.from.end);
        if c.from.start == n {
            assert(starts_at(bumps, n));
        }
    }
    if n == 0 {
    } else {
        let m = n - 1;
        lemma_in_place_upto(text, bumps, m);
        let done = rewritten_upto(text, bumps, m as nat);
        let all = rewritten_upto(text, bumps, n as nat);
        assert(all == done + rewritten(text, bumps, m));
        if starts_at(bumps, m) {
            let b = bump_at(bumps, m);
            assert(bumps.contains(b) && b.from.start == m);
            lemma_cover(text, bumps, b, m);
            assert(rewritten(text, bumps, m) =~= b.to.spelled());
            assert forall|i: int| m <= i < b.from.end implies #[trigger] all[i] == byte_after(
                text,
                bumps,
                i,
            ) by {
                lemma_cover(text, bumps, b, i);
            }
            lemma_after_start(text, bumps, b, n);
        } else if covered(bumps, m) {
            let b = cover(bumps, m);
            assert(bumps.contains(b) && b.from.start <= m < b.from.end);
            assert(rewritten(text, bumps, m) =~= Seq::<u8>::empty());
            lemma_after_start(text, bumps, b, n);
        } else {
            if covered(bumps, n) && n <= text.len() {
                let c = cover(bumps, n);
                if c.from.start < n {
                    lemma_cover(text, bumps, c, m);
                }
            }
        }
    }
}

/// Right behind a byte of a span, the span goes on or ends.
proof fn lemma_after_start(text: Seq<u8>, bumps: Seq<Bump>, b: Bump, n: int)
    requires
        applicable(text, bumps),
        bumps.contains(b),
        b.from.start < n <= b.from.end,
    ensures
        front(text, bumps, n) == b.from.end,
{
    if n < b.from.end {
        lemma_cover(text, bumps, b, n);
        if starts_at(bumps, n) {
            let c = bump_at(bumps, n);
            assert(bumps.contains(c) && c.from.start == n);
            assert(ahead(b.from, c.from) || ahead(c.from, b.from));
        }
    } else if covered(bumps, n) && !starts_at(bumps, n) {
        let c = cover(bumps, n);
        assert(bumps.contains(c) && c.from.start <= n < c.from.end);
        if c.from.start == n {
            assert(starts_at(bumps, n));
        }
        assert(c != b);
        assert(ahead(b.from, c.from) || ahead(c.from, b.from));
    }
}

/// Bumps that put as many bytes as they take leave every other byte where and
/// as it was.
pub proof fn lemma_updated_in_place(text: Seq<u8>, bumps: Seq<Bump>)
    requires
        applicable(text, bumps),
        in_place(bumps),
    ensures
        updated(text, bumps).len() == text.len(),
        forall|i: int|
            0 <= i < text.len() ==> #[trigger] updated(text, bumps)[i] == byte_after(
                text,
                bumps,
                i,
            ),
{
    lemma_in_place_upto(text, bumps, text.len() + 1int);
}

/// What is stale moves in place.
proof fn lemma_stale_in_place(text: Seq<u8>, target: Version)
    requires
        valid_utf8(text),
        text.len() <= usize::MAX,
        target.spellable(),
    ensures
        applicable(text, stale_pins(text, target)),
        in_place(stale_pins(text, target)),
{
    lemma_stale_pins_applicable(text, target);
    assert forall|b: Bump| #[trigger] stale_pins(text, target).contains(b) implies b.from.start
        < b.from.end && b.to.spelled().len() == b.from.end - b.from.start by {
        lemma_stale_pins_exact(text, target, b);
        lemma_pin_bytes(text, b.from);
        lemma_parse_spelled(target);
    }
}

/// Only version bytes change: bumping keeps the length of the text and every
/// byte outside the stale pins, and each stale pin spells the target.
pub proof fn lemma_only_versions_change(text: Seq<u8>, target: Version)
    requires
        valid_utf8(text),
        text.len() <= usize::MAX,
        target.spellable(),
    ensures
        bumped(text, target).len() == text.len(),
        valid_utf8(bumped(text, target)),
        forall|i: int|
            #![trigger bumped(text, target)[i]]
            0 <= i < text.len() && !covered(stale_pins(text, target), i) ==> bumped(text, target)[i]
                == text[i],
        forall|i: int|
            #![trigger bumped(text, target)[i]]
            #![trigger text[i]]
            0 <= i < text.len() && covered(stale_pins(text, target), i) ==> is_version_byte(
                text[i],
            ) && is_version_byte(bumped(text, target)[i]),
        forall|b: Bump| #[trigger]
            stale_pins(text, target).contains(b) ==> bumped(text, target).subrange(
                b.from.start as int,
                b.from.end as int,
            ) == target.spelled(),
{
    let bumps = stale_pins(text, target);
    let out = bumped(text, target);
    lemma_stale_in_place(text, target);
    lemma_updated_in_place(text, bumps);
    assert forall|i: int|
        #![trigger out[i]]
        #![trigger text[i]]
        0 <= i < text.len() && covered(bumps, i) implies is_version_byte(text[i])
        && is_version_byte(out[i]) by {
        let b = cover(bumps, i);
        assert(bumps.contains(b) && b.from.start <= i < b.from.end);
        lemma_stale_pins_exact(text, target, b);
        lemma_pin_bytes(text, b.from);
        lemma_parse_spelled(target);
        let v = target.spelled();
        assert(is_version_byte(v[0]) && is_version_byte(v[1]) && is_version_byte(v[2])
            && is_version_byte(v[3]) && is_version_byte(v[4]));
        assert(out[i] == v[i - b.from.start]);
    }
    assert forall|b: Bump| #[trigger] bumps.contains(b) implies out.subrange(
        b.from.start as int,
        b.from.end as int,
    ) == target.spelled() by {
        lemma_stale_pins_exact(text, target, b);
        lemma_pin_bytes(text, b.from);
        let got = out.subrange(b.from.start as int, b.from.end as int);
        assert forall|k: int| 0 <= k < got.len() implies got[k] == target.spelled()[k] by {
            lemma_cover(text, bumps, b, b.from.start + k);
            assert(got[k] == out[b.from.start + k]);
        }
        assert(got =~= target.spelled());
    }
    assert forall|i: int| 0 <= i < text.len() implies #[trigger] text[i] == #[trigger] out[i] || (
    text[i] < 0x80 && out[i] < 0x80) by {}
    lemma_ascii_swap(text, out);
}

/// Bumping moves no prefix: each stands exactly where it stood.
pub proof fn lemma_prefixes_stay(text: Seq<u8>, target: Version, prefix: Seq<u8>, i: int)
    requires
        valid_utf8(text),
        text.len() <= usize::MAX,
        target.spellable(),
        known_prefix(prefix),
    ensures
        occurs_at(bumped(text, target), prefix, i) <==> occurs_at(text, prefix, i),
{
    let out = bumped(text, target);
    let n = prefix.len() as int;
    lemma_only_versions_change(text, target);
    lemma_prefix_shape(prefix);
    if 0 <= i && i + n <= text.len() {
        let a = text.subrange(i, i + n);
        let b = out.subrange(i, i + n);
        if a == prefix {
            assert forall|k: int| 0 <= k < n implies b[k] == a[k] by {
                assert(a[k] == text[i + k] && !is_version_byte(prefix[k]));
                assert(out[i + k] == b[k]);
            }
            assert(b =~= prefix);
        }
        if b == prefix {
            assert forall|k: int| 0 <= k < n implies b[k] == a[k] by {
                assert(b[k] == out[i + k] && !is_version_byte(prefix[k]));
            }
            assert(a =~= prefix);
        }
        if a == prefix && b == prefix {
            assert(a[0] == text[i] && b[0] == out[i] && prefix[0] < 0x80);
            lemma_boundary_after_ascii(text, i);
            lemma_boundary_after_ascii(out, i);
        }
    }
}

/// A pin that stands in `text` stands in the bumped text too, at the later of
/// its release and the target: a stale pin moves up to the target, and a pin
/// at or past the target is left alone.
pub proof fn lemma_pin_after(text: Seq<u8>, target: Version, pin: Pin)
    requires
        valid_utf8(text),
        text.len() <= usize::MAX,
        target.spellable(),
        is_pin(text, pin),
    ensures
        is_pin(bumped(text, target), (Pin { version: later(pin.version, target), ..pin })),
{
    let out = bumped(text, target);
    let p1 = encode_utf8(NIXPKGS_PREFIX@);
    let p2 = encode_utf8(HOME_MANAGER_PREFIX@);
    let bumps = stale_pins(text, target);
    lemma_only_versions_change(text, target);
    lemma_prefixes_stay(text, target, p1, pin.start - p1.len());
    lemma_prefixes_stay(text, target, p2, pin.start - p2.len());
    lemma_pin_bytes(text, pin);
    lemma_stale_pins_exact(text, target, Bump { from: pin, to: target });
    if pin.version.before(target) {
        lemma_parse_spelled(target);
        assert(bumps.contains(Bump { from: pin, to: target }));
    } else {
        assert forall|i: int| pin.start <= i < pin.end implies out[i] == text[i] by {
            if covered(bumps, i) {
                let b = cover(bumps, i);
                assert(bumps.contains(b) && b.from.start <= i < b.from.end);
                lemma_stale_pins_exact(text, target, b);
                lemma_pins_apart(text, b.from, pin);
            }
        }
        assert(out.subrange(pin.start as int, pin.end as int) =~= text.subrange(
            pin.start as int,
            pin.end as int,
        ));
    }
}

/// Every pin of the bumped text is one of `text`, at the later of its release
/// and the target: bumping neither makes pins up nor downgrades one.
pub proof fn lemma_pin_before(text: Seq<u8>, target: Version, pin: Pin)
    requires
        valid_utf8(text),
        text.len() <= usize::MAX,
        target.spellable(),
        is_pin(bumped(text, target), pin),
    ensures
        exists|old_pin: Pin| #[trigger]
            is_pin(text, old_pin) && old_pin.start == pin.start && old_pin.end == pin.end
                && pin.version == later(old_pin.version, target),
{
    let out = bumped(text, target);
    let p1 = encode_utf8(NIXPKGS_PREFIX@);
    let p2 = encode_utf8(HOME_MANAGER_PREFIX@);
    let bumps = stale_pins(text, target);
    lemma_only_versions_change(text, target);
    lemma_prefixes_stay(text, target, p1, pin.start - p1.len());
    lemma_prefixes_stay(text, target, p2, pin.start - p2.len());
    lemma_pin_bytes(out, pin);
    let s = pin.start as int;
    assert(!is_version_byte(out[s - 1]));
    assert(text[s - 1] == out[s - 1]);
    if exists|i: int| s <= i < pin.end && covered(bumps, i) {
        let i = choose|i: int| s <= i < pin.end && covered(bumps, i);
        let b = cover(bumps, i);
        assert(bumps.contains(b) && b.from.start <= i < b.from.end);
        lemma_stale_pins_exact(text, target, b);
        lemma_pin_bytes(text, b.from);
        if b.from.start < s {
            assert(is_version_byte(text[s - 1]));
        }
        if s < b.from.start {
            let h = b.from.start - 1;
            assert(!is_version_byte(text[h]));
            assert(out[h] == text[h]);
            assert(is_version_byte(out[h]));
        }
        assert(is_pin(text, b.from) && b.from.start == pin.start);
        lemma_parse_spelled(target);
    } else {
        assert(out.subrange(s, pin.end as int) =~= text.subrange(s, pin.end as int)) by {
            assert forall|i: int| s <= i < pin.end implies out[i] == text[i] by {
                assert(!covered(bumps, i));
            }
        }
        assert(is_pin(text, pin));
        lemma_stale_pins_exact(text, target, Bump { from: pin, to: target });
        if pin.version.before(target) {
            assert(covered(bumps, s)) by {
                assert(bumps.contains(Bump { from: pin, to: target }));
            }
        }
    }
}

/// Nothing to bump, nothing changed.
pub proof fn lemma_nothing_stale(text: Seq<u8>)
    ensures
        updated(text, Seq::<Bump>::empty()) == text,
{
    let none = Seq::<Bump>::empty();
    lemma_updated_in_place(text, none);
    assert(updated(text, none) =~= text);
}

/// Bumping is idempotent: afterwards nothing is stale, and bumping again
/// changes nothing.
pub proof fn lemma_idempotent(text: Seq<u8>, target: Version)
    requires
        valid_utf8(text),
        text.len() <= usize::MAX,
        target.spellable(),
    ensures
        stale_pins(bumped(text, target), target) == Seq::<Bump>::empty(),
        bumped(bumped(text, target), target) == bumped(text, target),
{
    let out = bumped(text, target);
    let again = stale_pins(out, target);
    lemma_only_versions_change(text, target);
    if again.len() > 0 {
        let b = again[0];
        assert(again.contains(b));
        lemma_stale_pins_exact(out, target, b);
        lemma_pin_before(text, target, b.from);
    }
    assert(again =~= Seq::<Bump>::empty());
    lemma_nothing_stale(out);
}

/// Every bump puts more bytes than it takes.
spec fn growing(bumps: Seq<Bump>) -> bool {
    forall|b: Bump| #[trigger]
        bumps.contains(b) ==> b.from.start < b.from.end && b.to.spelled().len() > b.from.end
            - b.from.start
}

/// Some bump begins in front of byte `n`.
spec fn begun(bumps: Seq<Bump>, n: int) -> bool {
    exists|b: Bump| #[trigger] bumps.contains(b) && b.from.start < n
}

/// With bumps that put more bytes than they take, a text gets longer.
proof fn lemma_growing_upto(text: Seq<u8>, bumps: Seq<Bump>, n: int)
    requires
        applicable(text, bumps),
        growing(bumps),
        0 <= n <= text.len() + 1,
    ensures
        rewritten_upto(text, bumps, n as nat).len() >= front(text, bumps, n),
        begun(bumps, n) ==> rewritten_upto(text, bumps, n as nat).len() > front(text, bumps, n),
    decreases n,
{
    if covered(bumps, n) {
        let c = cover(bumps, n);
        assert(bumps.contains(c) && c.from.start <= n < c.from.end);
        if c.from.start == n {
            assert(starts_at(bumps, n));
        }
    }
    if n > 0 {
        let m = n - 1;
        lemma_growing_upto(text, bumps, m);
        if starts_at(bumps, m) {
            let b = bump_at(bumps, m);
            assert(bumps.contains(b) && b.from.start == m);
            lemma_cover(text, bumps, b, m);
            assert(rewritten(text, bumps, m) =~= b.to.spelled());
            lemma_after_start(text, bumps, b, n);
        } else {
            if begun(bumps, n) {
                let b = choose|b: Bump| #[trigger] bumps.contains(b) && b.from.start < n;
                assert(b.from.start != m);
                assert(begun(bumps, m));
            }
            if covered(bumps, m) {
                let b = cover(bumps, m);
                assert(bumps.contains(b) && b.from.start <= m < b.from.end);
                assert(begun(bumps, m));
                lemma_after_start(text, bumps, b, n);
            } else if covered(bumps, n) && n <= text.len() {
                let c = cover(bumps, n);
                if c.from.start < n {
                    lemma_cover(text, bumps, c, m);
                }
            }
        }
    }
}

/// A text comes back unchanged exactly when none of its pins is stale.
pub proof fn lemma_changed_iff_stale(text: Seq<u8>, target: Version)
    requires
        valid_utf8(text),
        text.len() <= usize::MAX,
    ensures
        bumped(text, target) == text <==> stale_pins(text, target).len() == 0,
{
    let bumps = stale_pins(text, target);
    if bumps.len() == 0 {
        assert(bumps =~= Seq::<Bump>::empty());
        lemma_nothing_stale(text);
    } else {
        let b = bumps[0];
        assert(bumps.contains(b));
        lemma_stale_pins_exact(text, target, b);
        lemma_pin_bytes(text, b.from);
        if target.spellable() {
            lemma_only_versions_change(text, target);
            lemma_parse_spelled(target);
            if bumped(text, target) == text {
                assert(text.subrange(b.from.start as int, b.from.end as int)
                    == target.spelled());
            }
        } else {
            lemma_stale_pins_applicable(text, target);
            assert(target.spelled().len() > 5);
            assert forall|c: Bump| #[trigger] bumps.contains(c) implies c.from.start < c.from.end
                && c.to.spelled().len() > c.from.end - c.from.start by {
                lemma_stale_pins_exact(text, target, c);
                lemma_pin_bytes(text, c.from);
            }
            lemma_growing_upto(text, bumps, text.len() + 1int);
            assert(begun(bumps, text.len() + 1int));
        }
    }
}

/// The order in which bumps are listed does not matter.
pub proof fn lemma_order_is_immaterial(text: Seq<u8>, a: Seq<Bump>, b: Seq<Bump>)
    requires
        applicable(text, a),
        forall|x: Bump| a.contains(x) <==> b.contains(x),
    ensures
        applicable(text, b),
        updated(text, a) == updated(text, b),
{
    assert(applicable(text, b));
    lemma_same_upto(text, a, b, text.len() + 1);
}

proof fn lemma_same_upto(text: Seq<u8>, a: Seq<Bump>, b: Seq<Bump>, n: nat)
    requires
        applicable(text, a),
        applicable(text, b),
        forall|x: Bump| a.contains(x) <==> b.contains(x),
    ensures
        rewritten_upto(text, a, n) == rewritten_upto(text, b, n),
    decreases n,
{
    if n > 0 {
        lemma_same_upto(text, a, b, (n - 1) as nat);
        let i = n - 1;
        if covered(a, i) {
            let x = cover(a, i);
            assert(a.contains(x) && x.from.start <= i < x.from.end);
            assert(b.contains(x));
        }
        if covered(b, i) {
            let x = cover(b, i);
            assert(b.contains(x) && x.from.start <= i < x.from.end);
            assert(a.contains(x));
        }
        if starts_at(a, i) {
            let x = bump_at(a, i);
            assert(a.contains(x) && x.from.start == i);
            assert(b.contains(x));
            lemma_bump_at(text, a, x);
            lemma_bump_at(text, b, x);
        }
        if starts_at(b, i) {
            let x = bump_at(b, i);
            assert(b.contains(x) && x.from.start == i);
            assert(a.contains(x));
        }
    }
}

/// `text` with the span of `b` alone replaced.
pub open spec fn spliced(text: Seq<u8>, b: Bump) -> Seq<u8> {
    text.subrange(0, b.from.start as int) + b.to.spelled() + text.subrange(
        b.from.end as int,
        text.len() as int,
    )
}

/// Splicing back to front keeps earlier offsets valid: a bump behind all the
/// others can be spliced in first, whatever length its release has, and the
/// others still apply where they stood.
pub proof fn lemma_back_to_front(text: Seq<u8>, bumps: Seq<Bump>, b: Bump, rest: Seq<Bump>)
    requires
        applicable(text, bumps),
        bumps.contains(b),
        forall|c: Bump| #[trigger] rest.contains(c) <==> (bumps.contains(c) && c != b),
        forall|c: Bump| #[trigger] rest.contains(c) ==> ahead(c.from, b.from),
    ensures
        updated(text, bumps) == updated(spliced(text, b), rest),
{
    let s = b.from.start as int;
    let e = b.from.end as int;
    let one = spliced(text, b);
    lemma_same_front(text, bumps, b, rest, s as nat);
    assert forall|i: int| s <= i implies !#[trigger] starts_at(rest, i) && !#[trigger] covered(
        rest,
        i,
    ) by {
        if starts_at(rest, i) {
            let c = bump_at(rest, i);
            assert(rest.contains(c) && c.from.start == i);
        }
        if covered(rest, i) {
            let c = cover(rest, i);
            assert(rest.contains(c) && c.from.start <= i < c.from.end);
        }
    }
    let n = one.len() as int;
    lemma_kept_run(one, rest, s, n);
    assert(rewritten(one, rest, n) =~= Seq::<u8>::empty());
    assert(one.subrange(s, n) =~= b.to.spelled() + text.subrange(e, text.len() as int));
    let front = rewritten_upto(text, bumps, s as nat);
    assert(updated(one, rest) =~= front + (b.to.spelled() + text.subrange(e, text.len() as int)));

    let len = text.len() as int;
    assert forall|i: int| s < i implies !#[trigger] starts_at(bumps, i) by {
        if starts_at(bumps, i) {
            let c = bump_at(bumps, i);
            assert(bumps.contains(c) && c.from.start == i);
            assert(rest.contains(c));
        }
    }
    assert forall|i: int| e <= i implies !#[trigger] covered(bumps, i) by {
        if covered(bumps, i) {
            let c = cover(bumps, i);
            assert(bumps.contains(c) && c.from.start <= i < c.from.end);
            assert(rest.contains(c));
        }
    }
    lemma_bump_at(text, bumps, b);
    if s < e {
        lemma_replaced_run(text, bumps, b, e);
        lemma_kept_run(text, bumps, e, len);
        assert(rewritten(text, bumps, len) =~= Seq::<u8>::empty());
        assert(updated(text, bumps) =~= front + (b.to.spelled() + text.subrange(e, len)));
    } else if s < len {
        assert(!covered(bumps, s));
        assert(rewritten(text, bumps, s) =~= b.to.spelled().push(text[s]));
        lemma_kept_run(text, bumps, s + 1, len);
        assert(rewritten(text, bumps, len) =~= Seq::<u8>::empty());
        assert(text.subrange(e, len) =~= seq![text[s]] + text.subrange(s + 1, len));
        assert(updated(text, bumps) =~= front + (b.to.spelled() + text.subrange(e, len)));
    } else {
        assert(rewritten(text, bumps, len) =~= b.to.spelled());
        assert(updated(text, bumps) =~= front + (b.to.spelled() + text.subrange(e, len)));
    }
}

proof fn lemma_same_front(text: Seq<u8>, bumps: Seq<Bump>, b: Bump, rest: Seq<Bump>, n: nat)
    requires
        applicable(text, bumps),
        bumps.contains(b),
        forall|c: Bump| #[trigger] rest.contains(c) <==> (bumps.contains(c) && c != b),
        n <= b.from.start,
    ensures
        rewritten_upto(text, bumps, n) == rewritten_upto(spliced(text, b), rest, n),
    decreases n,
{
    if n > 0 {
        lemma_same_front(text, bumps, b, rest, (n - 1) as nat);
        let i = n - 1;
        assert(spliced(text, b)[i] == text[i]);
        if covered(bumps, i) {
            let x = cover(bumps, i);
            assert(bumps.contains(x) && x.from.start <= i < x.from.end);
            assert(rest.contains(x));
        }
        if covered(rest, i) {
            let x = cover(rest, i);
            assert(rest.contains(x) && x.from.start <= i < x.from.end);
            assert(bumps.contains(x));
        }
        if starts_at(bumps, i) {
            let x = bump_at(bumps, i);
            assert(bumps.contains(x) && x.from.start == i);
            assert(rest.contains(x));
            let y = bump_at(rest, i);
            assert(rest.contains(y) && y.from.start == i);
            lemma_bump_at(text, bumps, y);
        }
        if starts_at(rest, i) {
            let x = bump_at(rest, i);
            assert(rest.contains(x) && x.from.start == i);
            assert(bumps.contains(x));
        }
    }
}

/// Every stale pin comes to spell the target, and every byte that lies in no
/// stale pin stays what and where it was.
pub proof fn lemma_stale_pins_move_and_the_rest_stays(text: Seq<u8>, target: Version)
    requires
        valid_utf8(text),
        text.len() <= usize::MAX,
        target.year < 100,
        target.month < 100,
    ensures
        updated(text, stale_pins(text, target)).len() == text.len(),
        forall|pin: Pin| #[trigger]
            is_pin(text, pin) && pin.version.before(target) ==> updated(text, stale_pins(text, target)).subrange(
                pin.start as int,
                pin.end as int,
            ) == target.spelled(),
        forall|i: int|
            0 <= i < text.len() && (forall|pin: Pin| #[trigger]
                is_pin(text, pin) && pin.version.before(target) ==> !(pin.start <= i < pin.end))
                ==> #[trigger] updated(text, stale_pins(text, target))[i] == text[i],
{
    let bumps = stale_pins(text, target);
    let out = bumped(text, target);
    lemma_only_versions_change(text, target);
    assert forall|pin: Pin| #[trigger]
        is_pin(text, pin) && pin.version.before(target) implies out.subrange(
        pin.start as int,
        pin.end as int,
    ) == target.spelled() by {
        let b = Bump { from: pin, to: target };
        lemma_stale_pins_exact(text, target, b);
        assert(bumps.contains(b));
    }
    assert forall|i: int|
        0 <= i < text.len() && (forall|pin: Pin| #[trigger]
            is_pin(text, pin) && pin.version.before(target) ==> !(pin.start <= i
                < pin.end)) implies #[trigger] out[i] == text[i] by {
        if covered(bumps, i) {
            let b = cover(bumps, i);
            assert(bumps.contains(b) && b.from.start <= i < b.from.end);
            lemma_stale_pins_exact(text, target, b);
            assert(is_pin(text, b.from));
        }
    }
}

/// What applying bumps comes to. Of bumps with spans on character boundaries
/// that do not overlap, the one that stands last may be applied first: put its
/// release for its span, and go on with the others, which still fit. With none
/// left the text is done.
pub proof fn lemma_update_applies_one_by_one(
    text: Seq<u8>,
    bumps: Seq<Bump>,
    b: Bump,
    rest: Seq<Bump>,
)
    requires
        valid_utf8(text),
        forall|c: Bump| #[trigger]
            bumps.contains(c) ==> c.from.start <= c.from.end <= text.len() && is_char_boundary(
                text,
                c.from.start as int,
            ) && is_char_boundary(text, c.from.end as int),
        forall|c: Bump, d: Bump| #[trigger]
            bumps.contains(c) && #[trigger] bumps.contains(d) && c != d ==> c.from.start
                != d.from.start && (c.from.end <= d.from.start || d.from.end <= c.from.start),
        bumps.contains(b),
        forall|c: Bump| #[trigger] bumps.contains(c) ==> c.from.start <= b.from.start,
        forall|c: Bump| #[trigger] rest.contains(c) <==> (bumps.contains(c) && c != b),
    ensures
        applicable(text, bumps),
        updated(text, Seq::<Bump>::empty()) == text,
        ({
            let next = text.subrange(0, b.from.start as int) + b.to.spelled() + text.subrange(
                b.from.end as int,
                text.len() as int,
            );
            &&& updated(text, bumps) == updated(next, rest)
            &&& valid_utf8(next)
            &&& forall|c: Bump| #[trigger]
                rest.contains(c) ==> c.from.end <= next.len() && is_char_boundary(
                    next,
                    c.from.start as int,
                ) && is_char_boundary(next, c.from.end as int)
        }),
{
    let s = b.from.start as int;
    let e = b.from.end as int;
    let v = b.to.spelled();
    let head = text.subrange(0, s);
    let tail = text.subrange(e, text.len() as int);
    let next = head + v + tail;
    assert forall|c: Bump, d: Bump| #[trigger]
        bumps.contains(c) && #[trigger] bumps.contains(d) && c != d implies ahead(c.from, d.from)
        || ahead(d.from, c.from) by {}
    assert(applicable(text, bumps));
    assert forall|c: Bump| #[trigger] rest.contains(c) implies ahead(c.from, b.from) by {
        assert(bumps.contains(c) && bumps.contains(b) && c != b);
    }
    lemma_back_to_front(text, bumps, b, rest);
    lemma_nothing_stale(text);
    assert(spliced(text, b) == next);
    lemma_spells_two_numbers(b.to);
    let n: int = if b.to.year < 100 {
        2
    } else {
        3
    };
    assert forall|i: int| 0 <= i < v.len() implies #[trigger] v[i] < 0x80 by {
        assert(i == n || i != n);
    }
    lemma_ascii_valid(v);
    valid_utf8_split(text, s);
    valid_utf8_split(text, e);
    valid_utf8_concat(head, v);
    valid_utf8_concat(head + v, tail);
    assert(next[s] == v[0]);
    lemma_boundary_after_ascii(next, s);
    assert forall|i: int| 0 <= i <= s && is_char_boundary(text, i) implies is_char_boundary(
        next,
        i,
    ) by {
        if i < s {
            assert(next[i] == text[i]);
            is_char_boundary_iff_not_is_continuation_byte(text, i);
            is_char_boundary_iff_not_is_continuation_byte(next, i);
        }
    }
}

} // verus!

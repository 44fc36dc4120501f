//! Glob patterns as ignore files use them, matched byte by byte.
//!
//! - `*` stands for any bytes but `/`, and `?` for one
//! - `[..]` stands for one byte out of a class, `[!..]` and `[^..]` for one that is not in it
//! - `**` as a whole component stands for any number of components
//! - `\` takes away the meaning of the byte that follows
//!
//! A pattern with a class that does not end, or with a `\` at its end, matches nothing.

use crate::path::{copy_range, SLASH};
use crate::text::spells;
use vstd::prelude::*;
use vstd::utf8::encode_utf8;

verus! {

/// The byte `*`.
pub const STAR: u8 = 42;

/// The byte `?`.
pub const QUESTION: u8 = 63;

/// The byte `[`.
pub const OPEN: u8 = 91;

/// The byte `]`.
pub const CLOSE: u8 = 93;

/// The byte `\`.
pub const BACKSLASH: u8 = 92;

/// The byte `!`.
pub const BANG: u8 = 33;

/// The byte `^`.
pub const CARET: u8 = 94;

/// The byte `-`.
pub const DASH: u8 = 45;

/// The byte `:`.
pub const COLON: u8 = 58;

/// The bytes of a class that has a name, as in `[[:digit:]]`: ranges, each from its first byte to
/// its last.
pub open spec fn named_ranges(name: Seq<u8>) -> Option<Seq<(u8, u8)>> {
    if name == encode_utf8("alnum"@) {
        Some(seq![(48u8, 57u8), (65u8, 90u8), (97u8, 122u8)])
    } else if name == encode_utf8("alpha"@) {
        Some(seq![(65u8, 90u8), (97u8, 122u8)])
    } else if name == encode_utf8("blank"@) {
        Some(seq![(9u8, 9u8), (32u8, 32u8)])
    } else if name == encode_utf8("cntrl"@) {
        Some(seq![(0u8, 31u8), (127u8, 127u8)])
    } else if name == encode_utf8("digit"@) {
        Some(seq![(48u8, 57u8)])
    } else if name == encode_utf8("graph"@) {
        Some(seq![(33u8, 126u8)])
    } else if name == encode_utf8("lower"@) {
        Some(seq![(97u8, 122u8)])
    } else if name == encode_utf8("print"@) {
        Some(seq![(32u8, 126u8)])
    } else if name == encode_utf8("punct"@) {
        Some(seq![(33u8, 47u8), (58u8, 64u8), (91u8, 96u8), (123u8, 126u8)])
    } else if name == encode_utf8("space"@) {
        Some(seq![(9u8, 13u8), (32u8, 32u8)])
    } else if name == encode_utf8("upper"@) {
        Some(seq![(65u8, 90u8)])
    } else if name == encode_utf8("xdigit"@) {
        Some(seq![(48u8, 57u8), (65u8, 70u8), (97u8, 102u8)])
    } else {
        None
    }
}

/// The place of the first `]` from a place on, or the end where there is none.
pub open spec fn next_close(glob: Seq<u8>, from: int) -> int
    decreases glob.len() - from,
{
    if from >= glob.len() || glob[from] == CLOSE {
        from
    } else {
        next_close(glob, from + 1)
    }
}

/// The part of a class that starts with a byte, where `next` is the place after that byte: the
/// byte, or a range from it. With the place after the part.
pub open spec fn byte_item(glob: Seq<u8>, low: u8, next: int) -> Option<(Seq<(u8, u8)>, int)> {
    if next + 1 < glob.len() && glob[next] == DASH && glob[next + 1] != CLOSE {
        if glob[next + 1] != BACKSLASH {
            Some((seq![(low, low), (low, glob[next + 1])], next + 2))
        } else if next + 2 < glob.len() {
            Some((seq![(low, low), (low, glob[next + 2])], next + 3))
        } else {
            None
        }
    } else {
        Some((seq![(low, low)], next))
    }
}

/// The part of a class at a place: its ranges, and the place after it. None where the pattern is
/// malformed.
pub open spec fn class_item(glob: Seq<u8>, at: int) -> Option<(Seq<(u8, u8)>, int)> {
    if glob[at] == OPEN && at + 1 < glob.len() && glob[at + 1] == COLON {
        let close = next_close(glob, at + 2);
        if close >= glob.len() {
            None
        } else if close > at + 2 && glob[close - 1] == COLON {
            match named_ranges(glob.subrange(at + 2, close - 1)) {
                Some(ranges) => Some((ranges, close + 1)),
                None => None,
            }
        } else {
            byte_item(glob, OPEN, at + 1)
        }
    } else if glob[at] == BACKSLASH {
        if at + 1 < glob.len() {
            byte_item(glob, glob[at + 1], at + 2)
        } else {
            None
        }
    } else {
        byte_item(glob, glob[at], at + 1)
    }
}

/// The ranges of a class from a place on, and the place after its `]`. A `]` that comes first is
/// an ordinary byte.
pub open spec fn class_from(glob: Seq<u8>, at: int, first: bool) -> Option<(Seq<(u8, u8)>, int)>
    decreases glob.len() - at,
{
    if at >= glob.len() {
        None
    } else if glob[at] == CLOSE && !first {
        Some((Seq::empty(), at + 1))
    } else {
        match class_item(glob, at) {
            Some((ranges, next)) => match class_from(glob, next, false) {
                Some((more, end)) => Some((ranges + more, end)),
                None => None,
            },
            None => None,
        }
    }
}

/// Whether the class that starts at a place is a negated one.
pub open spec fn is_negated(glob: Seq<u8>, at: int) -> bool {
    at + 1 < glob.len() && (glob[at + 1] == BANG || glob[at + 1] == CARET)
}

/// The class that starts at a place: its ranges, and the place after it.
pub open spec fn class_at(glob: Seq<u8>, at: int) -> Option<(Seq<(u8, u8)>, int)> {
    class_from(
        glob,
        if is_negated(glob, at) {
            at + 2
        } else {
            at + 1
        },
        true,
    )
}

/// Whether a byte is in one of the ranges.
pub open spec fn in_ranges(ranges: Seq<(u8, u8)>, byte: u8) -> bool {
    exists|i: int| 0 <= i < ranges.len() && (#[trigger] ranges[i]).0 <= byte <= ranges[i].1
}

/// The place after the part of a pattern that stands for one byte. None where the pattern is
/// malformed.
pub open spec fn single_end(glob: Seq<u8>, at: int) -> Option<int> {
    if glob[at] == BACKSLASH {
        if at + 1 < glob.len() {
            Some(at + 2)
        } else {
            None
        }
    } else if glob[at] == OPEN {
        match class_at(glob, at) {
            Some((_, end)) => Some(end),
            None => None,
        }
    } else {
        Some(at + 1)
    }
}

/// Whether the part of a pattern that stands for one byte stands for that byte.
pub open spec fn accepts(glob: Seq<u8>, at: int, byte: u8) -> bool {
    if glob[at] == BACKSLASH {
        byte == glob[at + 1]
    } else if glob[at] == OPEN {
        match class_at(glob, at) {
            Some((ranges, _)) => byte != SLASH && in_ranges(ranges, byte) != is_negated(glob, at),
            None => false,
        }
    } else if glob[at] == QUESTION {
        byte != SLASH
    } else {
        byte == glob[at]
    }
}

/// The place after the stars at a place.
pub open spec fn stars_end(glob: Seq<u8>, at: int) -> int
    decreases glob.len() - at,
{
    if at < glob.len() && glob[at] == STAR {
        stars_end(glob, at + 1)
    } else {
        at
    }
}

/// Whether what is between two places, two stars at least, is a whole component.
pub open spec fn fills_component(glob: Seq<u8>, from: int, to: int) -> bool {
    &&& to - from >= 2
    &&& from == 0 || glob[from - 1] == SLASH
    &&& to >= glob.len() || glob[to] == SLASH || (to + 1 < glob.len() && glob[to] == BACKSLASH
        && glob[to + 1] == SLASH)
}

/// Whether there is no `/` between two places.
pub open spec fn no_slash(text: Seq<u8>, from: int, to: int) -> bool {
    forall|i: int| from <= i < to ==> #[trigger] text[i] != SLASH
}

/// Whether there is anything between two places, or nothing.
pub open spec fn anything_between(text: Seq<u8>, from: int, to: int) -> bool {
    from <= to <= text.len()
}

/// Whether what is between two places lies within a component.
pub open spec fn run_between(text: Seq<u8>, from: int, to: int) -> bool {
    from <= to <= text.len() && no_slash(text, from, to)
}

/// Whether there is any number of components, each with its slash, between two places.
pub open spec fn components_between(text: Seq<u8>, from: int, to: int) -> bool {
    from <= to <= text.len() && (from == to || text[to - 1] == SLASH)
}

/// Whether what is left of a pattern from a place on matches what is left of a text.
pub open spec fn glob_from(glob: Seq<u8>, at: int, text: Seq<u8>, start: int) -> bool
    decreases glob.len() - at,
{
    proof {
        lemma_stars_end(glob, at);
        lemma_single_end(glob, at);
    }
    if at >= glob.len() {
        start == text.len()
    } else if glob[at] == STAR {
        let next = stars_end(glob, at);
        if fills_component(glob, at, next) && next < glob.len() && glob[next] == SLASH {
            exists|end: int| #[trigger]
                components_between(text, start, end) && glob_from(glob, next + 1, text, end)
        } else if fills_component(glob, at, next) {
            exists|end: int| #[trigger]
                anything_between(text, start, end) && glob_from(glob, next, text, end)
        } else {
            exists|end: int| #[trigger]
                run_between(text, start, end) && glob_from(glob, next, text, end)
        }
    } else {
        match single_end(glob, at) {
            Some(next) => start < text.len() && accepts(glob, at, text[start]) && glob_from(
                glob,
                next,
                text,
                start + 1,
            ),
            None => false,
        }
    }
}

/// Whether a pattern matches a text.
pub open spec fn glob_matches(glob: Seq<u8>, text: Seq<u8>) -> bool {
    glob_from(glob, 0, text, 0)
}

/// Stars end after they start.
pub proof fn lemma_stars_end(glob: Seq<u8>, at: int)
    ensures
        stars_end(glob, at) >= at,
        at < glob.len() ==> stars_end(glob, at) <= glob.len(),
        at < glob.len() && glob[at] == STAR ==> stars_end(glob, at) > at,
    decreases glob.len() - at,
{
    if at < glob.len() && glob[at] == STAR {
        lemma_stars_end(glob, at + 1);
    }
}

/// A class ends after it starts.
proof fn lemma_class_from(glob: Seq<u8>, at: int, first: bool)
    ensures
        class_from(glob, at, first) matches Some((_, end)) ==> at < end <= glob.len(),
    decreases glob.len() - at,
{
    if at < glob.len() {
        if let Some((_, next)) = class_item(glob, at) {
            if !(glob[at] == CLOSE && !first) {
                lemma_class_from(glob, next, false);
            }
        }
    }
}

/// What stands for one byte ends after it starts.
pub proof fn lemma_single_end(glob: Seq<u8>, at: int)
    ensures
        at < glob.len() ==> (single_end(glob, at) matches Some(end) ==> at < end <= glob.len()),
{
    lemma_class_from(
        glob,
        if is_negated(glob, at) {
            at + 2
        } else {
            at + 1
        },
        true,
    );
}

/// The bytes of a class that has a name.
fn ranges_named(name: &Vec<u8>) -> (result: Option<Vec<(u8, u8)>>)
    ensures
        match result {
            Some(ranges) => named_ranges(name@) == Some(ranges@),
            None => named_ranges(name@) is None,
        },
{
    if spells(name, "alnum") {
        Some(vec![(48u8, 57u8), (65u8, 90u8), (97u8, 122u8)])
    } else if spells(name, "alpha") {
        Some(vec![(65u8, 90u8), (97u8, 122u8)])
    } else if spells(name, "blank") {
        Some(vec![(9u8, 9u8), (32u8, 32u8)])
    } else if spells(name, "cntrl") {
        Some(vec![(0u8, 31u8), (127u8, 127u8)])
    } else if spells(name, "digit") {
        Some(vec![(48u8, 57u8)])
    } else if spells(name, "graph") {
        Some(vec![(33u8, 126u8)])
    } else if spells(name, "lower") {
        Some(vec![(97u8, 122u8)])
    } else if spells(name, "print") {
        Some(vec![(32u8, 126u8)])
    } else if spells(name, "punct") {
        Some(vec![(33u8, 47u8), (58u8, 64u8), (91u8, 96u8), (123u8, 126u8)])
    } else if spells(name, "space") {
        Some(vec![(9u8, 13u8), (32u8, 32u8)])
    } else if spells(name, "upper") {
        Some(vec![(65u8, 90u8)])
    } else if spells(name, "xdigit") {
        Some(vec![(48u8, 57u8), (65u8, 70u8), (97u8, 102u8)])
    } else {
        None
    }
}

/// Whether a parsed part is the one that is meant.
spec fn is_part(
    result: Option<(Vec<(u8, u8)>, usize)>,
    meant: Option<(Seq<(u8, u8)>, int)>,
) -> bool {
    match result {
        Some((ranges, end)) => meant == Some((ranges@, end as int)),
        None => meant is None,
    }
}

/// Reads the part of a class that starts with a byte.
fn read_byte_item(glob: &Vec<u8>, low: u8, next: usize) -> (result: Option<
    (Vec<(u8, u8)>, usize),
>)
    requires
        next <= glob@.len(),
    ensures
        is_part(result, byte_item(glob@, low, next as int)),
{
    let left: usize = glob.len() - next;
    if left >= 2 && glob[next] == DASH && glob[next + 1] != CLOSE {
        if glob[next + 1] != BACKSLASH {
            let ranges: Vec<(u8, u8)> = vec![(low, low), (low, glob[next + 1])];
            assert(ranges@ =~= seq![(low, low), (low, glob@[next + 1])]);
            Some((ranges, next + 2))
        } else if left >= 3 {
            let ranges: Vec<(u8, u8)> = vec![(low, low), (low, glob[next + 2])];
            assert(ranges@ =~= seq![(low, low), (low, glob@[next + 2])]);
            Some((ranges, next + 3))
        } else {
            None
        }
    } else {
        let ranges: Vec<(u8, u8)> = vec![(low, low)];
        assert(ranges@ =~= seq![(low, low)]);
        Some((ranges, next))
    }
}

/// Finds the first `]` from a place on.
fn find_close(glob: &Vec<u8>, from: usize) -> (result: usize)
    requires
        from <= glob@.len(),
    ensures
        from <= result <= glob@.len(),
        result == next_close(glob@, from as int),
{
    let mut at: usize = from;
    while at < glob.len() && glob[at] != CLOSE
        invariant
            from <= at <= glob@.len(),
            next_close(glob@, at as int) == next_close(glob@, from as int),
        decreases glob@.len() - at,
    {
        at += 1;
    }
    at
}

/// Reads the part of a class at a place.
fn read_class_item(glob: &Vec<u8>, at: usize) -> (result: Option<(Vec<(u8, u8)>, usize)>)
    requires
        at < glob@.len(),
    ensures
        is_part(result, class_item(glob@, at as int)),
{
    let left: usize = glob.len() - at;
    if glob[at] == OPEN && left >= 2 && glob[at + 1] == COLON {
        let close = find_close(glob, at + 2);
        if close >= glob.len() {
            None
        } else if close > at + 2 && glob[close - 1] == COLON {
            let name = copy_range(glob, at + 2, close - 1);
            match ranges_named(&name) {
                Some(ranges) => Some((ranges, close + 1)),
                None => None,
            }
        } else {
            read_byte_item(glob, OPEN, at + 1)
        }
    } else if glob[at] == BACKSLASH {
        if left >= 2 {
            read_byte_item(glob, glob[at + 1], at + 2)
        } else {
            None
        }
    } else {
        read_byte_item(glob, glob[at], at + 1)
    }
}

/// A class with ranges in front of its own.
spec fn with_ranges(
    ranges: Seq<(u8, u8)>,
    class: Option<(Seq<(u8, u8)>, int)>,
) -> Option<(Seq<(u8, u8)>, int)> {
    match class {
        Some((more, end)) => Some((ranges + more, end)),
        None => None,
    }
}

/// Reads the class that starts at a place.
fn read_class(glob: &Vec<u8>, start: usize) -> (result: Option<(Vec<(u8, u8)>, usize)>)
    requires
        start < glob@.len(),
    ensures
        is_part(result, class_at(glob@, start as int)),
{
    let left: usize = glob.len() - start;
    let negated = left >= 2 && (glob[start + 1] == BANG || glob[start + 1] == CARET);
    let mut at: usize = if negated {
        start + 2
    } else {
        start + 1
    };
    let mut ranges: Vec<(u8, u8)> = Vec::new();
    let mut first = true;
    let ghost meant = class_at(glob@, start as int);
    assert(with_ranges(ranges@, meant) == meant) by {
        if let Some((more, _)) = meant {
            assert(ranges@ + more =~= more);
        }
    }
    while at < glob.len() && (first || glob[at] != CLOSE)
        invariant
            at <= glob@.len(),
            meant == class_at(glob@, start as int),
            meant == with_ranges(ranges@, class_from(glob@, at as int, first)),
        decreases glob@.len() - at,
    {
        match read_class_item(glob, at) {
            Some((mut more, next)) => {
                proof {
                    lemma_class_item(glob@, at as int);
                    if let Some((rest, _)) = class_from(glob@, next as int, false) {
                        assert(ranges@ + (more@ + rest) =~= (ranges@ + more@) + rest);
                    }
                }
                ranges.append(&mut more);
                at = next;
                first = false;
            },
            None => {
                return None;
            },
        }
    }
    if at < glob.len() {
        assert(ranges@ + Seq::<(u8, u8)>::empty() =~= ranges@);
        Some((ranges, at + 1))
    } else {
        None
    }
}

/// A part of a class ends after it starts.
proof fn lemma_class_item(glob: Seq<u8>, at: int)
    requires
        0 <= at < glob.len(),
    ensures
        class_item(glob, at) matches Some((_, next)) ==> at < next <= glob.len(),
{
}

/// Whether a byte is in one of the ranges.
fn is_in_ranges(ranges: &Vec<(u8, u8)>, byte: u8) -> (result: bool)
    ensures
        result == in_ranges(ranges@, byte),
{
    let mut i: usize = 0;
    while i < ranges.len()
        invariant
            i <= ranges@.len(),
            forall|k: int|
                0 <= k < i ==> !((#[trigger] ranges@[k]).0 <= byte <= ranges@[k].1),
        decreases ranges@.len() - i,
    {
        let range = ranges[i];
        if range.0 <= byte && byte <= range.1 {
            assert(ranges@[i as int].0 <= byte <= ranges@[i as int].1);
            return true;
        }
        i += 1;
    }
    false
}

/// What stands for one byte.
enum Single {
    /// That byte.
    Byte(u8),
    /// Any byte but `/`.
    Any,
    /// A byte but `/` that is in the ranges, or is not where the class is negated.
    Class { ranges: Vec<(u8, u8)>, negated: bool },
}

impl Single {
    spec fn takes(&self, byte: u8) -> bool {
        match self {
            Single::Byte(only) => byte == *only,
            Single::Any => byte != SLASH,
            Single::Class { ranges, negated } => byte != SLASH && in_ranges(ranges@, byte)
                != *negated,
        }
    }

    /// Whether it stands for a byte.
    fn stands_for(&self, byte: u8) -> (result: bool)
        ensures
            result == self.takes(byte),
    {
        match self {
            Single::Byte(only) => byte == *only,
            Single::Any => byte != SLASH,
            Single::Class { ranges, negated } => byte != SLASH && is_in_ranges(ranges, byte)
                != *negated,
        }
    }
}

/// Reads the part of a pattern that stands for one byte.
fn read_single(glob: &Vec<u8>, at: usize) -> (result: Option<(Single, usize)>)
    requires
        at < glob@.len(),
    ensures
        match result {
            Some((single, next)) => single_end(glob@, at as int) == Some(next as int) && forall|
                byte: u8,
            | #[trigger]
                single.takes(byte) == accepts(glob@, at as int, byte),
            None => single_end(glob@, at as int) is None,
        },
{
    let left: usize = glob.len() - at;
    if glob[at] == BACKSLASH {
        if left >= 2 {
            Some((Single::Byte(glob[at + 1]), at + 2))
        } else {
            None
        }
    } else if glob[at] == OPEN {
        let negated = left >= 2 && (glob[at + 1] == BANG || glob[at + 1] == CARET);
        match read_class(glob, at) {
            Some((ranges, end)) => Some((Single::Class { ranges, negated }, end)),
            None => None,
        }
    } else if glob[at] == QUESTION {
        Some((Single::Any, at + 1))
    } else {
        Some((Single::Byte(glob[at]), at + 1))
    }
}

/// Whether the rest of a pattern matches the rest of a text from one of the places that are
/// reached.
spec fn can_finish(reached: Seq<bool>, glob: Seq<u8>, at: int, text: Seq<u8>) -> bool {
    exists|t: int| 0 <= t <= text.len() && reached[t] && #[trigger] glob_from(glob, at, text, t)
}

/// Goes on from the places that are reached by one byte.
fn step_single(reached: &Vec<bool>, text: &Vec<u8>, single: &Single) -> (result: Vec<bool>)
    requires
        reached@.len() == text@.len() + 1,
    ensures
        result@.len() == reached@.len(),
        forall|t: int|
            0 <= t < result@.len() ==> #[trigger] result@[t] == (t > 0 && reached@[t - 1]
                && single.takes(text@[t - 1])),
{
    let mut result: Vec<bool> = vec![false];
    let mut i: usize = 0;
    while i < text.len()
        invariant
            i <= text@.len(),
            reached@.len() == text@.len() + 1,
            result@.len() == i + 1,
            forall|t: int|
                0 <= t < result@.len() ==> #[trigger] result@[t] == (t > 0 && reached@[t - 1]
                    && single.takes(text@[t - 1])),
        decreases text@.len() - i,
    {
        let goes_on = reached[i] && single.stands_for(text[i]);
        result.push(goes_on);
        i += 1;
    }
    result
}

/// Goes on from the places that are reached over anything within a component.
fn step_run(reached: &Vec<bool>, text: &Vec<u8>) -> (result: Vec<bool>)
    requires
        reached@.len() == text@.len() + 1,
    ensures
        result@.len() == reached@.len(),
        forall|t: int|
            0 <= t < result@.len() ==> #[trigger] result@[t] == exists|s: int|
                0 <= s <= t && #[trigger] reached@[s] && no_slash(text@, s, t),
{
    let mut result: Vec<bool> = vec![reached[0]];
    let mut i: usize = 0;
    proof {
        if reached@[0] {
            assert(no_slash(text@, 0, 0));
        }
    }
    while i < text.len()
        invariant
            i <= text@.len(),
            reached@.len() == text@.len() + 1,
            result@.len() == i + 1,
            forall|t: int|
                0 <= t < result@.len() ==> #[trigger] result@[t] == exists|s: int|
                    0 <= s <= t && #[trigger] reached@[s] && no_slash(text@, s, t),
        decreases text@.len() - i,
    {
        let before = result[i];
        let now = reached[i + 1] || (before && text[i] != SLASH);
        proof {
            if reached@[i + 1] {
                assert(no_slash(text@, i + 1, i + 1));
            } else if before && text@[i as int] != SLASH {
                let s = choose|s: int|
                    0 <= s <= i && #[trigger] reached@[s] && no_slash(text@, s, i as int);
                assert(reached@[s] && no_slash(text@, s, i + 1));
            }
            if exists|s: int|
                0 <= s <= i + 1 && #[trigger] reached@[s] && no_slash(text@, s, i + 1) {
                let s = choose|s: int|
                    0 <= s <= i + 1 && #[trigger] reached@[s] && no_slash(text@, s, i + 1);
                if s <= i {
                    assert(text@[i as int] != SLASH);
                    assert(no_slash(text@, s, i as int));
                    assert(result@[i as int]);
                }
            }
        }
        result.push(now);
        i += 1;
    }
    result
}

/// Goes on from the places that are reached over anything.
fn step_anything(reached: &Vec<bool>) -> (result: Vec<bool>)
    ensures
        result@.len() == reached@.len(),
        forall|t: int|
            0 <= t < result@.len() ==> #[trigger] result@[t] == exists|s: int|
                0 <= s <= t && #[trigger] reached@[s],
{
    let mut result: Vec<bool> = Vec::new();
    let mut any = false;
    let mut i: usize = 0;
    while i < reached.len()
        invariant
            i <= reached@.len(),
            result@.len() == i,
            any == exists|s: int| 0 <= s < i && #[trigger] reached@[s],
            forall|t: int|
                0 <= t < result@.len() ==> #[trigger] result@[t] == exists|s: int|
                    0 <= s <= t && #[trigger] reached@[s],
        decreases reached@.len() - i,
    {
        any = any || reached[i];
        result.push(any);
        i += 1;
    }
    result
}

/// Goes on from the places that are reached over any number of components, each with its slash.
fn step_components(reached: &Vec<bool>, text: &Vec<u8>) -> (result: Vec<bool>)
    requires
        reached@.len() == text@.len() + 1,
    ensures
        result@.len() == reached@.len(),
        forall|t: int|
            0 <= t < result@.len() ==> #[trigger] result@[t] == exists|s: int|
                0 <= s <= t && #[trigger] reached@[s] && (s == t || text@[t - 1] == SLASH),
{
    let any = step_anything(reached);
    let mut result: Vec<bool> = vec![reached[0]];
    let mut i: usize = 0;
    while i < text.len()
        invariant
            i <= text@.len(),
            reached@.len() == text@.len() + 1,
            any@.len() == reached@.len(),
            forall|t: int|
                0 <= t < any@.len() ==> #[trigger] any@[t] == exists|s: int|
                    0 <= s <= t && #[trigger] reached@[s],
            result@.len() == i + 1,
            forall|t: int|
                0 <= t < result@.len() ==> #[trigger] result@[t] == exists|s: int|
                    0 <= s <= t && #[trigger] reached@[s] && (s == t || text@[t - 1] == SLASH),
        decreases text@.len() - i,
    {
        let now = reached[i + 1] || (text[i] == SLASH && any[i]);
        result.push(now);
        i += 1;
    }
    result
}

/// Finds the place after the stars at a place.
fn skip_stars(glob: &Vec<u8>, from: usize) -> (result: usize)
    requires
        from <= glob@.len(),
    ensures
        from <= result <= glob@.len(),
        result == stars_end(glob@, from as int),
{
    let mut at: usize = from;
    while at < glob.len() && glob[at] == STAR
        invariant
            from <= at <= glob@.len(),
            stars_end(glob@, at as int) == stars_end(glob@, from as int),
        decreases glob@.len() - at,
    {
        at += 1;
    }
    at
}

/// Whether a pattern matches a text.
pub fn match_glob(glob: &Vec<u8>, text: &Vec<u8>) -> (result: bool)
    ensures
        result == glob_matches(glob@, text@),
{
    let mut reached: Vec<bool> = vec![true];
    let mut i: usize = 0;
    while i < text.len()
        invariant
            i <= text@.len(),
            reached@.len() == i + 1,
            reached@[0],
            forall|t: int| 0 < t < reached@.len() ==> !#[trigger] reached@[t],
        decreases text@.len() - i,
    {
        reached.push(false);
        i += 1;
    }
    let mut at: usize = 0;
    assert(can_finish(reached@, glob@, 0, text@) == glob_matches(glob@, text@)) by {
        if glob_matches(glob@, text@) {
            assert(reached@[0] && glob_from(glob@, 0, text@, 0));
        }
    }
    while at < glob.len()
        invariant
            at <= glob@.len(),
            reached@.len() == text@.len() + 1,
            can_finish(reached@, glob@, at as int, text@) == glob_matches(glob@, text@),
        decreases glob@.len() - at,
    {
        let ghost before = reached@;
        let ghost place = at as int;
        proof {
            lemma_stars_end(glob@, place);
            lemma_single_end(glob@, place);
        }
        if glob[at] == STAR {
            let next = skip_stars(glob, at);
            let left: usize = glob.len() - next;
            let fills = next - at >= 2 && (at == 0 || glob[at - 1] == SLASH) && (left == 0
                || glob[next] == SLASH || (left >= 2 && glob[next] == BACKSLASH && glob[next + 1]
                == SLASH));
            if fills && left > 0 && glob[next] == SLASH {
                reached = step_components(&reached, text);
                at = next + 1;
                proof {
                    lemma_step_components(before, reached@, glob@, place, text@);
                }
            } else if fills {
                reached = step_anything(&reached);
                at = next;
                proof {
                    lemma_step_anything(before, reached@, glob@, place, text@);
                }
            } else {
                reached = step_run(&reached, text);
                at = next;
                proof {
                    lemma_step_run(before, reached@, glob@, place, text@);
                }
            }
        } else {
            match read_single(glob, at) {
                Some((single, next)) => {
                    reached = step_single(&reached, text, &single);
                    at = next;
                    proof {
                        assert forall|t: int| 0 <= t <= text@.len() implies #[trigger] reached@[t]
                            == (t > 0 && before[t - 1] && accepts(glob@, place, text@[t - 1])) by {
                            if t > 0 {
                                assert(single.takes(text@[t - 1]) == accepts(
                                    glob@,
                                    place,
                                    text@[t - 1],
                                ));
                            }
                        }
                        lemma_step_single(before, reached@, glob@, place, text@);
                    }
                },
                None => {
                    return false;
                },
            }
        }
    }
    proof {
        if reached@[text@.len() as int] {
            assert(glob_from(glob@, at as int, text@, text@.len() as int));
        }
    }
    reached[text.len()]
}

/// One byte brings the places that are reached to the rest of the pattern.
proof fn lemma_step_single(
    before: Seq<bool>,
    after: Seq<bool>,
    glob: Seq<u8>,
    at: int,
    text: Seq<u8>,
)
    requires
        0 <= at < glob.len(),
        glob[at] != STAR,
        single_end(glob, at) is Some,
        forall|t: int|
            0 <= t <= text.len() ==> #[trigger] after[t] == (t > 0 && before[t - 1] && accepts(
                glob,
                at,
                text[t - 1],
            )),
    ensures
        can_finish(before, glob, at, text) == can_finish(
            after,
            glob,
            single_end(glob, at).unwrap(),
            text,
        ),
{
    let next = single_end(glob, at).unwrap();
    if can_finish(before, glob, at, text) {
        let t = choose|t: int|
            0 <= t <= text.len() && before[t] && #[trigger] glob_from(glob, at, text, t);
        assert(after[t + 1]);
        assert(glob_from(glob, next, text, t + 1));
    }
    if can_finish(after, glob, next, text) {
        let t = choose|t: int|
            0 <= t <= text.len() && after[t] && #[trigger] glob_from(glob, next, text, t);
        assert(before[t - 1]);
        assert(glob_from(glob, at, text, t - 1));
    }
}

/// A star brings the places that are reached to the rest of the pattern.
proof fn lemma_step_run(
    before: Seq<bool>,
    after: Seq<bool>,
    glob: Seq<u8>,
    at: int,
    text: Seq<u8>,
)
    requires
        0 <= at < glob.len(),
        glob[at] == STAR,
        !fills_component(glob, at, stars_end(glob, at)),
        forall|t: int|
            0 <= t <= text.len() ==> #[trigger] after[t] == exists|s: int|
                0 <= s <= t && #[trigger] before[s] && no_slash(text, s, t),
    ensures
        can_finish(before, glob, at, text) == can_finish(after, glob, stars_end(glob, at), text),
{
    let next = stars_end(glob, at);
    if can_finish(before, glob, at, text) {
        let s = choose|s: int|
            0 <= s <= text.len() && before[s] && #[trigger] glob_from(glob, at, text, s);
        let t = choose|t: int| #[trigger]
            run_between(text, s, t) && glob_from(glob, next, text, t);
        assert(before[s] && no_slash(text, s, t));
        assert(after[t]);
    }
    if can_finish(after, glob, next, text) {
        let t = choose|t: int|
            0 <= t <= text.len() && after[t] && #[trigger] glob_from(glob, next, text, t);
        let s = choose|s: int| 0 <= s <= t && #[trigger] before[s] && no_slash(text, s, t);
        assert(run_between(text, s, t));
        assert(glob_from(glob, at, text, s));
    }
}

/// Two stars at the end of a pattern bring the places that are reached to the rest.
proof fn lemma_step_anything(
    before: Seq<bool>,
    after: Seq<bool>,
    glob: Seq<u8>,
    at: int,
    text: Seq<u8>,
)
    requires
        0 <= at < glob.len(),
        glob[at] == STAR,
        fills_component(glob, at, stars_end(glob, at)),
        !(stars_end(glob, at) < glob.len() && glob[stars_end(glob, at)] == SLASH),
        forall|t: int|
            0 <= t <= text.len() ==> #[trigger] after[t] == exists|s: int|
                0 <= s <= t && #[trigger] before[s],
    ensures
        can_finish(before, glob, at, text) == can_finish(after, glob, stars_end(glob, at), text),
{
    let next = stars_end(glob, at);
    if can_finish(before, glob, at, text) {
        let s = choose|s: int|
            0 <= s <= text.len() && before[s] && #[trigger] glob_from(glob, at, text, s);
        let t = choose|t: int| #[trigger]
            anything_between(text, s, t) && glob_from(glob, next, text, t);
        assert(before[s]);
        assert(after[t]);
    }
    if can_finish(after, glob, next, text) {
        let t = choose|t: int|
            0 <= t <= text.len() && after[t] && #[trigger] glob_from(glob, next, text, t);
        let s = choose|s: int| 0 <= s <= t && #[trigger] before[s];
        assert(anything_between(text, s, t));
        assert(glob_from(glob, at, text, s));
    }
}

/// Two stars before a slash bring the places that are reached to the rest of the pattern.
proof fn lemma_step_components(
    before: Seq<bool>,
    after: Seq<bool>,
    glob: Seq<u8>,
    at: int,
    text: Seq<u8>,
)
    requires
        0 <= at < glob.len(),
        glob[at] == STAR,
        fills_component(glob, at, stars_end(glob, at)),
        stars_end(glob, at) < glob.len(),
        glob[stars_end(glob, at)] == SLASH,
        forall|t: int|
            0 <= t <= text.len() ==> #[trigger] after[t] == exists|s: int|
                0 <= s <= t && #[trigger] before[s] && (s == t || text[t - 1] == SLASH),
    ensures
        can_finish(before, glob, at, text) == can_finish(
            after,
            glob,
            stars_end(glob, at) + 1,
            text,
        ),
{
    let next = stars_end(glob, at) + 1;
    if can_finish(before, glob, at, text) {
        let s = choose|s: int|
            0 <= s <= text.len() && before[s] && #[trigger] glob_from(glob, at, text, s);
        let t = choose|t: int| #[trigger]
            components_between(text, s, t) && glob_from(glob, next, text, t);
        assert(before[s]);
        assert(after[t]);
    }
    if can_finish(after, glob, next, text) {
        let t = choose|t: int|
            0 <= t <= text.len() && after[t] && #[trigger] glob_from(glob, next, text, t);
        let s = choose|s: int|
            0 <= s <= t && #[trigger] before[s] && (s == t || text[t - 1] == SLASH);
        assert(components_between(text, s, t));
        assert(glob_from(glob, at, text, s));
    }
}

/// Whether no byte has a meaning of its own.
pub open spec fn is_plain(glob: Seq<u8>) -> bool {
    forall|i: int|
        0 <= i < glob.len() ==> #[trigger] glob[i] != STAR && glob[i] != QUESTION && glob[i] != OPEN
            && glob[i] != BACKSLASH
}

/// The plain rest of a pattern matches nothing but itself.
proof fn lemma_plain_rest(glob: Seq<u8>, at: int, text: Seq<u8>, start: int)
    requires
        0 <= at <= glob.len(),
        0 <= start <= text.len(),
        is_plain(glob.skip(at)),
    ensures
        glob_from(glob, at, text, start) == (glob.skip(at) == text.skip(start)),
    decreases glob.len() - at,
{
    let rest = glob.skip(at);
    let other = text.skip(start);
    if at < glob.len() {
        assert(rest[0] == glob[at]);
        let next = glob.skip(at + 1);
        assert forall|i: int| 0 <= i < next.len() implies #[trigger] next[i] != STAR && next[i]
            != QUESTION && next[i] != OPEN && next[i] != BACKSLASH by {
            assert(rest[i + 1] == next[i]);
        }
        if start < text.len() {
            lemma_plain_rest(glob, at + 1, text, start + 1);
            if glob[at] == text[start] && next == text.skip(start + 1) {
                assert(rest =~= seq![glob[at]] + next);
                assert(other =~= seq![text[start]] + text.skip(start + 1));
            }
            if rest == other {
                assert(other[0] == text[start]);
                assert(next =~= rest.skip(1));
                assert(text.skip(start + 1) =~= other.skip(1));
            }
        }
    } else {
        assert(rest.len() == 0);
        if start == text.len() {
            assert(other =~= rest);
        }
    }
}

/// A pattern without special bytes matches nothing but itself.
pub proof fn law_plain_pattern_matches_itself(glob: Seq<u8>, text: Seq<u8>)
    requires
        is_plain(glob),
    ensures
        glob_matches(glob, text) == (glob == text),
{
    assert(glob.skip(0) =~= glob);
    assert(text.skip(0) =~= text);
    lemma_plain_rest(glob, 0, text, 0);
}

/// A star and a plain ending match the names with that ending.
pub proof fn law_star_matches_names_by_ending(ending: Seq<u8>, name: Seq<u8>)
    requires
        is_plain(ending),
        no_slash(name, 0, name.len() as int),
    ensures
        glob_matches(seq![STAR] + ending, name) == (exists|start: int|
            0 <= start <= name.len() && #[trigger] name.skip(start) == ending),
{
    let glob = seq![STAR] + ending;
    assert(glob.skip(1) =~= ending);
    assert(glob[0] == STAR);
    assert(stars_end(glob, 1) == 1) by {
        if ending.len() > 0 {
            assert(glob[1] == ending[0]);
        }
    }
    assert(stars_end(glob, 0) == 1);
    if glob_matches(glob, name) {
        let start = choose|start: int| #[trigger]
            run_between(name, 0, start) && glob_from(glob, 1, name, start);
        lemma_plain_rest(glob, 1, name, start);
    }
    if exists|start: int| 0 <= start <= name.len() && #[trigger] name.skip(start) == ending {
        let start = choose|start: int|
            0 <= start <= name.len() && #[trigger] name.skip(start) == ending;
        lemma_plain_rest(glob, 1, name, start);
        assert(run_between(name, 0, start));
    }
}

} // verus!

//! What holds of ignore files and their patterns, whatever they hold.

use crate::path::{is_under, PathView};
use crate::repo_metadata::gitignore::{
    backslashes, file_verdict, joined, lines_of, pattern_from, pattern_matches, pattern_of,
    patterns_among, patterns_in, patterns_verdict, trimmed, verdict, without_mark, PatternView,
};
use crate::repo_metadata::glob::{
    accepts, anything_between, byte_item, class_at, class_from, components_between,
    fills_component, glob_from, glob_matches, in_ranges, lemma_single_end, lemma_stars_end,
    named_ranges, next_close, run_between, single_end, stars_end,
};
use vstd::prelude::*;
use vstd::utf8::{encode_utf8, is_ascii_chars_encode_utf8};

verus! {

/// The pattern of a line, if it has one.
pub open spec fn optional_pattern(line: Seq<u8>) -> Seq<PatternView> {
    match pattern_of(line) {
        Some(pattern) => seq![pattern],
        None => Seq::empty(),
    }
}

/// A line that is added to a text.
proof fn lemma_one_more_line(file: Seq<u8>, line: Seq<u8>)
    requires
        !line.contains(10u8),
    ensures
        lines_of(file.push(10u8) + line) == lines_of(file).push(line),
    decreases line.len(),
{
    let all = file.push(10u8) + line;
    if line.len() == 0 {
        assert(all =~= file.push(10u8));
        assert(all.drop_last() =~= file);
        assert(line =~= Seq::empty());
    } else {
        let rest = line.drop_last();
        assert(line[line.len() - 1] != 10u8);
        lemma_rest_without(line, 10u8);
        lemma_one_more_line(file, rest);
        assert(all.drop_last() =~= file.push(10u8) + rest);
        assert(all.last() == line.last());
        assert(rest.push(line.last()) =~= line);
        assert(lines_of(file).push(rest).drop_last() =~= lines_of(file));
    }
}

/// What a text does not contain, the text without its last byte does not contain.
proof fn lemma_rest_without(text: Seq<u8>, byte: u8)
    requires
        !text.contains(byte),
        text.len() > 0,
    ensures
        !text.drop_last().contains(byte),
{
    let rest = text.drop_last();
    if rest.contains(byte) {
        let i = choose|i: int| 0 <= i < rest.len() && rest[i] == byte;
        assert(text[i] == byte);
    }
}

/// A text without an end of a line is one line.
proof fn lemma_only_line(line: Seq<u8>)
    requires
        !line.contains(10u8),
    ensures
        lines_of(line) == seq![line],
    decreases line.len(),
{
    if line.len() == 0 {
        assert(line =~= Seq::empty());
    } else {
        let rest = line.drop_last();
        assert(line[line.len() - 1] != 10u8);
        lemma_rest_without(line, 10u8);
        lemma_only_line(rest);
        assert(rest.push(line.last()) =~= line);
        assert(lines_of(line) =~= seq![line]);
    }
}

/// An ignore file is read line by line: one more line adds its pattern, if it has one, behind the
/// others. The mark of UTF-8 in front of a file counts for nothing.
pub proof fn law_file_is_read_line_by_line(file: Seq<u8>, line: Seq<u8>)
    requires
        !line.contains(10u8),
    ensures
        patterns_in(file.push(10u8) + line) == patterns_in(file) + optional_pattern(line),
        !(line.len() >= 3 && line[0] == 0xEFu8 && line[1] == 0xBBu8 && line[2] == 0xBFu8)
            ==> patterns_in(line) == optional_pattern(line),
        patterns_in(seq![0xEFu8, 0xBBu8, 0xBFu8] + line) == optional_pattern(line),
{
    let all = file.push(10u8) + line;
    let own = without_mark(file);
    assert(without_mark(all) =~= own.push(10u8) + line) by {
        assert(all[file.len() as int] == 10u8);
        assert forall|i: int| 0 <= i < file.len() implies all[i] == file[i] by {}
    }
    lemma_one_more_line(own, line);
    assert(lines_of(own).push(line).drop_last() =~= lines_of(own));
    assert(patterns_in(all) =~= patterns_in(file) + optional_pattern(line));
    lemma_only_line(line);
    let one = seq![line];
    assert(one.drop_last() =~= Seq::<Seq<u8>>::empty());
    assert(patterns_among(Seq::<Seq<u8>>::empty()) =~= Seq::<PatternView>::empty());
    assert(patterns_among(one) =~= optional_pattern(line));
    let marked = seq![0xEFu8, 0xBBu8, 0xBFu8] + line;
    assert(without_mark(marked) =~= line);
}

/// What the end of a line means for its pattern: a carriage return counts for nothing, and neither
/// does a space, unless a backslash stands before it.
pub proof fn law_ends_of_lines_are_trimmed(line: Seq<u8>)
    requires
        line.len() > 0,
        line.last() != 13u8,
    ensures
        pattern_of(line.push(13u8)) == pattern_of(line),
        line.last() != 92u8 ==> pattern_of(line.push(32u8)) == pattern_of(line),
        line[0] != 35u8 && line.last() == 92u8 && (line.len() == 1 || line[line.len() - 2] != 92u8)
            ==> pattern_of(line.push(32u8)) == Some(pattern_from(line.push(32u8))),
        line[0] != 35u8 && line.last() != 32u8 ==> pattern_of(line) == Some(pattern_from(line)),
        line[0] == 35u8 ==> pattern_of(line) is None,
{
    assert(line.push(13u8).drop_last() =~= line);
    let spaced = line.push(32u8);
    assert(spaced.drop_last() =~= line);
    if line.last() == 92u8 && line.len() > 1 {
        assert(line.drop_last().last() == line[line.len() - 2]);
    }
    reveal_with_fuel(backslashes, 3);
    if line.last() == 92u8 && line.len() == 1 {
        assert(line.drop_last().len() == 0);
    }
    assert(trimmed(line.push(13u8).drop_last()) == trimmed(line));
}

/// What the text of a pattern means, mark by mark. Without `!` in front and without slashes, the
/// text is matched against names, files and directories alike. A `!` in front takes matches back
/// and changes nothing else; a `/` at the end leaves directories alone and changes nothing else; a
/// `/` in front ties the pattern to the directory of its file, and a `/` in between does so too.
pub proof fn law_marks_of_a_pattern(text: Seq<u8>)
    requires
        text.len() > 0,
        text[0] != 33u8,
        text[0] != 47u8,
        text.last() != 47u8,
    ensures
        pattern_from(text) == (PatternView {
            negated: false,
            dir_only: false,
            anchored: text.contains(47u8),
            glob: text,
        }),
        pattern_from(seq![33u8] + text) == (PatternView { negated: true, ..pattern_from(text) }),
        pattern_from(text.push(47u8)) == (PatternView { dir_only: true, ..pattern_from(text) }),
        pattern_from(seq![47u8] + text) == (PatternView { anchored: true, ..pattern_from(text) }),
        pattern_from(seq![33u8] + text.push(47u8)) == (PatternView {
            negated: true,
            dir_only: true,
            ..pattern_from(text)
        }),
        pattern_from(seq![47u8] + text.push(47u8)) == (PatternView {
            anchored: true,
            dir_only: true,
            ..pattern_from(text)
        }),
        pattern_from(seq![33u8, 47u8] + text) == (PatternView {
            negated: true,
            anchored: true,
            ..pattern_from(text)
        }),
        pattern_from(seq![33u8, 47u8] + text.push(47u8)) == (PatternView {
            negated: true,
            anchored: true,
            dir_only: true,
            ..pattern_from(text)
        }),
{
    let ended = text.push(47u8);
    let rooted = seq![47u8] + text;
    let rooted_ended = seq![47u8] + ended;
    assert(ended.drop_last() =~= text);
    assert((seq![33u8] + text).skip(1) =~= text);
    assert(rooted.skip(1) =~= text);
    assert(rooted[0] == 47u8);
    assert(rooted.contains(47u8));
    assert(rooted.last() == text.last());
    assert((seq![33u8] + ended).skip(1) =~= ended);
    assert(rooted_ended.drop_last() =~= rooted);
    assert(rooted_ended.last() == 47u8);
    assert((seq![33u8, 47u8] + text).skip(1) =~= rooted);
    assert((seq![33u8, 47u8] + ended).skip(1) =~= rooted_ended);
    assert((seq![33u8] + text)[0] == 33u8);
    assert((seq![33u8] + ended)[0] == 33u8);
    assert((seq![33u8, 47u8] + text)[0] == 33u8);
    assert((seq![33u8, 47u8] + ended)[0] == 33u8);
}

/// What a pattern is matched against: the name alone, wherever it is, or the whole path from the
/// directory of the ignore file on, with slashes in between. One for directories alone matches no
/// file.
pub proof fn law_what_a_pattern_is_matched_against(
    pattern: PatternView,
    outer: PathView,
    name: Seq<u8>,
)
    ensures
        !pattern.anchored ==> (pattern_matches(pattern, outer.push(name), true) <==> glob_matches(
            pattern.glob,
            name,
        )),
        pattern.anchored ==> (pattern_matches(pattern, outer.push(name), true) <==> glob_matches(
            pattern.glob,
            joined(outer.push(name)),
        )),
        pattern_matches(pattern, outer.push(name), false) <==> !pattern.dir_only
            && pattern_matches(pattern, outer.push(name), true),
        outer.len() == 0 ==> joined(outer.push(name)) == name,
        outer.len() > 0 ==> joined(outer.push(name)) == joined(outer) + seq![47u8] + name,
{
    assert(outer.push(name).last() == name);
    assert(outer.push(name).drop_last() =~= outer);
    if outer.len() > 0 {
        assert(joined(outer).push(47u8) + name =~= joined(outer) + seq![47u8] + name);
    }
}

/// An ignore file speaks of what is below its directory, by the path from there on, and of nothing
/// else. Without patterns, and without files, nothing is said.
pub proof fn law_file_speaks_of_what_is_below(
    dir: PathView,
    patterns: Seq<PatternView>,
    relative: PathView,
    other: PathView,
    is_dir: bool,
)
    requires
        !is_under(other, dir),
    ensures
        file_verdict((dir, patterns), dir + relative, is_dir) == patterns_verdict(
            patterns,
            relative,
            is_dir,
        ),
        file_verdict((dir, patterns), other, is_dir) is None,
        patterns_verdict(Seq::empty(), relative, is_dir) is None,
        verdict(Seq::empty(), relative, is_dir) is None,
{
    let path = dir + relative;
    assert(dir =~= path.subrange(0, dir.len() as int));
    assert(path.skip(dir.len() as int) =~= relative);
}

/// Whether the rest of a pattern matches the rest of a text.
pub open spec fn rest_matches(glob: Seq<u8>, at: int, text: Seq<u8>, start: int) -> bool {
    glob_from(glob, at, text, start)
}

/// What stands for one byte of a text: `?` for any but a slash, `\` and a byte for that byte, and
/// an ordinary byte for itself. At its end a pattern matches the end of the text alone, and a `\`
/// there matches nothing.
pub proof fn law_glob_byte_by_byte(glob: Seq<u8>, at: int, text: Seq<u8>, start: int)
    requires
        0 <= at < glob.len(),
        0 <= start <= text.len(),
    ensures
        glob_matches(glob, text) <==> rest_matches(glob, 0, text, 0),
        rest_matches(glob, glob.len() as int, text, start) <==> start == text.len(),
        glob[at] == 63u8 ==> (rest_matches(glob, at, text, start) <==> start < text.len()
            && text[start] != 47u8 && rest_matches(glob, at + 1, text, start + 1)),
        glob[at] == 92u8 && at + 1 < glob.len() ==> (rest_matches(glob, at, text, start) <==> start
            < text.len() && text[start] == glob[at + 1] && rest_matches(
            glob,
            at + 2,
            text,
            start + 1,
        )),
        glob[at] == 92u8 && at + 1 == glob.len() ==> !rest_matches(glob, at, text, start),
        glob[at] != 42u8 && glob[at] != 63u8 && glob[at] != 91u8 && glob[at] != 92u8 ==> (
        rest_matches(glob, at, text, start) <==> start < text.len() && text[start] == glob[at]
            && rest_matches(glob, at + 1, text, start + 1)),
        glob[at] == 91u8 && class_at(glob, at) is None ==> !rest_matches(glob, at, text, start),
        glob[at] == 91u8 && class_at(glob, at) is Some ==> (rest_matches(glob, at, text, start)
            <==> start < text.len() && accepts(glob, at, text[start]) && rest_matches(
            glob,
            class_at(glob, at).unwrap().1,
            text,
            start + 1,
        )),
{
}

/// Stars, all of those at a place.
pub open spec fn stars_between(glob: Seq<u8>, at: int, next: int) -> bool {
    &&& 0 <= at < next <= glob.len()
    &&& forall|i: int| at <= i < next ==> #[trigger] glob[i] == 42u8
    &&& next < glob.len() ==> glob[next] != 42u8
}

/// Whether stars are a component of their own: there are two at least, after a slash or at the
/// start, and before a slash or at the end.
pub open spec fn stars_alone(glob: Seq<u8>, at: int, next: int) -> bool {
    &&& next - at >= 2
    &&& at == 0 || glob[at - 1] == 47u8
    &&& next == glob.len() || glob[next] == 47u8 || (next + 1 < glob.len() && glob[next] == 92u8
        && glob[next + 1] == 47u8)
}

proof fn lemma_stars_between(glob: Seq<u8>, at: int, next: int)
    requires
        stars_between(glob, at, next),
    ensures
        stars_end(glob, at) == next,
        fills_component(glob, at, next) == stars_alone(glob, at, next),
    decreases next - at,
{
    assert(glob[at] == 42u8);
    if at + 1 < next {
        lemma_stars_between(glob, at + 1, next);
    } else {
        assert(stars_end(glob, next) == next);
    }
}

/// What stars can stand for, they do stand for: bytes without a slash, or, where they are a
/// component of their own, any bytes at the end, and components with their slashes before a slash.
pub proof fn law_stars_take_what_they_can(
    glob: Seq<u8>,
    at: int,
    next: int,
    text: Seq<u8>,
    start: int,
    end: int,
)
    requires
        stars_between(glob, at, next),
        0 <= start <= end <= text.len(),
    ensures
        !stars_alone(glob, at, next) && rest_matches(glob, next, text, end) && (forall|i: int|
            start <= i < end ==> #[trigger] text[i] != 47u8) ==> rest_matches(
            glob,
            at,
            text,
            start,
        ),
        stars_alone(glob, at, next) && !(next < glob.len() && glob[next] == 47u8) && rest_matches(
            glob,
            next,
            text,
            end,
        ) ==> rest_matches(glob, at, text, start),
        stars_alone(glob, at, next) && next < glob.len() && glob[next] == 47u8 && rest_matches(
            glob,
            next + 1,
            text,
            end,
        ) && (start == end || text[end - 1] == 47u8) ==> rest_matches(glob, at, text, start),
{
    lemma_stars_between(glob, at, next);
    lemma_stars_end(glob, at);
    lemma_single_end(glob, at);
    assert(glob[at] == 42u8);
    if forall|i: int| start <= i < end ==> #[trigger] text[i] != 47u8 {
        assert(run_between(text, start, end));
    }
    assert(anything_between(text, start, end));
    if start == end || text[end - 1] == 47u8 {
        assert(components_between(text, start, end));
    }
}

/// Stars stand for nothing but what they can stand for.
pub proof fn law_stars_take_nothing_else(
    glob: Seq<u8>,
    at: int,
    next: int,
    text: Seq<u8>,
    start: int,
)
    requires
        stars_between(glob, at, next),
        0 <= start <= text.len(),
        rest_matches(glob, at, text, start),
    ensures
        !stars_alone(glob, at, next) ==> exists|end: int| #[trigger]
            rest_matches(glob, next, text, end) && start <= end <= text.len() && forall|i: int|
                start <= i < end ==> #[trigger] text[i] != 47u8,
        stars_alone(glob, at, next) && !(next < glob.len() && glob[next] == 47u8) ==> exists|
            end: int,
        | #[trigger] rest_matches(glob, next, text, end) && start <= end <= text.len(),
        stars_alone(glob, at, next) && next < glob.len() && glob[next] == 47u8 ==> exists|end: int|
         #[trigger]
            rest_matches(glob, next + 1, text, end) && start <= end <= text.len() && (start == end
                || text[end - 1] == 47u8),
{
    lemma_stars_between(glob, at, next);
    lemma_stars_end(glob, at);
    lemma_single_end(glob, at);
    assert(glob[at] == 42u8);
    if !stars_alone(glob, at, next) {
        let end = choose|end: int| #[trigger]
            run_between(text, start, end) && glob_from(glob, next, text, end);
        assert(rest_matches(glob, next, text, end));
    } else if next < glob.len() && glob[next] == 47u8 {
        let end = choose|end: int| #[trigger]
            components_between(text, start, end) && glob_from(glob, next + 1, text, end);
        assert(rest_matches(glob, next + 1, text, end));
    } else {
        let end = choose|end: int| #[trigger]
            anything_between(text, start, end) && glob_from(glob, next, text, end);
        assert(rest_matches(glob, next, text, end));
    }
}

/// Whether a byte means nothing special in a class.
pub open spec fn is_member(byte: u8) -> bool {
    byte != 93u8 && byte != 92u8 && byte != 91u8 && byte != 45u8
}

/// Whether a byte is among those between two places.
pub open spec fn is_between(glob: Seq<u8>, from: int, to: int, byte: u8) -> bool {
    exists|i: int| from <= i < to && #[trigger] glob[i] == byte
}

/// A class of members.
proof fn lemma_members(glob: Seq<u8>, from: int, to: int, first: bool)
    requires
        0 <= from <= to < glob.len(),
        glob[to] == 93u8,
        first ==> from < to,
        forall|i: int| from <= i < to ==> is_member(#[trigger] glob[i]),
    ensures
        class_from(glob, from, first) == Some(
            (Seq::new((to - from) as nat, |k: int| (glob[from + k], glob[from + k])), to + 1),
        ),
    decreases to - from,
{
    let ranges = Seq::new((to - from) as nat, |k: int| (glob[from + k], glob[from + k]));
    if from == to {
        assert(ranges =~= Seq::empty());
    } else {
        assert(is_member(glob[from]));
        lemma_members(glob, from + 1, to, false);
        let more = Seq::new(
            (to - (from + 1)) as nat,
            |k: int| (glob[from + 1 + k], glob[from + 1 + k]),
        );
        assert(from + 1 < to ==> is_member(glob[from + 1]));
        assert(byte_item(glob, glob[from], from + 1) == Some(
            (seq![(glob[from], glob[from])], from + 1),
        ));
        assert(seq![(glob[from], glob[from])] + more =~= ranges);
    }
}

/// A class that lists bytes stands for one of them, a negated one for any other byte, and neither
/// for a slash.
pub proof fn law_class_of_listed_bytes(glob: Seq<u8>, at: int, from: int, to: int, byte: u8)
    requires
        0 <= at < from < to < glob.len(),
        glob[at] == 91u8,
        glob[to] == 93u8,
        forall|i: int| from <= i < to ==> is_member(#[trigger] glob[i]),
        from == at + 1 && glob[from] != 33u8 && glob[from] != 94u8 || from == at + 2 && (glob[at
            + 1] == 33u8 || glob[at + 1] == 94u8),
    ensures
        single_end(glob, at) == Some(to + 1),
        from == at + 1 ==> (accepts(glob, at, byte) <==> byte != 47u8 && is_between(
            glob,
            from,
            to,
            byte,
        )),
        from == at + 2 ==> (accepts(glob, at, byte) <==> byte != 47u8 && !is_between(
            glob,
            from,
            to,
            byte,
        )),
{
    lemma_members(glob, from, to, true);
    let ranges = Seq::new((to - from) as nat, |k: int| (glob[from + k], glob[from + k]));
    assert(in_ranges(ranges, byte) == is_between(glob, from, to, byte)) by {
        if in_ranges(ranges, byte) {
            let k = choose|k: int|
                0 <= k < ranges.len() && (#[trigger] ranges[k]).0 <= byte <= ranges[k].1;
            assert(glob[from + k] == byte);
        }
        if is_between(glob, from, to, byte) {
            let i = choose|i: int| from <= i < to && #[trigger] glob[i] == byte;
            assert(ranges[i - from] == (byte, byte));
        }
    }
}

/// A class of a range stands for the bytes from its first to its last one, and in any case for the
/// first; never for a slash.
pub proof fn law_class_of_a_range(glob: Seq<u8>, at: int, byte: u8)
    requires
        0 <= at,
        at + 4 < glob.len(),
        glob[at] == 91u8,
        glob[at + 1] != 33u8,
        glob[at + 1] != 94u8,
        glob[at + 1] != 91u8,
        glob[at + 1] != 92u8,
        glob[at + 2] == 45u8,
        glob[at + 3] != 92u8,
        glob[at + 3] != 93u8,
        glob[at + 4] == 93u8,
    ensures
        single_end(glob, at) == Some(at + 5),
        accepts(glob, at, byte) <==> byte != 47u8 && (byte == glob[at + 1] || glob[at + 1] <= byte
            <= glob[at + 3]),
{
    let low = glob[at + 1];
    let high = glob[at + 3];
    let ranges = seq![(low, low), (low, high)];
    assert(class_from(glob, at + 4, false) == Some((Seq::<(u8, u8)>::empty(), at + 5)));
    assert(byte_item(glob, low, at + 2) == Some((ranges, at + 4)));
    assert(ranges + Seq::<(u8, u8)>::empty() =~= ranges);
    assert(class_at(glob, at) == Some((ranges, at + 5)));
    assert(ranges[0] == (low, low));
    assert(ranges[1] == (low, high));
}

/// Whether a class has a name and stands for a byte.
pub open spec fn named_class_holds(name: Seq<u8>, byte: u8) -> bool {
    match named_ranges(name) {
        Some(ranges) => in_ranges(ranges, byte),
        None => false,
    }
}

/// The ranges of the classes that have names.
proof fn lemma_named_ranges()
    ensures
        named_ranges(encode_utf8("alnum"@)) == Some(
            seq![(48u8, 57u8), (65u8, 90u8), (97u8, 122u8)],
        ),
        named_ranges(encode_utf8("alpha"@)) == Some(
            seq![(65u8, 90u8), (97u8, 122u8)],
        ),
        named_ranges(encode_utf8("blank"@)) == Some(
            seq![(9u8, 9u8), (32u8, 32u8)],
        ),
        named_ranges(encode_utf8("cntrl"@)) == Some(
            seq![(0u8, 31u8), (127u8, 127u8)],
        ),
        named_ranges(encode_utf8("digit"@)) == Some(
            seq![(48u8, 57u8)],
        ),
        named_ranges(encode_utf8("graph"@)) == Some(
            seq![(33u8, 126u8)],
        ),
        named_ranges(encode_utf8("lower"@)) == Some(
            seq![(97u8, 122u8)],
        ),
        named_ranges(encode_utf8("print"@)) == Some(
            seq![(32u8, 126u8)],
        ),
        named_ranges(encode_utf8("punct"@)) == Some(
            seq![(33u8, 47u8), (58u8, 64u8), (91u8, 96u8), (123u8, 126u8)],
        ),
        named_ranges(encode_utf8("space"@)) == Some(
            seq![(9u8, 13u8), (32u8, 32u8)],
        ),
        named_ranges(encode_utf8("upper"@)) == Some(
            seq![(65u8, 90u8)],
        ),
        named_ranges(encode_utf8("xdigit"@)) == Some(
            seq![(48u8, 57u8), (65u8, 70u8), (97u8, 102u8)],
        ),
{
    reveal_strlit("alnum");
    reveal_strlit("alpha");
    reveal_strlit("blank");
    reveal_strlit("cntrl");
    reveal_strlit("digit");
    reveal_strlit("graph");
    reveal_strlit("lower");
    reveal_strlit("print");
    reveal_strlit("punct");
    reveal_strlit("space");
    reveal_strlit("upper");
    reveal_strlit("xdigit");
    is_ascii_chars_encode_utf8("alnum"@);
    is_ascii_chars_encode_utf8("alpha"@);
    is_ascii_chars_encode_utf8("blank"@);
    is_ascii_chars_encode_utf8("cntrl"@);
    is_ascii_chars_encode_utf8("digit"@);
    is_ascii_chars_encode_utf8("graph"@);
    is_ascii_chars_encode_utf8("lower"@);
    is_ascii_chars_encode_utf8("print"@);
    is_ascii_chars_encode_utf8("punct"@);
    is_ascii_chars_encode_utf8("space"@);
    is_ascii_chars_encode_utf8("upper"@);
    is_ascii_chars_encode_utf8("xdigit"@);
    assert(encode_utf8("alnum"@)[2] != encode_utf8("alpha"@)[2]);
    assert(encode_utf8("print"@)[1] != encode_utf8("punct"@)[1]);
}

proof fn lemma_in_one(
    byte: u8,
    low0: u8,
    high0: u8,
)
    ensures
        in_ranges(seq![(low0, high0)], byte) <==> low0 <= byte <= high0,
{
    let ranges = seq![(low0, high0)];
    assert(ranges[0] == (low0, high0));
}

proof fn lemma_in_two(
    byte: u8,
    low0: u8,
    high0: u8,
    low1: u8,
    high1: u8,
)
    ensures
        in_ranges(seq![(low0, high0), (low1, high1)], byte) <==> low0 <= byte <= high0 || low1
            <= byte <= high1,
{
    let ranges = seq![(low0, high0), (low1, high1)];
    assert(ranges[0] == (low0, high0));
    assert(ranges[1] == (low1, high1));
}

proof fn lemma_in_three(
    byte: u8,
    low0: u8,
    high0: u8,
    low1: u8,
    high1: u8,
    low2: u8,
    high2: u8,
)
    ensures
        in_ranges(seq![(low0, high0), (low1, high1), (low2, high2)], byte) <==> low0 <= byte
            <= high0 || low1 <= byte <= high1 || low2 <= byte <= high2,
{
    let ranges = seq![(low0, high0), (low1, high1), (low2, high2)];
    assert(ranges[0] == (low0, high0));
    assert(ranges[1] == (low1, high1));
    assert(ranges[2] == (low2, high2));
}

proof fn lemma_in_four(
    byte: u8,
    low0: u8,
    high0: u8,
    low1: u8,
    high1: u8,
    low2: u8,
    high2: u8,
    low3: u8,
    high3: u8,
)
    ensures
        in_ranges(seq![(low0, high0), (low1, high1), (low2, high2), (low3, high3)], byte)
            <==> low0 <= byte <= high0 || low1 <= byte <= high1 || low2 <= byte <= high2 || low3
            <= byte <= high3,
{
    let ranges = seq![(low0, high0), (low1, high1), (low2, high2), (low3, high3)];
    assert(ranges[0] == (low0, high0));
    assert(ranges[1] == (low1, high1));
    assert(ranges[2] == (low2, high2));
    assert(ranges[3] == (low3, high3));
}

/// What the classes with names stand for, and how they go together.
pub proof fn law_named_classes(byte: u8)
    ensures
        named_class_holds(encode_utf8("digit"@), byte) <==> '0' as u8 <= byte <= '9' as u8,
        named_class_holds(encode_utf8("lower"@), byte) <==> 'a' as u8 <= byte <= 'z' as u8,
        named_class_holds(encode_utf8("upper"@), byte) <==> 'A' as u8 <= byte <= 'Z' as u8,
        named_class_holds(encode_utf8("alpha"@), byte) <==> named_class_holds(
            encode_utf8("lower"@),
            byte,
        ) || named_class_holds(encode_utf8("upper"@), byte),
        named_class_holds(encode_utf8("alnum"@), byte) <==> named_class_holds(
            encode_utf8("alpha"@),
            byte,
        ) || named_class_holds(encode_utf8("digit"@), byte),
        named_class_holds(encode_utf8("xdigit"@), byte) <==> named_class_holds(
            encode_utf8("digit"@),
            byte,
        ) || 'a' as u8 <= byte <= 'f' as u8 || 'A' as u8 <= byte <= 'F' as u8,
        named_class_holds(encode_utf8("cntrl"@), byte) <==> byte < 32 || byte == 127,
        named_class_holds(encode_utf8("print"@), byte) <==> byte < 128 && !named_class_holds(
            encode_utf8("cntrl"@),
            byte,
        ),
        named_class_holds(encode_utf8("graph"@), byte) <==> named_class_holds(
            encode_utf8("print"@),
            byte,
        ) && byte != ' ' as u8,
        named_class_holds(encode_utf8("punct"@), byte) <==> named_class_holds(
            encode_utf8("graph"@),
            byte,
        ) && !named_class_holds(encode_utf8("alnum"@), byte),
        named_class_holds(encode_utf8("blank"@), byte) <==> byte == ' ' as u8 || byte == '\t' as u8,
        named_class_holds(encode_utf8("space"@), byte) <==> byte == ' ' as u8 || 9 <= byte <= 13,
{
    lemma_named_ranges();
    lemma_in_three(byte, 48, 57, 65, 90, 97, 122);
    lemma_in_two(byte, 65, 90, 97, 122);
    lemma_in_two(byte, 9, 9, 32, 32);
    lemma_in_two(byte, 0, 31, 127, 127);
    lemma_in_one(byte, 48, 57);
    lemma_in_one(byte, 33, 126);
    lemma_in_one(byte, 97, 122);
    lemma_in_one(byte, 32, 126);
    lemma_in_four(byte, 33, 47, 58, 64, 91, 96, 123, 126);
    lemma_in_two(byte, 9, 13, 32, 32);
    lemma_in_one(byte, 65, 90);
    lemma_in_three(byte, 48, 57, 65, 70, 97, 102);
}

/// The first `]` from a place on.
proof fn lemma_next_close(glob: Seq<u8>, from: int, close: int)
    requires
        0 <= from <= close < glob.len(),
        glob[close] == 93u8,
        forall|i: int| from <= i < close ==> #[trigger] glob[i] != 93u8,
    ensures
        next_close(glob, from) == close,
    decreases close - from,
{
    if from < close {
        assert(glob[from] != 93u8);
        lemma_next_close(glob, from + 1, close);
    }
}

/// A class that names another one stands for the bytes of that one but a slash; where there is no
/// class of the name, the pattern matches nothing.
pub proof fn law_class_by_name(glob: Seq<u8>, at: int, close: int, byte: u8)
    requires
        0 <= at,
        at + 3 < close,
        close + 1 < glob.len(),
        glob[at] == 91u8,
        glob[at + 1] == 91u8,
        glob[at + 2] == 58u8,
        glob[close - 1] == 58u8,
        glob[close] == 93u8,
        glob[close + 1] == 93u8,
        forall|i: int| at + 3 <= i < close ==> #[trigger] glob[i] != 93u8,
    ensures
        accepts(glob, at, byte) <==> byte != 47u8 && named_class_holds(
            glob.subrange(at + 3, close - 1),
            byte,
        ),
        named_ranges(glob.subrange(at + 3, close - 1)) is Some ==> single_end(glob, at) == Some(
            close + 2,
        ),
        named_ranges(glob.subrange(at + 3, close - 1)) is None ==> single_end(glob, at) is None,
{
    lemma_next_close(glob, at + 3, close);
    let name = glob.subrange(at + 3, close - 1);
    assert(class_from(glob, close + 1, false) == Some((Seq::<(u8, u8)>::empty(), close + 2)));
    if let Some(ranges) = named_ranges(name) {
        assert(ranges + Seq::<(u8, u8)>::empty() =~= ranges);
        assert(class_at(glob, at) == Some((ranges, close + 2)));
    }
}

/// Whether a byte is in the class that is read from a place on, and the class ends.
pub open spec fn class_holds(glob: Seq<u8>, at: int, first: bool, byte: u8) -> bool {
    match class_from(glob, at, first) {
        Some((ranges, _)) => in_ranges(ranges, byte),
        None => false,
    }
}

/// The place at which the class that is read from a place on ends.
pub open spec fn class_end(glob: Seq<u8>, at: int, first: bool) -> Option<int> {
    match class_from(glob, at, first) {
        Some((_, end)) => Some(end),
        None => None,
    }
}

/// What two lists of ranges hold together.
proof fn lemma_ranges_together(some: Seq<(u8, u8)>, more: Seq<(u8, u8)>, byte: u8)
    ensures
        in_ranges(some + more, byte) <==> in_ranges(some, byte) || in_ranges(more, byte),
{
    let all = some + more;
    if in_ranges(all, byte) {
        let i = choose|i: int| 0 <= i < all.len() && (#[trigger] all[i]).0 <= byte <= all[i].1;
        if i < some.len() {
            assert(some[i] == all[i]);
        } else {
            assert(more[i - some.len()] == all[i]);
        }
    }
    if in_ranges(some, byte) {
        let i = choose|i: int| 0 <= i < some.len() && (#[trigger] some[i]).0 <= byte <= some[i].1;
        assert(all[i] == some[i]);
    }
    if in_ranges(more, byte) {
        let i = choose|i: int| 0 <= i < more.len() && (#[trigger] more[i]).0 <= byte <= more[i].1;
        assert(all[some.len() + i] == more[i]);
    }
}

/// A class is read part by part. A `]` ends it, unless it comes first. A byte stands for itself,
/// and a byte after a `\` too; with a `-` and another byte after it, it stands for a range, and
/// that other byte may stand after a `\`. A class that does not end is none.
pub proof fn law_class_is_read_part_by_part(
    glob: Seq<u8>,
    at: int,
    first: bool,
    low: u8,
    next: int,
    byte: u8,
)
    requires
        0 <= at < glob.len(),
        glob[at] != 93u8 || first,
        glob[at] == 92u8 ==> next == at + 2 && next <= glob.len() && low == glob[at + 1],
        glob[at] != 92u8 ==> next == at + 1 && low == glob[at],
        glob[at] == 91u8 ==> !(at + 1 < glob.len() && glob[at + 1] == 58u8),
    ensures
        ({
            let ranged = next + 1 < glob.len() && glob[next] == 45u8 && glob[next + 1] != 93u8;
            let escaped = ranged && glob[next + 1] == 92u8;
            &&& !ranged ==> {
                &&& class_end(glob, at, first) == class_end(glob, next, false)
                &&& class_end(glob, at, first) is Some ==> (class_holds(glob, at, first, byte)
                    <==> byte == low || class_holds(glob, next, false, byte))
            }
            &&& ranged && !escaped ==> {
                &&& class_end(glob, at, first) == class_end(glob, next + 2, false)
                &&& class_end(glob, at, first) is Some ==> (class_holds(glob, at, first, byte)
                    <==> byte == low || low <= byte <= glob[next + 1] || class_holds(
                    glob,
                    next + 2,
                    false,
                    byte,
                ))
            }
            &&& escaped && next + 2 < glob.len() ==> {
                &&& class_end(glob, at, first) == class_end(glob, next + 3, false)
                &&& class_end(glob, at, first) is Some ==> (class_holds(glob, at, first, byte)
                    <==> byte == low || low <= byte <= glob[next + 2] || class_holds(
                    glob,
                    next + 3,
                    false,
                    byte,
                ))
            }
            &&& escaped && next + 2 >= glob.len() ==> class_end(glob, at, first) is None
        }),
        class_end(glob, glob.len() as int, first) is None,
        forall|close: int|
            0 <= close < glob.len() && #[trigger] glob[close] == 93u8 ==> class_end(
                glob,
                close,
                false,
            ) == Some(close + 1) && !class_holds(glob, close, false, byte),
{
    if let Some((ranges, after)) = byte_item(glob, low, next) {
        if let Some((more, _)) = class_from(glob, after, false) {
            lemma_ranges_together(ranges, more, byte);
            assert(ranges[0] == (low, low));
            if ranges.len() > 1 {
                assert(ranges[1].0 == low);
            }
        }
    }
}

/// A class stands for the bytes that it holds, a negated one for those that it does not hold, and
/// neither for a slash. It is read from behind its `[`, or from behind the `!` or `^` that negates
/// it.
pub proof fn law_class_may_be_negated(glob: Seq<u8>, at: int, byte: u8)
    requires
        0 <= at < glob.len(),
        glob[at] == 91u8,
    ensures
        at + 1 < glob.len() && (glob[at + 1] == 33u8 || glob[at + 1] == 94u8) ==> {
            &&& single_end(glob, at) == class_end(glob, at + 2, true)
            &&& accepts(glob, at, byte) <==> byte != 47u8 && class_end(glob, at + 2, true) is Some
                && !class_holds(glob, at + 2, true, byte)
        },
        !(at + 1 < glob.len() && (glob[at + 1] == 33u8 || glob[at + 1] == 94u8)) ==> {
            &&& single_end(glob, at) == class_end(glob, at + 1, true)
            &&& accepts(glob, at, byte) <==> byte != 47u8 && class_holds(glob, at + 1, true, byte)
        },
{
}

/// A number of backslashes.
pub open spec fn some_backslashes(count: nat) -> Seq<u8> {
    Seq::new(count, |i: int| 92u8)
}

proof fn lemma_backslashes(line: Seq<u8>, count: nat)
    requires
        line.len() > 0 ==> line.last() != 92u8,
    ensures
        backslashes(line + some_backslashes(count)) == count,
    decreases count,
{
    let text = line + some_backslashes(count);
    if count == 0 {
        assert(text =~= line);
    } else {
        lemma_backslashes(line, (count - 1) as nat);
        assert(text.drop_last() =~= line + some_backslashes((count - 1) as nat));
        assert(text.last() == 92u8);
    }
}

/// A space at the end of a line is escaped by an odd number of backslashes before it, and else
/// counts for nothing.
pub proof fn law_escaped_spaces_stay(line: Seq<u8>, count: nat)
    requires
        line.len() > 0,
        line[0] != 35u8,
        line.last() != 92u8,
        line.last() != 13u8,
    ensures
        count % 2 == 1 ==> pattern_of((line + some_backslashes(count)).push(32u8)) == Some(
            pattern_from((line + some_backslashes(count)).push(32u8)),
        ),
        count % 2 == 0 ==> pattern_of((line + some_backslashes(count)).push(32u8)) == pattern_of(
            line + some_backslashes(count),
        ),
{
    let text = line + some_backslashes(count);
    lemma_backslashes(line, count);
    assert(text.push(32u8).drop_last() =~= text);
    assert(text[0] == line[0]);
    if count == 0 {
        assert(text =~= line);
    } else {
        assert(text.last() == 92u8);
    }
}

/// What a text says, whatever it is, once a `!` in front is taken off: a slash at the end is for
/// directories alone, one before that ties the pattern to the directory of its file, and one in
/// front is no part of what is matched.
pub proof fn law_parts_of_a_pattern(body: Seq<u8>)
    ensures
        pattern_from(seq![33u8] + body).negated,
        body.len() > 0 && body[0] != 33u8 ==> pattern_from(seq![33u8] + body) == (PatternView {
            negated: true,
            ..pattern_from(body)
        }),
        !(body.len() > 0 && body[0] == 33u8) ==> !pattern_from(body).negated,
        pattern_from(body.push(47u8)).dir_only,
        pattern_from(body).dir_only <==> body.len() > 0 && body.last() == 47u8,
        !(body.len() > 0 && body[0] == 33u8) ==> {
            &&& pattern_from(body.push(47u8)).anchored <==> body.contains(47u8)
            &&& body.len() > 0 && body[0] == 47u8 ==> pattern_from(body.push(47u8)).glob
                == body.skip(1)
            &&& !(body.len() > 0 && body[0] == 47u8) ==> pattern_from(body.push(47u8)).glob == body
        },
{
    assert((seq![33u8] + body).skip(1) =~= body);
    assert((seq![33u8] + body)[0] == 33u8);
    let ended = body.push(47u8);
    assert(ended.drop_last() =~= body);
    if ended[0] == 33u8 {
        assert(ended.skip(1).last() == 47u8);
    }
    if body.len() > 1 && body[0] == 33u8 {
        assert(body.skip(1).last() == body.last());
    }
    if body.len() == 1 && body[0] == 33u8 {
        assert(body =~= seq![33u8]);
        assert(body.skip(1).len() == 0);
    }
}

} // verus!

//! Ignore files (`.gitignore`): their patterns, and what these say of a path.
//!
//! A file has one pattern per line. Blank lines and lines that start with `#` have none. A pattern
//! that starts with `!` takes a match back, one that ends with `/` is for directories alone, and
//! one with another `/` is matched against the path from the file's directory on; any other is
//! matched against the last component.

use crate::path::{copy_range, is_under, FilePath, PathView, SLASH};
use crate::repo_metadata::glob::{glob_matches, match_glob, BACKSLASH, BANG};
use vstd::prelude::*;

verus! {

/// The byte that ends a line.
pub const NEWLINE: u8 = 10;

/// The byte that may stand before the end of a line.
pub const RETURN: u8 = 13;

/// The byte of a space.
pub const SPACE: u8 = 32;

/// The byte `#`.
pub const HASH: u8 = 35;

/// The contents of a pattern.
#[verifier::ext_equal]
pub struct PatternView {
    /// Whether a match takes back earlier ones.
    pub negated: bool,
    /// Whether the pattern is for directories alone.
    pub dir_only: bool,
    /// Whether the pattern is matched against the whole relative path.
    pub anchored: bool,
    pub glob: Seq<u8>,
}

/// A pattern of an ignore file.
#[derive(Debug)]
pub struct Pattern {
    pub negated: bool,
    pub dir_only: bool,
    pub anchored: bool,
    pub glob: Vec<u8>,
}

impl View for Pattern {
    type V = PatternView;

    open spec fn view(&self) -> PatternView {
        PatternView {
            negated: self.negated,
            dir_only: self.dir_only,
            anchored: self.anchored,
            glob: self.glob@,
        }
    }
}

/// The contents of patterns.
pub open spec fn patterns_view(patterns: Seq<Pattern>) -> Seq<PatternView> {
    Seq::new(patterns.len(), |i: int| patterns[i]@)
}

/// A file without the mark that some editors put in front of UTF-8.
pub open spec fn without_mark(file: Seq<u8>) -> Seq<u8> {
    if file.len() >= 3 && file[0] == 0xEF && file[1] == 0xBB && file[2] == 0xBF {
        file.skip(3)
    } else {
        file
    }
}

/// The lines of a file: one more than there are ends of lines.
pub open spec fn lines_of(file: Seq<u8>) -> Seq<Seq<u8>>
    decreases file.len(),
{
    if file.len() == 0 {
        seq![Seq::empty()]
    } else {
        let before = lines_of(file.drop_last());
        if file.last() == NEWLINE {
            before.push(Seq::empty())
        } else {
            before.drop_last().push(before.last().push(file.last()))
        }
    }
}

/// A line without a carriage return at its end.
pub open spec fn without_return(line: Seq<u8>) -> Seq<u8> {
    if line.len() > 0 && line.last() == RETURN {
        line.drop_last()
    } else {
        line
    }
}

/// The number of backslashes at the end of a text.
pub open spec fn backslashes(text: Seq<u8>) -> nat
    decreases text.len(),
{
    if text.len() > 0 && text.last() == BACKSLASH {
        backslashes(text.drop_last()) + 1
    } else {
        0
    }
}

/// A line without the spaces at its end. A space after a backslash that is not itself escaped
/// stays.
pub open spec fn trimmed(text: Seq<u8>) -> Seq<u8>
    decreases text.len(),
{
    if text.len() > 0 && text.last() == SPACE && backslashes(text.drop_last()) % 2 == 0 {
        trimmed(text.drop_last())
    } else {
        text
    }
}

/// The pattern that a text stands for.
pub open spec fn pattern_from(text: Seq<u8>) -> PatternView {
    let negated = text.len() > 0 && text[0] == BANG;
    let body = if negated {
        text.skip(1)
    } else {
        text
    };
    let dir_only = body.len() > 0 && body.last() == SLASH;
    let core = if dir_only {
        body.drop_last()
    } else {
        body
    };
    PatternView {
        negated,
        dir_only,
        anchored: core.contains(SLASH),
        glob: if core.len() > 0 && core[0] == SLASH {
            core.skip(1)
        } else {
            core
        },
    }
}

/// The pattern of a line. A comment and a blank line have none.
pub open spec fn pattern_of(line: Seq<u8>) -> Option<PatternView> {
    let text = trimmed(without_return(line));
    if text.len() == 0 || line[0] == HASH {
        None
    } else {
        Some(pattern_from(text))
    }
}

/// The patterns of lines, in order.
pub open spec fn patterns_among(lines: Seq<Seq<u8>>) -> Seq<PatternView>
    decreases lines.len(),
{
    if lines.len() == 0 {
        Seq::empty()
    } else {
        let before = patterns_among(lines.drop_last());
        match pattern_of(lines.last()) {
            Some(pattern) => before.push(pattern),
            None => before,
        }
    }
}

/// The patterns of an ignore file.
pub open spec fn patterns_in(file: Seq<u8>) -> Seq<PatternView> {
    patterns_among(lines_of(without_mark(file)))
}

/// The components of a path with slashes in between.
pub open spec fn joined(path: PathView) -> Seq<u8>
    decreases path.len(),
{
    if path.len() == 0 {
        Seq::empty()
    } else if path.len() == 1 {
        path[0]
    } else {
        joined(path.drop_last()).push(SLASH) + path.last()
    }
}

/// Whether a pattern matches a path, given from the directory of the ignore file on.
pub open spec fn pattern_matches(pattern: PatternView, relative: PathView, is_dir: bool) -> bool {
    &&& relative.len() > 0
    &&& pattern.dir_only ==> is_dir
    &&& glob_matches(
        pattern.glob,
        if pattern.anchored {
            joined(relative)
        } else {
            relative.last()
        },
    )
}

/// What patterns say of a path: whether it is ignored, or nothing. The last pattern that matches
/// decides.
pub open spec fn patterns_verdict(
    patterns: Seq<PatternView>,
    relative: PathView,
    is_dir: bool,
) -> Option<bool>
    decreases patterns.len(),
{
    if patterns.len() == 0 {
        None
    } else if pattern_matches(patterns.last(), relative, is_dir) {
        Some(!patterns.last().negated)
    } else {
        patterns_verdict(patterns.drop_last(), relative, is_dir)
    }
}

/// What the ignore file of a directory says of a path: nothing, where the path is not below the
/// directory.
pub open spec fn file_verdict(
    rule: (PathView, Seq<PatternView>),
    path: PathView,
    is_dir: bool,
) -> Option<bool> {
    if is_under(path, rule.0) {
        patterns_verdict(rule.1, path.skip(rule.0.len() as int), is_dir)
    } else {
        None
    }
}

/// What ignore files say of a path. They are listed with the directories that they are in, outer
/// directories before the ones inside; the last file that says anything decides.
pub open spec fn verdict(
    rules: Seq<(PathView, Seq<PatternView>)>,
    path: PathView,
    is_dir: bool,
) -> Option<bool>
    decreases rules.len(),
{
    if rules.len() == 0 {
        None
    } else {
        match file_verdict(rules.last(), path, is_dir) {
            Some(ignored) => Some(ignored),
            None => verdict(rules.drop_last(), path, is_dir),
        }
    }
}

/// Whether ignore files have a path ignored.
pub open spec fn is_git_ignored(
    rules: Seq<(PathView, Seq<PatternView>)>,
    path: PathView,
    is_dir: bool,
) -> bool {
    verdict(rules, path, is_dir) == Some(true)
}

/// The number of bytes of a line that are left when it is trimmed.
fn trimmed_len(line: &Vec<u8>, len: usize) -> (result: usize)
    requires
        len <= line@.len(),
    ensures
        result <= len,
        line@.take(result as int) == trimmed(line@.take(len as int)),
{
    let mut end: usize = len;
    while end > 0 && line[end - 1] == SPACE
        invariant
            end <= len <= line@.len(),
            trimmed(line@.take(end as int)) == trimmed(line@.take(len as int)),
        decreases end,
    {
        let mut start: usize = end - 1;
        let mut odd = false;
        while start > 0 && line[start - 1] == BACKSLASH
            invariant
                start < end <= len <= line@.len(),
                backslashes(line@.take(end - 1)) == backslashes(line@.take(start as int)) + (end
                    - 1 - start),
                odd == ((end - 1 - start) % 2 == 1),
            decreases start,
        {
            assert(line@.take(start as int).drop_last() =~= line@.take(start - 1));
            start -= 1;
            odd = !odd;
        }
        assert(line@.take(end as int).drop_last() =~= line@.take(end - 1));
        assert(backslashes(line@.take(start as int)) == 0);
        if odd {
            return end;
        }
        end -= 1;
    }
    end
}

/// Whether there is a slash in a range of bytes.
fn has_slash(bytes: &Vec<u8>, from: usize, to: usize) -> (result: bool)
    requires
        from <= to <= bytes@.len(),
    ensures
        result == bytes@.subrange(from as int, to as int).contains(SLASH),
{
    let ghost part = bytes@.subrange(from as int, to as int);
    let mut i: usize = from;
    while i < to
        invariant
            from <= i <= to <= bytes@.len(),
            part == bytes@.subrange(from as int, to as int),
            forall|k: int| from <= k < i ==> #[trigger] bytes@[k] != SLASH,
        decreases to - i,
    {
        if bytes[i] == SLASH {
            assert(part[i - from] == SLASH);
            return true;
        }
        i += 1;
    }
    assert forall|k: int| 0 <= k < part.len() implies part[k] != SLASH by {
        assert(part[k] == bytes@[from + k]);
    }
    false
}

/// Reads the pattern of a line.
fn read_pattern(line: &Vec<u8>) -> (result: Option<Pattern>)
    ensures
        match result {
            Some(pattern) => pattern_of(line@) == Some(pattern@),
            None => pattern_of(line@) is None,
        },
{
    let len: usize = if line.len() > 0 && line[line.len() - 1] == RETURN {
        line.len() - 1
    } else {
        line.len()
    };
    assert(line@.take(len as int) =~= without_return(line@));
    let end = trimmed_len(line, len);
    let ghost text = line@.take(end as int);
    if end == 0 || line[0] == HASH {
        return None;
    }
    let negated = line[0] == BANG;
    let start: usize = if negated {
        1
    } else {
        0
    };
    let dir_only = end > start && line[end - 1] == SLASH;
    let stop: usize = if dir_only {
        end - 1
    } else {
        end
    };
    let ghost core = line@.subrange(start as int, stop as int);
    let anchored = has_slash(line, start, stop);
    let from: usize = if stop > start && line[start] == SLASH {
        start + 1
    } else {
        start
    };
    let glob = copy_range(line, from, stop);
    let pattern = Pattern { negated, dir_only, anchored, glob };
    proof {
        let body = if negated {
            text.skip(1)
        } else {
            text
        };
        assert(body =~= line@.subrange(start as int, end as int));
        assert(core =~= (if dir_only {
            body.drop_last()
        } else {
            body
        }));
        assert(glob@ =~= (if core.len() > 0 && core[0] == SLASH {
            core.skip(1)
        } else {
            core
        }));
        assert(pattern@ =~= pattern_from(text));
    }
    Some(pattern)
}

/// Adds the pattern of a line, if there is one.
fn add_pattern(patterns: &mut Vec<Pattern>, line: &Vec<u8>)
    ensures
        patterns_view(final(patterns)@) == (match pattern_of(line@) {
            Some(pattern) => patterns_view(old(patterns)@).push(pattern),
            None => patterns_view(old(patterns)@),
        }),
{
    if let Some(pattern) = read_pattern(line) {
        patterns.push(pattern);
        assert(patterns_view(patterns@) =~= patterns_view(old(patterns)@).push(pattern@));
    }
}

/// Reads the patterns of an ignore file.
pub fn read_patterns(file: &Vec<u8>) -> (result: Vec<Pattern>)
    ensures
        patterns_view(result@) == patterns_in(file@),
{
    let start: usize = if file.len() >= 3 && file[0] == 0xEF && file[1] == 0xBB && file[2]
        == 0xBF {
        3
    } else {
        0
    };
    let ghost body = without_mark(file@);
    assert(body =~= file@.skip(start as int));
    let mut patterns: Vec<Pattern> = Vec::new();
    let mut line: Vec<u8> = Vec::new();
    let mut i: usize = start;
    proof {
        assert(body.take(0) =~= Seq::<u8>::empty());
        assert(lines_of(body.take(0)).drop_last() =~= Seq::<Seq<u8>>::empty());
        assert(patterns_view(patterns@) =~= Seq::<PatternView>::empty());
        assert(line@ =~= Seq::<u8>::empty());
    }
    while i < file.len()
        invariant
            start <= i <= file@.len(),
            body == file@.skip(start as int),
            lines_of(body.take(i - start)).len() > 0,
            line@ == lines_of(body.take(i - start)).last(),
            patterns_view(patterns@) == patterns_among(lines_of(body.take(i - start)).drop_last()),
        decreases file@.len() - i,
    {
        let byte = file[i];
        let ghost lines = lines_of(body.take(i - start));
        proof {
            assert(body.take(i + 1 - start).drop_last() =~= body.take(i - start));
            assert(body.take(i + 1 - start).last() == byte);
        }
        if byte == NEWLINE {
            add_pattern(&mut patterns, &line);
            line = Vec::new();
            assert(lines.push(Seq::<u8>::empty()).drop_last() =~= lines);
            assert(line@ =~= Seq::<u8>::empty());
        } else {
            line.push(byte);
            assert(lines.drop_last().push(lines.last().push(byte)).drop_last()
                =~= lines.drop_last());
        }
        i += 1;
    }
    assert(body.take(i - start) =~= body);
    add_pattern(&mut patterns, &line);
    patterns
}

/// Joins the components of a path from a place on.
fn join_from(path: &FilePath, from: usize) -> (result: Vec<u8>)
    requires
        from <= path@.len(),
    ensures
        result@ == joined(path@.skip(from as int)),
{
    let parts = path.parts();
    let ghost relative = path@.skip(from as int);
    let mut result: Vec<u8> = Vec::new();
    let mut i: usize = from;
    assert(relative.take(0) =~= Seq::<Seq<u8>>::empty());
    assert(result@ =~= Seq::<u8>::empty());
    while i < parts.len()
        invariant
            from <= i <= path@.len(),
            parts@.len() == path@.len(),
            forall|k: int| 0 <= k < parts@.len() ==> (#[trigger] parts@[k])@ == path@[k],
            relative == path@.skip(from as int),
            result@ == joined(relative.take(i - from)),
        decreases parts@.len() - i,
    {
        let mut part = copy_range(&parts[i], 0, parts[i].len());
        proof {
            assert(parts@[i as int]@ == path@[i as int]);
            assert(part@ =~= relative[i - from]);
            assert(relative.take(i + 1 - from).drop_last() =~= relative.take(i - from));
        }
        if i > from {
            result.push(SLASH);
            result.append(&mut part);
        } else {
            result = part;
        }
        i += 1;
    }
    assert(relative.take(i - from) =~= relative);
    result
}

/// The ignore file of a directory.
pub struct IgnoreFile {
    pub dir: FilePath,
    pub patterns: Vec<Pattern>,
}

impl View for IgnoreFile {
    type V = (PathView, Seq<PatternView>);

    open spec fn view(&self) -> (PathView, Seq<PatternView>) {
        (self.dir@, patterns_view(self.patterns@))
    }
}

/// The contents of ignore files.
pub open spec fn rules_view(rules: Seq<IgnoreFile>) -> Seq<(PathView, Seq<PatternView>)> {
    Seq::new(rules.len(), |i: int| rules[i]@)
}

/// What the ignore file of a directory says of a path.
fn ask_file(rule: &IgnoreFile, path: &FilePath, is_dir: bool) -> (result: Option<bool>)
    ensures
        result == file_verdict(rule@, path@, is_dir),
{
    if !path.starts_with(&rule.dir) {
        return None;
    }
    let from: usize = rule.dir.parts().len();
    let parts = path.parts();
    let ghost relative = path@.skip(from as int);
    let ghost patterns = patterns_view(rule.patterns@);
    if parts.len() == from {
        proof {
            lemma_empty_verdict(patterns, relative, is_dir);
        }
        return None;
    }
    let name = &parts[parts.len() - 1];
    let whole = join_from(path, from);
    let mut i: usize = rule.patterns.len();
    assert(patterns.take(i as int) =~= patterns);
    assert(name@ == relative.last());
    while i > 0
        invariant
            i <= rule.patterns@.len(),
            patterns == patterns_view(rule.patterns@),
            relative.len() > 0,
            name@ == relative.last(),
            whole@ == joined(relative),
            file_verdict(rule@, path@, is_dir) == patterns_verdict(patterns, relative, is_dir),
            patterns_verdict(patterns.take(i as int), relative, is_dir) == patterns_verdict(
                patterns,
                relative,
                is_dir,
            ),
        decreases i,
    {
        let pattern = &rule.patterns[i - 1];
        proof {
            assert(patterns.take(i as int).drop_last() =~= patterns.take(i - 1));
            assert(patterns.take(i as int).last() == pattern@);
        }
        if (!pattern.dir_only || is_dir) && (if pattern.anchored {
            match_glob(&pattern.glob, &whole)
        } else {
            match_glob(&pattern.glob, name)
        }) {
            return Some(!pattern.negated);
        }
        i -= 1;
    }
    None
}

/// Patterns say nothing of the directory that their file is in.
pub proof fn lemma_empty_verdict(patterns: Seq<PatternView>, relative: PathView, is_dir: bool)
    requires
        relative.len() == 0,
    ensures
        patterns_verdict(patterns, relative, is_dir) is None,
    decreases patterns.len(),
{
    if patterns.len() > 0 {
        lemma_empty_verdict(patterns.drop_last(), relative, is_dir);
    }
}

/// Whether ignore files have a path ignored.
pub fn git_ignores(rules: &Vec<IgnoreFile>, path: &FilePath, is_dir: bool) -> (result: bool)
    ensures
        result == is_git_ignored(rules_view(rules@), path@, is_dir),
{
    let ghost views = rules_view(rules@);
    let mut i: usize = rules.len();
    assert(views.take(i as int) =~= views);
    while i > 0
        invariant
            i <= rules@.len(),
            views == rules_view(rules@),
            verdict(views.take(i as int), path@, is_dir) == verdict(views, path@, is_dir),
        decreases i,
    {
        proof {
            assert(views.take(i as int).drop_last() =~= views.take(i - 1));
            assert(views.take(i as int).last() == rules@[i - 1]@);
        }
        if let Some(ignored) = ask_file(&rules[i - 1], path, is_dir) {
            return ignored;
        }
        i -= 1;
    }
    false
}

/// The last pattern that matches decides: a later pattern overrules all before it, and `!` takes
/// a match back.
pub proof fn law_last_pattern_decides(
    patterns: Seq<PatternView>,
    pattern: PatternView,
    relative: PathView,
    is_dir: bool,
)
    ensures
        patterns_verdict(patterns.push(pattern), relative, is_dir) == (if pattern_matches(
            pattern,
            relative,
            is_dir,
        ) {
            Some(!pattern.negated)
        } else {
            patterns_verdict(patterns, relative, is_dir)
        }),
{
    assert(patterns.push(pattern).drop_last() =~= patterns);
}

/// The nearer ignore file decides: one that comes after those of outer directories overrules them
/// where it says anything, and leaves what is not below its directory as it is.
pub proof fn law_nearer_file_decides(
    rules: Seq<(PathView, Seq<PatternView>)>,
    rule: (PathView, Seq<PatternView>),
    path: PathView,
    is_dir: bool,
)
    ensures
        verdict(rules.push(rule), path, is_dir) == (match file_verdict(rule, path, is_dir) {
            Some(ignored) => Some(ignored),
            None => verdict(rules, path, is_dir),
        }),
        !is_under(path, rule.0) ==> verdict(rules.push(rule), path, is_dir) == verdict(
            rules,
            path,
            is_dir,
        ),
{
    assert(rules.push(rule).drop_last() =~= rules);
}

/// Comments and lines of nothing but spaces have no pattern.
pub proof fn law_comments_and_blank_lines_have_no_pattern(line: Seq<u8>)
    ensures
        line.len() > 0 && line[0] == HASH ==> pattern_of(line) is None,
        (forall|i: int| 0 <= i < line.len() ==> #[trigger] line[i] == SPACE) ==> pattern_of(
            line,
        ) is None,
{
    if forall|i: int| 0 <= i < line.len() ==> #[trigger] line[i] == SPACE {
        assert(line.len() > 0 ==> line[line.len() - 1] == SPACE);
        lemma_spaces_are_trimmed(line);
    }
}

proof fn lemma_spaces_are_trimmed(text: Seq<u8>)
    requires
        forall|i: int| 0 <= i < text.len() ==> #[trigger] text[i] == SPACE,
    ensures
        trimmed(text).len() == 0,
    decreases text.len(),
{
    if text.len() > 0 {
        let rest = text.drop_last();
        assert(text[text.len() - 1] == SPACE);
        assert forall|i: int| 0 <= i < rest.len() implies #[trigger] rest[i] == SPACE by {
            assert(rest[i] == text[i]);
        }
        assert(rest.len() > 0 ==> rest[rest.len() - 1] == SPACE);
        lemma_spaces_are_trimmed(rest);
    }
}

} // verus!

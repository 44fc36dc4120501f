//! Recursive scan of a directory, respecting gitignore patterns.
//!
//! A `DirectoryScan` decides which directory is read next and which of its entries are kept: those
//! that are neither hidden, nor commonly ignored, nor ignored by the ignore files of the
//! directories that they are in. The caller reads each directory and hands in its entries and its
//! ignore file.

use crate::path::{file_name_of, FilePath, PathView, DOT};
use crate::path_set::paths_view;
use crate::repo_metadata::gitignore::{
    git_ignores, is_git_ignored, patterns_in, read_patterns, rules_view, IgnoreFile, PatternView,
};
use crate::text::spells;
use vstd::prelude::*;
use vstd::utf8::{encode_utf8, valid_utf8};

verus! {

/// Whether bytes are UTF-8.
///
/// `std::str::from_utf8` succeeds on valid UTF-8 and on nothing else.
#[verifier::external_body]
fn is_utf8(bytes: &Vec<u8>) -> (result: bool)
    ensures
        result == valid_utf8(bytes@),
{
    std::str::from_utf8(bytes).is_ok()
}

/// Whether a name is hidden or that of a commonly ignored directory. A name that is not UTF-8 is
/// neither.
pub open spec fn is_ignored_name(name: Seq<u8>) -> bool {
    valid_utf8(name) && (name.len() > 0 && name[0] == DOT || name == encode_utf8("node_modules"@)
        || name == encode_utf8("target"@) || name == encode_utf8("__pycache__"@))
}

/// Whether a scan skips a path.
pub open spec fn is_ignored(path: PathView) -> bool {
    match file_name_of(path) {
        Some(name) => is_ignored_name(name),
        None => false,
    }
}

/// Whether a scan skips a path.
pub fn ignores(path: &FilePath) -> (result: bool)
    ensures
        result == is_ignored(path@),
{
    match path.file_name() {
        Some(name) => {
            is_utf8(name) && (name.len() > 0 && name[0] == DOT || spells(name, "node_modules")
                || spells(name, "target") || spells(name, "__pycache__"))
        },
        None => false,
    }
}

/// An entry of a directory that was read.
pub struct ListedEntry {
    pub path: FilePath,
    pub is_dir: bool,
}

/// The contents of an entry of a directory.
pub struct ListedView {
    pub path: PathView,
    pub is_dir: bool,
}

impl View for ListedEntry {
    type V = ListedView;

    open spec fn view(&self) -> ListedView {
        ListedView { path: self.path@, is_dir: self.is_dir }
    }
}

/// The contents of the entries of a directory.
pub open spec fn listing_view(entries: Seq<ListedEntry>) -> Seq<ListedView> {
    Seq::new(entries.len(), |i: int| entries[i]@)
}

/// The ignore files of directories, outer directories before the ones inside.
pub type IgnoreRules = Seq<(PathView, Seq<PatternView>)>;

/// Whether a scan keeps an entry.
pub open spec fn is_kept(rules: IgnoreRules, entry: ListedView) -> bool {
    !is_ignored(entry.path) && !is_git_ignored(rules, entry.path, entry.is_dir)
}

/// The paths of the entries that are kept, in order.
pub open spec fn kept_paths(rules: IgnoreRules, entries: Seq<ListedView>) -> Seq<PathView>
    decreases entries.len(),
{
    if entries.len() == 0 {
        Seq::empty()
    } else {
        let before = kept_paths(rules, entries.drop_last());
        if is_kept(rules, entries.last()) {
            before.push(entries.last().path)
        } else {
            before
        }
    }
}

/// The paths of the directories among the entries that are kept, in order.
pub open spec fn kept_directories(rules: IgnoreRules, entries: Seq<ListedView>) -> Seq<PathView>
    decreases entries.len(),
{
    if entries.len() == 0 {
        Seq::empty()
    } else {
        let before = kept_directories(rules, entries.drop_last());
        if entries.last().is_dir && is_kept(rules, entries.last()) {
            before.push(entries.last().path)
        } else {
            before
        }
    }
}

/// The contents of an ignore file, where there is one.
pub open spec fn optional_bytes(file: Option<Vec<u8>>) -> Option<Seq<u8>> {
    match file {
        Some(bytes) => Some(bytes@),
        None => None,
    }
}

/// The rules with those of the ignore file of a directory, where it has one.
pub open spec fn with_file(
    rules: IgnoreRules,
    dir: PathView,
    ignore_file: Option<Seq<u8>>,
) -> IgnoreRules {
    match ignore_file {
        Some(file) => rules.push((dir, patterns_in(file))),
        None => rules,
    }
}

/// A scan: the directories that are still to be read, the paths found, and the ignore files of
/// the directories that were read.
#[verifier::ext_equal]
pub struct ScanModel {
    pub waiting: Seq<PathView>,
    pub found: Seq<PathView>,
    pub rules: IgnoreRules,
}

impl ScanModel {
    /// A scan before its root is read.
    pub open spec fn start(root: PathView) -> ScanModel {
        ScanModel { waiting: seq![root], found: Seq::empty(), rules: Seq::empty() }
    }

    /// The scan after the entries of a directory came in, with its ignore file.
    pub open spec fn listed(
        self,
        dir: PathView,
        entries: Seq<ListedView>,
        ignore_file: Option<Seq<u8>>,
    ) -> ScanModel {
        let rules = with_file(self.rules, dir, ignore_file);
        ScanModel {
            waiting: self.waiting + kept_directories(rules, entries),
            found: self.found + kept_paths(rules, entries),
            rules,
        }
    }

    /// The scan after the next directory was taken.
    pub open spec fn taken(self) -> ScanModel {
        if self.waiting.len() > 0 {
            ScanModel { waiting: self.waiting.drop_last(), ..self }
        } else {
            self
        }
    }
}

/// A recursive scan of a directory.
pub struct DirectoryScan {
    stack: Vec<FilePath>,
    paths: Vec<FilePath>,
    rules: Vec<IgnoreFile>,
}

impl View for DirectoryScan {
    type V = ScanModel;

    closed spec fn view(&self) -> ScanModel {
        ScanModel {
            waiting: paths_view(self.stack@),
            found: paths_view(self.paths@),
            rules: rules_view(self.rules@),
        }
    }
}

impl DirectoryScan {
    /// A scan that starts at a root.
    pub fn new(root: FilePath) -> (result: Self)
        ensures
            result@ == ScanModel::start(root@),
    {
        let result = DirectoryScan { stack: vec![root], paths: Vec::new(), rules: Vec::new() };
        assert(result@ =~= ScanModel::start(root@));
        result
    }

    /// Takes the directory to read next: the one that was found last. There is none once the scan
    /// is done.
    pub fn next_directory(&mut self) -> (result: Option<FilePath>)
        ensures
            final(self)@ == old(self)@.taken(),
            match result {
                Some(dir) => old(self)@.waiting.len() > 0 && dir@ == old(self)@.waiting.last(),
                None => old(self)@.waiting.len() == 0,
            },
    {
        let result = self.stack.pop();
        assert(self@ =~= old(self)@.taken());
        result
    }

    /// Takes in the ignore file of a directory.
    fn add_ignore_file(&mut self, dir: FilePath, ignore_file: Option<Vec<u8>>)
        ensures
            final(self)@ == (ScanModel {
                rules: with_file(old(self)@.rules, dir@, optional_bytes(ignore_file)),
                ..old(self)@
            }),
    {
        if let Some(file) = ignore_file {
            let rule = IgnoreFile { dir, patterns: read_patterns(&file) };
            self.rules.push(rule);
            assert(self@.rules =~= old(self)@.rules.push(rule@));
        }
    }

    /// Takes in the entries of a directory that was read, with the contents of its ignore file,
    /// if it has one.
    pub fn add_listing(
        &mut self,
        dir: FilePath,
        entries: Vec<ListedEntry>,
        ignore_file: Option<Vec<u8>>,
    )
        ensures
            final(self)@ == old(self)@.listed(
                dir@,
                listing_view(entries@),
                optional_bytes(ignore_file),
            ),
    {
        let ghost views = listing_view(entries@);
        self.add_ignore_file(dir, ignore_file);
        let ghost start = self@;
        assert(views.take(0) =~= Seq::<ListedView>::empty());
        assert(start.waiting + kept_directories(start.rules, views.take(0)) =~= start.waiting);
        assert(start.found + kept_paths(start.rules, views.take(0)) =~= start.found);
        for entry in it: entries
            invariant
                views == listing_view(it.seq()),
                self@.rules == start.rules,
                self@.waiting == start.waiting + kept_directories(
                    start.rules,
                    views.take(it.index() as int),
                ),
                self@.found == start.found + kept_paths(
                    start.rules,
                    views.take(it.index() as int),
                ),
        {
            let ghost n: int = it.index() as int;
            let ghost before = self@;
            proof {
                assert(views.take(n + 1).drop_last() =~= views.take(n));
                assert(views.take(n + 1).last() == entry@);
            }
            if !ignores(&entry.path) && !git_ignores(&self.rules, &entry.path, entry.is_dir) {
                if entry.is_dir {
                    let dir = entry.path.clone();
                    self.stack.push(dir);
                    assert(self@.waiting =~= before.waiting.push(entry.path@));
                }
                let ghost path = entry.path@;
                self.paths.push(entry.path);
                assert(self@.found =~= before.found.push(path));
            }
            assert(self@.waiting =~= start.waiting + kept_directories(
                start.rules,
                views.take(n + 1),
            ));
            assert(self@.found =~= start.found + kept_paths(start.rules, views.take(n + 1)));
        }
        assert(views.take(views.len() as int) =~= views);
    }

    /// The paths found.
    pub fn into_paths(self) -> (result: Vec<FilePath>)
        ensures
            paths_view(result@) == self@.found,
    {
        self.paths
    }
}

} // verus!

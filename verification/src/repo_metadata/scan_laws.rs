//! What holds of a directory scan, whatever the directories hold.

use crate::path::{is_under, PathView};
use crate::repo_metadata::gitignore::{
    file_verdict, is_git_ignored, lemma_empty_verdict, patterns_in, verdict,
};
use crate::repo_metadata::scan::{
    is_ignored, is_kept, kept_directories, kept_paths, with_file, IgnoreRules, ListedView,
    ScanModel,
};
use crate::sequences::{
    lemma_add_contains, lemma_add_no_duplicates, lemma_drop_last_contains, lemma_push_contains,
    lemma_push_no_duplicates,
};
use vstd::prelude::*;
use vstd::utf8::{encode_utf8, is_ascii_chars_encode_utf8, valid_utf8};

verus! {

/// The kept paths of a listing are those of the entries that are neither ignored by name nor by
/// an ignore file, and the kept directories are those among them that are directories.
pub proof fn law_listing_keeps_what_is_not_ignored(
    rules: IgnoreRules,
    entries: Seq<ListedView>,
    path: PathView,
)
    ensures
        kept_paths(rules, entries).contains(path) <==> exists|i: int|
            0 <= i < entries.len() && (#[trigger] entries[i]).path == path && is_kept(
                rules,
                entries[i],
            ),
        kept_directories(rules, entries).contains(path) <==> exists|i: int|
            0 <= i < entries.len() && (#[trigger] entries[i]).path == path && entries[i].is_dir
                && is_kept(rules, entries[i]),
    decreases entries.len(),
{
    if entries.len() > 0 {
        let rest = entries.drop_last();
        let last = entries.last();
        law_listing_keeps_what_is_not_ignored(rules, rest, path);
        lemma_push_contains(kept_paths(rules, rest), last.path, path);
        lemma_push_contains(kept_directories(rules, rest), last.path, path);
        assert(entries[entries.len() - 1] == last);
        assert forall|i: int| 0 <= i < rest.len() implies #[trigger] rest[i] == entries[i] by {}
        if exists|i: int|
            0 <= i < rest.len() && (#[trigger] rest[i]).path == path && is_kept(rules, rest[i]) {
            let i = choose|i: int|
                0 <= i < rest.len() && (#[trigger] rest[i]).path == path && is_kept(
                    rules,
                    rest[i],
                );
            assert(entries[i].path == path && is_kept(rules, entries[i]));
        }
        if exists|i: int|
            0 <= i < rest.len() && (#[trigger] rest[i]).path == path && rest[i].is_dir && is_kept(
                rules,
                rest[i],
            ) {
            let i = choose|i: int|
                0 <= i < rest.len() && (#[trigger] rest[i]).path == path && rest[i].is_dir
                    && is_kept(rules, rest[i]);
            assert(entries[i].path == path && entries[i].is_dir && is_kept(rules, entries[i]));
        }
        assert forall|i: int| 0 <= i < entries.len() && i != entries.len() - 1 implies rest[i]
            == #[trigger] entries[i] by {}
    }
}

/// A tree of directories: what each directory holds, and its ignore file.
pub struct DirectoryTree {
    pub listing: spec_fn(PathView) -> Seq<ListedView>,
    pub ignore_file: spec_fn(PathView) -> Option<Seq<u8>>,
}

impl DirectoryTree {
    /// The entries of a directory are right below it, and no two have the same path.
    pub open spec fn wf(self) -> bool {
        &&& forall|dir: PathView, i: int|
            #![trigger (self.listing)(dir)[i]]
            0 <= i < (self.listing)(dir).len() ==> {
                &&& (self.listing)(dir)[i].path.len() == dir.len() + 1
                &&& (self.listing)(dir)[i].path.drop_last() == dir
            }
        &&& forall|dir: PathView, i: int, j: int|
            #![trigger (self.listing)(dir)[i], (self.listing)(dir)[j]]
            0 <= i < j < (self.listing)(dir).len() ==> (self.listing)(dir)[i].path
                != (self.listing)(dir)[j].path
    }

    /// The ignore files of the directories from a root to a directory.
    pub open spec fn rules_along(self, root: PathView, dir: PathView) -> IgnoreRules
        decreases dir.len(),
    {
        let outer = if dir.len() > root.len() {
            self.rules_along(root, dir.drop_last())
        } else {
            Seq::empty()
        };
        with_file(outer, dir, (self.ignore_file)(dir))
    }

    /// Whether a directory is the root, or a kept entry of a directory that is entered itself.
    pub open spec fn is_entered(self, root: PathView, dir: PathView) -> bool
        decreases dir.len(),
    {
        dir == root || (dir.len() > root.len() && self.is_entered(root, dir.drop_last())
            && kept_directories(
            self.rules_along(root, dir.drop_last()),
            (self.listing)(dir.drop_last()),
        ).contains(dir))
    }

    /// Whether a path is a kept entry of a directory that is entered: neither it nor any directory
    /// between it and the root is ignored.
    pub open spec fn is_reachable(self, root: PathView, path: PathView) -> bool {
        &&& path.len() > root.len()
        &&& self.is_entered(root, path.drop_last())
        &&& kept_paths(
            self.rules_along(root, path.drop_last()),
            (self.listing)(path.drop_last()),
        ).contains(path)
    }

    /// The scan after the next directory was read.
    pub open spec fn after_directory(self, scan: ScanModel) -> ScanModel {
        let dir = scan.waiting.last();
        scan.taken().listed(dir, (self.listing)(dir), (self.ignore_file)(dir))
    }

    /// A scan of a root after a number of directories were read, or as many as there are.
    pub open spec fn scanned(self, root: PathView, count: nat) -> ScanModel
        decreases count,
    {
        if count == 0 {
            ScanModel::start(root)
        } else {
            let before = self.scanned(root, (count - 1) as nat);
            if before.waiting.len() > 0 {
                self.after_directory(before)
            } else {
                before
            }
        }
    }

    /// The directories that such a scan has read, in order.
    spec fn read(self, root: PathView, count: nat) -> Seq<PathView>
        decreases count,
    {
        if count == 0 {
            Seq::empty()
        } else {
            let before = self.scanned(root, (count - 1) as nat);
            if before.waiting.len() > 0 {
                self.read(root, (count - 1) as nat).push(before.waiting.last())
            } else {
                self.read(root, (count - 1) as nat)
            }
        }
    }

    /// The ignore files of directories.
    spec fn rules_of(self, dirs: Seq<PathView>) -> IgnoreRules
        decreases dirs.len(),
    {
        if dirs.len() == 0 {
            Seq::empty()
        } else {
            with_file(
                self.rules_of(dirs.drop_last()),
                dirs.last(),
                (self.ignore_file)(dirs.last()),
            )
        }
    }

    /// What is kept of a directory that is entered.
    spec fn kept_in(self, root: PathView, dir: PathView) -> Seq<PathView> {
        kept_paths(self.rules_along(root, dir), (self.listing)(dir))
    }

    /// The directories among what is kept of a directory that is entered.
    spec fn kept_dirs_in(self, root: PathView, dir: PathView) -> Seq<PathView> {
        kept_directories(self.rules_along(root, dir), (self.listing)(dir))
    }

    /// What is kept of directories.
    spec fn kept_in_all(self, root: PathView, dirs: Seq<PathView>) -> Seq<PathView>
        decreases dirs.len(),
    {
        if dirs.len() == 0 {
            Seq::empty()
        } else {
            self.kept_in_all(root, dirs.drop_last()) + self.kept_in(root, dirs.last())
        }
    }
}

/// Whether the parent of an item comes before it.
spec fn has_parent_before(list: Seq<PathView>, index: int) -> bool {
    exists|i: int| 0 <= i < index && #[trigger] list[i] == list[index].drop_last()
}

/// Whether directories start with a root, and each of the others comes after its parent, once.
spec fn is_descent(root: PathView, dirs: Seq<PathView>) -> bool {
    &&& dirs.no_duplicates()
    &&& dirs.len() > 0 ==> dirs[0] == root
    &&& forall|j: int|
        0 < j < dirs.len() ==> (#[trigger] dirs[j]).len() > root.len() && has_parent_before(
            dirs,
            j,
        )
}

proof fn lemma_descent_prefix(root: PathView, dirs: Seq<PathView>)
    requires
        is_descent(root, dirs),
        dirs.len() > 0,
    ensures
        is_descent(root, dirs.drop_last()),
{
    let rest = dirs.drop_last();
    assert forall|i: int, j: int|
        0 <= i < rest.len() && 0 <= j < rest.len() && i != j implies #[trigger] rest[i]
        != #[trigger] rest[j] by {
        assert(rest[i] == dirs[i] && rest[j] == dirs[j]);
    }
    assert forall|j: int| 0 < j < rest.len() implies (#[trigger] rest[j]).len() > root.len()
        && has_parent_before(rest, j) by {
        assert(rest[j] == dirs[j]);
        let i = choose|i: int| 0 <= i < j && #[trigger] dirs[i] == dirs[j].drop_last();
        assert(rest[i] == rest[j].drop_last());
    }
}

/// Every directory between the root and a directory comes before the directory.
proof fn lemma_ancestors_before(root: PathView, dirs: Seq<PathView>, index: int, len: int)
    requires
        is_descent(root, dirs),
        0 <= index < dirs.len(),
        root.len() <= len < dirs[index].len(),
    ensures
        exists|i: int| 0 <= i < index && #[trigger] dirs[i] == dirs[index].take(len),
    decreases dirs[index].len(),
{
    let dir = dirs[index];
    assert(has_parent_before(dirs, index));
    let k = choose|k: int| 0 <= k < index && #[trigger] dirs[k] == dir.drop_last();
    if len == dir.len() - 1 {
        assert(dir.take(len) =~= dir.drop_last());
    } else {
        lemma_ancestors_before(root, dirs, k, len);
        assert(dir.drop_last().take(len) =~= dir.take(len));
    }
}

/// Two directories above a path: the shorter one is above the longer one.
proof fn lemma_above(path: PathView, outer: PathView, inner: PathView)
    requires
        is_under(path, outer),
        is_under(path, inner),
        outer.len() <= inner.len(),
    ensures
        outer == inner.take(outer.len() as int),
{
    assert(inner.take(outer.len() as int) =~= outer) by {
        assert forall|i: int| 0 <= i < outer.len() implies inner[i] == outer[i] by {
            assert(path.subrange(0, outer.len() as int)[i] == path[i]);
            assert(path.subrange(0, inner.len() as int)[i] == path[i]);
        }
    }
}

/// Of all ignore files that were read, those along the way to a path decide on it.
proof fn lemma_rules_decide(
    tree: DirectoryTree,
    root: PathView,
    dirs: Seq<PathView>,
    dir: PathView,
    path: PathView,
    is_dir: bool,
)
    requires
        is_descent(root, dirs),
        dirs.contains(dir),
        is_under(path, dir),
        dir.len() < path.len(),
        forall|i: int|
            0 <= i < dirs.len() && is_under(path, #[trigger] dirs[i]) && dirs[i].len()
                < path.len() ==> dirs[i].len() <= dir.len(),
    ensures
        verdict(tree.rules_of(dirs), path, is_dir) == verdict(
            tree.rules_along(root, dir),
            path,
            is_dir,
        ),
    decreases dirs.len(),
{
    let last = dirs.last();
    let rest = dirs.drop_last();
    let place = choose|i: int| 0 <= i < dirs.len() && dirs[i] == dir;
    lemma_descent_prefix(root, dirs);
    lemma_with_file(tree.rules_of(rest), last, (tree.ignore_file)(last), path, is_dir);
    assert forall|i: int| 0 <= i < rest.len() implies #[trigger] rest[i] == dirs[i] by {}
    if last == dir {
        let outer = if dir.len() > root.len() {
            tree.rules_along(root, dir.drop_last())
        } else {
            Seq::empty()
        };
        lemma_with_file(outer, dir, (tree.ignore_file)(dir), path, is_dir);
        if dirs.len() > 1 {
            assert(dirs[dirs.len() - 1] == dir);
            assert(has_parent_before(dirs, dirs.len() - 1));
            let k = choose|k: int|
                0 <= k < dirs.len() - 1 && #[trigger] dirs[k] == dirs[dirs.len() - 1].drop_last();
            assert(rest[k] == dir.drop_last());
            let parent = dir.drop_last();
            assert(is_under(path, parent)) by {
                assert(path.subrange(0, parent.len() as int) =~= path.subrange(
                    0,
                    dir.len() as int,
                ).drop_last());
            }
            assert forall|i: int|
                0 <= i < rest.len() && is_under(path, #[trigger] rest[i]) && rest[i].len()
                    < path.len() implies rest[i].len() <= parent.len() by {
                assert(dirs[i] == rest[i]);
                if dirs[i].len() == dir.len() {
                    lemma_above(path, dirs[i], dir);
                    assert(dir.take(dir.len() as int) =~= dir);
                    assert(dirs[i] == dirs[dirs.len() - 1]);
                }
            }
            lemma_rules_decide(tree, root, rest, parent, path, is_dir);
        } else {
            assert(dir == root);
        }
    } else {
        assert(place < rest.len());
        assert(rest[place] == dir);
        if is_under(path, last) {
            if last.len() < path.len() {
                assert(dirs[dirs.len() - 1] == last);
                lemma_above(path, last, dir);
                if last.len() == dir.len() {
                    assert(dir.take(dir.len() as int) =~= dir);
                } else {
                    assert(last.len() >= root.len());
                    lemma_ancestors_before(root, dirs, place, last.len() as int);
                    let i = choose|i: int|
                        0 <= i < place && #[trigger] dirs[i] == dir.take(last.len() as int);
                    assert(dirs[i] == dirs[dirs.len() - 1]);
                }
                assert(false);
            } else if let Some(file) = (tree.ignore_file)(last) {
                lemma_empty_verdict(patterns_in(file), path.skip(last.len() as int), is_dir);
            }
        }
        lemma_rules_decide(tree, root, rest, dir, path, is_dir);
    }
}

/// What one more ignore file makes of a verdict.
proof fn lemma_with_file(
    rules: IgnoreRules,
    dir: PathView,
    ignore_file: Option<Seq<u8>>,
    path: PathView,
    is_dir: bool,
)
    ensures
        verdict(with_file(rules, dir, ignore_file), path, is_dir) == (match ignore_file {
            Some(file) => match file_verdict((dir, patterns_in(file)), path, is_dir) {
                Some(ignored) => Some(ignored),
                None => verdict(rules, path, is_dir),
            },
            None => verdict(rules, path, is_dir),
        }),
{
    if let Some(file) = ignore_file {
        assert(rules.push((dir, patterns_in(file))).drop_last() =~= rules);
    }
}

/// Rules that agree on the entries of a listing keep the same of it.
proof fn lemma_same_kept(first: IgnoreRules, second: IgnoreRules, entries: Seq<ListedView>)
    requires
        forall|i: int|
            0 <= i < entries.len() ==> is_kept(first, #[trigger] entries[i]) == is_kept(
                second,
                entries[i],
            ),
    ensures
        kept_paths(first, entries) == kept_paths(second, entries),
        kept_directories(first, entries) == kept_directories(second, entries),
    decreases entries.len(),
{
    if entries.len() > 0 {
        let rest = entries.drop_last();
        assert forall|i: int| 0 <= i < rest.len() implies is_kept(first, #[trigger] rest[i])
            == is_kept(second, rest[i]) by {
            assert(rest[i] == entries[i]);
        }
        lemma_same_kept(first, second, rest);
        assert(is_kept(first, entries[entries.len() - 1]) == is_kept(
            second,
            entries[entries.len() - 1],
        ));
    }
}

/// What a directory adds to a scan is what is kept of it.
proof fn lemma_directory_adds(
    tree: DirectoryTree,
    root: PathView,
    dirs: Seq<PathView>,
)
    requires
        tree.wf(),
        is_descent(root, dirs),
        dirs.len() > 0,
    ensures
        kept_paths(tree.rules_of(dirs), (tree.listing)(dirs.last())) == tree.kept_in(
            root,
            dirs.last(),
        ),
        kept_directories(tree.rules_of(dirs), (tree.listing)(dirs.last())) == tree.kept_dirs_in(
            root,
            dirs.last(),
        ),
{
    let dir = dirs.last();
    let entries = (tree.listing)(dir);
    assert(dirs[dirs.len() - 1] == dir);
    assert forall|i: int| 0 <= i < entries.len() implies is_kept(
        tree.rules_of(dirs),
        #[trigger] entries[i],
    ) == is_kept(tree.rules_along(root, dir), entries[i]) by {
        let path = entries[i].path;
        assert((tree.listing)(dir)[i].path.drop_last() == dir);
        assert(path.subrange(0, dir.len() as int) =~= path.drop_last());
        lemma_rules_decide(tree, root, dirs, dir, path, entries[i].is_dir);
    }
    lemma_same_kept(tree.rules_of(dirs), tree.rules_along(root, dir), entries);
}

/// What is kept of a directory is right below it, and nothing is kept twice.
proof fn lemma_kept(tree: DirectoryTree, rules: IgnoreRules, dir: PathView)
    requires
        tree.wf(),
    ensures
        kept_paths(rules, (tree.listing)(dir)).no_duplicates(),
        kept_directories(rules, (tree.listing)(dir)).no_duplicates(),
        forall|path: PathView| #[trigger]
            kept_paths(rules, (tree.listing)(dir)).contains(path) ==> path.len() == dir.len() + 1
                && path.drop_last() == dir,
        forall|path: PathView| #[trigger]
            kept_directories(rules, (tree.listing)(dir)).contains(path) ==> kept_paths(
                rules,
                (tree.listing)(dir),
            ).contains(path),
{
    let entries = (tree.listing)(dir);
    assert forall|i: int, j: int| 0 <= i < j < entries.len() implies (
    #[trigger] entries[i]).path != (#[trigger] entries[j]).path by {
        assert((tree.listing)(dir)[i].path != (tree.listing)(dir)[j].path);
    }
    lemma_kept_once(rules, entries);
    assert forall|path: PathView| #[trigger] kept_paths(rules, entries).contains(
        path,
    ) implies path.len() == dir.len() + 1 && path.drop_last() == dir by {
        law_listing_keeps_what_is_not_ignored(rules, entries, path);
        let i = choose|i: int|
            0 <= i < entries.len() && (#[trigger] entries[i]).path == path && is_kept(
                rules,
                entries[i],
            );
        assert((tree.listing)(dir)[i].path.drop_last() == dir);
    }
    assert forall|path: PathView| #[trigger] kept_directories(rules, entries).contains(
        path,
    ) implies kept_paths(rules, entries).contains(path) by {
        law_listing_keeps_what_is_not_ignored(rules, entries, path);
    }
}

proof fn lemma_kept_once(rules: IgnoreRules, entries: Seq<ListedView>)
    requires
        forall|i: int, j: int|
            0 <= i < j < entries.len() ==> (#[trigger] entries[i]).path != (
            #[trigger] entries[j]).path,
    ensures
        kept_paths(rules, entries).no_duplicates(),
        kept_directories(rules, entries).no_duplicates(),
    decreases entries.len(),
{
    if entries.len() > 0 {
        let rest = entries.drop_last();
        let last = entries.last();
        assert forall|i: int, j: int| 0 <= i < j < rest.len() implies (#[trigger] rest[i]).path
            != (#[trigger] rest[j]).path by {
            assert(rest[i] == entries[i] && rest[j] == entries[j]);
        }
        lemma_kept_once(rules, rest);
        law_listing_keeps_what_is_not_ignored(rules, rest, last.path);
        assert forall|i: int| 0 <= i < rest.len() implies (#[trigger] rest[i]).path
            != last.path by {
            assert(entries[i] == rest[i]);
            assert(entries[entries.len() - 1] == last);
        }
        lemma_push_no_duplicates(kept_paths(rules, rest), last.path);
        lemma_push_no_duplicates(kept_directories(rules, rest), last.path);
    }
}

/// How far a scan is that has read some directories.
spec fn is_stage(
    tree: DirectoryTree,
    root: PathView,
    scan: ScanModel,
    dirs: Seq<PathView>,
) -> bool {
    &&& is_descent(root, dirs)
    &&& scan.rules == tree.rules_of(dirs)
    &&& scan.found == tree.kept_in_all(root, dirs)
    &&& scan.waiting.no_duplicates()
    &&& dirs.contains(root) || scan.waiting.contains(root)
    &&& forall|dir: PathView| #[trigger] dirs.contains(dir) ==> tree.is_entered(root, dir)
    &&& forall|dir: PathView| #[trigger]
        scan.waiting.contains(dir) ==> {
            &&& !dirs.contains(dir)
            &&& tree.is_entered(root, dir)
            &&& (dir == root && dirs.len() == 0) || (dir.len() > root.len() && dirs.contains(
                dir.drop_last(),
            ) && scan.found.contains(dir))
        }
    &&& forall|dir: PathView, inner: PathView|
        dirs.contains(dir) && #[trigger] tree.kept_dirs_in(root, dir).contains(inner)
            ==> dirs.contains(inner) || scan.waiting.contains(inner)
    &&& forall|path: PathView| #[trigger]
        scan.found.contains(path) ==> path.len() > root.len() && dirs.contains(path.drop_last())
    &&& scan.found.no_duplicates()
    &&& forall|i: int|
        0 <= i < scan.found.len() ==> (#[trigger] scan.found[i]).drop_last() == root
            || has_parent_before(scan.found, i)
}

proof fn lemma_first_stage(tree: DirectoryTree, root: PathView)
    ensures
        is_stage(tree, root, ScanModel::start(root), Seq::empty()),
{
    let scan = ScanModel::start(root);
    assert(scan.waiting[0] == root);
    assert forall|dir: PathView| #[trigger] scan.waiting.contains(dir) implies dir == root by {
        let i = choose|i: int| 0 <= i < scan.waiting.len() && scan.waiting[i] == dir;
    }
}

/// One more directory brings a scan to its next stage.
proof fn lemma_next_stage(
    tree: DirectoryTree,
    root: PathView,
    scan: ScanModel,
    dirs: Seq<PathView>,
)
    requires
        tree.wf(),
        is_stage(tree, root, scan, dirs),
        scan.waiting.len() > 0,
    ensures
        is_stage(tree, root, tree.after_directory(scan), dirs.push(scan.waiting.last())),
{
    let dir = scan.waiting.last();
    let left = scan.waiting.drop_last();
    let more = dirs.push(dir);
    let next = tree.after_directory(scan);
    let paths = tree.kept_in(root, dir);
    let inner = tree.kept_dirs_in(root, dir);
    assert(scan.waiting[scan.waiting.len() - 1] == dir);
    assert(scan.waiting.contains(dir));
    assert(dir.len() >= root.len());
    assert(is_descent(root, more)) by {
        lemma_push_no_duplicates(dirs, dir);
        assert forall|j: int| 0 < j < more.len() implies (#[trigger] more[j]).len() > root.len()
            && has_parent_before(more, j) by {
            if j < dirs.len() {
                assert(dirs[j] == more[j]);
                let i = choose|i: int| 0 <= i < j && #[trigger] dirs[i] == dirs[j].drop_last();
                assert(more[i] == more[j].drop_last());
            } else {
                assert(dirs.contains(dir.drop_last()));
                let i = choose|i: int| 0 <= i < dirs.len() && dirs[i] == dir.drop_last();
                assert(more[i] == more[j].drop_last());
            }
        }
    }
    assert(more.drop_last() =~= dirs);
    lemma_directory_adds(tree, root, more);
    lemma_kept(tree, tree.rules_along(root, dir), dir);
    assert(next.rules == tree.rules_of(more));
    assert(next.found == scan.found + paths);
    assert(next.waiting == left + inner);
    assert forall|item: PathView| #[trigger] more.contains(item) == (dirs.contains(item) || item
        == dir) by {
        lemma_push_contains(dirs, dir, item);
    }
    assert forall|item: PathView| #[trigger] left.contains(item) == (scan.waiting.contains(item)
        && item != dir) by {
        lemma_drop_last_contains(scan.waiting, item);
    }
    assert forall|item: PathView| #[trigger] next.waiting.contains(item) == (left.contains(item)
        || inner.contains(item)) by {
        lemma_add_contains(left, inner, item);
    }
    assert forall|item: PathView| #[trigger] next.found.contains(item) == (scan.found.contains(
        item,
    ) || paths.contains(item)) by {
        lemma_add_contains(scan.found, paths, item);
    }
    // What is new was not there before
    assert forall|item: PathView| #[trigger] paths.contains(item) implies !scan.found.contains(
        item,
    ) by {
        assert(item.drop_last() == dir);
    }
    lemma_add_no_duplicates(scan.found, paths);
    assert forall|item: PathView| #[trigger] inner.contains(item) implies !left.contains(item)
        && !more.contains(item) by {
        assert(paths.contains(item));
        assert(item.drop_last() == dir && item.len() == dir.len() + 1);
        if dirs.contains(item) {
            let j = choose|j: int| 0 <= j < dirs.len() && dirs[j] == item;
            assert(0 < j);
            assert(has_parent_before(dirs, j));
            let i = choose|i: int| 0 <= i < j && #[trigger] dirs[i] == dirs[j].drop_last();
            assert(dirs.contains(dirs[i]));
        }
    }
    assert(left.no_duplicates()) by {
        assert forall|i: int, j: int|
            0 <= i < left.len() && 0 <= j < left.len() && i != j implies #[trigger] left[i]
            != #[trigger] left[j] by {
            assert(left[i] == scan.waiting[i] && left[j] == scan.waiting[j]);
        }
    }
    lemma_add_no_duplicates(left, inner);
    assert forall|item: PathView| #[trigger] next.waiting.contains(item) implies {
        &&& !more.contains(item)
        &&& tree.is_entered(root, item)
        &&& (item == root && more.len() == 0) || (item.len() > root.len() && more.contains(
            item.drop_last(),
        ) && next.found.contains(item))
    } by {
        if inner.contains(item) {
            assert(paths.contains(item));
            assert(tree.is_entered(root, item.drop_last()));
        } else {
            assert(scan.waiting.contains(item));
            if item == root && dirs.len() == 0 {
                // The root was the only one that waited
                assert(dir == root || dirs.contains(dir.drop_last()));
                assert(false);
            }
        }
    }
    assert forall|outer: PathView, item: PathView|
        more.contains(outer) && #[trigger] tree.kept_dirs_in(root, outer).contains(
            item,
        ) implies more.contains(item) || next.waiting.contains(item) by {
        if outer != dir {
            assert(dirs.contains(outer));
            assert(dirs.contains(item) || scan.waiting.contains(item));
        }
    }
    assert forall|i: int| 0 <= i < next.found.len() implies (
    #[trigger] next.found[i]).drop_last() == root || has_parent_before(next.found, i) by {
        if i < scan.found.len() {
            assert(next.found[i] == scan.found[i]);
            if scan.found[i].drop_last() != root {
                let k = choose|k: int|
                    0 <= k < i && #[trigger] scan.found[k] == scan.found[i].drop_last();
                assert(next.found[k] == next.found[i].drop_last());
            }
        } else {
            let path = paths[i - scan.found.len()];
            assert(paths.contains(path));
            if dir != root {
                assert(scan.found.contains(dir));
                let k = choose|k: int| 0 <= k < scan.found.len() && scan.found[k] == dir;
                assert(next.found[k] == next.found[i].drop_last());
            }
        }
    }
}

proof fn lemma_stages(tree: DirectoryTree, root: PathView, count: nat)
    requires
        tree.wf(),
    ensures
        is_stage(tree, root, tree.scanned(root, count), tree.read(root, count)),
    decreases count,
{
    if count == 0 {
        lemma_first_stage(tree, root);
    } else {
        lemma_stages(tree, root, (count - 1) as nat);
        let before = tree.scanned(root, (count - 1) as nat);
        if before.waiting.len() > 0 {
            lemma_next_stage(tree, root, before, tree.read(root, (count - 1) as nat));
        }
    }
}

/// A scan that is done has read every directory that is to be entered.
proof fn lemma_entered_is_read(
    tree: DirectoryTree,
    root: PathView,
    scan: ScanModel,
    dirs: Seq<PathView>,
    dir: PathView,
)
    requires
        is_stage(tree, root, scan, dirs),
        scan.waiting.len() == 0,
        tree.is_entered(root, dir),
    ensures
        dirs.contains(dir),
    decreases dir.len(),
{
    if dir != root {
        lemma_entered_is_read(tree, root, scan, dirs, dir.drop_last());
        assert(tree.kept_dirs_in(root, dir.drop_last()).contains(dir));
    }
}

/// What is kept of directories is kept of one of them.
proof fn lemma_kept_in_all(
    tree: DirectoryTree,
    root: PathView,
    dirs: Seq<PathView>,
    path: PathView,
)
    requires
        tree.wf(),
    ensures
        tree.kept_in_all(root, dirs).contains(path) <==> path.len() > 0 && dirs.contains(
            path.drop_last(),
        ) && tree.kept_in(root, path.drop_last()).contains(path),
    decreases dirs.len(),
{
    if dirs.len() > 0 {
        let rest = dirs.drop_last();
        let last = dirs.last();
        lemma_kept_in_all(tree, root, rest, path);
        lemma_add_contains(tree.kept_in_all(root, rest), tree.kept_in(root, last), path);
        lemma_kept(tree, tree.rules_along(root, last), last);
        assert(dirs =~= rest.push(last));
        lemma_push_contains(rest, last, path.drop_last());
    }
}

/// A scan that is done has found exactly the paths below the root that are neither ignored
/// themselves nor below an ignored directory, by their names or by the ignore files on the way to
/// them: each once, and each after its directory.
pub proof fn law_scan_finds_what_is_reachable(tree: DirectoryTree, root: PathView, count: nat)
    requires
        tree.wf(),
        tree.scanned(root, count).waiting.len() == 0,
    ensures
        forall|path: PathView| #[trigger]
            tree.scanned(root, count).found.contains(path) <==> tree.is_reachable(root, path),
        tree.scanned(root, count).found.no_duplicates(),
        forall|i: int|
            0 <= i < tree.scanned(root, count).found.len() ==> (#[trigger] tree.scanned(
                root,
                count,
            ).found[i]).drop_last() == root || exists|j: int|
                0 <= j < i && #[trigger] tree.scanned(root, count).found[j] == tree.scanned(
                    root,
                    count,
                ).found[i].drop_last(),
{
    let scan = tree.scanned(root, count);
    let dirs = tree.read(root, count);
    lemma_stages(tree, root, count);
    assert forall|path: PathView| #[trigger] scan.found.contains(path) <==> tree.is_reachable(
        root,
        path,
    ) by {
        lemma_kept_in_all(tree, root, dirs, path);
        if tree.is_reachable(root, path) {
            lemma_entered_is_read(tree, root, scan, dirs, path.drop_last());
        }
    }
    assert forall|i: int| 0 <= i < scan.found.len() implies (
    #[trigger] scan.found[i]).drop_last() == root || exists|j: int|
        0 <= j < i && #[trigger] scan.found[j] == scan.found[i].drop_last() by {
        assert(scan.found[i].drop_last() == root || has_parent_before(scan.found, i));
    }
}

/// A path whose name is ignored is not found, whatever the ignore files say.
pub proof fn law_scan_skips_ignored(tree: DirectoryTree, root: PathView, path: PathView)
    ensures
        is_ignored(path) ==> !tree.is_reachable(root, path),
{
    law_listing_keeps_what_is_not_ignored(
        tree.rules_along(root, path.drop_last()),
        (tree.listing)(path.drop_last()),
        path,
    );
}

/// What the ignore files on the way to a path have ignored is not found, nor is anything below it.
pub proof fn law_scan_respects_ignore_files(
    tree: DirectoryTree,
    root: PathView,
    dir: PathView,
    index: int,
    path: PathView,
)
    requires
        tree.wf(),
        dir.len() >= root.len(),
        0 <= index < (tree.listing)(dir).len(),
        is_git_ignored(
            tree.rules_along(root, dir),
            (tree.listing)(dir)[index].path,
            (tree.listing)(dir)[index].is_dir,
        ),
        is_under(path, (tree.listing)(dir)[index].path),
    ensures
        !tree.is_reachable(root, path),
    decreases path.len(),
{
    let entries = (tree.listing)(dir);
    let rules = tree.rules_along(root, dir);
    let ignored = entries[index].path;
    assert((tree.listing)(dir)[index].path.drop_last() == dir);
    law_listing_keeps_what_is_not_ignored(rules, entries, ignored);
    assert forall|i: int|
        0 <= i < entries.len() && (#[trigger] entries[i]).path == ignored implies i == index by {
        if i < index {
            assert((tree.listing)(dir)[i].path != (tree.listing)(dir)[index].path);
        } else if index < i {
            assert((tree.listing)(dir)[index].path != (tree.listing)(dir)[i].path);
        }
    }
    if path.len() == ignored.len() {
        assert(path.subrange(0, ignored.len() as int) =~= path);
    } else {
        let outer = path.drop_last();
        assert(is_under(outer, ignored)) by {
            assert(outer.subrange(0, ignored.len() as int) =~= path.subrange(
                0,
                ignored.len() as int,
            ));
        }
        law_scan_respects_ignore_files(tree, root, dir, index, outer);
        if tree.is_entered(root, outer) {
            lemma_kept(tree, tree.rules_along(root, outer.drop_last()), outer.drop_last());
            assert(kept_directories(
                tree.rules_along(root, outer.drop_last()),
                (tree.listing)(outer.drop_last()),
            ).contains(outer));
            assert(tree.is_reachable(root, outer));
        }
    }
}

/// Of an entry of a directory that is entered, and of whose path the ignore files do not say that
/// it is ignored, the name decides: the entry is found unless the name is UTF-8 and starts with a
/// dot or is one of three texts. A directory is entered under the same condition.
pub proof fn law_scan_skips_by_name(
    tree: DirectoryTree,
    root: PathView,
    dir: PathView,
    index: int,
    name: Seq<u8>,
)
    requires
        tree.wf(),
        tree.is_entered(root, dir),
        0 <= index < (tree.listing)(dir).len(),
        (tree.listing)(dir)[index].path == dir.push(name),
        name.len() > 0,
        !name.contains(47u8),
        name != seq![46u8],
        name != seq![46u8, 46u8],
        verdict(
            tree.rules_along(root, dir),
            dir.push(name),
            (tree.listing)(dir)[index].is_dir,
        ) != Some(true),
    ensures
        valid_utf8(name) ==> {
            tree.is_reachable(root, dir.push(name)) <==> name[0] != 46u8 && name != encode_utf8(
                "node_modules"@,
            ) && name != encode_utf8("target"@) && name != encode_utf8("__pycache__"@)
        },
        !valid_utf8(name) ==> tree.is_reachable(root, dir.push(name)),
        tree.is_entered(root, dir.push(name)) <==> (tree.listing)(dir)[index].is_dir
            && tree.is_reachable(root, dir.push(name)),
{
    let path = dir.push(name);
    let entries = (tree.listing)(dir);
    let rules = tree.rules_along(root, dir);
    assert(path.drop_last() =~= dir);
    assert(path.last() == name);
    assert(path.len() > root.len());
    assert(name.contains(name[0]));
    law_listing_keeps_what_is_not_ignored(rules, entries, path);
    assert forall|i: int| 0 <= i < entries.len() && (#[trigger] entries[i]).path
        == path implies i == index by {
        if i < index {
            assert((tree.listing)(dir)[i].path != (tree.listing)(dir)[index].path);
        } else if index < i {
            assert((tree.listing)(dir)[index].path != (tree.listing)(dir)[i].path);
        }
    }
    assert(entries[index].path == path);
    assert(is_kept(rules, entries[index]) == !is_ignored(path));
}

/// Which entries a listing keeps is a matter of their names and of the ignore files alone: whether
/// an entry is a directory matters only where an ignore file says so. Without ignore files, an
/// entry is kept exactly if its name is no UTF-8 that starts with a dot or is one of three texts.
pub proof fn law_names_decide_without_ignore_files(dir: PathView, name: Seq<u8>, is_dir: bool)
    requires
        name.len() > 0,
        !name.contains(47u8),
        name != seq![46u8],
        name != seq![46u8, 46u8],
    ensures
        is_kept(Seq::empty(), ListedView { path: dir.push(name), is_dir }) <==> !valid_utf8(name)
            || (name[0] != 46u8 && name != encode_utf8("node_modules"@) && name != encode_utf8(
            "target"@,
        ) && name != encode_utf8("__pycache__"@)),
{
    assert(dir.push(name).last() == name);
    assert(name.contains(name[0]));
}

/// The three texts, byte by byte.
pub proof fn law_names_of_ignored_directories()
    ensures
        encode_utf8("node_modules"@) == seq![
            110u8, 111u8, 100u8, 101u8, 95u8, 109u8, 111u8, 100u8, 117u8, 108u8, 101u8, 115u8,
        ],
        encode_utf8("target"@) == seq![116u8, 97u8, 114u8, 103u8, 101u8, 116u8],
        encode_utf8("__pycache__"@) == seq![
            95u8, 95u8, 112u8, 121u8, 99u8, 97u8, 99u8, 104u8, 101u8, 95u8, 95u8,
        ],
{
    reveal_strlit("node_modules");
    reveal_strlit("target");
    reveal_strlit("__pycache__");
    is_ascii_chars_encode_utf8("node_modules"@);
    is_ascii_chars_encode_utf8("target"@);
    is_ascii_chars_encode_utf8("__pycache__"@);
    assert(encode_utf8("node_modules"@) =~= seq![
        110u8, 111u8, 100u8, 101u8, 95u8, 109u8, 111u8, 100u8, 117u8, 108u8, 101u8, 115u8,
    ]);
    assert(encode_utf8("target"@) =~= seq![116u8, 97u8, 114u8, 103u8, 101u8, 116u8]);
    assert(encode_utf8("__pycache__"@) =~= seq![
        95u8, 95u8, 112u8, 121u8, 99u8, 97u8, 99u8, 104u8, 101u8, 95u8, 95u8,
    ]);
}

/// A path that ends with `.`, `..`, the root or a prefix, and the empty one, have no name that a
/// scan could skip.
pub proof fn law_paths_without_names_are_kept(path: PathView, is_dir: bool)
    requires
        path.len() > 0 ==> path.last() == seq![46u8] || path.last() == seq![46u8, 46u8]
            || (path.last().len() > 0 && path.last()[0] == 47u8),
    ensures
        is_kept(Seq::empty(), ListedView { path, is_dir }),
{
}

/// A scan starts at the root with nothing found. A directory that was read is no longer waiting;
/// what is kept of it is found behind what was found before, and the directories among it wait
/// behind those that waited, so that the last one is read next. Its ignore file, where it has one,
/// counts after those of the directories that were read before.
pub proof fn law_listing_is_added(
    scan: ScanModel,
    root: PathView,
    dir: PathView,
    entries: Seq<ListedView>,
    file: Seq<u8>,
)
    ensures
        ScanModel::start(root).waiting == seq![root],
        ScanModel::start(root).found.len() == 0,
        ScanModel::start(root).rules.len() == 0,
        scan.taken().found == scan.found,
        scan.taken().rules == scan.rules,
        scan.waiting.len() > 0 ==> scan.taken().waiting.push(scan.waiting.last()) == scan.waiting,
        scan.listed(dir, entries, None).rules == scan.rules,
        scan.listed(dir, entries, None).found == scan.found + kept_paths(scan.rules, entries),
        scan.listed(dir, entries, None).waiting == scan.waiting + kept_directories(
            scan.rules,
            entries,
        ),
        scan.listed(dir, entries, Some(file)).rules == scan.rules.push((dir, patterns_in(file))),
        scan.listed(dir, entries, Some(file)).found == scan.found + kept_paths(
            scan.rules.push((dir, patterns_in(file))),
            entries,
        ),
        scan.listed(dir, entries, Some(file)).waiting == scan.waiting + kept_directories(
            scan.rules.push((dir, patterns_in(file))),
            entries,
        ),
{
    if scan.waiting.len() > 0 {
        assert(scan.taken().waiting.push(scan.waiting.last()) =~= scan.waiting);
    }
}

/// One more entry of a listing comes last among the kept ones, if it is kept, and among the kept
/// directories, if it is one.
pub proof fn law_entries_are_kept_in_order(
    rules: IgnoreRules,
    entries: Seq<ListedView>,
    entry: ListedView,
)
    ensures
        kept_paths(rules, entries.push(entry)) == (if is_kept(rules, entry) {
            kept_paths(rules, entries).push(entry.path)
        } else {
            kept_paths(rules, entries)
        }),
        kept_directories(rules, entries.push(entry)) == (if is_kept(rules, entry)
            && entry.is_dir {
            kept_directories(rules, entries).push(entry.path)
        } else {
            kept_directories(rules, entries)
        }),
{
    assert(entries.push(entry).drop_last() =~= entries);
}

} // verus!

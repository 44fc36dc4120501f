//! File paths as sequences of components.
//!
//! Paths are compared, prefixed and shortened component by component, never byte by byte:
//! `/a//b/` and `/a/./b` are the same path as `/a/b`, and `/a/bc` is not below `/a/b`.
//!
//! How a text is parted into components is up to the platform. `FilePath::from_parts` takes the
//! components that the platform found; `FilePath::from_unix` reads a text by the rules of Unix.

use vstd::prelude::*;

verus! {

/// The components of a path, each as its bytes. The root of an absolute path is a component of
/// its own, the single byte `/`, and so is a prefix such as a drive, with the byte `/` in front.
pub type PathView = Seq<Seq<u8>>;

/// The byte that separates components.
pub const SLASH: u8 = 47;

/// The byte `.`.
pub const DOT: u8 = 46;

/// The component that stands for the root directory.
pub open spec fn root_part() -> Seq<u8> {
    seq![SLASH]
}

/// The component `.`.
pub open spec fn current_part() -> Seq<u8> {
    seq![DOT]
}

/// The component `..`.
pub open spec fn parent_part() -> Seq<u8> {
    seq![DOT, DOT]
}

/// The pieces of `raw` between its slashes: one more than there are slashes.
pub open spec fn pieces(raw: Seq<u8>) -> Seq<Seq<u8>>
    decreases raw.len(),
{
    if raw.len() == 0 {
        seq![Seq::empty()]
    } else {
        let before = pieces(raw.drop_last());
        if raw.last() == SLASH {
            before.push(Seq::empty())
        } else {
            before.drop_last().push(before.last().push(raw.last()))
        }
    }
}

/// Whether a piece is a component: it is not empty, and it is not `.` unless the path starts
/// with it.
pub open spec fn is_component(piece: Seq<u8>, first: bool) -> bool {
    piece.len() > 0 && (piece == current_part() ==> first)
}

/// The pieces that are components, in order.
pub open spec fn components_among(pieces: Seq<Seq<u8>>) -> PathView
    decreases pieces.len(),
{
    if pieces.len() == 0 {
        Seq::empty()
    } else {
        let before = components_among(pieces.drop_last());
        if is_component(pieces.last(), pieces.len() == 1) {
            before.push(pieces.last())
        } else {
            before
        }
    }
}

/// The components of the path that `raw` stands for on Unix.
pub open spec fn components_of(raw: Seq<u8>) -> PathView {
    let names = components_among(pieces(raw));
    if raw.len() > 0 && raw[0] == SLASH {
        seq![root_part()] + names
    } else {
        names
    }
}

/// Whether a component is the root or a prefix.
pub open spec fn is_base(part: Seq<u8>) -> bool {
    part.len() > 0 && part[0] == SLASH
}

/// The path without its last component. The empty path has no parent, and neither has one that
/// ends with the root or a prefix.
pub open spec fn parent_of(path: PathView) -> Option<PathView> {
    if path.len() == 0 || is_base(path.last()) {
        None
    } else {
        Some(path.drop_last())
    }
}

/// The last component, where it is a name.
pub open spec fn file_name_of(path: PathView) -> Option<Seq<u8>> {
    if path.len() == 0 || is_base(path.last()) || path.last() == current_part() || path.last()
        == parent_part() {
        None
    } else {
        Some(path.last())
    }
}

/// Whether a path is the directory `base` or lies below it.
pub open spec fn is_under(path: PathView, base: PathView) -> bool {
    base.is_prefix_of(path)
}

/// Whether the components are ones that some path is made of: names without slashes, the root
/// and `.` only in front.
pub open spec fn is_normal(path: PathView) -> bool {
    forall|i: int|
        #![trigger path[i]]
        0 <= i < path.len() ==> {
            ||| i == 0 && path[i] == root_part()
            ||| path[i].len() > 0 && !path[i].contains(SLASH) && (path[i] == current_part() ==> i
                == 0)
        }
}

/// The contents of a list of byte strings.
pub open spec fn parts_view(parts: Seq<Vec<u8>>) -> PathView {
    Seq::new(parts.len(), |i: int| parts[i]@)
}

/// Whether two byte strings are equal.
pub fn bytes_equal(a: &Vec<u8>, b: &Vec<u8>) -> (result: bool)
    ensures
        result == (a@ == b@),
{
    if a.len() != b.len() {
        return false;
    }
    let mut i: usize = 0;
    while i < a.len()
        invariant
            a@.len() == b@.len(),
            i <= a@.len(),
            forall|j: int| 0 <= j < i ==> a@[j] == b@[j],
        decreases a@.len() - i,
    {
        if a[i] != b[i] {
            return false;
        }
        i += 1;
    }
    assert(a@ =~= b@);
    true
}

/// A copy of a byte string.
pub fn copy_bytes(bytes: &Vec<u8>) -> (result: Vec<u8>)
    ensures
        result@ == bytes@,
{
    let mut result: Vec<u8> = Vec::with_capacity(bytes.len());
    let mut i: usize = 0;
    while i < bytes.len()
        invariant
            i <= bytes@.len(),
            result@ == bytes@.take(i as int),
        decreases bytes@.len() - i,
    {
        result.push(bytes[i]);
        i += 1;
    }
    result
}

/// A copy of the bytes between two places.
pub fn copy_range(bytes: &Vec<u8>, from: usize, to: usize) -> (result: Vec<u8>)
    requires
        from <= to <= bytes@.len(),
    ensures
        result@ == bytes@.subrange(from as int, to as int),
{
    let mut result: Vec<u8> = Vec::with_capacity(to - from);
    let mut i: usize = from;
    while i < to
        invariant
            from <= i <= to <= bytes@.len(),
            result@ == bytes@.subrange(from as int, i as int),
        decreases to - i,
    {
        assert(bytes@.subrange(from as int, i + 1) =~= bytes@.subrange(
            from as int,
            i as int,
        ).push(bytes@[i as int]));
        result.push(bytes[i]);
        i += 1;
    }
    result
}

/// A component of a path, as a platform knows it.
#[derive(Debug, PartialEq, Eq)]
pub enum PathPart {
    /// A prefix, such as a drive.
    Prefix(Vec<u8>),
    /// The root directory.
    Root,
    /// The directory itself, `.`.
    Current,
    /// The directory above, `..`.
    Parent,
    /// The name of a file or directory.
    Name(Vec<u8>),
}

/// The contents of a component.
pub enum PartView {
    Prefix(Seq<u8>),
    Root,
    Current,
    Parent,
    Name(Seq<u8>),
}

impl View for PathPart {
    type V = PartView;

    open spec fn view(&self) -> PartView {
        match self {
            PathPart::Prefix(bytes) => PartView::Prefix(bytes@),
            PathPart::Root => PartView::Root,
            PathPart::Current => PartView::Current,
            PathPart::Parent => PartView::Parent,
            PathPart::Name(bytes) => PartView::Name(bytes@),
        }
    }
}

/// The contents of components.
pub open spec fn path_parts_view(parts: Seq<PathPart>) -> Seq<PartView> {
    Seq::new(parts.len(), |i: int| parts[i]@)
}

impl PartView {
    /// The bytes by which a component is held.
    pub open spec fn bytes(self) -> Seq<u8> {
        match self {
            PartView::Prefix(bytes) => root_part() + bytes,
            PartView::Root => root_part(),
            PartView::Current => current_part(),
            PartView::Parent => parent_part(),
            PartView::Name(bytes) => bytes,
        }
    }

    /// The component that is held by bytes.
    pub open spec fn of(bytes: Seq<u8>) -> PartView {
        if bytes == root_part() {
            PartView::Root
        } else if is_base(bytes) {
            PartView::Prefix(bytes.skip(1))
        } else if bytes == current_part() {
            PartView::Current
        } else if bytes == parent_part() {
            PartView::Parent
        } else {
            PartView::Name(bytes)
        }
    }

    /// Whether a component is one that platforms have: no prefix is empty, and no name starts
    /// with a slash or is `.` or `..`.
    pub open spec fn is_usual(self) -> bool {
        match self {
            PartView::Prefix(bytes) => bytes.len() > 0,
            PartView::Name(bytes) => !is_base(bytes) && bytes != current_part() && bytes
                != parent_part(),
            _ => true,
        }
    }
}

/// The bytes by which components are held.
pub open spec fn encoded(parts: Seq<PartView>) -> PathView {
    Seq::new(parts.len(), |i: int| parts[i].bytes())
}

/// The components that are held by bytes.
pub open spec fn decoded(path: PathView) -> Seq<PartView> {
    Seq::new(path.len(), |i: int| PartView::of(path[i]))
}

impl PathPart {
    /// The bytes by which the component is held.
    fn to_bytes(&self) -> (result: Vec<u8>)
        ensures
            result@ == self@.bytes(),
    {
        let mut result: Vec<u8> = Vec::new();
        match self {
            PathPart::Prefix(bytes) => {
                result.push(SLASH);
                let mut copy = copy_bytes(bytes);
                result.append(&mut copy);
                assert(result@ =~= root_part() + bytes@);
            },
            PathPart::Root => {
                result.push(SLASH);
                assert(result@ =~= root_part());
            },
            PathPart::Current => {
                result.push(DOT);
                assert(result@ =~= current_part());
            },
            PathPart::Parent => {
                result.push(DOT);
                result.push(DOT);
                assert(result@ =~= parent_part());
            },
            PathPart::Name(bytes) => {
                result = copy_bytes(bytes);
            },
        }
        result
    }

    /// The component that is held by bytes.
    fn from_bytes(bytes: &Vec<u8>) -> (result: PathPart)
        ensures
            result@ == PartView::of(bytes@),
    {
        let len: usize = bytes.len();
        let is_root = len == 1 && bytes[0] == SLASH;
        let is_current = len == 1 && bytes[0] == DOT;
        let is_parent = len == 2 && bytes[0] == DOT && bytes[1] == DOT;
        assert(is_root == (bytes@ =~= root_part()));
        assert(is_current == (bytes@ =~= current_part()));
        assert(is_parent == (bytes@ =~= parent_part()));
        if is_root {
            PathPart::Root
        } else if len > 0 && bytes[0] == SLASH {
            let rest = copy_range(bytes, 1, len);
            assert(rest@ =~= bytes@.skip(1));
            PathPart::Prefix(rest)
        } else if is_current {
            PathPart::Current
        } else if is_parent {
            PathPart::Parent
        } else {
            PathPart::Name(copy_bytes(bytes))
        }
    }
}

/// A path, held as its components.
#[derive(Debug, PartialEq, Eq, Hash)]
pub struct FilePath {
    parts: Vec<Vec<u8>>,
}

impl View for FilePath {
    type V = PathView;

    closed spec fn view(&self) -> PathView {
        parts_view(self.parts@)
    }
}

impl Clone for FilePath {
    fn clone(&self) -> (result: Self)
        ensures
            result@ == self@,
    {
        self.first_parts(self.parts.len())
    }
}

impl FilePath {
    /// The path made of components as the platform found them.
    pub fn from_parts(parts: &Vec<PathPart>) -> (result: Self)
        ensures
            result@ == encoded(path_parts_view(parts@)),
    {
        let mut bytes: Vec<Vec<u8>> = Vec::with_capacity(parts.len());
        let mut i: usize = 0;
        while i < parts.len()
            invariant
                i <= parts@.len(),
                parts_view(bytes@) == encoded(path_parts_view(parts@)).take(i as int),
            decreases parts@.len() - i,
        {
            let ghost before = parts_view(bytes@);
            let part = parts[i].to_bytes();
            bytes.push(part);
            assert(parts_view(bytes@) =~= before.push(part@));
            assert(encoded(path_parts_view(parts@)).take(i + 1) =~= before.push(part@));
            i += 1;
        }
        assert(encoded(path_parts_view(parts@)).take(i as int) =~= encoded(
            path_parts_view(parts@),
        ));
        FilePath { parts: bytes }
    }

    /// The components of the path, for the platform to put together.
    pub fn components(&self) -> (result: Vec<PathPart>)
        ensures
            path_parts_view(result@) == decoded(self@),
    {
        let mut result: Vec<PathPart> = Vec::with_capacity(self.parts.len());
        let mut i: usize = 0;
        while i < self.parts.len()
            invariant
                i <= self.parts@.len(),
                path_parts_view(result@) == decoded(self@).take(i as int),
            decreases self.parts@.len() - i,
        {
            let ghost before = path_parts_view(result@);
            let part = PathPart::from_bytes(&self.parts[i]);
            result.push(part);
            assert(path_parts_view(result@) =~= before.push(part@));
            assert(decoded(self@).take(i + 1) =~= before.push(part@));
            i += 1;
        }
        assert(decoded(self@).take(i as int) =~= decoded(self@));
        result
    }

    /// The path that `raw` stands for on Unix: repeated and trailing slashes are dropped, and so
    /// is every `.` but one in front.
    pub fn from_unix(raw: &[u8]) -> (result: Self)
        ensures
            result@ == components_of(raw@),
    {
        let mut parts: Vec<Vec<u8>> = Vec::new();
        if raw.len() > 0 && raw[0] == SLASH {
            let mut root: Vec<u8> = Vec::new();
            root.push(SLASH);
            assert(root@ =~= root_part());
            parts.push(root);
        }
        let ghost root = parts_view(parts@);
        let ghost mut done: Seq<Seq<u8>> = Seq::empty();
        let mut current: Vec<u8> = Vec::new();
        let mut first = true;
        let mut i: usize = 0;
        assert(raw@.take(0) =~= Seq::empty());
        assert(done.push(current@) =~= pieces(raw@.take(0)));
        assert(root + components_among(done) =~= root);
        while i < raw.len()
            invariant
                i <= raw@.len(),
                pieces(raw@.take(i as int)) == done.push(current@),
                parts_view(parts@) == root + components_among(done),
                first == (done.len() == 0),
            decreases raw@.len() - i,
        {
            let ghost before = raw@.take(i as int);
            assert(raw@.take(i + 1) =~= before.push(raw@[i as int]));
            assert(before.push(raw@[i as int]).drop_last() =~= before);
            let ghost all = done.push(current@);
            assert(all.drop_last() =~= done);
            let byte: u8 = raw[i];
            if byte == SLASH {
                let ghost piece = current@;
                let ghost old_parts = parts_view(parts@);
                if Self::keeps(&current, first) {
                    parts.push(current);
                    assert(parts_view(parts@) =~= old_parts.push(piece));
                    assert(root + components_among(done).push(piece) =~= old_parts.push(piece));
                }
                proof {
                    done = all;
                }
                first = false;
                current = Vec::new();
                assert(current@ =~= Seq::empty());
            } else {
                current.push(byte);
            }
            i += 1;
        }
        assert(raw@.take(i as int) =~= raw@);
        let ghost all = done.push(current@);
        assert(all.drop_last() =~= done);
        let ghost piece = current@;
        let ghost old_parts = parts_view(parts@);
        if Self::keeps(&current, first) {
            parts.push(current);
            assert(parts_view(parts@) =~= old_parts.push(piece));
            assert(root + components_among(done).push(piece) =~= old_parts.push(piece));
        }
        assert(parts_view(parts@) == root + components_among(all));
        proof {
            if raw@.len() > 0 && raw@[0] == SLASH {
                assert(root =~= seq![root_part()]);
            } else {
                assert(root =~= Seq::empty());
                assert(root + components_among(all) =~= components_among(all));
            }
        }
        FilePath { parts }
    }

    /// Whether a piece between slashes is a component.
    fn keeps(piece: &Vec<u8>, first: bool) -> (result: bool)
        ensures
            result == is_component(piece@, first),
    {
        let is_dot = piece.len() == 1 && piece[0] == DOT;
        assert(is_dot == (piece@ =~= current_part()));
        piece.len() > 0 && (!is_dot || first)
    }

    /// The components of the path, the root as a single slash.
    pub fn parts(&self) -> (result: &Vec<Vec<u8>>)
        ensures
            parts_view(result@) == self@,
    {
        &self.parts
    }

    /// A copy of the components, as a key to store the path under.
    pub fn to_parts(&self) -> (result: Vec<Vec<u8>>)
        ensures
            parts_view(result@) == self@,
    {
        let copy = self.clone();
        copy.parts
    }

    /// The path made of the first `count` components.
    fn first_parts(&self, count: usize) -> (result: FilePath)
        requires
            count <= self@.len(),
        ensures
            result@ == self@.take(count as int),
    {
        let mut parts: Vec<Vec<u8>> = Vec::with_capacity(count);
        let mut i: usize = 0;
        while i < count
            invariant
                i <= count <= self.parts@.len(),
                parts_view(parts@) == self@.take(i as int),
            decreases count - i,
        {
            let ghost old_parts = parts@;
            let part = copy_bytes(&self.parts[i]);
            parts.push(part);
            assert(parts_view(parts@) =~= parts_view(old_parts).push(part@));
            assert(self@.take(i + 1) =~= self@.take(i as int).push(self@[i as int]));
            i += 1;
        }
        FilePath { parts }
    }

    /// Whether two paths are the same.
    pub fn same(&self, other: &FilePath) -> (result: bool)
        ensures
            result == (self@ == other@),
    {
        let result = self.parts.len() == other.parts.len() && self.starts_with(other);
        proof {
            if self@.len() == other@.len() {
                assert(self@.subrange(0, other@.len() as int) =~= self@);
            }
        }
        result
    }

    /// Whether the path is `base` or lies below it.
    pub fn starts_with(&self, base: &FilePath) -> (result: bool)
        ensures
            result == is_under(self@, base@),
    {
        if base.parts.len() > self.parts.len() {
            return false;
        }
        let mut i: usize = 0;
        while i < base.parts.len()
            invariant
                i <= base.parts@.len() <= self.parts@.len(),
                forall|j: int| 0 <= j < i ==> self.parts@[j]@ == base.parts@[j]@,
            decreases base.parts@.len() - i,
        {
            if !bytes_equal(&self.parts[i], &base.parts[i]) {
                assert(self@[i as int] != base@[i as int]);
                assert(self@.subrange(0, base@.len() as int)[i as int] == self@[i as int]);
                return false;
            }
            i += 1;
        }
        assert(base@ =~= self@.subrange(0, base@.len() as int));
        true
    }

    /// The path without its last component.
    pub fn parent(&self) -> (result: Option<FilePath>)
        ensures
            match result {
                Some(parent) => parent_of(self@) == Some(parent@),
                None => parent_of(self@) is None,
            },
    {
        let len: usize = self.parts.len();
        if len == 0 || Self::starts_path(&self.parts[len - 1]) {
            None
        } else {
            let result = self.first_parts(len - 1);
            assert(result@ =~= self@.drop_last());
            Some(result)
        }
    }

    /// Whether `parent` is the path's parent.
    pub fn is_child_of(&self, parent: &FilePath) -> (result: bool)
        ensures
            result == (parent_of(self@) == Some(parent@)),
    {
        let len: usize = self.parts.len();
        if len == 0 || Self::starts_path(&self.parts[len - 1]) {
            return false;
        }
        let result = parent.parts.len() == len - 1 && self.starts_with(parent);
        proof {
            if result {
                assert(parent@ =~= self@.drop_last());
            } else if parent@ == self@.drop_last() {
                assert(parent@ =~= self@.subrange(0, parent@.len() as int));
            }
        }
        result
    }

    /// The last component, where it is a name.
    pub fn file_name(&self) -> (result: Option<&Vec<u8>>)
        ensures
            match result {
                Some(name) => file_name_of(self@) == Some(name@),
                None => file_name_of(self@) is None,
            },
    {
        let len: usize = self.parts.len();
        if len == 0 {
            return None;
        }
        let last = &self.parts[len - 1];
        let is_current = last.len() == 1 && last[0] == DOT;
        let is_parent = last.len() == 2 && last[0] == DOT && last[1] == DOT;
        assert(is_current == (last@ =~= current_part()));
        assert(is_parent == (last@ =~= parent_part()));
        if Self::starts_path(last) || is_current || is_parent {
            None
        } else {
            Some(last)
        }
    }

    /// Whether a component is the root or a prefix.
    fn starts_path(part: &Vec<u8>) -> (result: bool)
        ensures
            result == is_base(part@),
    {
        part.len() > 0 && part[0] == SLASH
    }
}

/// No piece between slashes holds a slash.
proof fn lemma_pieces_hold_no_slash(raw: Seq<u8>)
    ensures
        pieces(raw).len() > 0,
        forall|i: int| 0 <= i < pieces(raw).len() ==> !(#[trigger] pieces(raw)[i]).contains(SLASH),
    decreases raw.len(),
{
    if raw.len() > 0 {
        lemma_pieces_hold_no_slash(raw.drop_last());
        let before = pieces(raw.drop_last());
        let last = before.last();
        assert(!before[before.len() - 1].contains(SLASH));
        if raw.last() != SLASH {
            assert forall|k: int| 0 <= k < last.len() + 1 implies last.push(raw.last())[k]
                != SLASH by {
                if k < last.len() {
                    assert(last.contains(last[k]));
                }
            }
        }
    }
}

/// Components among pieces that hold no slash are normal, and `.` is only the first of them.
proof fn lemma_components_among_normal(list: Seq<Seq<u8>>)
    requires
        forall|i: int| 0 <= i < list.len() ==> !(#[trigger] list[i]).contains(SLASH),
    ensures
        components_among(list).len() <= list.len(),
        forall|i: int|
            0 <= i < components_among(list).len() ==> {
                &&& (#[trigger] components_among(list)[i]).len() > 0
                &&& !components_among(list)[i].contains(SLASH)
                &&& components_among(list)[i] == current_part() ==> i == 0 && list[0]
                    == current_part()
            },
    decreases list.len(),
{
    if list.len() > 0 {
        assert forall|i: int| 0 <= i < list.drop_last().len() implies !(
        #[trigger] list.drop_last()[i]).contains(SLASH) by {
            assert(list.drop_last()[i] == list[i]);
        }
        lemma_components_among_normal(list.drop_last());
        assert(!list[list.len() - 1].contains(SLASH));
    }
}

/// The components of every written path are normal: whatever slashes and dots it was written
/// with, names hold no slash, and the root and `.` come only in front.
pub proof fn law_components_are_normal(raw: Seq<u8>)
    ensures
        is_normal(components_of(raw)),
{
    lemma_pieces_hold_no_slash(raw);
    lemma_components_among_normal(pieces(raw));
    if raw.len() > 0 && raw[0] == SLASH {
        lemma_first_piece_of_absolute(raw);
        assert(current_part().len() == 1);
    }
}

/// What stands in front of a leading slash is empty.
proof fn lemma_first_piece_of_absolute(raw: Seq<u8>)
    requires
        raw.len() > 0,
        raw[0] == SLASH,
    ensures
        pieces(raw).len() > 1,
        pieces(raw)[0] == Seq::<u8>::empty(),
    decreases raw.len(),
{
    if raw.len() == 1 {
        assert(raw.drop_last() =~= Seq::empty());
        assert(pieces(raw.drop_last()) =~= seq![Seq::<u8>::empty()]);
    } else {
        lemma_first_piece_of_absolute(raw.drop_last());
    }
}

/// The components that a platform found come back as they were.
pub proof fn law_parts_come_back(parts: Seq<PartView>)
    requires
        forall|i: int| 0 <= i < parts.len() ==> (#[trigger] parts[i]).is_usual(),
    ensures
        decoded(encoded(parts)) == parts,
{
    assert forall|i: int| 0 <= i < parts.len() implies PartView::of(
        #[trigger] parts[i].bytes(),
    ) == parts[i] by {
        assert(parts[i].is_usual());
        let bytes = parts[i].bytes();
        assert(root_part().len() == 1 && root_part()[0] == SLASH);
        assert(current_part()[0] == DOT);
        assert(parent_part()[0] == DOT && parent_part().len() == 2 && current_part().len() == 1);
        if let PartView::Prefix(prefix) = parts[i] {
            assert(bytes.skip(1) =~= prefix);
            assert(bytes.len() > 1);
        }
    }
    assert(decoded(encoded(parts)) =~= parts);
}

/// A path lies below its parent, and no path has itself for a parent.
pub proof fn law_parent_contains_child(path: PathView)
    requires
        parent_of(path) is Some,
    ensures
        is_under(path, parent_of(path).unwrap()),
        parent_of(path).unwrap() != path,
{
    let parent = parent_of(path).unwrap();
    assert(parent =~= path.subrange(0, parent.len() as int));
}

/// What lies below a directory lies below everything that the directory lies below.
pub proof fn law_under_is_transitive(path: PathView, middle: PathView, base: PathView)
    requires
        is_under(path, middle),
        is_under(middle, base),
    ensures
        is_under(path, base),
{
    assert(base =~= path.subrange(0, base.len() as int)) by {
        assert forall|i: int| 0 <= i < base.len() implies base[i] == path[i] by {
            assert(base[i] == middle.subrange(0, base.len() as int)[i]);
            assert(middle[i] == path.subrange(0, middle.len() as int)[i]);
        }
    }
}

/// The parent of a path is what stands before its last component. There is none for the root and
/// for a prefix, and for the empty path.
pub proof fn law_parent_is_all_but_the_last(path: PathView, name: Seq<u8>)
    ensures
        parent_of(Seq::empty()) is None,
        parent_of(path.push(name)) == (if name.len() > 0 && name[0] == 47u8 {
            None::<PathView>
        } else {
            Some(path)
        }),
{
    assert(path.push(name).drop_last() =~= path);
}

/// The name of a path is its last component, unless that is the root, a prefix, `.` or `..`.
pub proof fn law_name_is_the_last(path: PathView, name: Seq<u8>)
    ensures
        file_name_of(Seq::empty()) is None,
        file_name_of(path.push(name)) == (if (name.len() > 0 && name[0] == 47u8) || name
            == seq![46u8] || name == seq![46u8, 46u8] {
            None::<Seq<u8>>
        } else {
            Some(name)
        }),
{
    assert(path.push(name).last() == name);
}

/// A path lies below a directory exactly if it starts with all components of the directory.
pub proof fn law_under_compares_components(path: PathView, base: PathView)
    ensures
        is_under(path, base) <==> base.len() <= path.len() && forall|i: int|
            0 <= i < base.len() ==> #[trigger] path[i] == base[i],
{
    if is_under(path, base) {
        assert forall|i: int| 0 <= i < base.len() implies #[trigger] path[i] == base[i] by {
            assert(base[i] == path.subrange(0, base.len() as int)[i]);
        }
    }
    if base.len() <= path.len() && forall|i: int|
        0 <= i < base.len() ==> #[trigger] path[i] == base[i] {
        assert(base =~= path.subrange(0, base.len() as int));
    }
}

/// The pieces of a text to which a slash and a piece are added.
proof fn lemma_one_more_piece(raw: Seq<u8>, piece: Seq<u8>)
    requires
        !piece.contains(SLASH),
    ensures
        pieces(raw.push(SLASH) + piece) == pieces(raw).push(piece),
    decreases piece.len(),
{
    let all = raw.push(SLASH) + piece;
    if piece.len() == 0 {
        assert(all =~= raw.push(SLASH));
        assert(all.drop_last() =~= raw);
        assert(piece =~= Seq::empty());
    } else {
        let rest = piece.drop_last();
        assert(piece[piece.len() - 1] != SLASH);
        assert(!rest.contains(SLASH)) by {
            if rest.contains(SLASH) {
                let i = choose|i: int| 0 <= i < rest.len() && rest[i] == SLASH;
                assert(piece[i] == SLASH);
            }
        }
        lemma_one_more_piece(raw, rest);
        assert(all.drop_last() =~= raw.push(SLASH) + rest);
        assert(all.last() == piece.last());
        assert(rest.push(piece.last()) =~= piece);
        assert(pieces(raw).push(rest).drop_last() =~= pieces(raw));
    }
}

/// The pieces of a text without slashes.
proof fn lemma_only_piece(piece: Seq<u8>)
    requires
        !piece.contains(SLASH),
    ensures
        pieces(piece) == seq![piece],
    decreases piece.len(),
{
    if piece.len() == 0 {
        assert(piece =~= Seq::empty());
    } else {
        let rest = piece.drop_last();
        assert(piece[piece.len() - 1] != SLASH);
        assert(!rest.contains(SLASH)) by {
            if rest.contains(SLASH) {
                let i = choose|i: int| 0 <= i < rest.len() && rest[i] == SLASH;
                assert(piece[i] == SLASH);
            }
        }
        lemma_only_piece(rest);
        assert(rest.push(piece.last()) =~= piece);
        assert(pieces(piece) =~= seq![piece]);
    }
}

/// How a text is read by the rules of Unix, slash by slash: a text without a slash is one
/// component, a leading slash is the root, and what follows a slash is one more component, unless
/// it is empty or `.`.
pub proof fn law_text_is_read_slash_by_slash(raw: Seq<u8>, piece: Seq<u8>)
    requires
        !piece.contains(47u8),
    ensures
        components_of(Seq::empty()).len() == 0,
        piece.len() > 0 ==> components_of(piece) == seq![piece],
        components_of(seq![47u8] + piece) == (if piece.len() == 0 || piece == seq![46u8] {
            seq![seq![47u8]]
        } else {
            seq![seq![47u8], piece]
        }),
        raw.len() > 0 ==> components_of(raw.push(47u8) + piece) == (if piece.len() == 0 || piece
            == seq![46u8] {
            components_of(raw)
        } else {
            components_of(raw).push(piece)
        }),
{
    assert(pieces(Seq::<u8>::empty()) == seq![Seq::<u8>::empty()]);
    assert(seq![Seq::<u8>::empty()].drop_last() =~= Seq::<Seq<u8>>::empty());
    assert(components_among(Seq::<Seq<u8>>::empty()) =~= Seq::<Seq<u8>>::empty());
    assert(components_among(seq![Seq::<u8>::empty()]) =~= Seq::<Seq<u8>>::empty());
    if piece.len() > 0 {
        lemma_only_piece(piece);
        assert(seq![piece].drop_last() =~= Seq::<Seq<u8>>::empty());
        assert(piece.contains(piece[0]));
        assert(components_of(piece) =~= seq![piece]);
    }
    let nothing = Seq::<u8>::empty();
    assert(nothing.push(47u8) =~= seq![47u8]);
    lemma_one_more_piece(nothing, piece);
    let two = pieces(nothing).push(piece);
    assert(two.drop_last() =~= pieces(nothing));
    assert(components_of(seq![47u8] + piece) =~= (if piece.len() == 0 || piece == seq![46u8] {
        seq![root_part()]
    } else {
        seq![root_part(), piece]
    }));
    if raw.len() > 0 {
        let all = raw.push(47u8) + piece;
        lemma_one_more_piece(raw, piece);
        lemma_pieces_hold_no_slash(raw);
        assert(pieces(raw).push(piece).drop_last() =~= pieces(raw));
        assert(all[0] == raw[0]);
        assert(components_of(all) =~= (if piece.len() == 0 || piece == seq![46u8] {
            components_of(raw)
        } else {
            components_of(raw).push(piece)
        }));
    }
}

/// Platform components are held by the bytes that a text has for them on Unix; a prefix has a
/// slash in front.
pub proof fn law_parts_are_held_by_their_bytes(parts: Seq<PartView>, name: Seq<u8>)
    ensures
        encoded(parts).len() == parts.len(),
        encoded(parts.push(PartView::Root)) == encoded(parts).push(seq![47u8]),
        encoded(parts.push(PartView::Current)) == encoded(parts).push(seq![46u8]),
        encoded(parts.push(PartView::Parent)) == encoded(parts).push(seq![46u8, 46u8]),
        encoded(parts.push(PartView::Name(name))) == encoded(parts).push(name),
        encoded(parts.push(PartView::Prefix(name))) == encoded(parts).push(seq![47u8] + name),
{
    assert(encoded(parts.push(PartView::Root)) =~= encoded(parts).push(seq![47u8]));
    assert(encoded(parts.push(PartView::Current)) =~= encoded(parts).push(seq![46u8]));
    assert(encoded(parts.push(PartView::Parent)) =~= encoded(parts).push(seq![46u8, 46u8]));
    assert(encoded(parts.push(PartView::Name(name))) =~= encoded(parts).push(name));
    assert(encoded(parts.push(PartView::Prefix(name))) =~= encoded(parts).push(
        seq![47u8] + name,
    ));
}

} // verus!

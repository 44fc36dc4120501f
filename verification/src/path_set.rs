//! Sets of paths that keep the order in which the paths came.

use crate::path::{parts_view, FilePath, PathView};
use std::collections::HashMap;
use vstd::prelude::*;

verus! {

broadcast use vstd::std_specs::hash::group_hash_axioms;

/// The modulus of the fingerprint: a prime below 2^61.
const MODULUS: u128 = 2305843009213693951;

/// The base of the fingerprint.
const BASE: u128 = 1099511628211;

/// One step of a fingerprint: `symbol` is a byte, or 256 for the end of a component.
pub closed spec fn mixed(state: int, symbol: int) -> int {
    (state * BASE + symbol + 1) % (MODULUS as int)
}

/// The fingerprint of `bytes`, continued from `state`.
pub closed spec fn bytes_fingerprint(state: int, bytes: Seq<u8>) -> int
    decreases bytes.len(),
{
    if bytes.len() == 0 {
        state
    } else {
        mixed(bytes_fingerprint(state, bytes.drop_last()), bytes.last() as int)
    }
}

/// The fingerprint of a path.
#[verifier::opaque]
pub closed spec fn fingerprint(path: PathView) -> int
    decreases path.len(),
{
    if path.len() == 0 {
        0
    } else {
        mixed(bytes_fingerprint(fingerprint(path.drop_last()), path.last()), 256)
    }
}

fn mix(state: u64, symbol: u64) -> (result: u64)
    requires
        state < MODULUS,
        symbol <= 256,
    ensures
        result == mixed(state as int, symbol as int),
        result < MODULUS,
{
    let product: u128 = state as u128 * BASE;
    let sum: u128 = product + symbol as u128 + 1;
    (sum % MODULUS) as u64
}

fn path_fingerprint(path: &FilePath) -> (result: u64)
    ensures
        result == fingerprint(path@),
{
    reveal(fingerprint);
    let parts = path.parts();
    let mut state: u64 = 0;
    let mut i: usize = 0;
    assert(path@.take(0) =~= Seq::empty());
    while i < parts.len()
        invariant
            i <= parts@.len(),
            parts_view(parts@) == path@,
            state < MODULUS,
            state == fingerprint(path@.take(i as int)),
        decreases parts@.len() - i,
    {
        reveal(fingerprint);
        let part = &parts[i];
        let ghost start = state as int;
        let mut j: usize = 0;
        assert(part@.take(0) =~= Seq::empty());
        while j < part.len()
            invariant
                j <= part@.len(),
                state < MODULUS,
                state == bytes_fingerprint(start, part@.take(j as int)),
            decreases part@.len() - j,
        {
            state = mix(state, part[j] as u64);
            assert(part@.take(j + 1).drop_last() =~= part@.take(j as int));
            j += 1;
        }
        assert(part@.take(j as int) =~= part@);
        state = mix(state, 256);
        assert(path@.take(i + 1).drop_last() =~= path@.take(i as int));
        assert(path@.take(i + 1).last() == part@);
        i += 1;
    }
    assert(path@.take(i as int) =~= path@);
    state
}

/// A set of paths. Its view lists them in the order in which they were inserted.
#[derive(Debug)]
pub struct PathSet {
    paths: Vec<FilePath>,
    /// The positions in `paths`, by fingerprint.
    positions: HashMap<u64, Vec<usize>>,
}

/// The contents of a list of paths.
pub open spec fn paths_view(paths: Seq<FilePath>) -> Seq<PathView> {
    Seq::new(paths.len(), |i: int| paths[i]@)
}

/// The condition that a path is another one.
pub open spec fn other_than(path: PathView) -> spec_fn(PathView) -> bool {
    |other: PathView| other != path
}

impl View for PathSet {
    type V = Seq<PathView>;

    closed spec fn view(&self) -> Seq<PathView> {
        paths_view(self.paths@)
    }
}

impl PathSet {
    /// No path occurs twice, and every path is found under its fingerprint.
    pub closed spec fn wf(&self) -> bool {
        &&& self@.no_duplicates()
        &&& forall|i: int|
            #![trigger self.paths@[i]]
            0 <= i < self.paths@.len() ==> {
                let mark = fingerprint(self.paths@[i]@) as u64;
                self.positions@.contains_key(mark) && self.positions@[mark]@.contains(i as usize)
            }
        &&& forall|mark: u64, k: int|
            #![trigger self.positions@[mark]@[k]]
            self.positions@.contains_key(mark) && 0 <= k < self.positions@[mark]@.len()
                ==> self.positions@[mark]@[k] < self.paths@.len()
    }

    /// No path occurs twice in a well-formed set.
    pub proof fn lemma_no_duplicates(&self)
        requires
            self.wf(),
        ensures
            self@.no_duplicates(),
    {
    }

    /// A path that is not among the candidates with its fingerprint is not in the set.
    proof fn lemma_absent(&self, path: PathView, mark: u64)
        requires
            self.wf(),
            mark == fingerprint(path),
            self.positions@.contains_key(mark) ==> forall|k: int|
                0 <= k < self.positions@[mark]@.len()
                    ==> self.paths@[#[trigger] self.positions@[mark]@[k] as int]@ != path,
        ensures
            !self@.contains(path),
    {
        if self@.contains(path) {
            let i = choose|i: int| 0 <= i < self@.len() && self@[i] == path;
            assert(self.paths@[i]@ == path);
            assert(i < self.paths.len());
            let bucket = self.positions@[mark]@;
            assert(bucket.contains(i as usize));
            let k = choose|k: int| 0 <= k < bucket.len() && bucket[k] == i as usize;
            assert(self.paths@[bucket[k] as int]@ != path);
        }
    }

    /// The empty set.
    pub fn new() -> (result: Self)
        ensures
            result.wf(),
            result@ == Seq::<PathView>::empty(),
    {
        let result = PathSet { paths: Vec::new(), positions: HashMap::new() };
        assert(result@ =~= Seq::<PathView>::empty());
        result
    }

    /// The number of paths.
    pub fn len(&self) -> (result: usize)
        ensures
            result == self@.len(),
    {
        self.paths.len()
    }

    /// Whether there is no path.
    pub fn is_empty(&self) -> (result: bool)
        ensures
            result == (self@.len() == 0),
    {
        self.paths.len() == 0
    }

    /// The path that came at the given place.
    pub fn get(&self, index: usize) -> (result: &FilePath)
        requires
            index < self@.len(),
        ensures
            result@ == self@[index as int],
    {
        &self.paths[index]
    }

    /// The place of a path.
    pub fn position(&self, path: &FilePath) -> (result: Option<usize>)
        requires
            self.wf(),
        ensures
            match result {
                Some(index) => index < self@.len() && self@[index as int] == path@,
                None => !self@.contains(path@),
            },
    {
        let mark = path_fingerprint(path);
        if let Some(candidates) = self.positions.get(&mark) {
            let mut k: usize = 0;
            while k < candidates.len()
                invariant
                    self.wf(),
                    self.positions@.contains_key(mark),
                    self.positions@[mark] == *candidates,
                    k <= candidates@.len(),
                    forall|m: int|
                        0 <= m < k ==> self.paths@[#[trigger] candidates@[m] as int]@ != path@,
                decreases candidates@.len() - k,
            {
                let index: usize = candidates[k];
                assert(self.positions@[mark]@[k as int] < self.paths@.len());
                if self.paths[index].same(path) {
                    assert(self@[index as int] == path@);
                    return Some(index);
                }
                k += 1;
            }
        }
        proof {
            self.lemma_absent(path@, mark);
        }
        None
    }

    /// Whether a path is in the set.
    pub fn contains(&self, path: &FilePath) -> (result: bool)
        requires
            self.wf(),
        ensures
            result == self@.contains(path@),
    {
        self.position(path).is_some()
    }

    /// Adds a path, unless it is there already. Returns whether it was added.
    pub fn insert(&mut self, path: FilePath) -> (result: bool)
        requires
            old(self).wf(),
        ensures
            final(self).wf(),
            result == !old(self)@.contains(path@),
            final(self)@ == (if old(self)@.contains(path@) {
                old(self)@
            } else {
                old(self)@.push(path@)
            }),
    {
        if self.contains(&path) {
            return false;
        }
        let mark = path_fingerprint(&path);
        let index: usize = self.paths.len();
        let mut bucket: Vec<usize> = match self.positions.remove(&mark) {
            Some(bucket) => bucket,
            None => Vec::new(),
        };
        let ghost old_bucket = bucket@;
        bucket.push(index);
        self.positions.insert(mark, bucket);
        self.paths.push(path);
        proof {
            assert(self@ =~= old(self)@.push(path@));
            assert(self.positions@[mark]@ == old_bucket.push(index));
            assert(old(self).positions@.contains_key(mark) ==> old_bucket
                == old(self).positions@[mark]@);
            assert forall|i: int|
                #![trigger self.paths@[i]]
                0 <= i < self.paths@.len() implies {
                let own = fingerprint(self.paths@[i]@) as u64;
                self.positions@.contains_key(own) && self.positions@[own]@.contains(i as usize)
            } by {
                let own = fingerprint(self.paths@[i]@) as u64;
                if i < index {
                    assert(self.paths@[i] == old(self).paths@[i]);
                    let bucket = old(self).positions@[own]@;
                    let k = choose|k: int| 0 <= k < bucket.len() && bucket[k] == i as usize;
                    assert(self.positions@[own]@[k] == i as usize);
                } else {
                    assert(self.positions@[own]@[old_bucket.len() as int] == index);
                }
            }
            assert forall|other: u64, k: int|
                #![trigger self.positions@[other]@[k]]
                self.positions@.contains_key(other) && 0 <= k
                    < self.positions@[other]@.len() implies self.positions@[other]@[k]
                < self.paths@.len() by {
                if other == mark {
                    if k < old_bucket.len() {
                        assert(old(self).positions@[other]@[k] < old(self).paths@.len());
                    }
                } else {
                    assert(old(self).positions@[other]@[k] < old(self).paths@.len());
                }
            }
        }
        true
    }

    /// Takes a path out. Returns whether it was there. The others keep their order.
    pub fn remove(&mut self, path: &FilePath) -> (result: bool)
        requires
            old(self).wf(),
        ensures
            final(self).wf(),
            result == old(self)@.contains(path@),
            final(self)@ == old(self)@.filter(other_than(path@)),
    {
        let ghost keeps = other_than(path@);
        if !self.contains(path) {
            proof {
                lemma_filter_all(self@, keeps);
            }
            return false;
        }
        let mut rest = PathSet::new();
        let mut i: usize = 0;
        proof {
            reveal(Seq::filter);
            assert(self@.take(0).filter(keeps) =~= Seq::empty());
        }
        while i < self.paths.len()
            invariant
                i <= self.paths@.len(),
                self.wf(),
                rest.wf(),
                keeps == other_than(path@),
                rest@ == self@.take(i as int).filter(keeps),
            decreases self.paths@.len() - i,
        {
            proof {
                reveal(Seq::filter);
                assert(self@.take(i + 1).drop_last() =~= self@.take(i as int));
                assert(self@[i as int] == self.paths@[i as int]@);
                if rest@.contains(self@[i as int]) {
                    self@.take(i as int).lemma_filter_contains_rev(keeps, self@[i as int]);
                    let j = choose|j: int|
                        0 <= j < i && self@.take(i as int)[j] == self@[i as int];
                    assert(self@[j] == self@[i as int]);
                }
            }
            if !self.paths[i].same(path) {
                rest.insert(self.paths[i].clone());
            }
            i += 1;
        }
        assert(self@.take(i as int) =~= self@);
        *self = rest;
        true
    }

    /// Empties the set.
    pub fn clear(&mut self)
        ensures
            final(self).wf(),
            final(self)@ == Seq::<PathView>::empty(),
    {
        *self = PathSet::new();
    }
}

impl Clone for PathSet {
    fn clone(&self) -> (result: Self)
        ensures
            result.wf(),
            self.wf() ==> result@ == self@,
    {
        let mut result = PathSet::new();
        let mut i: usize = 0;
        assert(self@.take(0) =~= Seq::<PathView>::empty());
        while i < self.paths.len()
            invariant
                i <= self.paths@.len(),
                result.wf(),
                self.wf() ==> result@ == self@.take(i as int),
            decreases self.paths@.len() - i,
        {
            proof {
                if self.wf() {
                    let seen = self@.take(i as int);
                    if seen.contains(self@[i as int]) {
                        let k = choose|k: int| 0 <= k < seen.len() && seen[k] == self@[i as int];
                        assert(self@[k] == self@[i as int]);
                    }
                    assert(self@.take(i + 1) =~= seen.push(self@[i as int]));
                }
            }
            result.insert(self.paths[i].clone());
            i += 1;
        }
        assert(self@.take(i as int) =~= self@);
        result
    }
}

/// A filter that keeps every item keeps the list.
pub proof fn lemma_filter_all<A>(list: Seq<A>, keeps: spec_fn(A) -> bool)
    requires
        forall|i: int| 0 <= i < list.len() ==> keeps(#[trigger] list[i]),
    ensures
        list.filter(keeps) == list,
    decreases list.len(),
{
    reveal(Seq::filter);
    if list.len() > 0 {
        assert(keeps(list[list.len() - 1]));
        assert forall|i: int| 0 <= i < list.drop_last().len() implies keeps(
            #[trigger] list.drop_last()[i],
        ) by {
            assert(list.drop_last()[i] == list[i]);
        }
        lemma_filter_all(list.drop_last(), keeps);
        assert(list.drop_last().push(list.last()) =~= list);
    }
}

} // verus!

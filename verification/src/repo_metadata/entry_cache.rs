//! The bounded cache that holds the entries of the file tree: `lru::LruCache`, keyed by the
//! components of a path.

use crate::path::{parts_view, PathView};
use crate::repo_metadata::entry::{EntryView, FileEntry};
use crate::repo_metadata::entry_list::{after_put, holds, in_front, without};
use lru::LruCache;
use std::num::NonZeroUsize;
use vstd::prelude::*;

verus! {

/// The cache type of the `lru` crate.
#[verifier::external_type_specification]
#[verifier::external_body]
#[verifier::reject_recursive_types(K)]
#[verifier::reject_recursive_types(V)]
#[verifier::reject_recursive_types(S)]
pub struct ExLruCache<K, V, S>(lru::LruCache<K, V, S>);

/// The hasher with which `lru` finds keys.
#[verifier::external_type_specification]
#[verifier::external_body]
pub struct ExDefaultHasher(lru::DefaultHasher);

/// What a cache holds: its keys, each with its value, the most recently used first.
pub uninterp spec fn cache_entries(cache: LruCache<Vec<Vec<u8>>, FileEntry>) -> Seq<
    (Seq<Seq<u8>>, EntryView),
>;

/// The greatest number of entries that a cache was made to hold.
pub uninterp spec fn cache_limit(cache: LruCache<Vec<Vec<u8>>, FileEntry>) -> nat;

/// The greatest limit for which a cache is made: its table can still be laid out in memory.
pub const MAX_LIMIT: usize = usize::MAX / 512 * 7;

/// `LruCache::new` makes an empty cache for at most `limit` entries. It reserves a hash table for
/// all of them and panics where the size of the table overflows: its buckets, as many as the next
/// power of two from 8/7 of the limit on, take at most 17 bytes each. Within the upper bound they
/// take less than half of the address space.
#[verifier::external_body]
pub(crate) fn lru_new(limit: usize) -> (result: LruCache<Vec<Vec<u8>>, FileEntry>)
    requires
        0 < limit <= MAX_LIMIT,
    ensures
        cache_entries(result) == Seq::<(PathView, EntryView)>::empty(),
        cache_limit(result) == limit,
{
    LruCache::new(NonZeroUsize::new(limit).unwrap())
}

/// `LruCache::put` stores an entry as the most recently used. An entry under the same key is
/// replaced and returned; otherwise a full cache loses its least recently used entry.
#[verifier::external_body]
pub(crate) fn lru_put(
    cache: &mut LruCache<Vec<Vec<u8>>, FileEntry>,
    key: Vec<Vec<u8>>,
    entry: FileEntry,
) -> (result: Option<FileEntry>)
    ensures
        cache_limit(*final(cache)) == cache_limit(*old(cache)),
        cache_entries(*final(cache)) == after_put(
            cache_entries(*old(cache)),
            cache_limit(*old(cache)),
            parts_view(key@),
            entry@,
        ),
        match result {
            Some(before) => cache_entries(*old(cache)).contains((parts_view(key@), before@)),
            None => !holds(cache_entries(*old(cache)), parts_view(key@)),
        },
{
    cache.put(key, entry)
}

/// `LruCache::get` returns the entry under a key and makes it the most recently used.
#[verifier::external_body]
pub(crate) fn lru_get<'a>(
    cache: &'a mut LruCache<Vec<Vec<u8>>, FileEntry>,
    key: &Vec<Vec<u8>>,
) -> (result: Option<&'a FileEntry>)
    ensures
        cache_limit(*final(cache)) == cache_limit(*old(cache)),
        match result {
            Some(entry) => {
                &&& cache_entries(*old(cache)).contains((parts_view(key@), entry@))
                &&& cache_entries(*final(cache)) == in_front(
                    cache_entries(*old(cache)),
                    parts_view(key@),
                    entry@,
                )
            },
            None => {
                &&& !holds(cache_entries(*old(cache)), parts_view(key@))
                &&& cache_entries(*final(cache)) == cache_entries(*old(cache))
            },
        },
{
    cache.get(key)
}

/// `LruCache::get_mut` hands out the entry under a key to be changed, and makes it the most
/// recently used.
#[verifier::external_body]
pub(crate) fn lru_get_mut<'a>(
    cache: &'a mut LruCache<Vec<Vec<u8>>, FileEntry>,
    key: &Vec<Vec<u8>>,
) -> (result: Option<&'a mut FileEntry>)
    ensures
        cache_limit(*final(cache)) == cache_limit(*old(cache)),
        match result {
            Some(entry) => {
                &&& cache_entries(*old(cache)).contains((parts_view(key@), entry@))
                &&& cache_entries(*final(cache)) == in_front(
                    cache_entries(*old(cache)),
                    parts_view(key@),
                    final(entry)@,
                )
            },
            None => {
                &&& !holds(cache_entries(*old(cache)), parts_view(key@))
                &&& cache_entries(*final(cache)) == cache_entries(*old(cache))
            },
        },
{
    cache.get_mut(key)
}

/// `LruCache::peek` returns the entry under a key and leaves the order as it is.
#[verifier::external_body]
pub(crate) fn lru_peek<'a>(
    cache: &'a LruCache<Vec<Vec<u8>>, FileEntry>,
    key: &Vec<Vec<u8>>,
) -> (result: Option<&'a FileEntry>)
    ensures
        match result {
            Some(entry) => cache_entries(*cache).contains((parts_view(key@), entry@)),
            None => !holds(cache_entries(*cache), parts_view(key@)),
        },
{
    cache.peek(key)
}

/// `LruCache::contains` tells whether there is an entry under a key.
#[verifier::external_body]
pub(crate) fn lru_contains(
    cache: &LruCache<Vec<Vec<u8>>, FileEntry>,
    key: &Vec<Vec<u8>>,
) -> (result: bool)
    ensures
        result == holds(cache_entries(*cache), parts_view(key@)),
{
    cache.contains(key)
}

/// `LruCache::pop` takes out the entry under a key; the others keep their order.
#[verifier::external_body]
pub(crate) fn lru_pop(
    cache: &mut LruCache<Vec<Vec<u8>>, FileEntry>,
    key: &Vec<Vec<u8>>,
) -> (result: Option<FileEntry>)
    ensures
        cache_limit(*final(cache)) == cache_limit(*old(cache)),
        cache_entries(*final(cache)) == without(cache_entries(*old(cache)), parts_view(key@)),
        match result {
            Some(entry) => cache_entries(*old(cache)).contains((parts_view(key@), entry@)),
            None => !holds(cache_entries(*old(cache)), parts_view(key@)),
        },
{
    cache.pop(key)
}

/// `LruCache::pop_lru` takes out the least recently used entry, if there is any.
#[verifier::external_body]
pub(crate) fn lru_pop_lru(cache: &mut LruCache<Vec<Vec<u8>>, FileEntry>) -> (result: Option<
    (Vec<Vec<u8>>, FileEntry),
>)
    ensures
        cache_limit(*final(cache)) == cache_limit(*old(cache)),
        match result {
            Some((key, entry)) => {
                &&& cache_entries(*old(cache)).len() > 0
                &&& cache_entries(*old(cache)).last() == (parts_view(key@), entry@)
                &&& cache_entries(*final(cache)) == cache_entries(*old(cache)).drop_last()
            },
            None => {
                &&& cache_entries(*old(cache)).len() == 0
                &&& cache_entries(*final(cache)) == cache_entries(*old(cache))
            },
        },
{
    cache.pop_lru()
}

/// `LruCache::len` returns the number of entries.
#[verifier::external_body]
pub(crate) fn lru_len(cache: &LruCache<Vec<Vec<u8>>, FileEntry>) -> (result: usize)
    ensures
        result == cache_entries(*cache).len(),
{
    cache.len()
}

/// `LruCache::clear` takes out every entry.
#[verifier::external_body]
pub(crate) fn lru_clear(cache: &mut LruCache<Vec<Vec<u8>>, FileEntry>)
    ensures
        cache_limit(*final(cache)) == cache_limit(*old(cache)),
        cache_entries(*final(cache)) == Seq::<(PathView, EntryView)>::empty(),
{
    cache.clear()
}

/// `LruCache::iter` visits the keys with their entries, the most recently used first.
#[verifier::external_body]
pub(crate) fn lru_iter<'a>(cache: &'a LruCache<Vec<Vec<u8>>, FileEntry>) -> (result: Vec<
    (&'a Vec<Vec<u8>>, &'a FileEntry),
>)
    ensures
        result@.len() == cache_entries(*cache).len(),
        forall|i: int|
            0 <= i < result@.len() ==> cache_entries(*cache)[i] == (
                parts_view((#[trigger] result@[i]).0@),
                result@[i].1@,
            ),
{
    cache.iter().collect()
}

} // verus!

use vstd::prelude::*;
use vstd::utf8::{decode_utf8, valid_utf8};

use crate::order::bytes_lt;

verus! {

#[verifier::external_type_specification]
#[verifier::external_body]
#[verifier::reject_recursive_types(D)]
pub struct ExFstMap<D>(fst::Map<D>);

#[verifier::external_type_specification]
#[verifier::external_body]
#[verifier::reject_recursive_types(W)]
pub struct ExFstMapBuilder<W>(fst::MapBuilder<W>);

#[verifier::external_type_specification]
#[verifier::external_body]
pub struct ExFstError(fst::Error);

#[verifier::external_type_specification]
#[verifier::external_body]
pub struct ExMmap(memmap2::Mmap);

#[verifier::external_type_specification]
#[verifier::external_body]
pub struct ExLevenshteinError(fst::automaton::LevenshteinError);

/// The key/weight pairs inserted into a builder so far, in order.
pub uninterp spec fn builder_entries(b: fst::MapBuilder<Vec<u8>>) -> Seq<(Seq<u8>, u64)>;

/// The key/weight mapping that a map holds.
pub uninterp spec fn map_entries(m: fst::Map<memmap2::Mmap>) -> Map<Seq<u8>, u64>;

/// The bytes that a read-only memory map shows.
pub uninterp spec fn mapped_bytes(m: memmap2::Mmap) -> Seq<u8>;

/// The bytes that a builder writes for a given sequence of entries.
pub uninterp spec fn fst_bytes_of(entries: Seq<(Seq<u8>, u64)>) -> Seq<u8>;

/// The bytes that a map reads its entries from.
pub uninterp spec fn map_bytes(m: fst::Map<memmap2::Mmap>) -> Seq<u8>;

/// Whether the edit-distance automaton for a query stays within fst's fixed
/// limit on its number of states.
pub uninterp spec fn automaton_fits(q: Seq<char>) -> bool;

/// The bytes are what a builder wrote for some strictly increasing entries.
/// Reading other bytes as a map may panic.
pub open spec fn written_by_builder(bytes: Seq<u8>) -> bool {
    exists|es: Seq<(Seq<u8>, u64)>| strictly_increasing(es) && bytes == #[trigger] fst_bytes_of(es)
}

/// Keys strictly increasing in byte-lexicographic order (so also distinct).
pub open spec fn strictly_increasing(es: Seq<(Seq<u8>, u64)>) -> bool {
    forall|i: int, j: int| 0 <= i < j < es.len() ==> bytes_lt(es[i].0, es[j].0)
}

/// The mapping from key to weight that a sequence of entries describes.
pub open spec fn entries_map(es: Seq<(Seq<u8>, u64)>) -> Map<Seq<u8>, u64>
    decreases es.len(),
{
    if es.len() == 0 {
        Map::empty()
    } else {
        entries_map(es.drop_last()).insert(es.last().0, es.last().1)
    }
}

/// Relies on `fst::MapBuilder::memory`: a builder that holds nothing yet.
#[verifier::external_body]
pub(crate) fn new_builder() -> (b: fst::MapBuilder<Vec<u8>>)
    ensures
        builder_entries(b) == Seq::<(Seq<u8>, u64)>::empty(),
{
    fst::MapBuilder::memory()
}

/// Every key of `es` is smaller than `key`.
pub open spec fn keys_below(es: Seq<(Seq<u8>, u64)>, key: Seq<u8>) -> bool {
    forall|i: int| 0 <= i < es.len() ==> bytes_lt(#[trigger] es[i].0, key)
}

/// Relies on `fst::MapBuilder::insert`: it adds the pair after those before,
/// and fails on a key that is not greater than every earlier one. Writing into
/// a `Vec<u8>` cannot fail, so a greater key is always accepted.
#[verifier::external_body]
pub(crate) fn builder_insert(b: &mut fst::MapBuilder<Vec<u8>>, key: &[u8], value: u64) -> (r: Result<
    (),
    fst::Error,
>)
    ensures
        r is Ok ==> builder_entries(*final(b)) == builder_entries(*old(b)).push((key@, value)),
        r is Ok <==> keys_below(builder_entries(*old(b)), key@),
{
    b.insert(key, value)
}

/// Relies on `fst::MapBuilder::into_inner`: finishes the map and hands back
/// the bytes written for the entries inserted; writing into a `Vec<u8>` cannot
/// fail.
#[verifier::external_body]
pub(crate) fn builder_finish(b: fst::MapBuilder<Vec<u8>>) -> (r: Result<Vec<u8>, fst::Error>)
    ensures
        r is Ok,
        r matches Ok(bytes) ==> bytes@ == fst_bytes_of(builder_entries(b)),
{
    b.into_inner()
}

/// Opening the bytes written for strictly increasing entries `es` gives a map
/// that holds exactly those entries.
pub open spec fn opened_as(
    r: Result<fst::Map<memmap2::Mmap>, fst::Error>,
    data: Seq<u8>,
    es: Seq<(Seq<u8>, u64)>,
) -> bool {
    strictly_increasing(es) && data == fst_bytes_of(es) ==> (r matches Ok(m) && map_entries(m)
        == entries_map(es))
}

/// Relies on `fst::Map::new`: bytes that a builder wrote for strictly
/// increasing entries are accepted, and the map holds those entries. The map
/// reads the bytes it was given.
#[verifier::external_body]
pub(crate) fn open_map(data: memmap2::Mmap) -> (r: Result<fst::Map<memmap2::Mmap>, fst::Error>)
    ensures
        forall|es: Seq<(Seq<u8>, u64)>| #[trigger] opened_as(r, mapped_bytes(data), es),
        r matches Ok(m) ==> map_bytes(m) == mapped_bytes(data),
{
    fst::Map::new(data)
}

/// Relies on `fst::raw::Fst::verify`: the checksum that a builder writes at
/// the end of the bytes matches the bytes before it.
#[verifier::external_body]
pub(crate) fn verify_checksum(m: &fst::Map<memmap2::Mmap>) -> (r: Result<(), fst::Error>)
    ensures
        written_by_builder(map_bytes(*m)) ==> r is Ok,
{
    m.as_fst().verify()
}

/// Relies on `fst::Map::get`: the weight stored under `key`, if any. It may
/// panic on bytes that no builder wrote.
#[verifier::external_body]
pub(crate) fn map_get(m: &fst::Map<memmap2::Mmap>, key: &[u8]) -> (r: Option<u64>)
    requires
        written_by_builder(map_bytes(*m)),
    ensures
        r == (if map_entries(*m).contains_key(key@) {
            Some(map_entries(*m)[key@])
        } else {
            None
        }),
{
    m.get(key)
}

/// At most one insertion, deletion or substitution of a character turns `a`
/// into `b`.
pub open spec fn within_one_edit(a: Seq<char>, b: Seq<char>) -> bool {
    ||| a == b
    ||| (a.len() == b.len() && exists|i: int| 0 <= i < a.len() && #[trigger] a.update(i, b[i]) == b)
    ||| (exists|i: int| 0 <= i < a.len() && #[trigger] a.remove(i) == b)
    ||| (exists|i: int| 0 <= i < b.len() && #[trigger] b.remove(i) == a)
}

/// A key is a fuzzy match of `q` when it is UTF-8 text within one edit of it.
pub open spec fn near(key: Seq<u8>, q: Seq<char>) -> bool {
    valid_utf8(key) && within_one_edit(decode_utf8(key), q)
}

/// `v` lists, in strictly increasing key order, each entry of `entries` whose
/// key is near `q`, with its weight, and nothing else.
pub open spec fn all_near_matches(
    v: Seq<(Vec<u8>, u64)>,
    entries: Map<Seq<u8>, u64>,
    q: Seq<char>,
) -> bool {
    &&& forall|i: int, j: int| 0 <= i < j < v.len() ==> bytes_lt(v[i].0@, v[j].0@)
    &&& forall|i: int|
        0 <= i < v.len() ==> entries.contains_key(#[trigger] v[i].0@) && v[i].1 == entries[v[i].0@]
            && near(v[i].0@, q)
    &&& forall|k: Seq<u8>|
        entries.contains_key(k) && #[trigger] near(k, q) ==> exists|i: int|
            0 <= i < v.len() && v[i].0@ == k
}

/// Relies on `fst::automaton::Levenshtein::new` with distance 1 and on
/// `fst::Map::search` with it, streamed out by `into_byte_vec`: every entry
/// whose key is within one character edit of `query`, each once, in key order.
/// Building the automaton fails exactly when it grows past fst's fixed state
/// limit, which depends on the query alone. Reading the map may panic on bytes
/// that no builder wrote.
#[verifier::external_body]
pub(crate) fn fuzzy_matches(m: &fst::Map<memmap2::Mmap>, query: &str) -> (r: Result<
    Vec<(Vec<u8>, u64)>,
    fst::automaton::LevenshteinError,
>)
    requires
        written_by_builder(map_bytes(*m)),
    ensures
        r is Ok <==> automaton_fits(query@),
        r matches Ok(v) ==> all_near_matches(v@, map_entries(*m), query@),
{
    let lev = fst::automaton::Levenshtein::new(query, 1)?;
    Ok(fst::IntoStreamer::into_stream(m.search(lev)).into_byte_vec())
}

} // verus!

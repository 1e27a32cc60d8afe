use vstd::prelude::*;
use vstd::slice::slice_to_vec;
use vstd::utf8::{encode_utf8, encode_utf8_decode_utf8, encode_utf8_valid_utf8};

use crate::backend::{
    automaton_fits, builder_entries, builder_finish, builder_insert, entries_map, fst_bytes_of,
    fuzzy_matches, keys_below, map_bytes, map_entries, map_get, mapped_bytes, near, new_builder,
    open_map, opened_as, strictly_increasing, verify_checksum, written_by_builder,
};

use crate::order::{bytes_equal, bytes_less, bytes_lt, lemma_bytes_lt_irreflexive, lemma_bytes_lt_transitive};
use crate::ranking::{
    better, is_top_k, keys_distinct, lemma_top_k_unique, rank, views, ResultView, SearchResult,
};
use crate::text::{entry_of_line, normalize_query, normalized, parse_entry_line};

verus! {

/// Why an index could not be built.
#[derive(Debug)]
pub enum BuildError {
    /// The keys do not strictly increase: some key is not greater than the one
    /// before it.
    UnsortedInput,
    /// The map builder failed to write.
    Write(fst::Error),
}

/// The entries of a sequence of (key, weight) pairs as byte sequences.
pub open spec fn entries_view(entries: Seq<(Vec<u8>, u64)>) -> Seq<(Seq<u8>, u64)> {
    entries.map_values(|e: (Vec<u8>, u64)| (e.0@, e.1))
}

/// Whether the keys strictly increase from each entry to the next.
pub fn keys_increasing(entries: &Vec<(Vec<u8>, u64)>) -> (r: bool)
    ensures
        r == strictly_increasing(entries_view(entries@)),
{
    let ghost es = entries_view(entries@);
    let mut i: usize = 1;
    if entries.len() == 0 {
        return true;
    }
    while i < entries.len()
        invariant
            1 <= i <= entries@.len(),
            es == entries_view(entries@),
            forall|a: int, b: int| 0 <= a < b < i ==> bytes_lt(es[a].0, es[b].0),
        decreases entries.len() - i,
    {
        assert(es[i - 1].0 == entries@[i - 1].0@);
        assert(es[i as int].0 == entries@[i as int].0@);
        if !bytes_less(entries[i - 1].0.as_slice(), entries[i].0.as_slice()) {
            return false;
        }
        assert forall|a: int, b: int| 0 <= a < b < i + 1 implies bytes_lt(es[a].0, es[b].0) by {
            if b == i && a < i - 1 {
                lemma_bytes_lt_transitive(es[a].0, es[i - 1].0, es[b].0);
            }
        }
        i = i + 1;
    }
    true
}

/// Compiles entries, given in strictly increasing key order, into the bytes of
/// an index. Entries out of order, or a repeated key, are refused before
/// anything is written.
pub fn build_index(entries: &Vec<(Vec<u8>, u64)>) -> (r: Result<Vec<u8>, BuildError>)
    ensures
        r matches Err(BuildError::UnsortedInput) <==> !strictly_increasing(entries_view(entries@)),
        strictly_increasing(entries_view(entries@)) ==> r is Ok,
        r matches Ok(bytes) ==> bytes@ == fst_bytes_of(entries_view(entries@)),
{
    if !keys_increasing(entries) {
        return Err(BuildError::UnsortedInput);
    }
    let ghost es = entries_view(entries@);
    let mut builder = new_builder();
    let mut i: usize = 0;
    assert(es.subrange(0, 0) =~= Seq::<(Seq<u8>, u64)>::empty());
    while i < entries.len()
        invariant
            i <= entries@.len(),
            es == entries_view(entries@),
            strictly_increasing(es),
            builder_entries(builder) == es.subrange(0, i as int),
        decreases entries.len() - i,
    {
        let key = &entries[i].0;
        proof {
            assert(es[i as int].0 == key@);
            assert forall|j: int| 0 <= j < builder_entries(builder).len() implies bytes_lt(
                #[trigger] builder_entries(builder)[j].0,
                key@,
            ) by {
                assert(builder_entries(builder)[j] == es[j]);
            }
            assert(keys_below(builder_entries(builder), key@));
        }
        match builder_insert(&mut builder, key.as_slice(), entries[i].1) {
            Ok(()) => {},
            Err(e) => {
                return Err(BuildError::Write(e));
            },
        }
        proof {
            assert(es.subrange(0, i + 1) =~= es.subrange(0, i as int).push((key@, entries@[i as int].1)));
        }
        i = i + 1;
    }
    assert(es.subrange(0, i as int) =~= es);
    match builder_finish(builder) {
        Ok(bytes) => Ok(bytes),
        Err(e) => Err(BuildError::Write(e)),
    }
}

/// The entry, with its key as UTF-8 bytes, that a line of the word list gives.
pub open spec fn line_entry(line: Seq<char>) -> (Seq<u8>, u64) {
    (encode_utf8(entry_of_line(line).0), entry_of_line(line).1)
}

/// The entries that the lines of a word list give, in order.
pub open spec fn lines_entries(lines: Seq<String>) -> Seq<(Seq<u8>, u64)> {
    lines.map_values(|l: String| line_entry(l@))
}

/// Builds the index of a word list, one `word` or `word,weight` per line; the
/// lines must already come in strictly increasing order of their keys.
pub fn build_fst(lines: &Vec<String>) -> (r: Result<Vec<u8>, BuildError>)
    ensures
        r matches Err(BuildError::UnsortedInput) <==> !strictly_increasing(lines_entries(lines@)),
        strictly_increasing(lines_entries(lines@)) ==> r is Ok,
        r matches Ok(bytes) ==> bytes@ == fst_bytes_of(lines_entries(lines@)),
{
    let mut entries: Vec<(Vec<u8>, u64)> = Vec::new();
    let mut i: usize = 0;
    while i < lines.len()
        invariant
            i <= lines@.len(),
            entries_view(entries@) == lines_entries(lines@).subrange(0, i as int),
        decreases lines.len() - i,
    {
        let (word, weight) = parse_entry_line(lines[i].as_str());
        let key = slice_to_vec(word.as_str().as_bytes());
        let ghost before = entries@;
        entries.push((key, weight));
        proof {
            assert(entries_view(entries@) =~= entries_view(before).push((key@, weight)));
            assert(lines_entries(lines@).subrange(0, i + 1) =~= lines_entries(lines@).subrange(
                0,
                i as int,
            ).push(line_entry(lines@[i as int]@)));
        }
        i = i + 1;
    }
    assert(lines_entries(lines@).subrange(0, i as int) =~= lines_entries(lines@));
    build_index(&entries)
}

/// In the mapping that strictly increasing entries describe, each key of them
/// stands with its own weight.
pub proof fn lemma_entries_map_lookup(es: Seq<(Seq<u8>, u64)>, i: int)
    requires
        strictly_increasing(es),
        0 <= i < es.len(),
    ensures
        entries_map(es).contains_key(es[i].0),
        entries_map(es)[es[i].0] == es[i].1,
    decreases es.len(),
{
    let last = es.len() - 1;
    if i < last {
        let front = es.drop_last();
        assert(strictly_increasing(front)) by {
            assert forall|a: int, b: int| 0 <= a < b < front.len() implies bytes_lt(
                front[a].0,
                front[b].0,
            ) by {
                assert(front[a] == es[a] && front[b] == es[b]);
            }
        }
        assert(front[i] == es[i]);
        lemma_entries_map_lookup(front, i);
        assert(bytes_lt(es[i].0, es[last].0));
        lemma_bytes_lt_irreflexive(es[i].0);
    }
}

/// Round trip: when `data` is what `build_index` wrote for strictly increasing
/// entries `es`, and `r` is what `Dictionary::new` made of a map of `data`, the
/// dictionary opens and holds every key of `es` with its original weight, so
/// `Dictionary::get` returns that weight.
pub proof fn lemma_round_trip(
    es: Seq<(Seq<u8>, u64)>,
    data: Seq<u8>,
    r: Result<Dictionary, OpenError>,
    i: int,
)
    requires
        strictly_increasing(es),
        data == fst_bytes_of(es),
        forall|e: Seq<(Seq<u8>, u64)>| #[trigger] opens_to(r, data, e),
        0 <= i < es.len(),
    ensures
        r matches Ok(d) && d.is_built() && d@.contains_key(es[i].0) && d@[es[i].0] == es[i].1,
{
    assert(opens_to(r, data, es));
    lemma_entries_map_lookup(es, i);
}

/// The most results a search returns.
pub const RESULT_LIMIT: usize = 10;

/// The candidates of a search for the normalized query `q`: each entry whose
/// key is near `q`, with its weight, marked exact when the key is `q` itself.
pub open spec fn candidates(entries: Map<Seq<u8>, u64>, q: Seq<char>) -> Set<ResultView> {
    Set::new(
        |v: ResultView|
            entries.contains_key(v.key) && v.value == entries[v.key] && near(v.key, q)
                && v.is_exact == (v.key == encode_utf8(q)),
    )
}

/// Each key occurs in at most one candidate: weight and exactness follow
/// from the key.
pub proof fn lemma_candidates_keys_distinct(entries: Map<Seq<u8>, u64>, q: Seq<char>)
    ensures
        keys_distinct(candidates(entries, q)),
{
}

/// Searching twice, with the same index contents and the same query, gives the
/// same results in the same order.
pub proof fn lemma_search_deterministic(
    entries: Map<Seq<u8>, u64>,
    q: Seq<char>,
    r1: Seq<ResultView>,
    r2: Seq<ResultView>,
)
    requires
        is_top_k(r1, candidates(entries, q), RESULT_LIMIT as nat),
        is_top_k(r2, candidates(entries, q), RESULT_LIMIT as nat),
    ensures
        r1 == r2,
{
    lemma_candidates_keys_distinct(entries, q);
    lemma_top_k_unique(r1, r2, candidates(entries, q), RESULT_LIMIT as nat);
}

/// A key that is stored in the index and equals the normalized query comes
/// first among the results, marked exact and with its stored weight: the
/// results of a search for a stored key start with that key's own entry.
pub proof fn lemma_exact_key_first(entries: Map<Seq<u8>, u64>, q: Seq<char>, r: Seq<ResultView>)
    requires
        entries.contains_key(encode_utf8(q)),
        is_top_k(r, candidates(entries, q), RESULT_LIMIT as nat),
    ensures
        r.len() >= 1,
        r[0] == (ResultView { key: encode_utf8(q), value: entries[encode_utf8(q)], is_exact: true }),
{
    let pool = candidates(entries, q);
    let x = ResultView { key: encode_utf8(q), value: entries[encode_utf8(q)], is_exact: true };
    encode_utf8_valid_utf8(q);
    encode_utf8_decode_utf8(q);
    assert(near(x.key, q));
    assert(pool.contains(x));
    if pool.len() == 0 {
        pool.lemma_len0_is_empty();
    }
    assert(pool.contains(r[0]));
    if r[0] != x {
        assert(!r[0].is_exact);
        if r.contains(x) {
            let j = choose|j: int| 0 <= j < r.len() && r[j] == x;
            assert(j != 0);
            assert(better(r[0], r[j]));
        } else {
            assert(better(r[0], x));
        }
    }
}

/// Why a dictionary could not be opened.
#[derive(Debug)]
pub enum OpenError {
    /// The bytes are not an index in a format that can be read.
    Corrupt(fst::Error),
}

/// Why a query could not be run.
#[derive(Debug)]
pub enum QueryError {
    /// The edit-distance automaton for the query grew past its size limit.
    AutomatonTooLarge(fst::automaton::LevenshteinError),
}

/// Opening built bytes that hold the index for strictly increasing entries
/// `es` gives a dictionary that holds exactly those entries.
pub open spec fn opens_to(r: Result<Dictionary, OpenError>, data: Seq<u8>, es: Seq<(Seq<u8>, u64)>) -> bool {
    strictly_increasing(es) && data == fst_bytes_of(es) ==> (r matches Ok(d) && d@ == entries_map(es)
        && d.is_built())
}

/// A read-only index from byte-string keys to weights, answering fuzzy
/// queries.
pub struct Dictionary {
    map: fst::Map<memmap2::Mmap>,
}

impl View for Dictionary {
    type V = Map<Seq<u8>, u64>;

    closed spec fn view(&self) -> Map<Seq<u8>, u64> {
        map_entries(self.map)
    }
}

impl Dictionary {
    /// The dictionary reads bytes that a builder wrote. Reading any other
    /// bytes as an index may panic.
    pub closed spec fn is_built(&self) -> bool {
        written_by_builder(map_bytes(self.map))
    }

    /// Opens a built index through a read-only memory map of it; queries then
    /// read the mapped bytes in place. Bytes that fst does not recognise, or
    /// whose checksum does not match, are refused.
    pub fn new(data: memmap2::Mmap) -> (r: Result<Dictionary, OpenError>)
        ensures
            forall|es: Seq<(Seq<u8>, u64)>| #[trigger] opens_to(r, mapped_bytes(data), es),
            r matches Ok(d) ==> (d.is_built() <==> written_by_builder(mapped_bytes(data))),
    {
        let ghost bytes = mapped_bytes(data);
        let r = open_map(data);
        let out = match r {
            Ok(map) => match verify_checksum(&map) {
                Ok(()) => Ok(Dictionary { map }),
                Err(e) => Err(OpenError::Corrupt(e)),
            },
            Err(e) => Err(OpenError::Corrupt(e)),
        };
        assert forall|es: Seq<(Seq<u8>, u64)>| #[trigger] opens_to(out, bytes, es) by {
            assert(opened_as(r, bytes, es));
            if strictly_increasing(es) && bytes == fst_bytes_of(es) {
                assert(written_by_builder(bytes));
            }
        }
        out
    }

    /// The weight stored under `key`, if the key is in the dictionary.
    pub fn get(&self, key: &[u8]) -> (r: Option<u64>)
        requires
            self.is_built(),
        ensures
            r == (if self@.contains_key(key@) {
                Some(self@[key@])
            } else {
                None
            }),
    {
        map_get(&self.map, key)
    }

    /// The best matches of `query` within one character edit, at most
    /// `RESULT_LIMIT` of them, best first. The query is trimmed and lowercased
    /// first; when nothing is left of it the result is empty.
    pub fn search(&self, query: &str) -> (r: Result<Vec<SearchResult>, QueryError>)
        requires
            self.is_built(),
        ensures
            query@.len() == 0 ==> (r matches Ok(v) && v@.len() == 0),
            normalized(query@).len() == 0 ==> (r matches Ok(v) && v@.len() == 0),
            normalized(query@).len() > 0 ==> (r is Ok <==> automaton_fits(normalized(query@))),
            normalized(query@).len() > 0 ==> (r matches Ok(v) ==> is_top_k(
                views(v@),
                candidates(self@, normalized(query@)),
                RESULT_LIMIT as nat,
            )),
    {
        let q = normalize_query(query);
        if q.as_str().is_empty() {
            return Ok(Vec::new());
        }
        let matches = match fuzzy_matches(&self.map, q.as_str()) {
            Ok(v) => v,
            Err(e) => {
                return Err(QueryError::AutomatonTooLarge(e));
            },
        };
        let target = q.as_str().as_bytes();
        let ghost pool = candidates(self@, q@);
        let mut found: Vec<SearchResult> = Vec::new();
        let mut i: usize = 0;
        while i < matches.len()
            invariant
                i <= matches@.len(),
                found@.len() == i,
                target@ == encode_utf8(q@),
                forall|j: int|
                    0 <= j < i ==> #[trigger] found@[j]@ == (ResultView {
                        key: matches@[j].0@,
                        value: matches@[j].1,
                        is_exact: matches@[j].0@ == encode_utf8(q@),
                    }),
            decreases matches.len() - i,
        {
            let key = slice_to_vec(matches[i].0.as_slice());
            let is_exact = bytes_equal(key.as_slice(), target);
            found.push(SearchResult { key, value: matches[i].1, is_exact });
            i = i + 1;
        }
        proof {
            assert forall|a: int, b: int| 0 <= a < b < found@.len() implies found@[a].key@
                != found@[b].key@ by {
                assert(found@[a]@.key == matches@[a].0@);
                assert(found@[b]@.key == matches@[b].0@);
                lemma_bytes_lt_irreflexive(matches@[a].0@);
            }
            let fv = views(found@);
            assert forall|v: ResultView| fv.to_set().contains(v) <==> pool.contains(v) by {
                if fv.contains(v) {
                    let j = choose|j: int| 0 <= j < fv.len() && fv[j] == v;
                    assert(found@[j]@ == v);
                }
                if pool.contains(v) {
                    let j = choose|j: int| 0 <= j < matches@.len() && matches@[j].0@ == v.key;
                    assert(fv[j] == found@[j]@);
                    assert(fv[j] == v);
                }
            }
            assert(fv.to_set() =~= pool);
        }
        Ok(rank(found, RESULT_LIMIT))
    }
}

} // verus!

use rust_exp_fst::index::{
    build_fst, build_index, BuildError, Dictionary, OpenError, RESULT_LIMIT,
};
use rust_exp_fst::ranking::{rank, SearchResult};
use rust_exp_fst::text::{normalize_query, parse_entry_line};

fn entries(pairs: &[(&str, u64)]) -> Vec<(Vec<u8>, u64)> {
    pairs.iter().map(|(k, w)| (k.as_bytes().to_vec(), *w)).collect()
}

fn mapped(bytes: &[u8]) -> memmap2::Mmap {
    let mut map = memmap2::MmapMut::map_anon(bytes.len()).expect("anonymous map");
    map.copy_from_slice(bytes);
    map.make_read_only().expect("read-only map")
}

fn dictionary(pairs: &[(&str, u64)]) -> Dictionary {
    let bytes = build_index(&entries(pairs)).expect("sorted input builds");
    Dictionary::new(mapped(&bytes)).expect("built bytes open")
}

fn keys(results: &[SearchResult]) -> Vec<String> {
    results.iter().map(|r| String::from_utf8(r.key.clone()).unwrap()).collect()
}

#[test]
fn round_trip_returns_each_weight() {
    let pairs = [("", 4), ("apple", 5), ("apply", 9), ("banana", 0), ("zebra", u64::MAX)];
    let d = dictionary(&pairs);
    for (k, w) in pairs.iter() {
        assert_eq!(d.get(k.as_bytes()), Some(*w));
    }
    assert_eq!(d.get(b"cherry"), None);
    assert_eq!(d.get(b"appl"), None);
}

#[test]
fn exact_match_outranks_weight() {
    let d = dictionary(&[("apple", 5), ("apply", 9)]);
    let r = d.search("apple").unwrap();
    assert_eq!(keys(&r), vec!["apple", "apply"]);
    assert!(r[0].is_exact);
    assert_eq!(r[0].value, 5);
    assert!(!r[1].is_exact);
    assert_eq!(r[1].value, 9);
}

#[test]
fn weight_orders_fuzzy_matches() {
    let d = dictionary(&[("bat", 3), ("cat", 3), ("hat", 7)]);
    let r = d.search("cat").unwrap();
    assert_eq!(keys(&r), vec!["cat", "hat", "bat"]);
    assert_eq!(r.iter().map(|x| x.value).collect::<Vec<_>>(), vec![3, 7, 3]);
}

#[test]
fn equal_rank_breaks_ties_by_key() {
    let d = dictionary(&[("bat", 3), ("cat", 3), ("hat", 3), ("rat", 3)]);
    let first = d.search("xat").unwrap();
    assert_eq!(keys(&first), vec!["bat", "cat", "hat", "rat"]);
    assert!(first.iter().all(|x| !x.is_exact));
    for _ in 0..3 {
        assert_eq!(d.search("xat").unwrap(), first);
    }
}

#[test]
fn distance_is_bounded_by_one() {
    let d = dictionary(&[("international", 2), ("internationals", 8), ("interstellar", 1)]);
    let r = d.search("interational").unwrap();
    assert_eq!(keys(&r), vec!["international"]);
    assert!(!r[0].is_exact);
}

#[test]
fn fuzzy_match_counts_characters_not_bytes() {
    let d = dictionary(&[("cafe", 2), ("caff", 3), ("café", 1)]);
    let r = d.search("cafe").unwrap();
    assert_eq!(keys(&r), vec!["cafe", "caff", "café"]);
}

#[test]
fn result_count_is_capped_at_the_ten_best() {
    let mut pairs: Vec<(String, u64)> = Vec::new();
    for (i, c) in ('a'..='z').enumerate() {
        pairs.push((format!("{}b", c), (i as u64 * 7) % 5));
    }
    pairs.sort();
    let borrowed: Vec<(&str, u64)> = pairs.iter().map(|(k, w)| (k.as_str(), *w)).collect();
    let d = dictionary(&borrowed);
    let r = d.search("ab").unwrap();
    assert_eq!(r.len(), RESULT_LIMIT);

    let mut reference: Vec<(bool, u64, String)> =
        pairs.iter().map(|(k, w)| (k == "ab", *w, k.clone())).collect();
    reference.sort_by(|a, b| b.0.cmp(&a.0).then(b.1.cmp(&a.1)).then(a.2.cmp(&b.2)));
    reference.truncate(10);
    let got: Vec<(bool, u64, String)> = r
        .iter()
        .map(|x| (x.is_exact, x.value, String::from_utf8(x.key.clone()).unwrap()))
        .collect();
    assert_eq!(got, reference);
    assert_eq!(got[0].2, "ab");
}

#[test]
fn empty_query_gives_no_results() {
    let d = dictionary(&[("a", 1), ("b", 2)]);
    assert!(d.search("").unwrap().is_empty());
    assert!(d.search("   ").unwrap().is_empty());
}

#[test]
fn repeated_search_is_identical() {
    let d = dictionary(&[("ample", 9), ("apple", 5), ("apply", 9), ("maple", 1)]);
    let a = d.search("aple").unwrap();
    let b = d.search("aple").unwrap();
    assert_eq!(a, b);
    assert_eq!(keys(&a), vec!["ample", "apple", "maple"]);
}

#[test]
fn query_is_trimmed_and_lowercased() {
    let d = dictionary(&[("apple", 5), ("apply", 9)]);
    let r = d.search("  APPLE \t").unwrap();
    assert_eq!(keys(&r), vec!["apple", "apply"]);
    assert!(r[0].is_exact);
    assert_eq!(normalize_query("  ÀB c "), "àb c");
}

#[test]
fn no_match_gives_empty_result() {
    let d = dictionary(&[("apple", 5)]);
    assert!(d.search("zzzzz").unwrap().is_empty());
}

#[test]
fn unsorted_input_is_refused() {
    let r = build_index(&entries(&[("b", 1), ("a", 2)]));
    assert!(matches!(r, Err(BuildError::UnsortedInput)));
}

#[test]
fn duplicate_key_is_refused() {
    let r = build_index(&entries(&[("a", 1), ("b", 2), ("b", 3)]));
    assert!(matches!(r, Err(BuildError::UnsortedInput)));
}

#[test]
fn empty_entry_list_builds_an_empty_index() {
    let d = dictionary(&[]);
    assert_eq!(d.get(b""), None);
    assert!(d.search("a").unwrap().is_empty());
}

#[test]
fn corrupt_bytes_are_refused() {
    let r = Dictionary::new(mapped(&[1, 2, 3]));
    assert!(matches!(r, Err(OpenError::Corrupt(_))));
}

#[test]
fn entry_lines_are_parsed() {
    assert_eq!(parse_entry_line("Apple, 5"), ("apple".to_string(), 5));
    assert_eq!(parse_entry_line("  word  "), ("word".to_string(), 0));
    assert_eq!(parse_entry_line("w,abc"), ("w".to_string(), 0));
    assert_eq!(parse_entry_line("w,"), ("w".to_string(), 0));
    assert_eq!(parse_entry_line("w,+7"), ("w".to_string(), 7));
    assert_eq!(parse_entry_line("w,-7"), ("w".to_string(), 0));
    assert_eq!(parse_entry_line("x , 18446744073709551615"), ("x".to_string(), u64::MAX));
    assert_eq!(parse_entry_line("x , 18446744073709551616"), ("x".to_string(), 0));
    assert_eq!(parse_entry_line("a,b,3"), ("a".to_string(), 0));
}

#[test]
fn word_list_builds_and_reopens() {
    let lines: Vec<String> =
        vec!["apple,5".to_string(), "apply, 9".to_string(), "banana".to_string()];
    let d = Dictionary::new(mapped(&build_fst(&lines).unwrap())).unwrap();
    assert_eq!(d.get(b"apple"), Some(5));
    assert_eq!(d.get(b"apply"), Some(9));
    assert_eq!(d.get(b"banana"), Some(0));
    let unsorted: Vec<String> = vec!["b,1".to_string(), "A,2".to_string()];
    assert!(matches!(build_fst(&unsorted), Err(BuildError::UnsortedInput)));
}

#[test]
fn rank_keeps_the_k_best() {
    let mk = |k: &str, v: u64, e: bool| SearchResult { key: k.as_bytes().to_vec(), value: v, is_exact: e };
    let cands = vec![mk("d", 1, false), mk("a", 1, false), mk("c", 9, false), mk("b", 0, true)];
    assert_eq!(keys(&rank(cands.clone(), 3)), vec!["b", "c", "a"]);
    assert_eq!(keys(&rank(cands.clone(), 10)), vec!["b", "c", "a", "d"]);
    assert!(rank(cands, 0).is_empty());
}

#[test]
fn damaged_index_is_refused() {
    let mut bytes = build_index(&entries(&[("apple", 5), ("apply", 9), ("banana", 1)])).unwrap();
    let middle = bytes.len() / 2;
    bytes[middle] ^= 0xFF;
    assert!(matches!(Dictionary::new(mapped(&bytes)), Err(OpenError::Corrupt(_))));
}

#[test]
fn word_list_weights_default_to_zero() {
    let lines: Vec<String> = "  apple , 5 \nbanana\ncherry,abc\ndate,\nelder,-1\nfig,18446744073709551616"
        .lines()
        .map(|l| l.to_string())
        .collect();
    let d = Dictionary::new(mapped(&build_fst(&lines).unwrap())).unwrap();
    assert_eq!(d.get(b"apple"), Some(5));
    for k in ["banana", "cherry", "date", "elder", "fig"] {
        assert_eq!(d.get(k.as_bytes()), Some(0));
    }
    assert_eq!(d.get(b"  apple "), None);
    let r = d.search("apple").unwrap();
    assert_eq!(keys(&r)[0], "apple");
    assert!(r[0].is_exact);
    assert_eq!(r[0].value, 5);
}

use fm_index::character::Character;
use fm_index::converter::Converter;
use fm_index::fm_index::FMIndexBackend;
use fm_index::heap::HeapSize;
use fm_index::frontend::FMIndex;
use fm_index::sampled::SuffixOrderSampledArray;
use fm_index::search::FMIndexError;
use fm_index::text::{bucket_starts, count_chars, prepare_text, suffix_array, suffix_less};

fn syms(s: &str) -> Vec<u64> {
    s.bytes().map(|b| b as u64).collect()
}

fn chars(s: &str) -> Vec<u32> {
    s.chars().map(|c| c as u32).collect()
}

fn bytes(s: &str) -> Vec<u8> {
    s.as_bytes().to_vec()
}

fn az() -> Converter {
    Converter::range(b'a' as u64, b'z' as u64)
}

fn naive_positions<T: PartialEq>(text: &[T], pattern: &[T]) -> Vec<u64> {
    let mut out = Vec::new();
    if pattern.len() > text.len() {
        return out;
    }
    for i in 0..=text.len() - pattern.len() {
        if &text[i..i + pattern.len()] == pattern {
            out.push(i as u64);
        }
    }
    out
}

fn sorted_locate<T: Character>(index: &FMIndex<T>, pattern: &[T]) -> Vec<u64> {
    let mut v = index.search(pattern).unwrap().locate().unwrap();
    v.sort();
    v
}

#[test]
fn test_lf_map() {
    let text = syms("mississippi");
    let ans = vec![1, 6, 7, 2, 8, 10, 3, 9, 11, 4, 5, 0];
    let fm_index = FMIndexBackend::create(text, az(), Some(2));
    let mut i = 0;
    for a in ans {
        i = fm_index.lf_map_backward(i);
        assert_eq!(i, a);
    }
}

#[test]
fn test_fl_map() {
    let text = syms("mississippi");
    let fm_index = FMIndexBackend::create(text, az(), Some(2));
    let cases = vec![5u64, 0, 7, 10, 11, 4, 1, 6, 2, 3, 8, 9];
    for (i, expected) in cases.into_iter().enumerate() {
        let actual = fm_index.fl_map_forward(i as u64);
        assert_eq!(actual, expected);
    }
}

#[test]
fn mississippi_count_and_locate() {
    let index = FMIndex::new(bytes("mississippi\0"), az(), 2);
    assert_eq!(index.len(), 12);
    assert_eq!(index.search(&bytes("i")).unwrap().count(), 4);
    assert_eq!(sorted_locate(&index, &bytes("i")), vec![1, 4, 7, 10]);
    assert_eq!(index.search(&bytes("iss")).unwrap().count(), 2);
    assert_eq!(sorted_locate(&index, &bytes("iss")), vec![1, 4]);
    assert_eq!(index.search(&bytes("ss")).unwrap().count(), 2);
    assert_eq!(sorted_locate(&index, &bytes("ss")), vec![2, 5]);
    assert_eq!(index.search(&bytes("ppi")).unwrap().count(), 1);
    assert_eq!(sorted_locate(&index, &bytes("ppi")), vec![8]);
    assert_eq!(index.search(&bytes("z")).unwrap().count(), 0);
    assert_eq!(index.search(&bytes("pps")).unwrap().count(), 0);
}

#[test]
fn interior_sentinel_counts() {
    let index = FMIndex::count_only(bytes("miss\0issippi\0"), az());
    assert_eq!(index.len(), 13);
    assert_eq!(index.search(&bytes("\0")).unwrap().count(), 2);
    assert_eq!(index.search(&bytes("\0i")).unwrap().count(), 1);
    assert_eq!(index.search(&bytes("iss")).unwrap().count(), 2);
}

#[test]
fn utf32_text() {
    let conv = Converter::range('あ' as u64, 'ん' as u64);
    let index = FMIndex::new(chars("みんなみんなきれいだな\0"), conv, 1);
    assert_eq!(index.search(&chars("み")).unwrap().count(), 2);
    assert_eq!(sorted_locate(&index, &chars("み")), vec![0, 3]);
    assert_eq!(index.search(&chars("な")).unwrap().count(), 3);
    assert_eq!(sorted_locate(&index, &chars("な")), vec![2, 5, 10]);
}

#[test]
fn lorem_iterators() {
    let text = "Lorem ipsum dolor sit amet, consectetur adipiscing elit, sed do eiusmod tempor incididunt ut labore et dolore magna aliqua.";
    let conv = Converter::range(b' ' as u64, b'~' as u64);
    let index = FMIndex::new(bytes(text), conv, 2);
    let found = index.search(&bytes("sit ")).unwrap();
    assert_eq!(found.count(), 1);
    let mut forward = found.backend().iter_forward(0);
    let mut out = Vec::new();
    for _ in 0..8 {
        out.push(forward.next().unwrap() as u8);
    }
    assert_eq!(String::from_utf8(out).unwrap(), "sit amet");
    let mut backward = found.backend().iter_backward(0);
    let mut out = Vec::new();
    for _ in 0..6 {
        out.push(backward.next().unwrap() as u8);
    }
    out.reverse();
    assert_eq!(String::from_utf8(out).unwrap(), "dolor ");
}

#[test]
fn counts_match_naive_scan() {
    let texts = ["mississippi", "abracadabra", "aaaaaaaa", "banana", "abcabcabcab"];
    for t in texts.iter() {
        let text = bytes(t);
        let index = FMIndex::new(text.clone(), az(), 1);
        for i in 0..text.len() {
            for j in i + 1..=text.len() {
                let p = &text[i..j];
                let expected = naive_positions(&text, p);
                let found = index.search(p).unwrap();
                assert_eq!(found.count() as usize, expected.len());
                let mut got = found.locate().unwrap();
                got.sort();
                assert_eq!(got, expected);
            }
        }
    }
}

#[test]
fn extending_equals_searching_whole() {
    let index = FMIndex::count_only(bytes("abracadabra"), az());
    let whole = index.search(&bytes("abra")).unwrap().count();
    let extended = index.search(&bytes("ra")).unwrap().search(&bytes("ab")).unwrap().count();
    assert_eq!(whole, 2);
    assert_eq!(extended, whole);
    let none = index.search(&bytes("zz")).unwrap().search(&bytes("a")).unwrap().count();
    assert_eq!(none, 0);
}

#[test]
fn lf_and_fl_are_inverse() {
    let index = FMIndexBackend::create(syms("abracadabra"), az(), None);
    let n = index.len();
    for i in 0..n {
        assert_eq!(index.fl_map_forward(index.lf_map_backward(i)), i);
        assert_eq!(index.lf_map_backward(index.fl_map_forward(i)), i);
    }
}

#[test]
fn lf_orbit_visits_every_row() {
    let index = FMIndexBackend::create(syms("mississippi"), az(), None);
    let n = index.len();
    let mut seen = vec![false; n as usize];
    let mut i = 0;
    for _ in 0..n {
        i = index.lf_map_backward(i);
        assert!(!seen[i as usize]);
        seen[i as usize] = true;
    }
    assert_eq!(i, 0);
}

#[test]
fn locate_same_at_every_level() {
    let text = bytes("abracadabra");
    let p = bytes("a");
    let base = sorted_locate(&FMIndex::new(text.clone(), az(), 0), &p);
    assert_eq!(base, vec![0, 3, 5, 7, 10]);
    for level in 1..5 {
        assert_eq!(sorted_locate(&FMIndex::new(text.clone(), az(), level), &p), base);
    }
}

#[test]
fn empty_pattern_counts_all_rows() {
    let index = FMIndex::count_only(bytes("banana"), az());
    assert_eq!(index.search(&[] as &[u8]).unwrap().count(), 7);
}

#[test]
fn empty_text_holds_sentinel() {
    let index = FMIndex::new(Vec::<u8>::new(), az(), 0);
    assert_eq!(index.len(), 1);
    assert_eq!(index.search(&bytes("\0")).unwrap().count(), 1);
    assert_eq!(index.search(&bytes("a")).unwrap().count(), 0);
}

#[test]
fn symbol_outside_alphabet_is_rejected() {
    let index = FMIndex::count_only(bytes("banana"), az());
    assert!(matches!(index.search(&bytes("A")), Err(FMIndexError::AlphabetMismatch)));
    let found = index.search(&bytes("a")).unwrap();
    assert!(matches!(found.search(&bytes("B")), Err(FMIndexError::AlphabetMismatch)));
}

#[test]
fn locate_without_samples_fails() {
    let index = FMIndex::count_only(bytes("banana"), az());
    let found = index.search(&bytes("an")).unwrap();
    assert_eq!(found.count(), 2);
    assert!(matches!(found.locate(), Err(FMIndexError::NoSuffixArray)));
}

#[test]
fn identity_converter() {
    let index = FMIndex::new(vec![3u64, 1, 2, 1, 2, 0], Converter::identity(4), 0);
    assert_eq!(index.search(&[1, 2]).unwrap().count(), 2);
    let mut v = index.search(&[1, 2]).unwrap().locate().unwrap();
    v.sort();
    assert_eq!(v, vec![1, 3]);
    assert!(matches!(index.search(&[4]), Err(FMIndexError::AlphabetMismatch)));
}

#[test]
fn converter_round_trip() {
    let c = az();
    assert_eq!(c.len(), 27);
    assert_eq!(c.convert(0), 0);
    assert_eq!(c.convert(b'a' as u64), 1);
    assert_eq!(c.convert(b'z' as u64), 26);
    assert_eq!(c.convert_inv(26), b'z' as u64);
    assert!(c.is_valid(b'm' as u64));
    assert!(!c.is_valid(b'A' as u64));
    let id = Converter::identity(5);
    assert_eq!(id.convert(4), 4);
    assert_eq!(id.len(), 5);
    assert!(!id.is_valid(5));
}

#[test]
fn sentinel_appended_once() {
    assert_eq!(prepare_text(vec![1, 2]), vec![1, 2, 0]);
    assert_eq!(prepare_text(vec![1, 0]), vec![1, 0]);
    assert_eq!(prepare_text(Vec::new()), vec![0]);
}

#[test]
fn char_counts_and_bucket_starts() {
    let t = vec![2, 1, 2, 3, 0];
    assert_eq!(count_chars(&t, 4), vec![1, 1, 2, 1]);
    assert_eq!(bucket_starts(&t, 4), vec![0, 1, 2, 4, 5]);
}

#[test]
fn suffix_array_of_banana() {
    // b a n a n a $ with a=1, b=2, n=3
    let t = vec![2, 1, 3, 1, 3, 1, 0];
    assert_eq!(suffix_array(&t), vec![6, 5, 3, 1, 0, 4, 2]);
    assert!(suffix_less(&t, 6, 0));
    assert!(suffix_less(&t, 5, 3));
    assert!(!suffix_less(&t, 2, 4));
}

#[test]
fn sampled_entries() {
    let sa = vec![6, 5, 3, 1, 0, 4, 2];
    let s = SuffixOrderSampledArray::sample(&sa, 1);
    let got: Vec<Option<u64>> = (0..7).map(|i| s.get(i)).collect();
    assert_eq!(got, vec![Some(6), None, None, None, Some(0), Some(4), Some(2)]);
    let s0 = SuffixOrderSampledArray::sample(&sa, 0);
    assert_eq!(s0.get(2), Some(3));
}

#[test]
fn sampled_entries_across_blocks() {
    let sa: Vec<u64> = (0..200).rev().collect();
    let s = SuffixOrderSampledArray::sample(&sa, 2);
    for i in 0..200usize {
        let v = sa[i];
        let expected = if v % 4 == 0 { Some(v) } else { None };
        assert_eq!(s.get(i), expected);
    }
}

#[test]
fn last_and_first_columns() {
    let index = FMIndexBackend::create(syms("mississippi"), az(), Some(0));
    // BWT of mississippi$ is ipssm$pissii
    let bwt: Vec<u64> = (0..12).map(|i| index.get_l_backward(i)).collect();
    let conv = az();
    let expected: Vec<u64> = "ipssm\0pissii".bytes().map(|b| conv.convert(b as u64)).collect();
    assert_eq!(bwt, expected);
    let first: Vec<u64> = (0..12).map(|i| index.get_f_forward(i)).collect();
    let expected: Vec<u64> = "\0iiiimppssss".bytes().map(|b| conv.convert(b as u64)).collect();
    assert_eq!(first, expected);
    assert_eq!(index.get_sa(0), Some(11));
    assert_eq!(index.lf_map2_backward(b'i' as u64, 12), 5);
    assert_eq!(index.fl_map2_forward(b'i' as u64, 1), 0);
    assert!(!index.is_empty());
    assert!(index.size() > 0);
}

#[test]
fn longer_text_matches_naive_scan() {
    let mut x: u64 = 12345;
    let mut text: Vec<u16> = Vec::new();
    for _ in 0..5000 {
        x = x.wrapping_mul(6364136223846793005).wrapping_add(1442695040888963407);
        text.push(b'a' as u16 + ((x >> 60) % 4) as u16);
    }
    let index = FMIndex::new(text.clone(), az(), 3);
    for start in [0usize, 17, 999, 2500, 4990] {
        for len in [1usize, 2, 5, 9] {
            if start + len > text.len() {
                continue;
            }
            let p = &text[start..start + len];
            let expected = naive_positions(&text, p);
            let found = index.search(p).unwrap();
            assert_eq!(found.count() as usize, expected.len());
            let mut got = found.locate().unwrap();
            got.sort();
            assert_eq!(got, expected);
        }
    }
}

#[test]
fn pattern_ending_with_sentinel() {
    let index = FMIndex::new(bytes("mississippi"), az(), 1);
    assert_eq!(index.search(&bytes("i\0")).unwrap().count(), 1);
    assert_eq!(sorted_locate(&index, &bytes("i\0")), vec![10]);
    assert_eq!(index.search(&bytes("\0")).unwrap().count(), 1);
    assert_eq!(sorted_locate(&index, &bytes("ppi\0")), vec![8]);
    assert_eq!(index.search(&bytes("s\0")).unwrap().count(), 0);
}

#[test]
fn heap_size_counts_samples() {
    let counting = FMIndex::count_only(bytes("mississippi"), az());
    let locating = FMIndex::new(bytes("mississippi"), az(), 0);
    let sparse = FMIndex::new(bytes("mississippi"), az(), 2);
    // level 0 stores all twelve entries, eight bytes each, besides the bit vector
    assert!(locating.size() - counting.size() >= 8 * 12);
    // level 2 stores the entries 0, 4 and 8 only
    assert!(sparse.size() - counting.size() >= 8 * 3);
    assert_eq!(locating.size() - sparse.size(), 8 * 9);
    assert!(counting.size() >= 8 * 28);
    assert_eq!(HeapSize::size(&locating), locating.size());
}

#[test]
fn same_positions_at_every_level_in_order() {
    let text = bytes("abracadabra");
    let p = bytes("abra");
    let base = FMIndex::new(text.clone(), az(), 0).search(&p).unwrap().locate().unwrap();
    for level in 1..6 {
        let idx = FMIndex::new(text.clone(), az(), level);
        assert_eq!(idx.search(&p).unwrap().locate().unwrap(), base);
    }
}

#[test]
fn range_starting_at_zero() {
    let c = Converter::range(0, 3);
    assert_eq!(c.len(), 4);
    assert_eq!(c.convert(0), 0);
    assert_eq!(c.convert(1), 1);
    assert_eq!(c.convert(3), 3);
    assert_eq!(c.convert_inv(2), 2);
    let index = FMIndex::new(vec![1u8, 2, 3, 1, 2], c, 1);
    assert_eq!(index.search(&[1u8, 2]).unwrap().count(), 2);
    assert_eq!(sorted_locate(&index, &[1u8, 2]), vec![0, 3]);
}

#[test]
fn text_without_sentinel_gets_one() {
    // codes of [5, 3] under the identity converter, with the sentinel added
    let index = FMIndexBackend::create(vec![5, 3], Converter::identity(6), Some(0));
    assert_eq!(index.len(), 3);
    let column: Vec<u64> = (0..3).map(|i| index.get_l_backward(i)).collect();
    assert_eq!(column, vec![3, 5, 0]);
}

use wordcount::frequency::FrequencyMap;
use wordcount::word_count::{plan_chunks, ChunkGenerator, WordCount};

const TEST_TXT: &[u8] = b"aaa bbb ccc\n";

fn sorted(m: FrequencyMap) -> Vec<(String, u64)> {
    let mut v = m.into_entries();
    v.sort();
    v
}

fn count(data: &[u8], seps: &str, n: u64, bufsize: usize) -> Vec<(String, u64)> {
    let wc = WordCount::new(&String::from("mem"), &String::from(seps), n, bufsize);
    sorted(wc.process_bytes(data))
}

fn count_by_ranges(data: &[u8], seps: &str, n: u64, bufsize: usize) -> Vec<(String, u64)> {
    let wc = WordCount::new(&String::from("mem"), &String::from(seps), n, bufsize);
    let mut m = FrequencyMap::new();
    for (off, len) in wc.plan(data.len() as u64) {
        let part = wc.count_range(data, off, len);
        m.merge(&part);
    }
    sorted(m)
}

#[test]
fn test_wc_test01() {
    let sep = String::from(" \t\r\n");

    let m = count(TEST_TXT, &sep, 1, 1024);

    for i in vec![2, 3, 4, 5, 6, 7, 8, 9, 10] {
        let m_test = count(TEST_TXT, &sep, i, 1024);

        println!("word count for {} threads", i);
        assert_eq!(m, m_test);
    }
}

#[test]
fn plan_exact_ranges() {
    assert_eq!(plan_chunks(11, 2), vec![(0, 6), (6, 5)]);
    assert_eq!(plan_chunks(10, 3), vec![(0, 4), (4, 4), (8, 2)]);
    assert_eq!(plan_chunks(10, 5), vec![(0, 2), (2, 2), (4, 2), (6, 2), (8, 2)]);
    assert_eq!(plan_chunks(7, 1), vec![(0, 7)]);
}

#[test]
fn plan_stops_early_when_parts_overshoot() {
    assert_eq!(plan_chunks(2, 5), vec![(0, 1), (1, 1)]);
    assert_eq!(plan_chunks(10, 4), vec![(0, 3), (3, 3), (6, 3), (9, 1)]);
}

#[test]
fn plan_empty_source() {
    assert_eq!(plan_chunks(0, 3), Vec::<(u64, u64)>::new());
    let mut g = ChunkGenerator::new(0, 1);
    assert_eq!(g.next(), None);
}

#[test]
fn plan_ranges_are_contiguous_and_cover() {
    for len in 0..40u64 {
        for parts in 1..12u64 {
            let r = plan_chunks(len, parts);
            let mut at = 0;
            for (off, l) in r {
                assert_eq!(off, at);
                assert!(l > 0);
                at += l;
            }
            assert_eq!(at, len);
        }
    }
}

#[test]
fn generator_hands_out_ranges_in_order() {
    let mut g = ChunkGenerator::new(11, 2);
    assert_eq!(g.next(), Some((0, 6)));
    assert_eq!(g.next(), Some((6, 5)));
    assert_eq!(g.next(), None);
}

#[test]
fn boundary_word_counted_once() {
    let data = b"aaa bbb ccc";
    let wc = WordCount::new(&String::from("mem"), &String::from(" "), 2, 4);
    let first = wc.count_range(data, 0, 6);
    let second = wc.count_range(data, 6, 5);
    assert_eq!(first.get(&String::from("bbb")), 1);
    assert_eq!(second.get(&String::from("bbb")), 0);
    assert_eq!(second.get(&String::from("ccc")), 1);
    assert_eq!(count(data, " ", 2, 4), vec![("aaa".to_string(), 1), ("bbb".to_string(), 1), ("ccc".to_string(), 1)]);
}

#[test]
fn counts_same_for_every_parallelism() {
    let data = b"the cat and the dog and the bird\nthe end  of it\tall";
    let one = count(data, " \t\n", 1, 3);
    assert_eq!(one.iter().find(|e| e.0 == "the").unwrap().1, 4);
    assert_eq!(one.iter().find(|e| e.0 == "and").unwrap().1, 2);
    for n in 1..=20u64 {
        assert_eq!(count(data, " \t\n", n, 3), one);
        assert_eq!(count_by_ranges(data, " \t\n", n, 7), one);
    }
}

#[test]
fn empty_input_gives_empty_tally() {
    let wc = WordCount::new(&String::from("mem"), &String::from(" "), 4, 16);
    let m = wc.process_bytes(b"");
    assert_eq!(m.total(), 0);
    assert_eq!(m.into_entries(), Vec::new());
}

#[test]
fn invalid_utf8_occurrence_dropped() {
    let data = b"ok \xff ok \xe2\x82 fine";
    assert_eq!(count(data, " ", 3, 2), vec![("fine".to_string(), 1), ("ok".to_string(), 2)]);
}

#[test]
fn separators_are_case_and_byte_exact() {
    let data = b"Word word WORD,word";
    assert_eq!(
        count(data, " ,", 2, 5),
        vec![("WORD".to_string(), 1), ("Word".to_string(), 1), ("word".to_string(), 2)]
    );
}

#[test]
fn word_count_getters() {
    let wc = WordCount::new(&String::from("in.txt"), &String::from(" "), 7, 64);
    assert_eq!(wc.filename(), "in.txt");
    assert_eq!(wc.nthreads(), 7);
    assert_eq!(wc.bufsize(), 64);
}

#[test]
fn frequency_map_add_get_merge() {
    let mut a = FrequencyMap::new();
    a.add(String::from("x"), 2);
    a.add(String::from("y"), 1);
    a.add(String::from("x"), 3);
    a.add(String::from("z"), 0);
    assert_eq!(a.get(&String::from("x")), 5);
    assert_eq!(a.get(&String::from("y")), 1);
    assert_eq!(a.get(&String::from("z")), 0);
    assert_eq!(a.total(), 6);
    let mut b = FrequencyMap::new();
    b.add(String::from("y"), 4);
    b.add(String::from("w"), 1);
    a.merge(&b);
    assert_eq!(a.total(), 11);
    assert_eq!(
        sorted(a),
        vec![("w".to_string(), 1), ("x".to_string(), 5), ("y".to_string(), 5)]
    );
}

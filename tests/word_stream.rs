use wordcount::word_stream::WordStream;

const TEST_TXT: &[u8] = b"aaa bbb ccc\n";

fn words(data: &[u8], bufsize: usize, offset: u64, size: usize, seps: &[u8]) -> Vec<String> {
    let mut s = WordStream::new(data, bufsize, offset, size, seps);
    let mut r = Vec::new();
    while let Some(w) = s.word() {
        r.push(w);
    }
    r
}

#[test]
fn test_getc_beyond_buffer() {
    let mut s = WordStream::new(TEST_TXT, 2, 0, 2 as usize, " ".as_bytes());

    assert_eq!(s.getc().is_some(), true);
    assert_eq!(s.getc().is_some(), true);
    assert_eq!(s.getc().is_some(), true);
}

#[test]
fn test_getc_eof() {
    let mut s = WordStream::new(TEST_TXT, 2, 8, 2 as usize, " ".as_bytes());

    assert_eq!(s.getc().is_some(), true);
    assert_eq!(s.getc().is_some(), true);
    assert_eq!(s.getc().is_some(), true);
    assert_eq!(s.getc().is_some(), true);
    assert_eq!(s.getc().is_some(), false);
}

#[test]
fn test_word() {
    {
        let mut s = WordStream::new(TEST_TXT, 1024, 0, 2 as usize, " ".as_bytes());

        assert_eq!(s.word().is_some(), true);
        assert_eq!(s.word().is_some(), false);
    }

    {
        let mut s = WordStream::new(TEST_TXT, 1024, 0, 6 as usize, " ".as_bytes());

        assert_eq!(s.word().is_some(), true);
        assert_eq!(s.word().is_some(), true);
        assert_eq!(s.word().is_some(), false);
    }

    {
        let mut s = WordStream::new(TEST_TXT, 1024, 0, 10 as usize, " ".as_bytes());

        assert_eq!(s.word().is_some(), true);
        assert_eq!(s.word().is_some(), true);
        assert_eq!(s.word().is_some(), true);
        assert_eq!(s.word().is_some(), false);
    }

    {
        let mut s = WordStream::new(TEST_TXT, 1024, 1, 2 as usize, " ".as_bytes());

        assert_eq!(s.word().is_some(), false);
    }

    {
        let mut s = WordStream::new(TEST_TXT, 1024, 1, 10 as usize, " ".as_bytes());

        assert_eq!(s.word().is_some(), true);
        assert_eq!(s.word().is_some(), true);
        assert_eq!(s.word().is_some(), false);
    }

    {
        let mut s = WordStream::new(TEST_TXT, 1024, 3, 10 as usize, " ".as_bytes());

        assert_eq!(s.word().is_some(), true);
        assert_eq!(s.word().is_some(), true);
        assert_eq!(s.word().is_some(), false);
    }
}

#[test]
fn getc_delivers_bytes_in_order_across_refills() {
    let mut s = WordStream::new(b"abcde", 2, 0, 5, b" ");
    assert_eq!(s.getc(), Some(b'a'));
    assert_eq!(s.getc(), Some(b'b'));
    assert_eq!(s.getc(), Some(b'c'));
    assert_eq!(s.getc(), Some(b'd'));
    assert_eq!(s.getc(), Some(b'e'));
    assert_eq!(s.getc(), None);
    assert_eq!(s.getc(), None);
}

#[test]
fn straddling_word_belongs_to_first_range() {
    let data = b"aaa bbb ccc";
    assert_eq!(words(data, 4, 0, 6, b" "), vec!["aaa", "bbb"]);
    assert_eq!(words(data, 4, 6, 5, b" "), vec!["ccc"]);
}

#[test]
fn mid_word_start_skips_partial_word() {
    let data = b"hello world";
    assert_eq!(words(data, 3, 2, 9, b" "), vec!["world"]);
    assert_eq!(words(data, 3, 2, 3, b" "), Vec::<String>::new());
}

#[test]
fn start_right_after_separator_keeps_word() {
    let data = b"hello world";
    assert_eq!(words(data, 16, 6, 5, b" "), vec!["world"]);
}

#[test]
fn range_ending_at_end_of_source() {
    let data = b"one two";
    assert_eq!(words(data, 2, 0, 7, b" "), vec!["one", "two"]);
    assert_eq!(words(data, 2, 4, 3, b" "), vec!["two"]);
}

#[test]
fn trailing_separators_give_no_empty_word() {
    let data = b"one two  \n";
    assert_eq!(words(data, 3, 0, 10, b" \n"), vec!["one", "two"]);
}

#[test]
fn empty_source_gives_no_word() {
    assert_eq!(words(b"", 8, 0, 0, b" "), Vec::<String>::new());
}

#[test]
fn invalid_utf8_word_is_passed_over() {
    let data = b"ab \xff\xfe cd \xc3\xa9t\xc3\xa9";
    assert_eq!(words(data, 4, 0, data.len(), b" "), vec!["ab", "cd", "\u{e9}t\u{e9}"]);
}

#[test]
fn word_runs_past_range_end() {
    let data = b"x verylongword y";
    assert_eq!(words(data, 2, 0, 3, b" "), vec!["x", "verylongword"]);
}

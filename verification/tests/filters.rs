use os_projects::ipc::{
    client_filter, contains_word, decode_len, encode_len, filter_lines, frame, mapper_quarters, needs_more,
    terminated_line, worker_bounds,
};
use os_projects::multi_thread::{
    box_values, check_sort, check_sudoku, col_values, grid_solved, m_sort, parse_grid,
    parse_numbers, row_values, unit_complete,
};

#[test]
fn words_are_whole_words() {
    assert!(contains_word("I saw the cat", "the"));
    assert!(!contains_word("their cat", "the"));
    assert!(!contains_word("bathe", "the"));
    assert!(contains_word("the", "the"));
    assert!(contains_word("  \tthe\n", "the"));
    assert!(contains_word("a\u{3000}the", "the"));
    assert!(!contains_word("the cat", ""));
    assert!(!contains_word("", "the"));
    assert!(!contains_word("the cat", "the cat"));
}

#[test]
fn filter_keeps_lines_with_the_word() {
    assert_eq!(filter_lines("a the\nb\nthe end", "the"), "a the\nthe end\n");
    assert_eq!(filter_lines("their\nnothing\n", "the"), "");
    assert_eq!(filter_lines("", "the"), "");
    assert_eq!(filter_lines("x\n\nx\n", "x"), "x\nx\n");
}

#[test]
fn client_reads_bytes_as_characters() {
    let bytes = "one the\ntwo\n".as_bytes().to_vec();
    assert_eq!(client_filter(&bytes, "the"), "one the\n");
    // 0xA0 is a no-break space once each byte is a character
    let bytes = vec![b'a', 0xA0, b't', b'h', b'e'];
    assert_eq!(client_filter(&bytes, "the"), "a\u{a0}the\n");
}

#[test]
fn half_duplex_lines_end_with_newline() {
    assert_eq!(terminated_line("abc"), "abc\n");
    assert_eq!(terminated_line("abc\n"), "abc\n");
    assert_eq!(terminated_line(""), "\n");
}

#[test]
fn worker_ranges() {
    assert_eq!(mapper_quarters(10), vec![(0, 2, 10), (2, 4, 10), (4, 6, 10), (6, 10, 10)]);
    let text = b"aa\nbb\ncc\ndd\n".to_vec();
    // the first part starts at the start of the text
    assert_eq!(worker_bounds(&text, 0, 3, 12), (0, 6));
    assert_eq!(worker_bounds(&text, 3, 6, 12), (6, 9));
    assert_eq!(worker_bounds(&text, 9, 12, 12), (12, 12));
    assert_eq!(worker_bounds(&text, 10, 12, 12), (12, 12));
    assert_eq!(worker_bounds(&b"abc".to_vec(), 0, 1, 3), (0, 3));
    assert_eq!(worker_bounds(&b"a\nbc".to_vec(), 0, 3, 4), (0, 4));
    assert_eq!(worker_bounds(&b"the\n".to_vec(), 0, 4, 4), (0, 4));
}

fn filter_by_workers(text: &str, target: &str) -> String {
    let bytes = text.as_bytes().to_vec();
    let mut out = String::new();
    for (begin, br, end) in mapper_quarters(bytes.len()) {
        let (il, ir) = worker_bounds(&bytes, begin, br, end);
        out.push_str(&filter_lines(&text[il..ir], target));
    }
    out
}

#[test]
fn workers_cover_every_line() {
    for text in [
        "the\n",
        "the",
        "ab",
        "",
        "the cat\nno\nthe end\nx the\nthen\nthe",
        "a\nthe\nb\nthe\nc\nthe\nd\nthe\n",
        "\n\nthe\n\n",
    ] {
        assert_eq!(filter_by_workers(text, "the"), filter_lines(text, "the"), "text {:?}", text);
    }
    assert_eq!(filter_by_workers("the\n", "the"), "the\n");
}

#[test]
fn client_reads_the_announced_length() {
    assert!(needs_more(0, 3));
    assert!(needs_more(2, 3));
    assert!(!needs_more(3, 3));
    assert!(!needs_more(0, 0));
}

#[test]
fn length_prefix() {
    assert_eq!(encode_len(0x0102030405060708), vec![1, 2, 3, 4, 5, 6, 7, 8]);
    assert_eq!(decode_len(&vec![1, 2, 3, 4, 5, 6, 7, 8]), 0x0102030405060708);
    assert_eq!(decode_len(&encode_len(u64::MAX)), u64::MAX);
    assert_eq!(decode_len(&encode_len(300)), 300);
    assert_eq!(frame(&b"hi".to_vec()), vec![0, 0, 0, 0, 0, 0, 0, 2, b'h', b'i']);
}

const SUDOKU: &str = "6 2 4 5 3 9 1 8 7\n5 1 9 7 2 8 6 3 4\n8 3 7 6 1 4 2 9 5\n1 4 3 8 6 5 7 2 9\n9 5 8 2 4 7 3 6 1\n7 6 2 3 9 1 4 5 8\n3 7 1 9 5 6 8 4 2\n4 9 6 1 8 2 5 7 3\n2 8 5 4 7 3 9 1 6";

#[test]
fn sudoku_solution_is_accepted() {
    assert_eq!(check_sudoku(SUDOKU), Some(true));
    assert_eq!(check_sudoku(&format!("{}\n", SUDOKU)), Some(true));
}

#[test]
fn sudoku_mistakes_are_found() {
    let swapped = SUDOKU.replacen("6 2 4", "2 6 4", 1);
    assert_eq!(check_sudoku(&swapped), Some(false));
    let zero = SUDOKU.replacen("6 2 4", "0 2 4", 1);
    assert_eq!(check_sudoku(&zero), Some(false));
}

#[test]
fn sudoku_input_errors() {
    assert_eq!(check_sudoku("1 2 3"), None);
    assert_eq!(check_sudoku(&SUDOKU.replacen("6 2 4", "10 2 4", 1)), None);
    assert_eq!(check_sudoku(&SUDOKU.replacen("6 2 4", "-1 2 4", 1)), None);
    assert_eq!(check_sudoku(&SUDOKU.replacen("6 2 4", "6  2 4", 1)), None);
    assert!(parse_grid("x").is_none());
}

#[test]
fn sudoku_parts() {
    let grid = parse_grid(SUDOKU).unwrap();
    assert_eq!(grid.len(), 81);
    assert_eq!(grid[9], 5);
    assert!(grid_solved(&grid));
    assert!(unit_complete(&vec![9, 8, 7, 6, 5, 4, 3, 2, 1]));
    assert!(!unit_complete(&vec![9, 8, 7, 6, 5, 4, 3, 2, 2]));
}

#[test]
fn merge_sort_sorts() {
    let v = vec![10, 1, 4, 5, 7, 6, 3, 8, 0, 2, 9];
    assert_eq!(m_sort(&v, 0, 10), vec![0, 1, 2, 3, 4, 5, 6, 7, 8, 9, 10]);
    assert_eq!(m_sort(&v, 1, 3), vec![1, 4, 5]);
    assert_eq!(m_sort(&vec![3, -1, 3, i32::MIN], 0, 3), vec![i32::MIN, -1, 3, 3]);
    assert_eq!(m_sort(&vec![7], 0, 0), vec![7]);
}

#[test]
fn sort_from_text() {
    assert_eq!(check_sort("10 1 4 5 7 6 3 8 0 2 9"), Some(vec![0, 1, 2, 3, 4, 5, 6, 7, 8, 9, 10]));
    assert_eq!(check_sort("3\n1 2"), Some(vec![1, 2, 3]));
    assert_eq!(check_sort("3 1\n"), None);
    assert_eq!(check_sort(""), None);
    assert_eq!(check_sort("1 x"), None);
}

#[test]
fn sudoku_units() {
    let grid = parse_grid(SUDOKU).unwrap();
    assert_eq!(row_values(&grid, 1), vec![5, 1, 9, 7, 2, 8, 6, 3, 4]);
    assert_eq!(col_values(&grid, 0), vec![6, 5, 8, 1, 9, 7, 3, 4, 2]);
    assert_eq!(box_values(&grid, 2, 2), vec![8, 4, 2, 5, 7, 3, 9, 1, 6]);
}

#[test]
fn numbers_from_text() {
    assert_eq!(parse_numbers("10 1 4"), Some(vec![10, 1, 4]));
    assert_eq!(parse_numbers("1\n-2"), Some(vec![1, -2]));
    assert_eq!(parse_numbers("1  2"), None);
}

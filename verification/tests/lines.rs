use cpu_sched::{blank_length, parse_fields, parse_task_line, parse_word, Task};

#[test]
fn line_of_three_numbers_is_a_task() {
    assert_eq!(parse_task_line(b"1 0 5"), Some(Task::new(1, 0, 5)));
    assert_eq!(parse_task_line(b"  12\t34   56 \r"), Some(Task::new(12, 34, 56)));
    assert_eq!(parse_task_line(b"+7 007 4294967295"), Some(Task::new(7, 7, u32::MAX)));
}

#[test]
fn line_without_three_numbers_is_skipped() {
    assert_eq!(parse_task_line(b""), None);
    assert_eq!(parse_task_line(b"   "), None);
    assert_eq!(parse_task_line(b"1 2"), None);
    assert_eq!(parse_task_line(b"1 2 3 4"), None);
    assert_eq!(parse_task_line(b"1 -2 3"), None);
    assert_eq!(parse_task_line(b"1 2 4294967296"), None);
    assert_eq!(parse_task_line(b"1,2,3"), None);
}

#[test]
fn words_that_are_no_numbers_are_passed_over() {
    assert_eq!(parse_fields(b"task 1 at 0 for 5"), vec![1, 0, 5]);
    assert_eq!(parse_task_line(b"task 1 at 0 for 5"), Some(Task::new(1, 0, 5)));
    assert_eq!(parse_fields(b"1 2x 3 + 4 99999999999 5"), vec![1, 3, 4, 5]);
    assert_eq!(parse_fields(b"\x0b8\x0c9\n"), vec![8, 9]);
    assert_eq!(parse_fields(b"abc"), Vec::<u32>::new());
}

#[test]
fn word_is_digits_with_optional_plus() {
    let line = b"x+42y";
    assert_eq!(parse_word(line, 1, 4), Some(42));
    assert_eq!(parse_word(line, 2, 4), Some(42));
    assert_eq!(parse_word(line, 1, 2), None);
    assert_eq!(parse_word(line, 0, 4), None);
    assert_eq!(parse_word(line, 2, 5), None);
    assert_eq!(parse_word(b"4294967295", 0, 10), Some(u32::MAX));
    assert_eq!(parse_word(b"4294967296", 0, 10), None);
    assert_eq!(parse_word(b"0000000000001", 0, 13), Some(1));
    assert_eq!(parse_word(b"++1", 0, 3), None);
}

#[test]
fn every_white_space_character_separates() {
    assert_eq!(parse_task_line("1\u{a0}2\u{a0}3".as_bytes()), Some(Task::new(1, 2, 3)));
    let blanks = [
        '\u{9}', '\u{a}', '\u{b}', '\u{c}', '\u{d}', '\u{20}', '\u{85}', '\u{a0}', '\u{1680}',
        '\u{2000}', '\u{2001}', '\u{2002}', '\u{2003}', '\u{2004}', '\u{2005}', '\u{2006}',
        '\u{2007}', '\u{2008}', '\u{2009}', '\u{200a}', '\u{2028}', '\u{2029}', '\u{202f}',
        '\u{205f}', '\u{3000}',
    ];
    for blank in blanks.iter() {
        let line = format!("{}7{}8{}{}9{}", blank, blank, blank, blank, blank);
        assert_eq!(parse_fields(line.as_bytes()), vec![7, 8, 9]);
        assert_eq!(parse_task_line(line.as_bytes()), Some(Task::new(7, 8, 9)));
        let words: Vec<u32> = line.split_whitespace().map(|w| w.parse::<u32>().unwrap()).collect();
        assert_eq!(words, vec![7, 8, 9]);
    }
}

#[test]
fn other_characters_do_not_separate() {
    let others =
        ['\u{200b}', '\u{feff}', '\u{2060}', '\u{180e}', '\u{84}', '\u{a1}', '\u{200c}', '\u{3001}'];
    for other in others.iter() {
        let line = format!("1{}2 3 4", other);
        assert_eq!(parse_fields(line.as_bytes()), vec![3, 4]);
        assert_eq!(line.split_whitespace().filter_map(|w| w.parse::<u32>().ok()).count(), 2);
    }
}

#[test]
fn blank_length_counts_the_bytes_of_one_blank() {
    assert_eq!(blank_length(b" x", 0), 1);
    assert_eq!(blank_length(b" x", 1), 0);
    assert_eq!(blank_length("\u{a0}".as_bytes(), 0), 2);
    assert_eq!(blank_length("\u{a0}".as_bytes(), 1), 0);
    assert_eq!(blank_length("\u{3000}1".as_bytes(), 0), 3);
    assert_eq!(blank_length("\u{2028}".as_bytes(), 0), 3);
    assert_eq!(blank_length(&[0xE2, 0x80], 0), 0);
    assert_eq!(blank_length(&[0xC2], 0), 0);
    assert_eq!(blank_length(&[0xE2, 0x80, 0x8B], 0), 0);
}

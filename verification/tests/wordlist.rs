use wordle_solver::wordlist::{
    entry_from_lowered, index_words, key_of, lower_line, parse_count, parse_entry, parse_word,
    word_from_lowered, word_position, LineError, LoadError,
};
use wordle_solver::{read_wordlist, read_wordlist_counts, read_words};

#[test]
fn a_word_list_holds_one_word_per_line() {
    assert_eq!(
        read_wordlist(b"apple\nbravo\ncrane\n"),
        Ok(vec![*b"apple", *b"bravo", *b"crane"])
    );
}

#[test]
fn a_word_list_may_end_without_a_line_end() {
    assert_eq!(read_wordlist(b"apple\nbravo"), Ok(vec![*b"apple", *b"bravo"]));
    assert_eq!(read_wordlist(b"apple"), Ok(vec![*b"apple"]));
}

#[test]
fn an_empty_text_is_an_empty_list() {
    assert_eq!(read_wordlist(b""), Ok(vec![]));
    assert_eq!(read_wordlist_counts(b""), Ok(vec![]));
}

#[test]
fn words_are_trimmed_and_lowered() {
    assert_eq!(
        read_wordlist(b"  Apple\t\r\nBRAVO\r\n\x0bcrane\x0c \n"),
        Ok(vec![*b"apple", *b"bravo", *b"crane"])
    );
}

#[test]
fn a_word_is_any_five_bytes() {
    assert_eq!(parse_word(b"ab cd"), Ok(*b"ab cd"));
    assert_eq!(parse_word(b"12@[`"), Ok(*b"12@[`"));
    assert_eq!(parse_word(b"AZaz{"), Ok(*b"azaz{"));
}

#[test]
fn a_line_of_another_length_fails_the_list() {
    assert_eq!(
        read_wordlist(b"apple\nab\ncrane\n"),
        Err(LoadError { line: 1, kind: LineError::WrongLength })
    );
    assert_eq!(
        read_wordlist(b"apple\nbravos"),
        Err(LoadError { line: 1, kind: LineError::WrongLength })
    );
    assert_eq!(parse_word(b""), Err(LineError::WrongLength));
    assert_eq!(parse_word(b"    "), Err(LineError::WrongLength));
    assert_eq!(parse_word(b"abcdef"), Err(LineError::WrongLength));
}

#[test]
fn an_empty_line_fails_the_list() {
    assert_eq!(
        read_wordlist(b"apple\n\n"),
        Err(LoadError { line: 1, kind: LineError::WrongLength })
    );
    assert_eq!(read_wordlist(b"\n"), Err(LoadError { line: 0, kind: LineError::WrongLength }));
}

#[test]
fn the_first_malformed_line_is_reported() {
    assert_eq!(
        read_wordlist(b"apple\nbravo\nx\ny\n"),
        Err(LoadError { line: 2, kind: LineError::WrongLength })
    );
    assert_eq!(
        read_wordlist_counts(b"apple 1\nbravo\ncrane x\n"),
        Err(LoadError { line: 1, kind: LineError::MissingCount })
    );
}

#[test]
fn a_weighted_list_holds_a_word_and_a_count_per_line() {
    assert_eq!(
        read_wordlist_counts(b"apple 10\nbravo\t7\n  Crane   0  \n"),
        Ok(vec![(*b"apple", 10), (*b"bravo", 7), (*b"crane", 0)])
    );
}

#[test]
fn fields_after_the_count_are_ignored() {
    assert_eq!(parse_entry(b"apple 10 20 thirty"), Ok((*b"apple", 10)));
}

#[test]
fn counts_are_decimal_numbers_of_64_bits() {
    assert_eq!(parse_count(b"0"), Some(0));
    assert_eq!(parse_count(b"007"), Some(7));
    assert_eq!(parse_count(b"+42"), Some(42));
    assert_eq!(parse_count(b"18446744073709551615"), Some(u64::MAX));
    assert_eq!(parse_count(b"18446744073709551616"), None);
    assert_eq!(parse_count(b"99999999999999999999999"), None);
    assert_eq!(parse_count(b""), None);
    assert_eq!(parse_count(b"+"), None);
    assert_eq!(parse_count(b"-1"), None);
    assert_eq!(parse_count(b"++1"), None);
    assert_eq!(parse_count(b"1+"), None);
    assert_eq!(parse_count(b"12a"), None);
    assert_eq!(parse_count(b"1.5"), None);
    assert_eq!(parse_count(b"0x10"), None);
}

#[test]
fn a_line_without_a_word_is_reported() {
    assert_eq!(parse_entry(b""), Err(LineError::MissingWord));
    assert_eq!(parse_entry(b" \t "), Err(LineError::MissingWord));
    assert_eq!(
        read_wordlist_counts(b"apple 1\n   \n"),
        Err(LoadError { line: 1, kind: LineError::MissingWord })
    );
}

#[test]
fn a_line_without_a_count_is_reported() {
    assert_eq!(parse_entry(b"apple"), Err(LineError::MissingCount));
    assert_eq!(parse_entry(b"apple   "), Err(LineError::MissingCount));
    assert_eq!(parse_entry(b"ab"), Err(LineError::MissingCount));
}

#[test]
fn a_count_that_is_no_number_is_reported() {
    assert_eq!(parse_entry(b"apple x1"), Err(LineError::BadCount));
    assert_eq!(parse_entry(b"apple -1"), Err(LineError::BadCount));
    assert_eq!(parse_entry(b"apple 18446744073709551616"), Err(LineError::BadCount));
    assert_eq!(parse_entry(b"ab x1"), Err(LineError::BadCount));
    assert_eq!(
        read_wordlist_counts(b"apple 1.0\n"),
        Err(LoadError { line: 0, kind: LineError::BadCount })
    );
}

#[test]
fn a_weighted_word_of_another_length_is_reported() {
    assert_eq!(parse_entry(b"appl 3"), Err(LineError::WrongLength));
    assert_eq!(parse_entry(b"apples 3"), Err(LineError::WrongLength));
    assert_eq!(
        read_wordlist_counts(b"apple 1\nbravo 2\nab 3\n"),
        Err(LoadError { line: 2, kind: LineError::WrongLength })
    );
}

#[test]
fn a_vocabulary_is_indexed_by_line() {
    let index = read_words(b"apple\nbravo\nCrane\n").unwrap();
    assert_eq!(index.len(), 3);
    assert_eq!(word_position(&index, b"apple"), Some(0));
    assert_eq!(word_position(&index, b"bravo"), Some(1));
    assert_eq!(word_position(&index, b"crane"), Some(2));
    assert_eq!(word_position(&index, b"doubt"), None);
}

#[test]
fn a_repeated_word_is_indexed_by_its_last_line() {
    let index = read_words(b"apple\nbravo\napple\n").unwrap();
    assert_eq!(index.len(), 2);
    assert_eq!(word_position(&index, b"apple"), Some(2));
    assert_eq!(word_position(&index, b"bravo"), Some(1));
}

#[test]
fn a_malformed_vocabulary_is_not_indexed()  {
    assert_eq!(
        read_words(b"apple\nbravos\n"),
        Err(LoadError { line: 1, kind: LineError::WrongLength })
    );
}

#[test]
fn word_keys_read_the_bytes_to_the_base_256() {
    assert_eq!(key_of(&[0, 0, 0, 0, 0]), 0);
    assert_eq!(key_of(&[1, 0, 0, 0, 0]), 1);
    assert_eq!(key_of(&[0, 1, 0, 0, 0]), 256);
    assert_eq!(key_of(&[1, 2, 3, 4, 5]), 0x05_04_03_02_01);
    assert_eq!(key_of(&[255, 255, 255, 255, 255]), 0xff_ff_ff_ff_ff);
    assert_eq!(key_of(b"apple"), u64::from_le_bytes(*b"apple\0\0\0"));
}

#[test]
fn an_index_leads_to_the_position_of_each_word() {
    let words = [*b"apple", *b"bravo", *b"crane"];
    let index = index_words(&words);
    for (position, word) in words.iter().enumerate() {
        assert_eq!(index.get(&key_of(word)), Some(&position));
    }
    assert!(index_words(&[]).is_empty());
}

/// Every character that counts as white space.
fn white_space() -> Vec<char> {
    let mut all = vec!['\t', '\n', '\u{b}', '\u{c}', '\r', ' ', '\u{85}', '\u{a0}', '\u{1680}'];
    all.extend('\u{2000}'..='\u{200a}');
    all.extend(['\u{2028}', '\u{2029}', '\u{202f}', '\u{205f}', '\u{3000}']);
    all
}

#[test]
fn a_no_break_space_after_a_word_is_trimmed() {
    assert_eq!(read_wordlist("apple\u{a0}".as_bytes()), Ok(vec![*b"apple"]));
    assert_eq!(read_wordlist(&[97, 112, 112, 108, 101, 194, 160]), Ok(vec![*b"apple"]));
}

#[test]
fn a_short_word_before_a_no_break_space_is_still_short() {
    assert_eq!(
        read_wordlist("abc\u{a0}".as_bytes()),
        Err(LoadError { line: 0, kind: LineError::WrongLength })
    );
}

#[test]
fn a_no_break_space_separates_word_and_count() {
    assert_eq!(read_wordlist_counts("apple\u{a0}7".as_bytes()), Ok(vec![(*b"apple", 7)]));
}

#[test]
fn a_no_break_space_is_no_part_of_a_weighted_word() {
    assert_eq!(
        read_wordlist_counts("abc\u{a0} 1".as_bytes()),
        Err(LoadError { line: 0, kind: LineError::WrongLength })
    );
}

#[test]
fn a_vocabulary_line_is_trimmed_of_a_no_break_space() {
    let index = read_words("apple\u{a0}".as_bytes()).unwrap();
    assert_eq!(index.len(), 1);
    assert_eq!(word_position(&index, b"apple"), Some(0));
}

#[test]
fn every_white_space_character_is_trimmed() {
    for space in white_space() {
        let line = format!("{space}apple{space}{space}");
        assert_eq!(parse_word(line.as_bytes()), Ok(*b"apple"));
        let line = format!("{space}{space}apple{space}12{space}");
        assert_eq!(parse_entry(line.as_bytes()), Ok((*b"apple", 12)));
    }
}

#[test]
fn every_white_space_character_separates_fields() {
    for space in white_space() {
        if space == '\n' {
            continue;
        }
        let text = format!("apple{space}3\nbravo{space}{space}4{space}5\n");
        let expected = vec![(*b"apple", 3), (*b"bravo", 4)];
        assert_eq!(read_wordlist_counts(text.as_bytes()), Ok(expected));
    }
}

#[test]
fn a_mix_of_white_space_is_trimmed() {
    let line = " \u{3000}\t\u{2003}apple\u{a0} \u{85}\u{205f}";
    assert_eq!(parse_word(line.as_bytes()), Ok(*b"apple"));
    assert_eq!(parse_word("\u{2028}\u{1680} \u{a0}".as_bytes()), Err(LineError::WrongLength));
    assert_eq!(parse_entry("\u{2028}\u{1680} \u{a0}".as_bytes()), Err(LineError::MissingWord));
}

#[test]
fn what_is_no_white_space_stays() {
    // The zero-width space, the information separators and the word joiner.
    for other in ['\u{200b}', '\u{1c}', '\u{1f}', '\u{2060}', '\u{feff}', '\u{180e}'] {
        let line = format!("appl{other}");
        let expected: Result<[u8; 5], LineError> = if line.len() == 5 {
            Ok(line.as_bytes().try_into().unwrap())
        } else {
            Err(LineError::WrongLength)
        };
        assert_eq!(parse_word(line.as_bytes()), expected);
        let line = format!("apple{other}7");
        assert_eq!(parse_entry(line.as_bytes()), Err(LineError::MissingCount));
    }
    assert_eq!(parse_word("appl\u{1c}".as_bytes()), Ok(*b"appl\x1c"));
}

#[test]
fn capitals_beyond_the_basic_letters_are_lowered() {
    assert_eq!(parse_word("\u{c9}abc".as_bytes()), Ok([195, 169, 97, 98, 99]));
    assert_eq!(parse_word(&[195, 137, 97, 98, 99]), Ok([195, 169, 97, 98, 99]));
    assert_eq!(parse_entry("\u{c9}ABC 4".as_bytes()), Ok(([195, 169, 97, 98, 99], 4)));
}

#[test]
fn the_length_of_a_word_is_taken_after_lowering() {
    // The Kelvin sign takes three bytes, and the small k that it lowers to takes one.
    assert_eq!(parse_word("\u{212a}appl".as_bytes()), Ok(*b"kappl"));
    assert_eq!(parse_word("\u{212a}a".as_bytes()), Err(LineError::WrongLength));
    // The dotted capital I takes two bytes, and what it lowers to takes three.
    assert_eq!(parse_word("\u{130}ab".as_bytes()), Ok([105, 204, 135, 97, 98]));
    assert_eq!(parse_word("\u{130}abc".as_bytes()), Err(LineError::WrongLength));
    assert_eq!(parse_entry("\u{212a}appl 9".as_bytes()), Ok((*b"kappl", 9)));
    assert_eq!(parse_entry("\u{130}abc 9".as_bytes()), Err(LineError::WrongLength));
}

#[test]
fn a_line_that_is_no_text_is_reported() {
    assert_eq!(parse_word(&[97, 112, 112, 108, 255]), Err(LineError::NotText));
    assert_eq!(parse_word(&[97, 112, 112, 194]), Err(LineError::NotText));
    assert_eq!(parse_word(&[32, 160, 97, 112, 112, 108, 32]), Err(LineError::NotText));
    assert_eq!(parse_entry(&[97, 112, 112, 108, 101, 32, 55, 32, 128]), Err(LineError::NotText));
    assert_eq!(
        read_wordlist(&[97, 112, 112, 108, 101, 10, 237, 160, 128, 97, 98, 10]),
        Err(LoadError { line: 1, kind: LineError::NotText })
    );
    assert_eq!(
        read_wordlist_counts(&[97, 112, 112, 108, 101, 32, 49, 10, 192, 128, 32, 49]),
        Err(LoadError { line: 1, kind: LineError::NotText })
    );
    assert_eq!(
        read_words(&[248, 136, 128, 128, 128]),
        Err(LoadError { line: 0, kind: LineError::NotText })
    );
}

#[test]
fn a_line_is_trimmed_and_then_lowered() {
    assert_eq!(lower_line(b"  Apple Pie\t"), Some(String::from("apple pie")));
    let line = "\u{a0}\u{c9}T\u{c9}\u{3000}";
    assert_eq!(lower_line(line.as_bytes()), Some(String::from("\u{e9}t\u{e9}")));
    assert_eq!(lower_line(b""), Some(String::new()));
    assert_eq!(lower_line(b" \r\n"), Some(String::new()));
    assert_eq!(lower_line(&[32, 255, 32]), None);
}

#[test]
fn a_lowered_line_is_read_as_it_stands() {
    assert_eq!(word_from_lowered(b"apple"), Ok(*b"apple"));
    assert_eq!(word_from_lowered(b"APPLE"), Ok(*b"APPLE"));
    assert_eq!(word_from_lowered(b"appl"), Err(LineError::WrongLength));
    assert_eq!(word_from_lowered(b"apple "), Err(LineError::WrongLength));
    assert_eq!(entry_from_lowered(b"apple 7"), Ok((*b"apple", 7)));
    assert_eq!(entry_from_lowered(b"APPLE\t+7 more"), Ok((*b"APPLE", 7)));
    assert_eq!(entry_from_lowered(b""), Err(LineError::MissingWord));
    assert_eq!(entry_from_lowered(b"apple"), Err(LineError::MissingCount));
    assert_eq!(entry_from_lowered(b"apple seven"), Err(LineError::BadCount));
    assert_eq!(entry_from_lowered(b"appl 7"), Err(LineError::WrongLength));
}

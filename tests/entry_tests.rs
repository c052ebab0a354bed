use pwned_rs::haveibeenpwned::decode_database_line;
use pwned_rs::{HashLineFormatError, PasswordHashEntry};

#[test]
fn creating_a_password_hash_entry_from_valid_input_works_as_intended() {
    let input_hash = "5baa61e4c9b93f3f0682250b6cf8331b7ee68fd8";
    let input_occurrences = 13;
    let input_string = format!("{}:{}", input_hash, input_occurrences);

    let maybe_instance = PasswordHashEntry::from_str(input_string.as_str());
    assert_eq!(false, maybe_instance.is_err());
    let instance = maybe_instance.unwrap();

    assert_eq!(43, instance.get_size_in_bytes());
    assert_eq!(input_hash[..4].to_string(), instance.get_prefix());
    assert_eq!(input_hash, instance.get_hash());
    assert_eq!(input_occurrences, instance.get_occurrences());
}

#[test]
fn creating_a_password_hash_entry_from_input_with_missing_occurrences_is_handled_correctly() {
    let input_hash = "5baa61e4c9b93f3f0682250b6cf8331b7ee68fd8";

    let maybe_instance = PasswordHashEntry::from_str(input_hash);
    assert_eq!(true, maybe_instance.is_err());
    assert_eq!(
        HashLineFormatError::NoOccurrenceCountFound,
        maybe_instance.err().unwrap()
    );
}

#[test]
fn creating_a_password_hash_entry_from_input_with_invalid_hash_is_handled_correctly() {
    let input_hash = "5baa61e4c9b93f0682250bcf8331b7ee68fd8";
    let input_occurrences = 13;
    let input_string = format!("{}:{}", input_hash, input_occurrences);

    let maybe_instance = PasswordHashEntry::from_str(input_string.as_str());
    assert_eq!(true, maybe_instance.is_err());
    assert_eq!(
        HashLineFormatError::NotAValidSha1Hash,
        maybe_instance.err().unwrap()
    );
}

#[test]
fn creating_a_password_hash_entry_from_multiple_valid_lines_of_entries_is_handled_correctly() {
    let input_hash = "5baa61e4c9b93f3f0682250b6cf8331b7ee68fd8";
    let input_occurrences = 13;
    let input_string = format!(
        "{}:{}\n{}:{}",
        input_hash, input_occurrences, input_hash, input_occurrences
    );

    let maybe_instance = PasswordHashEntry::from_str(input_string.as_str());
    assert_eq!(true, maybe_instance.is_err());
    assert_eq!(
        HashLineFormatError::MultipleHashLines,
        maybe_instance.err().unwrap()
    );
}

#[test]
fn parsing_lower_cases_the_hash_and_reads_the_count() {
    let e = PasswordHashEntry::from_str("5BAA61E4C9B93F3F0682250B6CF8331B7EE68FD8:9").unwrap();
    assert_eq!("5baa61e4c9b93f3f0682250b6cf8331b7ee68fd8", e.get_hash());
    assert_eq!(9, e.get_occurrences());
    assert_eq!("5baa", e.get_prefix());
}

#[test]
fn parsing_an_upper_case_line_equals_parsing_the_lower_case_line() {
    let upper = PasswordHashEntry::from_str("0000000A1D4B746FAA3FD526FF6D5BC8052FDB38:7").unwrap();
    let lower = PasswordHashEntry::from_str("0000000a1d4b746faa3fd526ff6d5bc8052fdb38:7").unwrap();
    assert_eq!(lower.get_hash(), upper.get_hash());
    assert_eq!(lower.get_occurrences(), upper.get_occurrences());
    assert!(upper.same_hash(&lower));
    let bad_upper = PasswordHashEntry::from_str("ABC:7").err().unwrap();
    let bad_lower = PasswordHashEntry::from_str("abc:7").err().unwrap();
    assert_eq!(bad_lower, bad_upper);
}

#[test]
fn a_wrong_hash_length_is_reported_even_with_a_bad_count() {
    let e = PasswordHashEntry::from_str("abcdef:notanumber").err().unwrap();
    assert_eq!(HashLineFormatError::NotAValidSha1Hash, e);
    let e = PasswordHashEntry::from_str("5baa61e4c9b93f3f0682250b6cf8331b7ee68fd8a:1").err().unwrap();
    assert_eq!(HashLineFormatError::NotAValidSha1Hash, e);
}

#[test]
fn a_bad_count_is_a_missing_count() {
    let h = "5baa61e4c9b93f3f0682250b6cf8331b7ee68fd8";
    for count in ["", "x1", "-1", "1 ", "18446744073709551616", "+", "12:3"] {
        let line = format!("{}:{}", h, count);
        assert_eq!(
            HashLineFormatError::NoOccurrenceCountFound,
            PasswordHashEntry::from_str(&line).err().unwrap()
        );
    }
    let largest = PasswordHashEntry::from_str(&format!("{}:18446744073709551615", h)).unwrap();
    assert_eq!(u64::MAX, largest.get_occurrences());
    let plus = PasswordHashEntry::from_str(&format!("{}:+42", h)).unwrap();
    assert_eq!(42, plus.get_occurrences());
    let zero = PasswordHashEntry::from_str(&format!("{}:0", h)).unwrap();
    assert_eq!(0, zero.get_occurrences());
}

#[test]
fn a_line_feed_is_refused_before_the_separator_is_looked_for() {
    let e = PasswordHashEntry::from_str("no separator\nhere").err().unwrap();
    assert_eq!(HashLineFormatError::MultipleHashLines, e);
    let e = PasswordHashEntry::from_str("5baa61e4c9b93f3f0682250b6cf8331b7ee68fd8:1\n").err().unwrap();
    assert_eq!(HashLineFormatError::MultipleHashLines, e);
}

#[test]
fn writing_and_reading_back_a_record_gives_the_same_record() {
    let e = PasswordHashEntry::from_str("5baa61e4c9b93f3f0682250b6cf8331b7ee68fd8:3730471").unwrap();
    let line = e.get_line_to_write();
    assert_eq!("5baa61e4c9b93f3f0682250b6cf8331b7ee68fd8:3730471\n", line);
    let back = PasswordHashEntry::from_raw_line(&line).unwrap();
    assert!(e == back);
    assert_eq!(e.get_hash(), back.get_hash());
    assert_eq!(e.get_occurrences(), back.get_occurrences());
    assert_eq!(line.len() as u64, back.get_size_in_bytes());
}

#[test]
fn a_raw_line_loses_its_terminator_but_keeps_its_size() {
    let e = PasswordHashEntry::from_raw_line("0000000A1D4B746FAA3FD526FF6D5BC8052FDB38:12\r\n").unwrap();
    assert_eq!("0000000a1d4b746faa3fd526ff6d5bc8052fdb38", e.get_hash());
    assert_eq!(12, e.get_occurrences());
    assert_eq!(45, e.get_size_in_bytes());
    assert!(PasswordHashEntry::from_raw_line("").is_err());
}

#[test]
fn the_sequential_reader_stops_at_a_line_that_is_not_a_record() {
    let e = decode_database_line("5baa61e4c9b93f3f0682250b6cf8331b7ee68fd8:13\n").unwrap();
    assert_eq!(13, e.get_occurrences());
    assert_eq!(44, e.get_size_in_bytes());
    assert!(decode_database_line("garbage\n").is_none());
    assert!(decode_database_line("").is_none());
}

#[test]
fn a_password_is_hashed_with_sha1() {
    let e = PasswordHashEntry::from_password("password");
    assert_eq!("5baa61e4c9b93f3f0682250b6cf8331b7ee68fd8", e.get_hash());
    assert_eq!(0, e.get_occurrences());
    assert_eq!(42, e.get_size_in_bytes());
    let empty = PasswordHashEntry::from_password("");
    assert_eq!("da39a3ee5e6b4b0d3255bfef95601890afd80709", empty.get_hash());
}

#[test]
fn a_search_key_from_hex_is_lower_cased() {
    let e = PasswordHashEntry::from_hash_hex("5BAA61E4C9B93F3F0682250B6CF8331B7EE68FD8");
    assert_eq!("5baa61e4c9b93f3f0682250b6cf8331b7ee68fd8", e.get_hash());
    assert_eq!(0, e.get_occurrences());
    assert_eq!(42, e.get_size_in_bytes());
}

#[test]
fn records_order_by_their_hashes() {
    let a = PasswordHashEntry::from_str("aaaa000000000000000000000000000000000001:4").unwrap();
    let b = PasswordHashEntry::from_str("bbbb000000000000000000000000000000000002:24").unwrap();
    let b_again = PasswordHashEntry::from_str("BBBB000000000000000000000000000000000002:1").unwrap();
    assert_eq!(-1, a.compare_hash(&b));
    assert_eq!(1, b.compare_hash(&a));
    assert_eq!(0, b.compare_hash(&b_again));
    assert!(b.same_hash(&b_again));
    assert!(!a.same_hash(&b));
}

#[test]
fn short_hashes_have_short_prefixes() {
    let e = PasswordHashEntry::from_hash_hex("ab");
    assert_eq!("ab", e.get_prefix());
}

#[test]
fn error_descriptions_are_sentences() {
    assert_eq!(
        "It seems that the supplied hash string is not a valid SHA-1 hash",
        HashLineFormatError::NotAValidSha1Hash.to_string()
    );
    assert_eq!(
        "It seems that the supplied string contains more than one line",
        HashLineFormatError::MultipleHashLines.to_string()
    );
    assert_eq!(
        "Could not find a occurrence count in the supplied string",
        HashLineFormatError::NoOccurrenceCountFound.to_string()
    );
}

#[test]
fn records_parse_through_from_str_too() {
    let e: PasswordHashEntry = "5BAA61E4C9B93F3F0682250B6CF8331B7EE68FD8:2".parse().unwrap();
    assert_eq!("5baa61e4c9b93f3f0682250b6cf8331b7ee68fd8", e.get_hash());
    let other = PasswordHashEntry::from_str("5baa61e4c9b93f3f0682250b6cf8331b7ee68fd8:5").unwrap();
    assert!(e == other);
    let err = "x".parse::<PasswordHashEntry>().err().unwrap();
    assert_eq!(HashLineFormatError::NoOccurrenceCountFound, err);
}

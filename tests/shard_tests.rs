use std::collections::BTreeMap;

use pwned_rs::haveibeenpwned::{CreateInstanceError, DatabaseReader, FormatErrorKind};
use pwned_rs::sharding::ShardIndexer;
use pwned_rs::PasswordHashEntry;

#[test]
fn ensure_get_password_count_is_case_insensitive() {
    let mut fake_reader = DatabaseReader::new();
    fake_reader.insert("0000000A1D4B746FAA3FD526FF6D5BC8052FDB38", 1 as u64);

    let lower_case_input =
        fake_reader.get_password_count("0000000a1d4b746faa3fd526ff6d5bc8052fdb38".to_string());
    assert_eq!(true, lower_case_input.is_some());
    assert_eq!(1, lower_case_input.unwrap());

    let upper_case_input =
        fake_reader.get_password_count("0000000A1D4B746FAA3FD526FF6D5BC8052FDB38".to_string());
    assert_eq!(true, upper_case_input.is_some());
    assert_eq!(1, upper_case_input.unwrap());
}

/// Runs the indexer over a dataset held in memory; the shard files are kept
/// in a map from file name to contents.
fn index(dataset: &str) -> (u64, BTreeMap<String, String>, Vec<String>) {
    let mut indexer = ShardIndexer::new(dataset.len() as u64);
    let mut files: BTreeMap<String, String> = BTreeMap::new();
    let mut opened: Vec<String> = Vec::new();
    let mut current = String::new();
    for line in dataset.split_inclusive('\n') {
        if indexer.is_finished() {
            break;
        }
        let entry = PasswordHashEntry::from_raw_line(line).unwrap();
        let step = indexer.next_step(&entry);
        if let Some(name) = step.open_file {
            files.insert(name.clone(), String::new());
            opened.push(name.clone());
            current = name;
        }
        files.get_mut(&current).unwrap().push_str(&step.line);
    }
    (indexer.get_shard_count(), files, opened)
}

#[test]
fn indexing_three_records_with_two_prefixes_gives_two_loadable_shards() {
    let dataset = "0000000a1d4b746faa3fd526ff6d5bc8052fdb38:12\n\
                   0000a1b2c3d4e5f60718293a4b5c6d7e8f901234:3\n\
                   5baa61e4c9b93f3f0682250b6cf8331b7ee68fd8:3730471\n";
    let (count, files, opened) = index(dataset);
    assert_eq!(2, count);
    assert_eq!(2, files.len());
    assert_eq!(vec!["0000.txt".to_string(), "5baa.txt".to_string()], opened);
    assert_eq!(
        "0000000a1d4b746faa3fd526ff6d5bc8052fdb38:12\n0000a1b2c3d4e5f60718293a4b5c6d7e8f901234:3\n",
        files["0000.txt"]
    );

    let first = DatabaseReader::from_content(&files["0000.txt"]).ok().unwrap();
    assert_eq!(
        Some(12),
        first.get_password_count("0000000a1d4b746faa3fd526ff6d5bc8052fdb38".to_string())
    );
    assert_eq!(
        Some(3),
        first.get_password_count("0000A1B2C3D4E5F60718293A4B5C6D7E8F901234".to_string())
    );
    assert_eq!(
        None,
        first.get_password_count("5baa61e4c9b93f3f0682250b6cf8331b7ee68fd8".to_string())
    );
    let second = DatabaseReader::from_bytes(files["5baa.txt"].clone().into_bytes()).ok().unwrap();
    assert_eq!(
        Some(3730471),
        second.get_password_count("5BAA61E4C9B93F3F0682250B6CF8331B7EE68FD8".to_string())
    );
}

#[test]
fn every_record_lands_in_the_shard_of_its_prefix_in_order() {
    let dataset = "00000000000000000000000000000000000000a1:1\n\
                   00000000000000000000000000000000000000b2:2\n\
                   00010000000000000000000000000000000000c3:3\n\
                   0001000000000000000000000000000000000d44:44\n\
                   ffff000000000000000000000000000000000000:5\n";
    let (count, files, _) = index(dataset);
    assert_eq!(3, count);
    let total: usize = files.values().map(|f| f.lines().count()).sum();
    assert_eq!(5, total);
    assert_eq!(
        "00010000000000000000000000000000000000c3:3\n0001000000000000000000000000000000000d44:44\n",
        files["0001.txt"]
    );
    assert_eq!("ffff000000000000000000000000000000000000:5\n", files["ffff.txt"]);
}

#[test]
fn progress_is_clamped_to_the_input_size() {
    let mut indexer = ShardIndexer::new(50);
    let e = PasswordHashEntry::from_raw_line("5baa61e4c9b93f3f0682250b6cf8331b7ee68fd8:13\n").unwrap();
    indexer.next_step(&e);
    assert_eq!(44, indexer.get_processed_bytes());
    assert!(!indexer.is_finished());
    let step = indexer.next_step(&e);
    assert!(step.open_file.is_none());
    assert_eq!(50, indexer.get_processed_bytes());
    assert!(indexer.is_finished());
    assert_eq!(1, indexer.get_shard_count());
}

#[test]
fn an_empty_input_gives_no_shards() {
    let (count, files, _) = index("");
    assert_eq!(0, count);
    assert!(files.is_empty());
}

#[test]
fn shard_lines_skip_blank_lines_and_later_lines_win() {
    let db = DatabaseReader::from_content("abc:1\n\nABC:2\nother:7:ignored\n").ok().unwrap();
    assert_eq!(Some(2), db.get_password_count("abc".to_string()));
    assert_eq!(Some(7), db.get_password_count("OTHER".to_string()));
    assert_eq!(None, db.get_password_count("missing".to_string()));
}

#[test]
fn a_shard_line_without_count_fails_the_whole_shard() {
    for content in ["abc:1\nno separator\n", "abc:x\n", "abc:1\nlast:"] {
        match DatabaseReader::from_content(content) {
            Err(CreateInstanceError::Format(FormatErrorKind::LineFormatNotCorrect)) => {}
            _ => panic!("expected a line format error for {:?}", content),
        }
    }
}

#[test]
fn a_shard_that_is_not_utf8_is_not_a_text_file() {
    match DatabaseReader::from_bytes(vec![0x61, 0xff, 0x3a, 0x31]) {
        Err(CreateInstanceError::Format(FormatErrorKind::NotATextFile)) => {}
        _ => panic!("expected a not-a-text-file error"),
    }
    assert_eq!(
        "not a text file which can be parsed",
        FormatErrorKind::NotATextFile.to_string()
    );
    assert_eq!(
        "format of lines does not match the required format",
        FormatErrorKind::LineFormatNotCorrect.to_string()
    );
}

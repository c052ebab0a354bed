use pwned_rs::bisect::{SearchBracket, SearchStep};
use pwned_rs::{HashLineFormatError, PasswordHashEntry};

/// Reads one line from `pos` on, terminator included, as `BufRead::read_line`
/// does; returns it and the position after it.
fn read_line_at(file: &[u8], pos: usize) -> (String, usize) {
    let mut end = pos.min(file.len());
    while end < file.len() {
        end += 1;
        if file[end - 1] == b'\n' {
            break;
        }
    }
    let start = pos.min(file.len());
    (String::from_utf8(file[start..end].to_vec()).unwrap(), end)
}

/// Runs a whole lookup over a file held in memory: seek to the probe,
/// discard the rest of that line, hand the next line to the bracket.
fn search(file: &str, target: &PasswordHashEntry) -> (SearchStep, usize) {
    let bytes = file.as_bytes();
    let mut bracket = SearchBracket::new(bytes.len() as u64);
    let mut steps = 0;
    loop {
        steps += 1;
        let mid = bracket.next_offset() as usize;
        let (_, after) = read_line_at(bytes, mid);
        let (candidate, _) = read_line_at(bytes, after);
        let step = bracket.observe(&candidate, target);
        if step != SearchStep::Continue {
            return (step, steps);
        }
    }
}

fn key(hash: &str) -> PasswordHashEntry {
    PasswordHashEntry::from_hash_hex(hash)
}

const TWO: &str = "aaaa000000000000000000000000000000000001:4\n\
                   bbbb000000000000000000000000000000000002:24\n";

#[test]
fn searching_the_two_record_dataset() {
    let (second, _) = search(TWO, &key("bbbb000000000000000000000000000000000002"));
    assert_eq!(SearchStep::Found(24), second);
    let (between, _) = search(TWO, &key("abbb000000000000000000000000000000000000"));
    assert_eq!(SearchStep::NotFound, between);
    let (upper, _) = search(TWO, &key("BBBB000000000000000000000000000000000002"));
    assert_eq!(SearchStep::Found(24), upper);
}

#[test]
fn the_first_line_is_never_a_candidate() {
    let (first, _) = search(TWO, &key("aaaa000000000000000000000000000000000001"));
    assert_eq!(SearchStep::NotFound, first);
}

fn dataset(n: usize) -> (String, Vec<(String, u64)>) {
    let mut text = String::new();
    let mut recs = Vec::new();
    for i in 0..n {
        let hash = format!("{:040x}", (i as u128 + 1) * 7919);
        let count = (i as u64 * 37) % 1000 + 1;
        text.push_str(&format!("{}:{}\n", hash, count));
        recs.push((hash, count));
    }
    (text, recs)
}

#[test]
fn every_record_but_the_first_is_found() {
    let (text, recs) = dataset(200);
    for (i, (hash, count)) in recs.iter().enumerate() {
        let (step, steps) = search(&text, &key(hash));
        if i == 0 {
            assert_eq!(SearchStep::NotFound, step);
        } else {
            assert_eq!(SearchStep::Found(*count), step);
        }
        assert!(steps <= 20);
    }
}

#[test]
fn absent_hashes_are_not_found() {
    let (text, recs) = dataset(100);
    for (hash, _) in recs.iter() {
        let absent = format!("{}0", &hash[..39]);
        if recs.iter().any(|(h, _)| *h == absent) {
            continue;
        }
        let (step, _) = search(&text, &key(&absent));
        assert_eq!(SearchStep::NotFound, step);
    }
    let (last, _) = search(&text, &key("ffffffffffffffffffffffffffffffffffffffff"));
    assert_eq!(SearchStep::NotFound, last);
}

#[test]
fn crlf_lines_are_read_too() {
    let file = "aaaa000000000000000000000000000000000001:4\r\n\
                bbbb000000000000000000000000000000000002:24\r\n\
                cccc000000000000000000000000000000000003:5\r\n";
    let (step, _) = search(file, &key("cccc000000000000000000000000000000000003"));
    assert_eq!(SearchStep::Found(5), step);
}

#[test]
fn a_corrupt_candidate_stops_the_search() {
    let file = "aaaa000000000000000000000000000000000001:4\n\
                this line is not a record at all, not one bit\n";
    let (step, _) = search(file, &key("bbbb000000000000000000000000000000000002"));
    assert_eq!(SearchStep::Malformed(HashLineFormatError::NoOccurrenceCountFound), step);
}

#[test]
fn an_empty_file_holds_nothing() {
    let (step, steps) = search("", &key("bbbb000000000000000000000000000000000002"));
    assert_eq!(SearchStep::NotFound, step);
    assert_eq!(1, steps);
}

#[test]
fn the_probe_is_the_middle_of_the_bracket() {
    let mut bracket = SearchBracket::new(87);
    assert_eq!(43, bracket.next_offset());
    let target = key("abbb000000000000000000000000000000000000");
    let step = bracket.observe("bbbb000000000000000000000000000000000002:24\n", &target);
    assert_eq!(SearchStep::Continue, step);
    assert_eq!(21, bracket.next_offset());
    let step = bracket.observe("bbbb000000000000000000000000000000000002:24\n", &target);
    assert_eq!(SearchStep::NotFound, step);
}

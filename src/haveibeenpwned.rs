//! Reading the dataset: the line-by-line reader's record decoding and the
//! in-memory map of one shard file.
use crate::entry::{strip_terminator, parse_spec, PasswordHashEntry};
use crate::text::{lemma_lower_idempotent, ascii_lower, chars_of, find_char, first_index_of, is_count_text, count_value,
    lower_string_of, parse_count};
use vstd::prelude::*;
use vstd::utf8::{decode_utf8, valid_utf8};

verus! {

/// `std::io::Error`, carried through unread.
#[verifier::external_type_specification]
#[verifier::external_body]
pub struct ExIoError(std::io::Error);

/// The possible errors when a dataset or shard file is opened and read.
#[derive(Debug)]
pub enum CreateInstanceError {
    /// It seems that the format of the file is not as expected.
    Format(FormatErrorKind),
    /// There was a generic IO error.
    Io(std::io::Error),
}

/// The more specific error if the format could not be read.
#[derive(Debug, Clone, Copy, PartialEq, Eq, Structural)]
pub enum FormatErrorKind {
    /// It seems that the file is not a plain text file.
    NotATextFile,
    /// It seems that the format of at least one of the lines in the file is invalid.
    LineFormatNotCorrect,
}

impl FormatErrorKind {
    /// A phrase that describes the error.
    pub fn to_string(&self) -> (r: &'static str)
        ensures
            r@ == match self {
                FormatErrorKind::NotATextFile => "not a text file which can be parsed"@,
                FormatErrorKind::LineFormatNotCorrect => "format of lines does not match the required format"@,
            },
    {
        match self {
            FormatErrorKind::NotATextFile => "not a text file which can be parsed",
            FormatErrorKind::LineFormatNotCorrect => "format of lines does not match the required format",
        }
    }
}

/// The next record of the sequential reader, from one line as read from the
/// file (terminator included): `None`, which ends the sequence, where the
/// line is not a record; otherwise the record, whose size counts the whole
/// line.
pub fn decode_database_line(raw_line: &str) -> (r: Option<PasswordHashEntry>)
    ensures
        match r {
            Some(e) => {
                &&& parse_spec(strip_terminator(raw_line@)) == Ok::<
                    (Seq<char>, u64),
                    crate::entry::HashLineFormatError,
                >((e@.hash, e@.occurrences))
                &&& e@.size == raw_line.len()
            },
            None => parse_spec(strip_terminator(raw_line@)) is Err,
        },
{
    match PasswordHashEntry::from_raw_line(raw_line) {
        Ok(e) => Some(e),
        Err(_) => None,
    }
}

/// The text split at each line feed, as `str::split('\n')` splits it: the
/// pieces hold no line feed, and a text that ends in one ends in an empty
/// piece.
pub open spec fn split_lines(s: Seq<char>) -> Seq<Seq<char>>
    decreases s.len(),
{
    if s.len() == 0 {
        seq![Seq::<char>::empty()]
    } else if s.last() == '\n' {
        split_lines(s.drop_last()).push(Seq::<char>::empty())
    } else {
        let ls = split_lines(s.drop_last());
        ls.update(ls.len() - 1, ls.last().push(s.last()))
    }
}

/// The second `:`-separated field of what follows the first `:`.
pub open spec fn second_field(rest: Seq<char>) -> Seq<char> {
    match first_index_of(rest, ':') {
        Some(j) => rest.take(j),
        None => rest,
    }
}

/// One non-empty shard line as a key and a count: the key is the part before
/// the first `:`, lower-cased; the count is the second `:`-separated field.
pub open spec fn shard_line(line: Seq<char>) -> Option<(Seq<char>, u64)> {
    match first_index_of(line, ':') {
        None => None,
        Some(k) => {
            let field = second_field(line.skip(k + 1));
            if is_count_text(field) {
                Some((ascii_lower(line.take(k)), count_value(field) as u64))
            } else {
                None
            }
        },
    }
}

/// The map that a shard's lines give, later lines winning over earlier ones
/// with the same key, empty lines skipped; `None` if a non-empty line is not
/// a record.
pub open spec fn load_lines(lines: Seq<Seq<char>>) -> Option<Map<Seq<char>, u64>>
    decreases lines.len(),
{
    if lines.len() == 0 {
        Some(Map::empty())
    } else {
        match load_lines(lines.drop_last()) {
            None => None,
            Some(m) => {
                let l = lines.last();
                if l.len() == 0 {
                    Some(m)
                } else {
                    match shard_line(l) {
                        None => None,
                        Some(kv) => Some(m.insert(kv.0, kv.1)),
                    }
                }
            },
        }
    }
}

/// The map a pair list gives when its pairs are inserted in order.
pub open spec fn pairs_map(keys: Seq<Seq<char>>, counts: Seq<u64>) -> Map<Seq<char>, u64>
    decreases keys.len(),
{
    if keys.len() == 0 || counts.len() == 0 {
        Map::empty()
    } else {
        pairs_map(keys.drop_last(), counts.drop_last()).insert(keys.last(), counts.last())
    }
}

/// Relies on `String::from_utf8`: a string holding the decoded bytes, or
/// an error exactly where the bytes are not UTF-8.
#[verifier::external_body]
fn utf8_string(bytes: Vec<u8>) -> (r: Option<String>)
    ensures
        r is Some <==> valid_utf8(bytes@),
        r matches Some(s) ==> s@ == decode_utf8(bytes@),
{
    String::from_utf8(bytes).ok()
}

/// What a lookup of `query` in a shard map finds: the count under the
/// lower-cased query.
pub open spec fn count_for(m: Map<Seq<char>, u64>, query: Seq<char>) -> Option<u64> {
    if m.contains_key(ascii_lower(query)) {
        Some(m[ascii_lower(query)])
    } else {
        None
    }
}

/// A lookup finds the same count whether the query is upper- or lower-case.
pub proof fn lemma_count_for_case_insensitive(m: Map<Seq<char>, u64>, query: Seq<char>)
    ensures
        count_for(m, query) == count_for(m, ascii_lower(query)),
{
    lemma_lower_idempotent(query);
}

/// The text of each key.
pub open spec fn key_texts(keys: Seq<String>) -> Seq<Seq<char>> {
    keys.map_values(|k: String| k@)
}

/// One shard file held in memory: hash to count.
pub struct DatabaseReader {
    keys: Vec<String>,
    counts: Vec<u64>,
}

impl View for DatabaseReader {
    type V = Map<Seq<char>, u64>;

    closed spec fn view(&self) -> Map<Seq<char>, u64> {
        pairs_map(key_texts(self.keys@), self.counts@)
    }
}

impl DatabaseReader {
    pub closed spec fn wf(&self) -> bool {
        self.keys@.len() == self.counts@.len()
    }

    /// An empty map.
    pub fn new() -> (r: DatabaseReader)
        ensures
            r.wf(),
            r@ == Map::<Seq<char>, u64>::empty(),
    {
        let r = DatabaseReader { keys: Vec::new(), counts: Vec::new() };
        assert(key_texts(r.keys@) =~= Seq::<Seq<char>>::empty());
        r
    }

    /// Adds (or replaces) the count of a hash, under its lower-cased form.
    pub fn insert(&mut self, hash: &str, count: u64)
        requires
            old(self).wf(),
        ensures
            final(self).wf(),
            final(self)@ == old(self)@.insert(ascii_lower(hash@), count),
    {
        let cs = chars_of(hash);
        let key = lower_string_of(&cs, 0, cs.len());
        assert(cs@.subrange(0, cs@.len() as int) =~= hash@);
        self.push_pair(key, count);
    }

    fn push_pair(&mut self, key: String, count: u64)
        requires
            old(self).wf(),
        ensures
            final(self).wf(),
            final(self)@ == old(self)@.insert(key@, count),
    {
        let ghost old_keys = key_texts(self.keys@);
        self.keys.push(key);
        self.counts.push(count);
        let ghost new_keys = key_texts(self.keys@);
        assert(new_keys.drop_last() =~= old_keys);
        assert(self.counts@.drop_last() =~= old(self).counts@);
    }

    /// The count stored for a hash, compared in lower case.
    pub fn get_password_count(&self, password: String) -> (r: Option<u64>)
        requires
            self.wf(),
        ensures
            r == count_for(self@, password@),
    {
        let cs = chars_of(password.as_str());
        let key = lower_string_of(&cs, 0, cs.len());
        assert(cs@.subrange(0, cs@.len() as int) =~= password@);
        assert(key@ == ascii_lower(password@));
        let ghost ks = key_texts(self.keys@);
        let mut i = self.keys.len();
        while i > 0
            invariant
                i <= self.keys@.len() == self.counts@.len(),
                ks == key_texts(self.keys@),
                key@ == ascii_lower(password@),
                forall|j: int| i <= j < ks.len() ==> ks[j] != key@,
            decreases i,
        {
            i = i - 1;
            assert(ks[i as int] == self.keys@[i as int]@);
            if self.keys[i] == key {
                proof {
                    lemma_pairs_map_last(ks, self.counts@, i as int, key@);
                }
                return Some(self.counts[i]);
            }
        }
        proof {
            lemma_pairs_map_absent(ks, self.counts@, key@);
        }
        None
    }

    /// The map of one shard file's text: one `hash:count` record per line,
    /// empty lines skipped.
    pub fn from_content(content: &str) -> (r: Result<DatabaseReader, CreateInstanceError>)
        ensures
            match r {
                Ok(db) => db.wf() && load_lines(split_lines(content@)) == Some(db@),
                Err(e) => load_lines(split_lines(content@)) is None && e matches CreateInstanceError::Format(
                    FormatErrorKind::LineFormatNotCorrect,
                ),
            },
    {
        let cs = chars_of(content);
        let mut db = DatabaseReader::new();
        let mut line: Vec<char> = Vec::new();
        let mut i: usize = 0;
        while i < cs.len()
            invariant
                i <= cs.len(),
                cs@ == content@,
                db.wf(),
                split_lines(cs@.take(i as int)).last() == line@,
                load_lines(split_lines(cs@.take(i as int)).drop_last()) == Some(db@),
            decreases cs.len() - i,
        {
            let c = cs[i];
            let ghost before = split_lines(cs@.take(i as int));
            assert(cs@.take(i as int + 1).drop_last() =~= cs@.take(i as int));
            if c == '\n' {
                proof {
                    lemma_split_lines_nonempty(cs@.take(i as int));
                }
                if !db.add_line(&line) {
                    assert(split_lines(cs@.take(i as int + 1)).drop_last() =~= before);
                    proof {
                        lemma_load_none_whole(cs@, i as int + 1);
                    }
                    return Err(CreateInstanceError::Format(FormatErrorKind::LineFormatNotCorrect));
                }
                line = Vec::new();
                assert(split_lines(cs@.take(i as int + 1)).drop_last() =~= before);
                assert(split_lines(cs@.take(i as int + 1)).last() =~= line@);
            } else {
                proof {
                    lemma_split_lines_nonempty(cs@.take(i as int));
                }
                line.push(c);
                assert(split_lines(cs@.take(i as int + 1)).drop_last() =~= before.drop_last());
            }
            i = i + 1;
        }
        assert(cs@.take(i as int) =~= content@);
        proof {
            lemma_split_lines_nonempty(content@);
        }
        if !db.add_line(&line) {
            return Err(CreateInstanceError::Format(FormatErrorKind::LineFormatNotCorrect));
        }
        Ok(db)
    }

    /// The map of a shard file's bytes; bytes that are not UTF-8 are not a
    /// text file.
    pub fn from_bytes(content: Vec<u8>) -> (r: Result<DatabaseReader, CreateInstanceError>)
        ensures
            match r {
                Ok(db) => valid_utf8(content@) && db.wf() && load_lines(
                    split_lines(decode_utf8(content@)),
                ) == Some(db@),
                Err(e) => match e {
                    CreateInstanceError::Format(FormatErrorKind::NotATextFile) => !valid_utf8(content@),
                    CreateInstanceError::Format(FormatErrorKind::LineFormatNotCorrect) => valid_utf8(
                        content@,
                    ) && load_lines(split_lines(decode_utf8(content@))) is None,
                    CreateInstanceError::Io(_) => false,
                },
            },
    {
        match utf8_string(content) {
            None => Err(CreateInstanceError::Format(FormatErrorKind::NotATextFile)),
            Some(text) => DatabaseReader::from_content(text.as_str()),
        }
    }

    /// Adds the record of one line; an empty line adds nothing. Returns
    /// `false`, with the map unchanged, where the line is not a record.
    fn add_line(&mut self, line: &Vec<char>) -> (ok: bool)
        requires
            old(self).wf(),
        ensures
            final(self).wf(),
            ok == (line@.len() == 0 || shard_line(line@) is Some),
            ok && line@.len() == 0 ==> final(self)@ == old(self)@,
            ok && line@.len() > 0 ==> (shard_line(line@) matches Some(kv) && final(self)@
                == old(self)@.insert(kv.0, kv.1)),
    {
        if line.len() == 0 {
            return true;
        }
        let k = match find_char(line, ':') {
            Some(k) => k,
            None => {
                return false;
            },
        };
        let rest = vec_range(line, k + 1, line.len());
        assert(rest@ =~= line@.skip(k + 1));
        let end = match find_char(&rest, ':') {
            Some(j) => j,
            None => rest.len(),
        };
        assert(rest@.subrange(0, end as int) =~= second_field(rest@));
        let count = match parse_count(&rest, 0, end) {
            Some(v) => v,
            None => {
                return false;
            },
        };
        let key = lower_string_of(line, 0, k);
        assert(line@.subrange(0, k as int) =~= line@.take(k as int));
        self.push_pair(key, count);
        true
    }
}

/// `s[from..to]` as a new vector.
fn vec_range(s: &Vec<char>, from: usize, to: usize) -> (r: Vec<char>)
    requires
        from <= to <= s.len(),
    ensures
        r@ == s@.subrange(from as int, to as int),
{
    let mut r: Vec<char> = Vec::new();
    let mut i = from;
    while i < to
        invariant
            from <= i <= to <= s.len(),
            r@ == s@.subrange(from as int, i as int),
        decreases to - i,
    {
        r.push(s[i]);
        i = i + 1;
        assert(r@ =~= s@.subrange(from as int, i as int));
    }
    r
}

/// The last pair with a key decides that key's value.
proof fn lemma_pairs_map_last(keys: Seq<Seq<char>>, counts: Seq<u64>, i: int, k: Seq<char>)
    requires
        keys.len() == counts.len(),
        0 <= i < keys.len(),
        keys[i] == k,
        forall|j: int| i < j < keys.len() ==> keys[j] != k,
    ensures
        pairs_map(keys, counts).contains_key(k),
        pairs_map(keys, counts)[k] == counts[i],
    decreases keys.len(),
{
    if i < keys.len() - 1 {
        lemma_pairs_map_last(keys.drop_last(), counts.drop_last(), i, k);
    }
}

proof fn lemma_pairs_map_absent(keys: Seq<Seq<char>>, counts: Seq<u64>, k: Seq<char>)
    requires
        keys.len() == counts.len(),
        forall|j: int| 0 <= j < keys.len() ==> keys[j] != k,
    ensures
        !pairs_map(keys, counts).contains_key(k),
    decreases keys.len(),
{
    if keys.len() > 0 {
        lemma_pairs_map_absent(keys.drop_last(), counts.drop_last(), k);
    }
}

proof fn lemma_split_lines_nonempty(s: Seq<char>)
    ensures
        split_lines(s).len() >= 1,
    decreases s.len(),
{
    if s.len() > 0 {
        lemma_split_lines_nonempty(s.drop_last());
    }
}

/// Once the complete lines of a prefix fail to load, the complete lines of
/// every longer prefix fail too.
proof fn lemma_load_none_extends(s: Seq<char>, n: int, m: int)
    requires
        0 <= n <= m <= s.len(),
        load_lines(split_lines(s.take(n)).drop_last()) is None,
    ensures
        load_lines(split_lines(s.take(m)).drop_last()) is None,
    decreases m - n,
{
    if m > n {
        lemma_load_none_extends(s, n, m - 1);
        let before = split_lines(s.take(m - 1));
        lemma_split_lines_nonempty(s.take(m - 1));
        assert(s.take(m).drop_last() =~= s.take(m - 1));
        if s[m - 1] == '\n' {
            assert(split_lines(s.take(m)).drop_last() =~= before);
        } else {
            assert(split_lines(s.take(m)).drop_last() =~= before.drop_last());
        }
    }
}

/// A text whose complete lines fail to load fails to load.
proof fn lemma_load_none_whole(s: Seq<char>, n: int)
    requires
        0 <= n <= s.len(),
        load_lines(split_lines(s.take(n)).drop_last()) is None,
    ensures
        load_lines(split_lines(s)) is None,
{
    lemma_load_none_extends(s, n, s.len() as int);
    assert(s.take(s.len() as int) =~= s);
    lemma_split_lines_nonempty(s);
}

} // verus!

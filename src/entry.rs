//! One `HASH:COUNT` record of the breach dataset.
use crate::text::{
    ascii_lower, chars_of, compare_chars, contains_char, count_value, decimal_text, find_char,
    first_index_of, is_count_text, lemma_decimal_text, lemma_first_index_at, lemma_lex_lt_asymmetric,
    lemma_lex_lt_irreflexive, lemma_lex_lt_transitive, lemma_lower_idempotent, lex_le, lex_lt,
    lower_char, lower_string_of, push_char, push_decimal, string_of, unsigned_digits,
};
use crypto::digest::Digest;
use vstd::prelude::*;
use vstd::utf8::{is_ascii_chars, is_ascii_chars_encode_utf8};

verus! {

/// Number of characters of a SHA-1 digest written in hexadecimal.
pub const HASH_LEN: usize = 40;

/// Number of leading hash characters that name a shard.
pub const PREFIX_LEN: usize = 4;

/// Why one line could not be read as a record.
#[derive(Debug, Clone, Copy, PartialEq, Eq, Structural)]
pub enum HashLineFormatError {
    NoOccurrenceCountFound,
    NotAValidSha1Hash,
    MultipleHashLines,
}

impl HashLineFormatError {
    /// A sentence that describes the error.
    pub fn to_string(&self) -> (r: &'static str)
        ensures
            r@ == match self {
                HashLineFormatError::NotAValidSha1Hash => "It seems that the supplied hash string is not a valid SHA-1 hash"@,
                HashLineFormatError::MultipleHashLines => "It seems that the supplied string contains more than one line"@,
                HashLineFormatError::NoOccurrenceCountFound => "Could not find a occurrence count in the supplied string"@,
            },
    {
        match self {
            HashLineFormatError::NotAValidSha1Hash => "It seems that the supplied hash string is not a valid SHA-1 hash",
            HashLineFormatError::MultipleHashLines => "It seems that the supplied string contains more than one line",
            HashLineFormatError::NoOccurrenceCountFound => "Could not find a occurrence count in the supplied string",
        }
    }
}

/// What a line says, if it is a record: its canonical (lower-case) hash and
/// its count.
///
/// A line that holds a line feed is refused first; then one without a `:`;
/// then one whose hash part is not 40 characters long; then one whose part
/// after the first `:` is not a count.
pub open spec fn parse_spec(line: Seq<char>) -> Result<(Seq<char>, u64), HashLineFormatError> {
    if line.contains('\n') {
        Err(HashLineFormatError::MultipleHashLines)
    } else {
        match first_index_of(line, ':') {
            None => Err(HashLineFormatError::NoOccurrenceCountFound),
            Some(k) => {
                let hash = ascii_lower(line.take(k));
                let count = line.skip(k + 1);
                if hash.len() != HASH_LEN {
                    Err(HashLineFormatError::NotAValidSha1Hash)
                } else if !is_count_text(count) {
                    Err(HashLineFormatError::NoOccurrenceCountFound)
                } else {
                    Ok((hash, count_value(count) as u64))
                }
            },
        }
    }
}

/// The serialized form of a record: `hash:occurrences` and a line feed.
pub open spec fn line_text(hash: Seq<char>, occurrences: u64) -> Seq<char> {
    hash + seq![':'] + decimal_text(occurrences as nat) + seq!['\n']
}

/// A line as read from a file with one terminator (`\n` or `\r\n`) removed.
pub open spec fn strip_terminator(line: Seq<char>) -> Seq<char> {
    if line.len() >= 2 && line[line.len() - 2] == '\r' && line[line.len() - 1] == '\n' {
        line.take(line.len() - 2)
    } else if line.len() >= 1 && line[line.len() - 1] == '\n' {
        line.take(line.len() - 1)
    } else {
        line
    }
}

/// The shard name of a hash: its first four characters (the whole hash if it
/// is shorter).
pub open spec fn prefix_of(hash: Seq<char>) -> Seq<char> {
    if hash.len() >= PREFIX_LEN {
        hash.take(PREFIX_LEN as int)
    } else {
        hash
    }
}

/// Number of bytes of `s` (its UTF-8 encoding), as `str::len` gives it.
pub open spec fn byte_len(s: &str) -> nat {
    s.len() as nat
}

/// Lower-case hexadecimal digit.
pub open spec fn is_lower_hex(c: char) -> bool {
    ('0' <= c && c <= '9') || ('a' <= c && c <= 'f')
}

/// The SHA-1 digest of the UTF-8 bytes of a password, in lower-case
/// hexadecimal.
pub uninterp spec fn sha1_hex_of(password: Seq<char>) -> Seq<char>;

/// Relies on `crypto::sha1::Sha1` with `Digest::input_str` and
/// `Digest::result_str`: the digest of the password's bytes, written as 40
/// lower-case hexadecimal digits (`result_str` hex-encodes the 20 output
/// bytes with `0123456789abcdef`).
#[verifier::external_body]
fn sha1_hex(password: &str) -> (r: String)
    ensures
        r@ == sha1_hex_of(password@),
        r@.len() == HASH_LEN,
        forall|i: int| 0 <= i < r@.len() ==> is_lower_hex(#[trigger] r@[i]),
{
    let mut hasher = crypto::sha1::Sha1::new();
    hasher.input_str(password);
    hasher.result_str()
}

/// What a record holds, as the contracts see it.
pub struct EntryModel {
    pub hash: Seq<char>,
    pub occurrences: u64,
    pub size: u64,
}

/// A single password hash record.
pub struct PasswordHashEntry {
    hash: String,
    occurrences: u64,
    entry_size: u64,
}

impl View for PasswordHashEntry {
    type V = EntryModel;

    closed spec fn view(&self) -> EntryModel {
        EntryModel { hash: self.hash@, occurrences: self.occurrences, size: self.entry_size }
    }
}

impl PasswordHashEntry {
    /// The hash is in canonical form: lower-casing leaves it unchanged.
    pub open spec fn is_canonical(&self) -> bool {
        ascii_lower(self@.hash) == self@.hash
    }

    /// Bytes the record took in its source line.
    pub fn get_size_in_bytes(&self) -> (r: u64)
        ensures
            r == self@.size,
    {
        self.entry_size
    }

    /// The shard name of the record: the first four characters of its hash.
    pub fn get_prefix(&self) -> (r: String)
        ensures
            r@ == prefix_of(self@.hash),
    {
        let cs = chars_of(self.hash.as_str());
        let n = if cs.len() >= PREFIX_LEN {
            PREFIX_LEN
        } else {
            cs.len()
        };
        let r = string_of(&cs, 0, n);
        assert(cs@.subrange(0, n as int) =~= prefix_of(self@.hash));
        r
    }

    pub fn get_occurrences(&self) -> (r: u64)
        ensures
            r == self@.occurrences,
    {
        self.occurrences
    }

    pub fn get_hash(&self) -> (r: String)
        ensures
            r@ == self@.hash,
    {
        self.hash.clone()
    }

    /// The record as a line of a dataset or shard file.
    pub fn get_line_to_write(&self) -> (r: String)
        ensures
            r@ == line_text(self@.hash, self@.occurrences),
    {
        let mut r = self.hash.clone();
        push_char(&mut r, ':');
        push_decimal(&mut r, self.occurrences);
        push_char(&mut r, '\n');
        assert(r@ =~= line_text(self@.hash, self@.occurrences));
        r
    }

    /// The search key for a hash given in hexadecimal: the hash lower-cased,
    /// no count, and the size of the line `hash:0` without terminator.
    pub fn from_hash_hex(hex: &str) -> (r: PasswordHashEntry)
        requires
            byte_len(hex) + 2 <= u64::MAX,
        ensures
            r@.hash == ascii_lower(hex@),
            r@.occurrences == 0,
            r@.size == byte_len(hex) + 2,
            r.is_canonical(),
    {
        let cs = chars_of(hex);
        let hash = lower_string_of(&cs, 0, cs.len());
        proof {
            assert(cs@.subrange(0, cs@.len() as int) =~= hex@);
            crate::text::lemma_lower_idempotent(hex@);
        }
        PasswordHashEntry { hash, occurrences: 0, entry_size: hex.len() as u64 + 2 }
    }

    /// The search key for a password: its SHA-1 digest in hexadecimal, no
    /// count, and a size of 42 bytes.
    pub fn from_password(password: &str) -> (r: PasswordHashEntry)
        ensures
            r@.hash == sha1_hex_of(password@),
            r@.occurrences == 0,
            r@.size == HASH_LEN + 2,
            r.is_canonical(),
    {
        let hex = sha1_hex(password);
        let h = hex.as_str();
        proof {
            assert(is_ascii_chars(h@)) by {
                assert forall|i: int| 0 <= i < h@.len() implies '\0' <= #[trigger] h@[i] <= '\u{7f}' by {
                    assert(is_lower_hex(h@[i]));
                }
            }
            is_ascii_chars_encode_utf8(h@);
            assert(ascii_lower(h@) =~= h@) by {
                assert forall|i: int| 0 <= i < h@.len() implies lower_char(h@[i]) == h@[i] by {
                    assert(is_lower_hex(h@[i]));
                }
            }
        }
        Self::from_hash_hex(h)
    }

    /// Reads one line (without its terminator) as a record.
    pub fn from_str(input_str: &str) -> (r: Result<PasswordHashEntry, HashLineFormatError>)
        ensures
            match r {
                Ok(e) => {
                    &&& parse_spec(input_str@) == Ok::<(Seq<char>, u64), HashLineFormatError>(
                        (e@.hash, e@.occurrences),
                    )
                    &&& e@.size == byte_len(input_str)
                    &&& e.is_canonical()
                },
                Err(err) => parse_spec(input_str@) == Err::<(Seq<char>, u64), HashLineFormatError>(
                    err,
                ),
            },
    {
        let cs = chars_of(input_str);
        Self::from_chars(&cs, input_str.len() as u64)
    }

    /// Reads a line as read from a file, terminator included: the terminator
    /// is removed before parsing and counted in the size.
    pub fn from_raw_line(raw_line: &str) -> (r: Result<PasswordHashEntry, HashLineFormatError>)
        ensures
            match r {
                Ok(e) => {
                    &&& parse_spec(strip_terminator(raw_line@)) == Ok::<
                        (Seq<char>, u64),
                        HashLineFormatError,
                    >((e@.hash, e@.occurrences))
                    &&& e@.size == byte_len(raw_line)
                    &&& e.is_canonical()
                },
                Err(err) => parse_spec(strip_terminator(raw_line@)) == Err::<
                    (Seq<char>, u64),
                    HashLineFormatError,
                >(err),
            },
    {
        let cs = chars_of(raw_line);
        let n = cs.len();
        let end = if n >= 2 && cs[n - 2] == '\r' && cs[n - 1] == '\n' {
            n - 2
        } else if n >= 1 && cs[n - 1] == '\n' {
            n - 1
        } else {
            n
        };
        let body = vec_prefix(&cs, end);
        assert(body@ =~= strip_terminator(raw_line@));
        Self::from_chars(&body, raw_line.len() as u64)
    }

    fn from_chars(cs: &Vec<char>, size: u64) -> (r: Result<PasswordHashEntry, HashLineFormatError>)
        ensures
            match r {
                Ok(e) => {
                    &&& parse_spec(cs@) == Ok::<(Seq<char>, u64), HashLineFormatError>(
                        (e@.hash, e@.occurrences),
                    )
                    &&& e@.size == size
                    &&& e.is_canonical()
                },
                Err(err) => parse_spec(cs@) == Err::<(Seq<char>, u64), HashLineFormatError>(err),
            },
    {
        if contains_char(cs, '\n') {
            return Err(HashLineFormatError::MultipleHashLines);
        }
        let k = match find_char(cs, ':') {
            Some(k) => k,
            None => {
                return Err(HashLineFormatError::NoOccurrenceCountFound);
            },
        };
        let hash = lower_string_of(cs, 0, k);
        assert(cs@.subrange(0, k as int) =~= cs@.take(k as int));
        assert(cs@.subrange(k + 1, cs@.len() as int) =~= cs@.skip(k + 1));
        if k != HASH_LEN {
            return Err(HashLineFormatError::NotAValidSha1Hash);
        }
        let occurrences = match crate::text::parse_count(cs, k + 1, cs.len()) {
            Some(v) => v,
            None => {
                return Err(HashLineFormatError::NoOccurrenceCountFound);
            },
        };
        proof {
            crate::text::lemma_lower_idempotent(cs@.take(k as int));
        }
        Ok(PasswordHashEntry { hash, occurrences, entry_size: size })
    }

    /// Whether the two records carry the same hash.
    pub fn same_hash(&self, other: &PasswordHashEntry) -> (r: bool)
        ensures
            r == (self@.hash == other@.hash),
    {
        self.hash == other.hash
    }

    /// Ordinal comparison of the hashes: `-1`, `0` or `1` as this record
    /// sorts before, with, or after `other`.
    pub fn compare_hash(&self, other: &PasswordHashEntry) -> (r: i8)
        ensures
            r == 0 <==> self@.hash == other@.hash,
            r < 0 <==> lex_lt(self@.hash, other@.hash),
            r > 0 <==> lex_lt(other@.hash, self@.hash),
    {
        let a = chars_of(self.hash.as_str());
        let b = chars_of(other.hash.as_str());
        compare_chars(&a, &b)
    }
}

/// Where a line `h:c` whose hash part `h` has no `:` splits.
proof fn lemma_split_at_hash(h: Seq<char>, c: Seq<char>)
    requires
        !h.contains(':'),
    ensures
        first_index_of(h + seq![':'] + c, ':') == Some(h.len() as int),
        (h + seq![':'] + c).take(h.len() as int) == h,
        (h + seq![':'] + c).skip(h.len() as int + 1) == c,
{
    let s = h + seq![':'] + c;
    assert forall|j: int| 0 <= j < h.len() implies s[j] != ':' by {
        assert(s[j] == h[j]);
        if h[j] == ':' {
            assert(h.contains(':'));
        }
    }
    lemma_first_index_at(s, ':', h.len() as int);
    assert(s.take(h.len() as int) =~= h);
    assert(s.skip(h.len() as int + 1) =~= c);
}

/// A count text holds digits and at most a `+`, never a line feed.
proof fn lemma_count_text_single_line(c: Seq<char>)
    requires
        is_count_text(c),
    ensures
        !c.contains('\n'),
{
    if c.contains('\n') {
        let i = choose|i: int| 0 <= i < c.len() && c[i] == '\n';
        if c.len() > 0 && c[0] == '+' {
            assert(i > 0);
            assert(unsigned_digits(c)[i - 1] == c[i]);
        } else {
            assert(unsigned_digits(c)[i] == c[i]);
        }
    }
}

proof fn lemma_single_line_concat(h: Seq<char>, c: Seq<char>)
    requires
        !h.contains('\n'),
        !c.contains('\n'),
    ensures
        !(h + seq![':'] + c).contains('\n'),
{
    let s = h + seq![':'] + c;
    if s.contains('\n') {
        let i = choose|i: int| 0 <= i < s.len() && s[i] == '\n';
        if i < h.len() {
            assert(h[i] == '\n');
        } else if i > h.len() {
            assert(c[i - h.len() - 1] == '\n');
        }
    }
}

/// A well-formed line `H:C` (a 40-character hash part without `:` or line
/// feed, and a count `C`) parses to the lower-cased hash and the value of
/// `C`.
pub proof fn lemma_parse_valid_line(h: Seq<char>, c: Seq<char>)
    requires
        h.len() == HASH_LEN,
        !h.contains(':'),
        !h.contains('\n'),
        is_count_text(c),
    ensures
        parse_spec(h + seq![':'] + c) == Ok::<(Seq<char>, u64), HashLineFormatError>(
            (ascii_lower(h), count_value(c) as u64),
        ),
{
    lemma_split_at_hash(h, c);
    lemma_count_text_single_line(c);
    lemma_single_line_concat(h, c);
}

/// A single line `H:C` whose hash part is not 40 characters long is refused
/// for its hash, whatever `C` holds.
pub proof fn lemma_parse_rejects_hash_length(h: Seq<char>, c: Seq<char>)
    requires
        h.len() != HASH_LEN,
        !h.contains(':'),
        !h.contains('\n'),
        !c.contains('\n'),
    ensures
        parse_spec(h + seq![':'] + c) == Err::<(Seq<char>, u64), HashLineFormatError>(
            HashLineFormatError::NotAValidSha1Hash,
        ),
{
    lemma_split_at_hash(h, c);
    lemma_single_line_concat(h, c);
}

/// Any input that holds a line feed is refused as more than one line, before
/// it is split at `:`.
pub proof fn lemma_parse_rejects_multiple_lines(line: Seq<char>)
    requires
        line.contains('\n'),
    ensures
        parse_spec(line) == Err::<(Seq<char>, u64), HashLineFormatError>(
            HashLineFormatError::MultipleHashLines,
        ),
{
}

/// Writing a record out as `hash:occurrences` and a line feed, and reading
/// that line back, gives the same hash and count.
pub proof fn lemma_line_round_trip(hash: Seq<char>, occurrences: u64)
    requires
        hash.len() == HASH_LEN,
        ascii_lower(hash) == hash,
        !hash.contains(':'),
        !hash.contains('\n'),
    ensures
        parse_spec(strip_terminator(line_text(hash, occurrences))) == Ok::<
            (Seq<char>, u64),
            HashLineFormatError,
        >((hash, occurrences)),
{
    let c = decimal_text(occurrences as nat);
    lemma_decimal_text(occurrences as nat);
    let line = line_text(hash, occurrences);
    assert(strip_terminator(line) =~= hash + seq![':'] + c);
    assert(unsigned_digits(c) == c);
    lemma_parse_valid_line(hash, c);
}

/// Lower-casing the hash part of a line does not change what it parses to.
pub proof fn lemma_parse_case_insensitive(h: Seq<char>, c: Seq<char>)
    requires
        !h.contains(':'),
    ensures
        parse_spec(h + seq![':'] + c) == parse_spec(ascii_lower(h) + seq![':'] + c),
{
    let l = ascii_lower(h);
    assert(!l.contains(':')) by {
        if l.contains(':') {
            let i = choose|i: int| 0 <= i < l.len() && l[i] == ':';
            assert(h[i] == ':');
        }
    }
    lemma_split_at_hash(h, c);
    lemma_split_at_hash(l, c);
    lemma_lower_idempotent(h);
    let s1 = h + seq![':'] + c;
    let s2 = l + seq![':'] + c;
    assert(s1.contains('\n') == s2.contains('\n')) by {
        if s1.contains('\n') {
            let i = choose|i: int| 0 <= i < s1.len() && s1[i] == '\n';
            if i < h.len() {
                assert(s2[i] == lower_char(h[i]));
            }
            assert(s2[i] == '\n');
        }
        if s2.contains('\n') {
            let i = choose|i: int| 0 <= i < s2.len() && s2[i] == '\n';
            assert(s1[i] == '\n');
        }
    }
}

/// The hashes of a run of records, in order.
pub open spec fn hashes_of(recs: Seq<EntryModel>) -> Seq<Seq<char>> {
    recs.map_values(|e: EntryModel| e.hash)
}

/// Hashes in strictly ascending ordinal order, as the lines of a correctly
/// sorted dataset are: each hash sorts before the next.
pub open spec fn is_sorted_dataset(hashes: Seq<Seq<char>>) -> bool {
    forall|i: int| 0 <= i < hashes.len() - 1 ==> lex_lt(#[trigger] hashes[i], hashes[i + 1])
}

/// In a sorted dataset every hash sorts before every later one.
pub proof fn lemma_sorted_before(hashes: Seq<Seq<char>>, i: int, j: int)
    requires
        is_sorted_dataset(hashes),
        0 <= i < j < hashes.len(),
    ensures
        lex_lt(hashes[i], hashes[j]),
    decreases j - i,
{
    if j > i + 1 {
        lemma_sorted_before(hashes, i, j - 1);
        assert(lex_lt(hashes[j - 1], hashes[j]));
        lemma_lex_lt_transitive(hashes[i], hashes[j - 1], hashes[j]);
    }
}

/// In a sorted dataset, of two different lines, `A` comes before `B`
/// exactly when `A`'s hash is at most `B`'s.
pub proof fn lemma_sorted_order(hashes: Seq<Seq<char>>, a: int, b: int)
    requires
        is_sorted_dataset(hashes),
        0 <= a < hashes.len(),
        0 <= b < hashes.len(),
        a != b,
    ensures
        a < b <==> lex_le(hashes[a], hashes[b]),
{
    if a < b {
        lemma_sorted_before(hashes, a, b);
    } else {
        lemma_sorted_before(hashes, b, a);
        lemma_lex_lt_asymmetric(hashes[a], hashes[b]);
        lemma_lex_lt_irreflexive(hashes[a]);
    }
}

impl std::str::FromStr for PasswordHashEntry {
    type Err = HashLineFormatError;

    fn from_str(input_str: &str) -> Result<PasswordHashEntry, HashLineFormatError> {
        PasswordHashEntry::from_str(input_str)
    }
}

/// Records are equal when their hashes are: counts and sizes take no part.
impl PartialEq for PasswordHashEntry {
    fn eq(&self, other: &PasswordHashEntry) -> (r: bool) {
        self.hash == other.hash
    }
}

impl vstd::std_specs::cmp::PartialEqSpecImpl for PasswordHashEntry {
    open spec fn obeys_eq_spec() -> bool {
        true
    }

    open spec fn eq_spec(&self, other: &PasswordHashEntry) -> bool {
        self@.hash == other@.hash
    }
}

/// The first `n` characters of `cs`.
fn vec_prefix(cs: &Vec<char>, n: usize) -> (r: Vec<char>)
    requires
        n <= cs.len(),
    ensures
        r@ == cs@.take(n as int),
{
    let mut r: Vec<char> = Vec::new();
    let mut i: usize = 0;
    while i < n
        invariant
            i <= n <= cs.len(),
            r@ == cs@.take(i as int),
        decreases n - i,
    {
        r.push(cs[i]);
        i = i + 1;
        assert(r@ =~= cs@.take(i as int));
    }
    r
}

} // verus!

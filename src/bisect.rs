//! The divide-and-conquer lookup over the sorted dataset file itself.
//!
//! The search keeps a bracket `[head, tail)` of byte offsets. Each step
//! probes the middle offset: the caller seeks there, reads and discards the
//! rest of the line it landed in, reads the next full line (the candidate)
//! and hands it to [`SearchBracket::observe`], which decides how the bracket
//! narrows and whether the search is over.
use crate::entry::{
    hashes_of, is_sorted_dataset, lemma_line_round_trip, lemma_sorted_before, line_text, parse_spec,
    is_lower_hex, strip_terminator, EntryModel, HashLineFormatError, PasswordHashEntry, HASH_LEN,
};
use crate::text::{ascii_lower, lower_char, lemma_decimal_text, lemma_lex_lt_asymmetric, lemma_lex_lt_irreflexive, lex_lt};
use vstd::prelude::*;

verus! {

/// The shortest record: a 40-character hash, the separator and one digit.
pub const MIN_RECORD_SIZE: u64 = 42;

/// The outcome of one search step.
#[derive(Debug, Clone, Copy, PartialEq, Eq, Structural)]
pub enum SearchStep {
    /// The candidate is the target: its count.
    Found(u64),
    /// The bracket is too narrow to hold a record: the target is absent.
    NotFound,
    /// The bracket narrowed; probe again.
    Continue,
    /// The candidate line is not a record.
    Malformed(HashLineFormatError),
}

/// The bracket as the contracts see it.
pub struct BracketModel {
    pub head: u64,
    pub tail: u64,
}

/// The offset a step probes: the middle of the bracket, rounded down.
pub open spec fn probe_offset(b: BracketModel) -> u64 {
    (b.head + (b.tail - b.head) / 2) as u64
}

/// One step of the search, given the candidate line read after the probe
/// offset (empty at the end of the file) and the target hash.
///
/// An empty candidate means no line starts after the probe, which narrows
/// the bracket as a candidate after the target does. A candidate that is not
/// a record stops the search. Otherwise an equal hash is found; a smaller one
/// moves the head to the probe, a larger one the tail. A bracket left
/// narrower than the shortest record cannot hold the target.
pub open spec fn search_step(b: BracketModel, candidate: Seq<char>, target: Seq<char>) -> (
    BracketModel,
    SearchStep,
) {
    let mid = probe_offset(b);
    let narrowed = if candidate.len() == 0 {
        Ok(BracketModel { head: b.head, tail: mid })
    } else {
        match parse_spec(strip_terminator(candidate)) {
            Err(e) => Err(SearchStep::Malformed(e)),
            Ok(rec) => if rec.0 == target {
                Err(SearchStep::Found(rec.1))
            } else if lex_lt(rec.0, target) {
                Ok(BracketModel { head: mid, tail: b.tail })
            } else {
                Ok(BracketModel { head: b.head, tail: mid })
            },
        }
    };
    match narrowed {
        Err(done) => (b, done),
        Ok(nb) => if nb.tail - nb.head < MIN_RECORD_SIZE {
            (nb, SearchStep::NotFound)
        } else {
            (nb, SearchStep::Continue)
        },
    }
}

/// The state of one lookup: the file size and the bracket.
pub struct SearchBracket {
    file_size: u64,
    head_position: u64,
    tail_position: u64,
}

impl View for SearchBracket {
    type V = BracketModel;

    closed spec fn view(&self) -> BracketModel {
        BracketModel { head: self.head_position, tail: self.tail_position }
    }
}

impl SearchBracket {
    pub closed spec fn wf(&self) -> bool {
        self.head_position <= self.tail_position <= self.file_size
    }

    pub closed spec fn spec_file_size(&self) -> u64 {
        self.file_size
    }

    /// A search over a whole file of `file_size` bytes.
    pub fn new(file_size: u64) -> (r: SearchBracket)
        ensures
            r.wf(),
            r@ == (BracketModel { head: 0, tail: file_size }),
            r.spec_file_size() == file_size,
    {
        SearchBracket { file_size, head_position: 0, tail_position: file_size }
    }

    /// The byte offset to seek to for the next step.
    pub fn next_offset(&self) -> (r: u64)
        requires
            self.wf(),
        ensures
            r == probe_offset(self@),
            self@.head <= r <= self@.tail,
    {
        self.head_position + (self.tail_position - self.head_position) / 2
    }

    /// Takes the candidate line read after the probe offset (terminator
    /// included; empty at the end of the file) and narrows the bracket.
    pub fn observe(&mut self, candidate: &str, target: &PasswordHashEntry) -> (r: SearchStep)
        requires
            old(self).wf(),
        ensures
            final(self).wf(),
            final(self).spec_file_size() == old(self).spec_file_size(),
            (final(self)@, r) == search_step(old(self)@, candidate@, target@.hash),
    {
        let mid = self.next_offset();
        let greater = if candidate.is_empty() {
            true
        } else {
            let entry = match PasswordHashEntry::from_raw_line(candidate) {
                Ok(e) => e,
                Err(e) => {
                    return SearchStep::Malformed(e);
                },
            };
            let ord = entry.compare_hash(target);
            if ord == 0 {
                return SearchStep::Found(entry.get_occurrences());
            }
            ord > 0
        };
        if greater {
            self.tail_position = mid;
        } else {
            self.head_position = mid;
        }
        if self.tail_position - self.head_position < MIN_RECORD_SIZE {
            SearchStep::NotFound
        } else {
            SearchStep::Continue
        }
    }
}

/// The lines of a dataset file holding `recs`, in order.
pub open spec fn lines_of(recs: Seq<EntryModel>) -> Seq<Seq<char>> {
    recs.map_values(|e: EntryModel| line_text(e.hash, e.occurrences))
}

/// Byte offset at which line `k` starts: the length of the lines before it
/// (for ASCII lines, as dataset lines are, characters are bytes).
pub open spec fn line_start(lines: Seq<Seq<char>>, k: int) -> int
    decreases k,
{
    if k <= 0 {
        0
    } else {
        line_start(lines, k - 1) + lines[k - 1].len()
    }
}

/// Line `j` holds the byte at `offset`.
pub open spec fn holds_offset(lines: Seq<Seq<char>>, j: int, offset: int) -> bool {
    line_start(lines, j) <= offset < line_start(lines, j + 1)
}

/// The candidate a probe at `offset` reads from a file made of `lines`, each
/// ending in its only line feed: seeking to `offset` and reading one line
/// ends that line, so the next read gives the line after the one holding
/// `offset`, or nothing where there is none.
pub open spec fn candidate_at(lines: Seq<Seq<char>>, offset: int) -> Seq<char> {
    if exists|j: int| 0 <= j < lines.len() - 1 && holds_offset(lines, j, offset) {
        let j = choose|j: int| 0 <= j < lines.len() - 1 && holds_offset(lines, j, offset);
        lines[j + 1]
    } else {
        Seq::empty()
    }
}

/// Where a whole search over the file made of `lines` ends, stepping from
/// bracket `b` for as long as the steps say to continue.
pub open spec fn search_outcome(lines: Seq<Seq<char>>, target: Seq<char>, b: BracketModel) -> SearchStep
    decreases b.tail - b.head,
{
    if b.head > b.tail {
        SearchStep::NotFound
    } else {
        let (nb, r) = search_step(b, candidate_at(lines, probe_offset(b) as int), target);
        if r == SearchStep::Continue && nb.head <= nb.tail && nb.tail - nb.head < b.tail - b.head {
            search_outcome(lines, target, nb)
        } else {
            r
        }
    }
}

/// Records as a dataset file holds them: hashes of 40 lower-case
/// hexadecimal digits (so every line is ASCII and its characters are its
/// bytes), strictly sorted.
pub open spec fn is_dataset(recs: Seq<EntryModel>) -> bool {
    &&& is_sorted_dataset(hashes_of(recs))
    &&& forall|i: int|
        0 <= i < recs.len() ==> {
            let h = #[trigger] recs[i].hash;
            &&& h.len() == HASH_LEN
            &&& forall|j: int| 0 <= j < h.len() ==> is_lower_hex(#[trigger] h[j])
        }
}

/// Every line of a dataset is at least 43 bytes long and reads back as its
/// record.
proof fn lemma_dataset_line(recs: Seq<EntryModel>, i: int)
    requires
        is_dataset(recs),
        0 <= i < recs.len(),
    ensures
        lines_of(recs)[i].len() >= MIN_RECORD_SIZE + 1,
        parse_spec(strip_terminator(lines_of(recs)[i])) == Ok::<(Seq<char>, u64), HashLineFormatError>(
            (recs[i].hash, recs[i].occurrences),
        ),
{
    let e = recs[i];
    let h = e.hash;
    assert(ascii_lower(h) =~= h) by {
        assert forall|j: int| 0 <= j < h.len() implies lower_char(h[j]) == h[j] by {
            assert(is_lower_hex(h[j]));
        }
    }
    assert forall|c: char| (c == ':' || c == '\n') && #[trigger] h.contains(c) implies false by {
        let j = choose|j: int| 0 <= j < h.len() && h[j] == c;
        assert(is_lower_hex(h[j]));
    }
    lemma_decimal_text(e.occurrences as nat);
    lemma_line_round_trip(e.hash, e.occurrences);
}

proof fn lemma_line_start_grows(recs: Seq<EntryModel>, a: int, b: int)
    requires
        is_dataset(recs),
        0 <= a < b <= recs.len(),
    ensures
        line_start(lines_of(recs), b) >= line_start(lines_of(recs), a + 1),
        line_start(lines_of(recs), a + 1) >= line_start(lines_of(recs), a) + MIN_RECORD_SIZE + 1,
    decreases b - a,
{
    lemma_dataset_line(recs, a);
    if b > a + 1 {
        lemma_line_start_grows(recs, a, b - 1);
        lemma_dataset_line(recs, b - 1);
    }
}

proof fn lemma_line_start_nonneg(lines: Seq<Seq<char>>, k: int)
    ensures
        line_start(lines, k) >= 0,
    decreases k,
{
    if k > 0 {
        lemma_line_start_nonneg(lines, k - 1);
    }
}

/// Some line holds each offset inside the first `n` lines.
proof fn lemma_line_holding(recs: Seq<EntryModel>, n: int, offset: int)
    requires
        is_dataset(recs),
        0 <= n <= recs.len(),
        0 <= offset < line_start(lines_of(recs), n),
    ensures
        exists|j: int| 0 <= j < n && holds_offset(lines_of(recs), j, offset),
    decreases n,
{
    if n > 0 {
        if offset >= line_start(lines_of(recs), n - 1) {
            assert(holds_offset(lines_of(recs), n - 1, offset));
        } else {
            lemma_line_holding(recs, n - 1, offset);
            let j = choose|j: int| 0 <= j < n - 1 && holds_offset(lines_of(recs), j, offset);
            assert(holds_offset(lines_of(recs), j, offset));
        }
    }
}

/// The candidate at an offset held by line `j` is line `j + 1`, or nothing
/// after the last line.
proof fn lemma_candidate_of_holder(recs: Seq<EntryModel>, j: int, offset: int)
    requires
        is_dataset(recs),
        0 <= j < recs.len(),
        holds_offset(lines_of(recs), j, offset),
    ensures
        j + 1 < recs.len() ==> candidate_at(lines_of(recs), offset) == lines_of(recs)[j + 1],
        j + 1 == recs.len() ==> candidate_at(lines_of(recs), offset) == Seq::<char>::empty(),
{
    let lines = lines_of(recs);
    assert forall|i: int| 0 <= i < recs.len() && holds_offset(lines, i, offset) implies i == j by {
        if i < j {
            lemma_line_start_grows(recs, i, j);
        } else if j < i {
            lemma_line_start_grows(recs, j, i);
        }
    }
    if j + 1 < recs.len() {
        assert(holds_offset(lines, j, offset));
    }
}

/// The candidate at any offset is empty or a line after the first.
proof fn lemma_candidate_is_line(recs: Seq<EntryModel>, offset: int)
    requires
        is_dataset(recs),
    ensures
        candidate_at(lines_of(recs), offset) == Seq::<char>::empty() || exists|i: int|
            1 <= i < recs.len() && candidate_at(lines_of(recs), offset) == #[trigger] lines_of(recs)[i],
{
    let lines = lines_of(recs);
    if exists|j: int| 0 <= j < lines.len() - 1 && holds_offset(lines, j, offset) {
        let j = choose|j: int| 0 <= j < lines.len() - 1 && holds_offset(lines, j, offset);
        assert(candidate_at(lines, offset) == lines[j + 1]);
    }
}

/// A search step that continues narrows the bracket.
proof fn lemma_continue_narrows(b: BracketModel, candidate: Seq<char>, target: Seq<char>)
    requires
        b.head <= b.tail,
        search_step(b, candidate, target).1 == SearchStep::Continue,
    ensures
        search_step(b, candidate, target).0.head <= search_step(b, candidate, target).0.tail,
        search_step(b, candidate, target).0.tail - search_step(b, candidate, target).0.head < b.tail
            - b.head,
{
}

/// A search for a hash that no line of the dataset holds ends not found.
pub proof fn lemma_search_absent(recs: Seq<EntryModel>, target: Seq<char>, b: BracketModel)
    requires
        is_dataset(recs),
        forall|i: int| 0 <= i < recs.len() ==> (#[trigger] recs[i]).hash != target,
    ensures
        search_outcome(lines_of(recs), target, b) == SearchStep::NotFound,
    decreases b.tail - b.head,
{
    if b.head <= b.tail {
        let lines = lines_of(recs);
        let cand = candidate_at(lines, probe_offset(b) as int);
        lemma_candidate_is_line(recs, probe_offset(b) as int);
        if cand.len() > 0 {
            let i = choose|i: int| 1 <= i < recs.len() && cand == #[trigger] lines_of(recs)[i];
            lemma_dataset_line(recs, i);
        }
        let (nb, r) = search_step(b, cand, target);
        if r == SearchStep::Continue {
            lemma_continue_narrows(b, cand, target);
            lemma_search_absent(recs, target, nb);
        }
    }
}

/// A search for the hash of a line other than the first finds that line's
/// count, from any bracket that starts before the line, at least one record
/// length before it, and ends at or after it.
proof fn lemma_search_present_from(recs: Seq<EntryModel>, k: int, b: BracketModel)
    requires
        is_dataset(recs),
        1 <= k < recs.len(),
        b.head <= b.tail,
        line_start(lines_of(recs), k) <= b.tail,
        b.head + MIN_RECORD_SIZE + 1 <= line_start(lines_of(recs), k),
    ensures
        search_outcome(lines_of(recs), recs[k].hash, b) == SearchStep::Found(recs[k].occurrences),
    decreases b.tail - b.head,
{
    let lines = lines_of(recs);
    let target = recs[k].hash;
    let t = line_start(lines, k);
    let mid = probe_offset(b);
    let cand = candidate_at(lines, mid as int);
    lemma_line_start_nonneg(lines, 0);
    if t <= mid {
        // The line holding the probe is the target's line or a later one, so
        // the candidate sorts after the target or is past the end.
        lemma_candidate_is_line(recs, mid as int);
        if cand.len() > 0 {
            let i = choose|i: int| 1 <= i < recs.len() && cand == #[trigger] lines_of(recs)[i];
            lemma_dataset_line(recs, i);
            let j = i - 1;
            assert(holds_offset(lines, j, mid as int)) by {
                let jj = choose|jj: int| 0 <= jj < lines.len() - 1 && holds_offset(lines, jj, mid as int);
                lemma_candidate_of_holder(recs, jj, mid as int);
                lemma_dataset_line(recs, jj + 1);
                if jj != j {
                    // Lines with the same text hold the same hash, which a
                    // strictly sorted dataset has only once.
                    if jj + 1 < i {
                        lemma_sorted_before(hashes_of(recs), jj + 1, i);
                    } else {
                        lemma_sorted_before(hashes_of(recs), i, jj + 1);
                    }
                    assert(hashes_of(recs)[i] == recs[i].hash);
                    assert(hashes_of(recs)[jj + 1] == recs[jj + 1].hash);
                    lemma_lex_lt_irreflexive(recs[i].hash);
                }
            }
            if i <= k {
                lemma_line_start_grows(recs, j, k);
            }
            assert(i > k);
            lemma_sorted_before(hashes_of(recs), k, i);
            assert(hashes_of(recs)[i] == recs[i].hash);
            assert(hashes_of(recs)[k] == recs[k].hash);
            lemma_lex_lt_irreflexive(target);
            lemma_lex_lt_asymmetric(target, recs[i].hash);
        }
        let (nb, r) = search_step(b, cand, target);
        assert(nb == BracketModel { head: b.head, tail: mid });
        assert(r == SearchStep::Continue);
        lemma_search_present_from(recs, k, nb);
    } else {
        // The line holding the probe comes before the target's line, so the
        // candidate is the target or sorts before it.
        lemma_line_holding(recs, k, mid as int);
        let j = choose|j: int| 0 <= j < k && holds_offset(lines, j, mid as int);
        lemma_candidate_of_holder(recs, j, mid as int);
        lemma_dataset_line(recs, j + 1);
        if j + 1 < k {
            lemma_sorted_before(hashes_of(recs), j + 1, k);
            assert(hashes_of(recs)[j + 1] == recs[j + 1].hash);
            assert(hashes_of(recs)[k] == recs[k].hash);
            lemma_lex_lt_irreflexive(target);
            lemma_line_start_grows(recs, j + 1, k);
            let (nb, r) = search_step(b, cand, target);
            assert(nb == BracketModel { head: mid, tail: b.tail });
            assert(r == SearchStep::Continue);
            lemma_search_present_from(recs, k, nb);
        }
    }
}

/// A search of a sorted dataset file for the hash of any line but the first
/// finds that line's count. (The first line is never a candidate: a probe
/// always reads the line after the one it lands in.)
pub proof fn lemma_search_finds_record(recs: Seq<EntryModel>, k: int)
    requires
        is_dataset(recs),
        1 <= k < recs.len(),
        line_start(lines_of(recs), recs.len() as int) <= u64::MAX,
    ensures
        search_outcome(
            lines_of(recs),
            recs[k].hash,
            BracketModel { head: 0, tail: line_start(lines_of(recs), recs.len() as int) as u64 },
        ) == SearchStep::Found(recs[k].occurrences),
{
    lemma_line_start_grows(recs, 0, k);
    lemma_line_start_nonneg(lines_of(recs), 0);
    if k + 1 < recs.len() {
        lemma_line_start_grows(recs, k, recs.len() as int);
    } else {
        lemma_line_start_grows(recs, k, k + 1);
    }
    lemma_search_present_from(
        recs,
        k,
        BracketModel { head: 0, tail: line_start(lines_of(recs), recs.len() as int) as u64 },
    );
}

} // verus!

//! The prefix-sharding indexer: one pass over the sorted dataset that routes
//! each record to the shard file named by its hash prefix.
//!
//! The indexer decides; the caller does the file work. For each record it
//! is told whether to open (create or truncate) a new shard file first, and
//! which line to append to the file that is open.
use crate::entry::{
    hashes_of, is_sorted_dataset, lemma_sorted_before, line_text, prefix_of, EntryModel, PasswordHashEntry,
    HASH_LEN, PREFIX_LEN,
};
use crate::text::{lemma_lex_lt_asymmetric, lemma_lex_lt_irreflexive, lemma_lex_lt_prefix,
    lemma_lex_lt_transitive, lex_le, lex_lt};
use vstd::prelude::*;
use vstd::string::StringExecFns;

verus! {

/// What the indexer remembers between records.
pub struct IndexerModel {
    pub last_prefix: Option<Seq<char>>,
    pub shard_count: u64,
    pub processed: u64,
    pub total: u64,
}

/// Whether a record opens a new shard: its prefix is not the one of the
/// shard that is open.
pub open spec fn opens_shard(last_prefix: Option<Seq<char>>, hash: Seq<char>) -> bool {
    last_prefix != Some(prefix_of(hash))
}

/// The indexer after one record: its prefix becomes the open shard, a new
/// shard is counted if one was opened, and the bytes consumed grow by the
/// record's size, never beyond the input's total size.
pub open spec fn index_step(s: IndexerModel, e: EntryModel) -> IndexerModel {
    IndexerModel {
        last_prefix: Some(prefix_of(e.hash)),
        shard_count: if opens_shard(s.last_prefix, e.hash) {
            (s.shard_count + 1) as u64
        } else {
            s.shard_count
        },
        processed: if e.size + s.processed > s.total {
            s.total
        } else {
            (s.processed + e.size) as u64
        },
        total: s.total,
    }
}

/// The file name of a shard: its prefix and `.txt`.
pub open spec fn shard_file_name(prefix: Seq<char>) -> Seq<char> {
    prefix + seq!['.', 't', 'x', 't']
}

/// The indexer for one pass over an input of `file_size` bytes.
pub struct ShardIndexer {
    last_prefix: Option<String>,
    shard_count: u64,
    processed_bytes: u64,
    file_size: u64,
}

/// What to do with one record: open the named shard file first (creating or
/// truncating it) where `open_file` says so, then append `line` to the open
/// shard file.
pub struct ShardStep {
    pub open_file: Option<String>,
    pub line: String,
}

impl View for ShardIndexer {
    type V = IndexerModel;

    closed spec fn view(&self) -> IndexerModel {
        IndexerModel {
            last_prefix: match self.last_prefix {
                Some(p) => Some(p@),
                None => None,
            },
            shard_count: self.shard_count,
            processed: self.processed_bytes,
            total: self.file_size,
        }
    }
}

impl ShardIndexer {
    /// Bytes consumed never exceed the total.
    pub open spec fn wf(&self) -> bool {
        self@.processed <= self@.total
    }

    pub fn new(file_size: u64) -> (r: ShardIndexer)
        ensures
            r.wf(),
            r@ == (IndexerModel { last_prefix: None, shard_count: 0, processed: 0, total: file_size }),
    {
        ShardIndexer { last_prefix: None, shard_count: 0, processed_bytes: 0, file_size }
    }

    /// Whether the whole input has been consumed.
    pub fn is_finished(&self) -> (r: bool)
        ensures
            r == (self@.processed >= self@.total),
    {
        self.processed_bytes >= self.file_size
    }

    /// Number of shards opened so far.
    pub fn get_shard_count(&self) -> (r: u64)
        ensures
            r == self@.shard_count,
    {
        self.shard_count
    }

    /// Bytes of the input consumed so far, for progress reports.
    pub fn get_processed_bytes(&self) -> (r: u64)
        ensures
            r == self@.processed,
    {
        self.processed_bytes
    }

    /// Routes one record.
    pub fn next_step(&mut self, entry: &PasswordHashEntry) -> (r: ShardStep)
        requires
            old(self).wf(),
            old(self)@.shard_count < u64::MAX,
        ensures
            final(self).wf(),
            final(self)@ == index_step(old(self)@, entry@),
            r.open_file is Some <==> opens_shard(old(self)@.last_prefix, entry@.hash),
            r.open_file matches Some(f) ==> f@ == shard_file_name(prefix_of(entry@.hash)),
            r.line@ == line_text(entry@.hash, entry@.occurrences),
    {
        let prefix = entry.get_prefix();
        let same = match &self.last_prefix {
            Some(last) => *last == prefix,
            None => false,
        };
        let open_file = if same {
            None
        } else {
            self.shard_count = self.shard_count + 1;
            let name = prefix.clone().concat(".txt");
            proof {
                reveal_strlit(".txt");
                assert(name@ =~= shard_file_name(prefix@));
            }
            Some(name)
        };
        let size = entry.get_size_in_bytes();
        if size > self.file_size - self.processed_bytes {
            self.processed_bytes = self.file_size;
        } else {
            self.processed_bytes = self.processed_bytes + size;
        }
        self.last_prefix = Some(prefix);
        ShardStep { open_file, line: entry.get_line_to_write() }
    }
}

/// The indexer after a run of records from its start on an input of `total`
/// bytes.
pub open spec fn indexer_after(recs: Seq<EntryModel>, total: u64) -> IndexerModel
    decreases recs.len(),
{
    if recs.len() == 0 {
        IndexerModel { last_prefix: None, shard_count: 0, processed: 0, total }
    } else {
        index_step(indexer_after(recs.drop_last(), total), recs.last())
    }
}

/// The shard files as the steps leave them: the shards opened, in order,
/// and the lines of each file.
pub struct ShardFiles {
    pub opened: Seq<Seq<char>>,
    pub files: Map<Seq<char>, Seq<Seq<char>>>,
}

/// The shard files after a run of records: each opened shard starts empty
/// (a file that existed is truncated) and each record's line is appended to
/// the shard that is open.
pub open spec fn files_after(recs: Seq<EntryModel>) -> ShardFiles
    decreases recs.len(),
{
    if recs.len() == 0 {
        ShardFiles { opened: Seq::empty(), files: Map::empty() }
    } else {
        let before = files_after(recs.drop_last());
        let e = recs.last();
        let p = prefix_of(e.hash);
        let line = line_text(e.hash, e.occurrences);
        if opens_shard(indexer_after(recs.drop_last(), 0).last_prefix, e.hash) {
            ShardFiles { opened: before.opened.push(p), files: before.files.insert(p, seq![line]) }
        } else {
            ShardFiles { opened: before.opened, files: before.files.insert(p, before.files[p].push(line)) }
        }
    }
}

/// The lines of the records whose hash has prefix `p`, in input order.
pub open spec fn lines_with_prefix(recs: Seq<EntryModel>, p: Seq<char>) -> Seq<Seq<char>>
    decreases recs.len(),
{
    if recs.len() == 0 {
        Seq::empty()
    } else if prefix_of(recs.last().hash) == p {
        lines_with_prefix(recs.drop_last(), p).push(line_text(recs.last().hash, recs.last().occurrences))
    } else {
        lines_with_prefix(recs.drop_last(), p)
    }
}

/// Number of lines in the shard files, over the shards in opening order.
pub open spec fn lines_in(files: Map<Seq<char>, Seq<Seq<char>>>, opened: Seq<Seq<char>>) -> nat
    decreases opened.len(),
{
    if opened.len() == 0 {
        0
    } else {
        lines_in(files, opened.drop_last()) + files[opened.last()].len()
    }
}

proof fn lemma_lines_in_agree(
    f1: Map<Seq<char>, Seq<Seq<char>>>,
    f2: Map<Seq<char>, Seq<Seq<char>>>,
    opened: Seq<Seq<char>>,
)
    requires
        forall|i: int| 0 <= i < opened.len() ==> f1[#[trigger] opened[i]] == f2[opened[i]],
    ensures
        lines_in(f1, opened) == lines_in(f2, opened),
    decreases opened.len(),
{
    if opened.len() > 0 {
        let o = opened.drop_last();
        assert forall|i: int| 0 <= i < o.len() implies f1[#[trigger] o[i]] == f2[o[i]] by {
            assert(o[i] == opened[i]);
        }
        lemma_lines_in_agree(f1, f2, o);
        assert(f1[opened.last()] == f2[opened[opened.len() - 1]]);
    }
}

/// The open shard depends only on the records, not on the input size.
proof fn lemma_last_prefix(recs: Seq<EntryModel>, total: u64)
    ensures
        indexer_after(recs, total).last_prefix == indexer_after(recs, 0).last_prefix,
        recs.len() > 0 ==> indexer_after(recs, total).last_prefix == Some(prefix_of(recs.last().hash)),
        recs.len() == 0 ==> indexer_after(recs, total).last_prefix is None,
    decreases recs.len(),
{
    if recs.len() > 0 {
        lemma_last_prefix(recs.drop_last(), total);
    }
}

/// In a sorted input, the prefixes do not decrease.
proof fn lemma_prefix_order(recs: Seq<EntryModel>, i: int, j: int)
    requires
        is_sorted_dataset(hashes_of(recs)),
        forall|k: int| 0 <= k < recs.len() ==> (#[trigger] recs[k]).hash.len() == HASH_LEN,
        0 <= i < j < recs.len(),
    ensures
        lex_le(prefix_of(recs[i].hash), prefix_of(recs[j].hash)),
{
    let hs = hashes_of(recs);
    lemma_sorted_before(hs, i, j);
    assert(hs[i] == recs[i].hash);
    assert(hs[j] == recs[j].hash);
    lemma_lex_lt_prefix(recs[i].hash, recs[j].hash, PREFIX_LEN as int);
}

/// Sharding a sorted input is complete and exact: the shard count is the
/// number of shards opened; no shard is opened twice; a shard file exists
/// exactly for each prefix that some record has; the file of prefix `P`
/// holds exactly the lines of the records whose hash starts with `P`, in
/// input order; and the shard files hold as many lines as there are records.
pub proof fn lemma_sharding_complete(recs: Seq<EntryModel>, total: u64)
    requires
        is_sorted_dataset(hashes_of(recs)),
        forall|k: int| 0 <= k < recs.len() ==> (#[trigger] recs[k]).hash.len() == HASH_LEN,
        recs.len() < u64::MAX,
    ensures
        indexer_after(recs, total).shard_count == files_after(recs).opened.len(),
        files_after(recs).opened.len() <= recs.len(),
        files_after(recs).opened.no_duplicates(),
        forall|p: Seq<char>| #[trigger]
            files_after(recs).files.contains_key(p) <==> files_after(recs).opened.contains(p),
        forall|p: Seq<char>|
            files_after(recs).files.contains_key(p) ==> #[trigger] files_after(recs).files[p]
                == lines_with_prefix(recs, p),
        forall|p: Seq<char>|
            !files_after(recs).files.contains_key(p) ==> #[trigger] lines_with_prefix(recs, p).len()
                == 0,
        lines_in(files_after(recs).files, files_after(recs).opened) == recs.len(),
        recs.len() > 0 ==> files_after(recs).opened.len() > 0 && files_after(recs).opened.last()
            == prefix_of(recs.last().hash),
    decreases recs.len(),
{
    if recs.len() > 0 {
        let init = recs.drop_last();
        assert(hashes_of(init) =~= hashes_of(recs).drop_last());
        assert forall|k: int| 0 <= k < init.len() implies (#[trigger] init[k]).hash.len() == HASH_LEN by {
            assert(init[k] == recs[k]);
        }
        lemma_sharding_complete(init, total);
        lemma_last_prefix(init, total);
        lemma_last_prefix(init, 0);
        let before = files_after(init);
        let e = recs.last();
        let p = prefix_of(e.hash);
        let n = recs.len() - 1;
        if opens_shard(indexer_after(init, 0).last_prefix, e.hash) {
            // Every earlier record has a smaller prefix than `p`.
            if n > 0 {
                let q = prefix_of(recs[n - 1].hash);
                assert(init.last() == recs[n - 1]);
                assert(q != p);
                lemma_prefix_order(recs, n - 1, n);
                assert forall|i: int| 0 <= i < init.len() implies lex_lt(
                    prefix_of(#[trigger] init[i].hash),
                    p,
                ) by {
                    assert(init[i] == recs[i]);
                    if i < n - 1 {
                        lemma_prefix_order(recs, i, n - 1);
                        if prefix_of(recs[i].hash) != q {
                            lemma_lex_lt_transitive(prefix_of(recs[i].hash), q, p);
                        }
                    }
                }
            }
            lemma_no_earlier_prefix(init, p);
            assert forall|q: Seq<char>| before.opened.contains(q) implies q != p by {
                lemma_opened_prefixes(init, q);
                if q == p {
                    let i = choose|i: int| 0 <= i < init.len() && prefix_of(#[trigger] init[i].hash) == q;
                    lemma_lex_lt_irreflexive(p);
                }
            }
            let after = files_after(recs);
            assert(after.opened == before.opened.push(p));
            assert forall|i: int, j: int|
                0 <= i < after.opened.len() && 0 <= j < after.opened.len() && i != j implies after.opened[i]
                != after.opened[j] by {
                let last = after.opened.len() - 1;
                if i == last {
                    assert(before.opened.contains(after.opened[j]));
                } else if j == last {
                    assert(before.opened.contains(after.opened[i]));
                } else {
                    assert(after.opened[i] == before.opened[i]);
                    assert(after.opened[j] == before.opened[j]);
                }
            }
            assert forall|q: Seq<char>| #[trigger]
                after.files.contains_key(q) <==> after.opened.contains(q) by {
                if q == p {
                    assert(after.opened[after.opened.len() - 1] == p);
                } else {
                    if before.opened.contains(q) {
                        let j = choose|j: int| 0 <= j < before.opened.len() && before.opened[j] == q;
                        assert(after.opened[j] == q);
                    }
                    if after.opened.contains(q) {
                        let j = choose|j: int| 0 <= j < after.opened.len() && after.opened[j] == q;
                        assert(before.opened[j] == q);
                    }
                }
            }
            assert(after.opened.drop_last() =~= before.opened);
            assert forall|i: int| 0 <= i < before.opened.len() implies after.files[
                #[trigger] before.opened[i]
            ] == before.files[before.opened[i]] by {
                assert(before.opened.contains(before.opened[i]));
            }
            lemma_lines_in_agree(after.files, before.files, before.opened);
        } else {
            let l = init.last();
            assert(lines_with_prefix(init, p).len() > 0);
            let after = files_after(recs);
            let o = before.opened.drop_last();
            assert(before.opened.last() == p);
            assert forall|i: int| 0 <= i < o.len() implies after.files[#[trigger] o[i]] == before.files[o[i]] by {
                assert(o[i] == before.opened[i]);
                assert(before.opened[i] != before.opened[before.opened.len() - 1]);
            }
            lemma_lines_in_agree(after.files, before.files, o);
        }
        assert forall|q: Seq<char>| !files_after(recs).files.contains_key(q) implies #[trigger] lines_with_prefix(
            recs,
            q,
        ).len() == 0 by {
            assert(q != p);
            assert(lines_with_prefix(recs, q) == lines_with_prefix(init, q));
            assert(!before.files.contains_key(q));
        }
    }
}

/// No earlier record has a prefix that sorts after all of theirs.
proof fn lemma_no_earlier_prefix(recs: Seq<EntryModel>, p: Seq<char>)
    requires
        forall|i: int| 0 <= i < recs.len() ==> lex_lt(prefix_of(#[trigger] recs[i].hash), p),
    ensures
        lines_with_prefix(recs, p).len() == 0,
    decreases recs.len(),
{
    if recs.len() > 0 {
        let init = recs.drop_last();
        assert forall|i: int| 0 <= i < init.len() implies lex_lt(prefix_of(#[trigger] init[i].hash), p) by {
            assert(init[i] == recs[i]);
        }
        lemma_no_earlier_prefix(init, p);
        lemma_lex_lt_irreflexive(p);
    }
}

/// Every opened shard is the prefix of some record.
proof fn lemma_opened_prefixes(recs: Seq<EntryModel>, q: Seq<char>)
    requires
        files_after(recs).opened.contains(q),
    ensures
        exists|i: int| 0 <= i < recs.len() && prefix_of(#[trigger] recs[i].hash) == q,
    decreases recs.len(),
{
    if recs.len() > 0 {
        let init = recs.drop_last();
        if files_after(init).opened.contains(q) {
            lemma_opened_prefixes(init, q);
            let i = choose|i: int| 0 <= i < init.len() && prefix_of(#[trigger] init[i].hash) == q;
            assert(init[i] == recs[i]);
        } else {
            assert(recs[recs.len() - 1] == recs.last());
        }
    }
}

} // verus!

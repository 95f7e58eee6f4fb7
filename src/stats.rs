//! The per-category table and the steps that fill it.
use std::time::Instant;

use vstd::prelude::*;

use crate::extract::{json_type_field, parse_type_field};
use crate::tally::{
    byte_len, bytes_of, count_of, lemma_parsed_within, lemma_prefix_len, parsed_bytes, parsed_count,
    texts, total_len,
};

verus! {

#[verifier::external_type_specification]
#[verifier::external_body]
pub struct ExInstant(std::time::Instant);

/// `Instant::now` reads the monotonic clock: nothing is known of what it gives.
pub assume_specification[ std::time::Instant::now ]() -> Instant;

/// What one category has gathered: the lines that named it, and their bytes.
#[derive(Debug, Clone, Copy, PartialEq, Eq, Structural)]
pub struct ObjectStats {
    pub count: usize,
    pub bytes: usize,
}

impl ObjectStats {
    /// The stats of a category seen once, on a line of `bytes` bytes.
    pub fn new(bytes: usize) -> (r: ObjectStats)
        ensures
            r.count == 1,
            r.bytes == bytes,
    {
        ObjectStats { count: 1, bytes }
    }
}

/// One row of the table as a value: category, count, bytes.
pub type Row = (Seq<char>, nat, nat);

/// No two rows share a category.
pub open spec fn keys_unique(rows: Seq<Row>) -> bool {
    forall|i: int, j: int| 0 <= i < j < rows.len() ==> rows[i].0 != rows[j].0
}

/// The sum of the counts of `rows`.
pub open spec fn total_count(rows: Seq<Row>) -> nat
    decreases rows.len(),
{
    if rows.len() == 0 {
        0
    } else {
        total_count(rows.drop_last()) + rows.last().1
    }
}

/// The sum of the bytes of `rows`.
pub open spec fn total_bytes(rows: Seq<Row>) -> nat
    decreases rows.len(),
{
    if rows.len() == 0 {
        0
    } else {
        total_bytes(rows.drop_last()) + rows.last().2
    }
}

/// `after` is `before` with one more line of `len` bytes counted under `k`:
/// the row of `k` grows by one line and `len` bytes, or, where `k` had no
/// row, a new row `(k, 1, len)` comes last.
pub open spec fn recorded(before: Seq<Row>, after: Seq<Row>, k: Seq<char>, len: nat) -> bool {
    if exists|i: int| 0 <= i < before.len() && before[i].0 == k {
        forall|i: int|
            0 <= i < before.len() && before[i].0 == k ==> after == before.update(
                i,
                (k, before[i].1 + 1, before[i].2 + len),
            )
    } else {
        after == before.push((k, 1nat, len))
    }
}

/// The rows hold exactly what `lines` give: each row's count and bytes are
/// those of its category over the lines, and every category that a line
/// names has a row.
pub open spec fn agrees_with(rows: Seq<Row>, lines: Seq<Seq<char>>) -> bool {
    &&& forall|i: int|
        0 <= i < rows.len() ==> #[trigger] rows[i].1 == count_of(lines, rows[i].0) && rows[i].2
            == bytes_of(lines, rows[i].0)
    &&& forall|k: Seq<char>|
        #[trigger] count_of(lines, k) > 0 ==> exists|i: int| 0 <= i < rows.len() && rows[i].0 == k
}

/// The running statistics of one pass over an input.
#[derive(Debug, PartialEq)]
pub struct LogStats {
    /// The size of the whole input, in bytes.
    pub file_len_bytes: u64,
    /// When the pass began.
    pub start: Instant,
    /// One entry per category, in order of first sight.
    pub count_map: Vec<(String, ObjectStats)>,
}

/// Whether two strings hold the same text, by their bytes.
fn same_text(a: &str, b: &str) -> (r: bool)
    ensures
        r == (a@ == b@),
{
    let x = a.as_bytes();
    let y = b.as_bytes();
    proof {
        vstd::utf8::encode_utf8_decode_utf8(a@);
        vstd::utf8::encode_utf8_decode_utf8(b@);
    }
    if x.len() != y.len() {
        return false;
    }
    let mut i: usize = 0;
    while i < x.len()
        invariant
            x.len() == y.len(),
            x@ == vstd::utf8::encode_utf8(a@),
            y@ == vstd::utf8::encode_utf8(b@),
            i <= x.len(),
            forall|j: int| 0 <= j < i ==> x@[j] == y@[j],
        decreases x.len() - i,
    {
        if x[i] != y[i] {
            return false;
        }
        i = i + 1;
    }
    assert(x@ =~= y@);
    true
}

impl LogStats {
    /// The table as values, in the order of `count_map`.
    pub open spec fn rows(&self) -> Seq<Row> {
        self.count_map@.map_values(
            |e: (String, ObjectStats)| (e.0@, e.1.count as nat, e.1.bytes as nat),
        )
    }

    /// Categories are unique, each was seen at least once, and the totals of
    /// counts and bytes fit a `usize`.
    pub open spec fn wf(&self) -> bool {
        &&& keys_unique(self.rows())
        &&& forall|i: int| 0 <= i < self.rows().len() ==> #[trigger] self.rows()[i].1 >= 1
        &&& total_count(self.rows()) <= usize::MAX
        &&& total_bytes(self.rows()) <= usize::MAX
    }

    /// Empty statistics for an input of `file_len_bytes` bytes, timed from now.
    pub fn new(file_len_bytes: u64) -> (r: LogStats)
        ensures
            r.wf(),
            r.file_len_bytes == file_len_bytes,
            r.rows().len() == 0,
    {
        let r = LogStats { file_len_bytes, start: Instant::now(), count_map: Vec::new() };
        assert(r.rows() =~= Seq::<Row>::empty());
        r
    }

    /// The position of `category` in the table, if it has a row.
    fn find(&self, category: &str) -> (r: Option<usize>)
        requires
            self.wf(),
        ensures
            match r {
                Some(i) => i < self.rows().len() && self.rows()[i as int].0 == category@,
                None => forall|i: int| 0 <= i < self.rows().len() ==> self.rows()[i].0 != category@,
            },
    {
        let mut i: usize = 0;
        while i < self.count_map.len()
            invariant
                i <= self.count_map.len(),
                forall|j: int| 0 <= j < i ==> self.rows()[j].0 != category@,
            decreases self.count_map.len() - i,
        {
            if same_text(self.count_map[i].0.as_str(), category) {
                return Some(i);
            }
            i = i + 1;
        }
        None
    }
}

impl Default for LogStats {
    /// Empty statistics for an input of no bytes, timed from now.
    fn default() -> (r: LogStats)
        ensures
            r.wf(),
            r.file_len_bytes == 0,
            r.rows().len() == 0,
    {
        LogStats::new(0)
    }
}

/// Replacing one row changes each total by the difference of that row.
pub proof fn lemma_totals_update(rows: Seq<Row>, i: int, r: Row)
    requires
        0 <= i < rows.len(),
    ensures
        total_count(rows.update(i, r)) == total_count(rows) - rows[i].1 + r.1,
        total_bytes(rows.update(i, r)) == total_bytes(rows) - rows[i].2 + r.2,
    decreases rows.len(),
{
    if i == rows.len() - 1 {
        assert(rows.update(i, r).drop_last() =~= rows.drop_last());
    } else {
        lemma_totals_update(rows.drop_last(), i, r);
        assert(rows.update(i, r).drop_last() =~= rows.drop_last().update(i, r));
    }
}

/// Each row's count and bytes are within the totals.
pub proof fn lemma_row_within_totals(rows: Seq<Row>, i: int)
    requires
        0 <= i < rows.len(),
    ensures
        rows[i].1 <= total_count(rows),
        rows[i].2 <= total_bytes(rows),
{
    lemma_totals_update(rows, i, (rows[i].0, 0nat, 0nat));
}

/// The totals of a prefix of the rows, one row longer.
pub proof fn lemma_totals_prefix(rows: Seq<Row>, n: int)
    requires
        0 <= n < rows.len(),
    ensures
        total_count(rows.subrange(0, n + 1)) == total_count(rows.subrange(0, n)) + rows[n].1,
        total_bytes(rows.subrange(0, n + 1)) == total_bytes(rows.subrange(0, n)) + rows[n].2,
        total_count(rows.subrange(0, n + 1)) <= total_count(rows),
    decreases rows.len() - n,
{
    assert(rows.subrange(0, n + 1).drop_last() =~= rows.subrange(0, n));
    if n + 1 < rows.len() {
        lemma_totals_prefix(rows, n + 1);
    } else {
        assert(rows.subrange(0, n + 1) =~= rows);
    }
}

impl LogStats {
    /// Counts one line of `line_len` bytes under `category`. A category seen
    /// before has its row grow by one line and `line_len` bytes; a new one
    /// gets a row of its own, keyed by a copy of `category`.
    pub fn record(&mut self, category: &str, line_len: usize)
        requires
            old(self).wf(),
            total_count(old(self).rows()) < usize::MAX,
            total_bytes(old(self).rows()) + line_len <= usize::MAX,
        ensures
            final(self).wf(),
            final(self).file_len_bytes == old(self).file_len_bytes,
            final(self).start == old(self).start,
            recorded(old(self).rows(), final(self).rows(), category@, line_len as nat),
            total_count(final(self).rows()) == total_count(old(self).rows()) + 1,
            total_bytes(final(self).rows()) == total_bytes(old(self).rows()) + line_len,
    {
        let ghost before = self.rows();
        match self.find(category) {
            Some(i) => {
                proof {
                    lemma_row_within_totals(before, i as int);
                }
                let old_stats = self.count_map[i].1;
                let grown = ObjectStats {
                    count: old_stats.count + 1,
                    bytes: old_stats.bytes + line_len,
                };
                self.count_map[i].1 = grown;
                let ghost row: Row = (category@, before[i as int].1 + 1, (before[i as int].2 + line_len) as nat);
                assert(self.rows() =~= before.update(i as int, row));
                proof {
                    lemma_totals_update(before, i as int, row);
                }
            },
            None => {
                self.count_map.push((category.to_owned(), ObjectStats::new(line_len)));
                assert(self.rows() =~= before.push((category@, 1nat, line_len as nat)));
                assert(self.rows().drop_last() =~= before);
            },
        }
    }
}

/// Counting one more line keeps the table in agreement with the lines read:
/// a line that names no category leaves the table as it is, and one that
/// names a category is recorded under it with its whole byte length.
pub proof fn lemma_record_line(
    before: Seq<Row>,
    after: Seq<Row>,
    lines: Seq<Seq<char>>,
    line: Seq<char>,
)
    requires
        keys_unique(before),
        agrees_with(before, lines),
        match json_type_field(line) {
            Some(k) => recorded(before, after, k, byte_len(line)),
            None => after == before,
        },
    ensures
        agrees_with(after, lines.push(line)),
{
    let next = lines.push(line);
    assert(next.drop_last() =~= lines);
    assert(next.last() == line);
    match json_type_field(line) {
        None => {
            assert forall|i: int| 0 <= i < after.len() implies #[trigger] after[i].1 == count_of(
                next,
                after[i].0,
            ) && after[i].2 == bytes_of(next, after[i].0) by {}
            assert forall|k: Seq<char>| #[trigger] count_of(next, k) > 0 implies exists|i: int|
                0 <= i < after.len() && after[i].0 == k by {
                assert(count_of(lines, k) > 0);
            }
        },
        Some(c) => {
            if exists|i: int| 0 <= i < before.len() && before[i].0 == c {
                let m = choose|i: int| 0 <= i < before.len() && before[i].0 == c;
                assert(after == before.update(m, (c, before[m].1 + 1, before[m].2 + byte_len(line))));
                assert forall|i: int| 0 <= i < after.len() implies #[trigger] after[i].1 == count_of(
                    next,
                    after[i].0,
                ) && after[i].2 == bytes_of(next, after[i].0) by {
                    assert(before[i].1 == count_of(lines, before[i].0));
                }
                assert forall|k: Seq<char>| #[trigger] count_of(next, k) > 0 implies exists|i: int|
                    0 <= i < after.len() && after[i].0 == k by {
                    if k == c {
                        assert(after[m].0 == k);
                    } else {
                        assert(count_of(lines, k) > 0);
                        let j = choose|j: int| 0 <= j < before.len() && before[j].0 == k;
                        assert(after[j].0 == k);
                    }
                }
            } else {
                assert(after == before.push((c, 1nat, byte_len(line))));
                if count_of(lines, c) > 0 {
                    assert(exists|i: int| 0 <= i < before.len() && before[i].0 == c);
                }
                crate::tally::lemma_unnamed_has_no_bytes(lines, c);
                assert forall|i: int| 0 <= i < after.len() implies #[trigger] after[i].1 == count_of(
                    next,
                    after[i].0,
                ) && after[i].2 == bytes_of(next, after[i].0) by {
                    if i < before.len() {
                        assert(before[i].1 == count_of(lines, before[i].0));
                    }
                }
                assert forall|k: Seq<char>| #[trigger] count_of(next, k) > 0 implies exists|i: int|
                    0 <= i < after.len() && after[i].0 == k by {
                    if k == c {
                        assert(after[before.len() as int].0 == k);
                    } else {
                        assert(count_of(lines, k) > 0);
                        let j = choose|j: int| 0 <= j < before.len() && before[j].0 == k;
                        assert(after[j].0 == k);
                    }
                }
            }
        },
    }
}

impl LogStats {
    /// Reads the category of one line, `line` holding its terminator if it
    /// has one, and counts the line under it with its byte length. A line
    /// that is not a JSON object with a string `type` field changes nothing.
    pub fn ingest_line(&mut self, line: &str)
        requires
            old(self).wf(),
            total_count(old(self).rows()) < usize::MAX,
            total_bytes(old(self).rows()) + byte_len(line@) <= usize::MAX,
        ensures
            final(self).wf(),
            final(self).file_len_bytes == old(self).file_len_bytes,
            final(self).start == old(self).start,
            match json_type_field(line@) {
                Some(k) => {
                    &&& recorded(old(self).rows(), final(self).rows(), k, byte_len(line@))
                    &&& total_count(final(self).rows()) == total_count(old(self).rows()) + 1
                    &&& total_bytes(final(self).rows()) == total_bytes(old(self).rows())
                        + byte_len(line@)
                },
                None => *final(self) == *old(self),
            },
    {
        let line_len = line.len();
        match parse_type_field(line) {
            Some(category) => {
                self.record(category.as_str(), line_len);
            },
            None => {},
        }
    }
}

/// The figures of a finished pass that need no clock.
#[derive(Debug, Clone, Copy, PartialEq, Eq, Structural)]
pub struct Summary {
    /// The input's size in whole mebibytes.
    pub file_size_mb: u64,
    /// The lines that named a category.
    pub lines_processed: usize,
    /// The number of distinct categories.
    pub unique_types: usize,
}

/// Bytes in one mebibyte.
pub const BYTES_PER_MB: u64 = 1_048_576;

impl LogStats {
    /// One pass over `lines`, each holding its terminator if it has one, for
    /// an input of `file_len_bytes` bytes. Every category's count and bytes
    /// are those of the lines that name it; the counts add up to the lines
    /// that name a category, which are among the lines.
    pub fn process_lines(file_len_bytes: u64, lines: &Vec<String>) -> (r: LogStats)
        requires
            total_len(texts(lines@)) <= usize::MAX,
        ensures
            r.wf(),
            r.file_len_bytes == file_len_bytes,
            agrees_with(r.rows(), texts(lines@)),
            total_count(r.rows()) == parsed_count(texts(lines@)),
            parsed_count(texts(lines@)) <= lines@.len(),
            total_bytes(r.rows()) == parsed_bytes(texts(lines@)),
            parsed_bytes(texts(lines@)) <= total_len(texts(lines@)),
    {
        let ghost all = texts(lines@);
        let mut stats = LogStats::new(file_len_bytes);
        assert(all.subrange(0, 0) =~= Seq::<Seq<char>>::empty());
        let mut i: usize = 0;
        while i < lines.len()
            invariant
                i <= lines.len(),
                all == texts(lines@),
                all.len() == lines@.len(),
                total_len(all) <= usize::MAX,
                stats.wf(),
                stats.file_len_bytes == file_len_bytes,
                agrees_with(stats.rows(), all.subrange(0, i as int)),
                total_count(stats.rows()) == parsed_count(all.subrange(0, i as int)),
                total_bytes(stats.rows()) == parsed_bytes(all.subrange(0, i as int)),
            decreases lines.len() - i,
        {
            let ghost seen = all.subrange(0, i as int);
            let ghost next = all.subrange(0, i + 1);
            assert(next.drop_last() =~= seen);
            assert(next.last() == lines@[i as int]@);
            proof {
                lemma_parsed_within(seen);
                lemma_prefix_len(all, i + 1);
            }
            let ghost before = stats.rows();
            stats.ingest_line(lines[i].as_str());
            proof {
                lemma_record_line(before, stats.rows(), seen, lines@[i as int]@);
                assert(seen.push(lines@[i as int]@) =~= next);
            }
            i = i + 1;
        }
        assert(all.subrange(0, i as int) =~= all);
        proof {
            lemma_parsed_within(all);
        }
        stats
    }

    /// The size of the input in mebibytes, the lines counted and the number
    /// of categories.
    pub fn summary(&self) -> (r: Summary)
        requires
            self.wf(),
        ensures
            r.file_size_mb == self.file_len_bytes / BYTES_PER_MB,
            r.lines_processed == total_count(self.rows()),
            r.unique_types == self.rows().len(),
    {
        let ghost rows = self.rows();
        let mut lines_processed: usize = 0;
        let mut i: usize = 0;
        assert(rows.subrange(0, 0) =~= Seq::<Row>::empty());
        while i < self.count_map.len()
            invariant
                rows == self.rows(),
                i <= self.count_map.len(),
                total_count(rows) <= usize::MAX,
                lines_processed == total_count(rows.subrange(0, i as int)),
            decreases self.count_map.len() - i,
        {
            proof {
                lemma_totals_prefix(rows, i as int);
            }
            lines_processed = lines_processed + self.count_map[i].1.count;
            i = i + 1;
        }
        assert(rows.subrange(0, i as int) =~= rows);
        Summary {
            file_size_mb: self.file_len_bytes / BYTES_PER_MB,
            lines_processed,
            unique_types: self.count_map.len(),
        }
    }

    /// The stats gathered for `category`, if any line named it.
    pub fn stats_for(&self, category: &str) -> (r: Option<ObjectStats>)
        requires
            self.wf(),
        ensures
            match r {
                Some(s) => exists|i: int|
                    0 <= i < self.rows().len() && self.rows()[i] == (
                    category@,
                    s.count as nat,
                    s.bytes as nat,
                ),
                None => forall|i: int| 0 <= i < self.rows().len() ==> self.rows()[i].0 != category@,
            },
    {
        match self.find(category) {
            Some(i) => Some(self.count_map[i].1),
            None => None,
        }
    }
}

/// Rows with unique categories hold no row twice, so there are as many of
/// them as there are distinct rows.
proof fn lemma_unique_rows_count(rows: Seq<Row>)
    requires
        keys_unique(rows),
    ensures
        rows.to_set().len() == rows.len(),
{
    assert forall|i: int, j: int| 0 <= i < rows.len() && 0 <= j < rows.len() && i != j implies rows[i]
        != rows[j] by {
        if i < j {
            assert(rows[i].0 != rows[j].0);
        } else {
            assert(rows[j].0 != rows[i].0);
        }
    }
    rows.unique_seq_to_set();
}

/// Two passes over the same lines give the same categories with the same
/// counts and bytes; only the order of the rows may differ.
pub proof fn lemma_same_lines_same_rows(a: LogStats, b: LogStats, lines: Seq<Seq<char>>)
    requires
        a.wf(),
        b.wf(),
        agrees_with(a.rows(), lines),
        agrees_with(b.rows(), lines),
    ensures
        a.rows().to_set() == b.rows().to_set(),
        a.rows().len() == b.rows().len(),
{
    lemma_agreeing_rows_contained(a, b, lines);
    lemma_agreeing_rows_contained(b, a, lines);
    let (ra, rb) = (a.rows(), b.rows());
    assert forall|x: Row| ra.to_set().contains(x) <==> rb.to_set().contains(x) by {
        if ra.contains(x) {
            let i = choose|i: int| 0 <= i < ra.len() && ra[i] == x;
            assert(rb.contains(ra[i]));
        }
        if rb.contains(x) {
            let j = choose|j: int| 0 <= j < rb.len() && rb[j] == x;
            assert(ra.contains(rb[j]));
        }
    }
    assert(ra.to_set() =~= rb.to_set());
    lemma_unique_rows_count(ra);
    lemma_unique_rows_count(rb);
}

/// Every row of a table that agrees with `lines` is a row of another that
/// does too.
proof fn lemma_agreeing_rows_contained(a: LogStats, b: LogStats, lines: Seq<Seq<char>>)
    requires
        a.wf(),
        b.wf(),
        agrees_with(a.rows(), lines),
        agrees_with(b.rows(), lines),
    ensures
        forall|i: int| 0 <= i < a.rows().len() ==> #[trigger] b.rows().contains(a.rows()[i]),
{
    let (ra, rb) = (a.rows(), b.rows());
    assert forall|i: int| 0 <= i < ra.len() implies #[trigger] rb.contains(ra[i]) by {
        let k = ra[i].0;
        assert(ra[i].1 >= 1);
        assert(count_of(lines, k) > 0);
        let j = choose|j: int| 0 <= j < rb.len() && rb[j].0 == k;
        assert(rb[j].1 == count_of(lines, k));
        assert(rb[j] == ra[i]);
    }
}

} // verus!

//! The mapper worker: computes the word-frequency table of one input
//! file, buffers completed tables, and drains the buffer into partitioned
//! write requests whenever its sequence counter reaches a multiple of the
//! drain threshold, or unconditionally on cleanup.

use vstd::prelude::*;

use crate::partition::key_partition;
use crate::partition::shard_path;
use crate::partition::spec_key_partition;
use crate::partition::spec_shard_path;
use crate::table::WordCountTable;
use crate::table::spec_bump;
use crate::text::entry_line;
use crate::text::lower_of;
use crate::text::spec_entry_line;
use crate::text::spec_tokens;
use crate::text::strs_view;
use crate::text::to_lower;
use crate::text::tokenize;

verus! {

/// A worker drains its buffer when its sequence counter reaches a
/// multiple of this many processed files.
pub const DRAIN_THRESHOLD: usize = 10;

/// The tokens of a sequence of lines, in reading order.
pub open spec fn spec_all_tokens(lines: Seq<Seq<char>>) -> Seq<Seq<char>>
    decreases lines.len(),
{
    if lines.len() == 0 {
        Seq::empty()
    } else {
        spec_all_tokens(lines.drop_last()) + spec_tokens(lines.last())
    }
}

/// Every token of a sequence, lowercased.
pub open spec fn spec_lowered(toks: Seq<Seq<char>>) -> Seq<Seq<char>> {
    toks.map_values(|t: Seq<char>| lower_of(t))
}

/// The lowercased tokens of a sequence of lines, in reading order.
pub open spec fn spec_lowered_tokens(lines: Seq<Seq<char>>) -> Seq<Seq<char>> {
    spec_lowered(spec_all_tokens(lines))
}

/// How often `k` occurs in a sequence of tokens.
pub open spec fn spec_occurrences(toks: Seq<Seq<char>>, k: Seq<char>) -> nat
    decreases toks.len(),
{
    if toks.len() == 0 {
        0
    } else {
        spec_occurrences(toks.drop_last(), k) + if toks.last() == k {
            1nat
        } else {
            0nat
        }
    }
}

/// The distinct values of a token sequence, in first-occurrence order.
pub open spec fn spec_distinct_in_order(toks: Seq<Seq<char>>) -> Seq<Seq<char>>
    decreases toks.len(),
{
    if toks.len() == 0 {
        Seq::empty()
    } else {
        let prev = spec_distinct_in_order(toks.drop_last());
        if prev.contains(toks.last()) {
            prev
        } else {
            prev.push(toks.last())
        }
    }
}

/// A map counts a token sequence when its keys are exactly the values of
/// the sequence and each key's count is that value's number of
/// occurrences.
pub open spec fn counts_match(m: Map<Seq<char>, u32>, toks: Seq<Seq<char>>) -> bool {
    &&& forall|k: Seq<char>| #[trigger] m.contains_key(k) ==> toks.contains(k)
    &&& forall|k: Seq<char>| #[trigger] toks.contains(k) ==> m.contains_key(k)
    &&& forall|k: Seq<char>| #[trigger] m.contains_key(k) ==> m[k] == spec_occurrences(toks, k)
}

/// A table is the word count of a sequence of lines when its map counts
/// the lines' lowercased tokens, its entries stand in first-occurrence
/// order, and every key is non-empty (tokens are non-empty and
/// lowercasing never empties one).
pub open spec fn spec_is_count_table(t: WordCountTable, lines: Seq<Seq<char>>) -> bool {
    &&& t.wf()
    &&& counts_match(t.as_map(), spec_lowered_tokens(lines))
    &&& t.spec_words() == spec_distinct_in_order(spec_lowered_tokens(lines))
    &&& forall|i: int| 0 <= i < t.spec_words().len() ==> (#[trigger] t.spec_words()[i]).len() > 0
}

proof fn lemma_contains_push(toks: Seq<Seq<char>>, t: Seq<char>, k: Seq<char>)
    ensures
        toks.push(t).contains(k) <==> (toks.contains(k) || k == t),
{
    if toks.contains(k) {
        let i = choose|i: int| 0 <= i < toks.len() && toks[i] == k;
        assert(toks.push(t)[i] == k);
    }
    assert(toks.push(t)[toks.len() as int] == t);
    if toks.push(t).contains(k) {
        let i = choose|i: int| 0 <= i < toks.push(t).len() && toks.push(t)[i] == k;
        if i < toks.len() {
            assert(toks[i] == k);
        }
    }
}

proof fn lemma_occurrences_push(toks: Seq<Seq<char>>, t: Seq<char>, k: Seq<char>)
    ensures
        spec_occurrences(toks.push(t), k) == spec_occurrences(toks, k) + if t == k {
            1nat
        } else {
            0nat
        },
{
    assert(toks.push(t).drop_last() =~= toks);
}

/// No token occurs more often than the sequence is long.
pub proof fn lemma_occurrences_le_len(toks: Seq<Seq<char>>, k: Seq<char>)
    ensures
        spec_occurrences(toks, k) <= toks.len(),
    decreases toks.len(),
{
    if toks.len() > 0 {
        lemma_occurrences_le_len(toks.drop_last(), k);
    }
}

proof fn lemma_counts_step(m: Map<Seq<char>, u32>, done: Seq<Seq<char>>, t: Seq<char>)
    requires
        counts_match(m, done),
        m.contains_key(t) ==> m[t] < u32::MAX,
    ensures
        counts_match(spec_bump(m, t), done.push(t)),
{
    let m2 = spec_bump(m, t);
    assert forall|k: Seq<char>| #[trigger] m2.contains_key(k) implies done.push(t).contains(
        k,
    ) by {
        lemma_contains_push(done, t, k);
    }
    assert forall|k: Seq<char>| #[trigger] done.push(t).contains(k) implies m2.contains_key(
        k,
    ) by {
        lemma_contains_push(done, t, k);
    }
    assert forall|k: Seq<char>| #[trigger] m2.contains_key(k) implies m2[k] == spec_occurrences(
        done.push(t),
        k,
    ) by {
        lemma_contains_push(done, t, k);
        lemma_occurrences_push(done, t, k);
        if k == t {
            if !m.contains_key(t) {
                if done.contains(t) {
                    assert(m.contains_key(t));
                }
                assert(spec_occurrences(done, t) == 0) by {
                    lemma_occurrences_absent(done, t);
                }
            }
        }
    }
}

proof fn lemma_occurrences_absent(toks: Seq<Seq<char>>, k: Seq<char>)
    requires
        !toks.contains(k),
    ensures
        spec_occurrences(toks, k) == 0,
    decreases toks.len(),
{
    if toks.len() > 0 {
        assert(toks[toks.len() - 1] != k);
        assert forall|i: int| 0 <= i < toks.drop_last().len() implies toks.drop_last()[i]
            != k by {
            assert(toks[i] != k);
        }
        lemma_occurrences_absent(toks.drop_last(), k);
    }
}

proof fn lemma_distinct_step(prev: Seq<Seq<char>>, done: Seq<Seq<char>>, t: Seq<char>)
    requires
        prev == spec_distinct_in_order(done),
    ensures
        done.contains(t) ==> spec_distinct_in_order(done.push(t)) == prev,
        !done.contains(t) ==> spec_distinct_in_order(done.push(t)) == prev.push(t),
{
    assert(done.push(t).drop_last() =~= done);
    lemma_distinct_in_order_same_values(done);
}

/// A token sequence and its distinct-values sequence hold the same
/// values.
pub proof fn lemma_distinct_in_order_same_values(toks: Seq<Seq<char>>)
    ensures
        forall|k: Seq<char>| #[trigger] spec_distinct_in_order(toks).contains(k) <==> toks.contains(
            k,
        ),
    decreases toks.len(),
{
    if toks.len() > 0 {
        let done = toks.drop_last();
        let t = toks.last();
        lemma_distinct_in_order_same_values(done);
        assert forall|k: Seq<char>|
            #[trigger] spec_distinct_in_order(toks).contains(k) implies toks.contains(k) by {
            lemma_contains_push(done, t, k);
            let prev = spec_distinct_in_order(done);
            if !prev.contains(k) {
                assert(spec_distinct_in_order(toks).contains(k));
                if !prev.contains(toks.last()) {
                    let i = choose|i: int|
                        0 <= i < prev.push(t).len() && prev.push(t)[i] == k;
                    if i < prev.len() {
                        assert(prev[i] == k);
                    }
                }
            }
            assert(toks =~= done.push(t));
        }
        assert forall|k: Seq<char>|
            #[trigger] toks.contains(k) implies spec_distinct_in_order(toks).contains(k) by {
            assert(toks =~= done.push(t));
            lemma_contains_push(done, t, k);
            let prev = spec_distinct_in_order(done);
            if k == t && !prev.contains(t) {
                assert(prev.push(t)[prev.len() as int] == t);
            } else {
                if done.contains(k) {
                    assert(prev.contains(k));
                    let i = choose|i: int| 0 <= i < prev.len() && prev[i] == k;
                    if !prev.contains(t) {
                        assert(prev.push(t)[i] == k);
                    }
                }
            }
        }
    }
}

proof fn lemma_all_tokens_concat(a: Seq<Seq<char>>, b: Seq<Seq<char>>)
    ensures
        spec_all_tokens(a + b) == spec_all_tokens(a) + spec_all_tokens(b),
    decreases b.len(),
{
    if b.len() == 0 {
        assert(a + b =~= a);
        assert(spec_all_tokens(a) + spec_all_tokens(b) =~= spec_all_tokens(a));
    } else {
        lemma_all_tokens_concat(a, b.drop_last());
        assert((a + b).drop_last() =~= a + b.drop_last());
        assert((a + b).len() > 0);
        assert((a + b).last() == b.last());
        assert(spec_all_tokens(a) + (spec_all_tokens(b.drop_last()) + spec_tokens(b.last())) =~= (
        spec_all_tokens(a) + spec_all_tokens(b.drop_last())) + spec_tokens(b.last()));
    }
}

proof fn lemma_all_tokens_line(lines: Seq<Seq<char>>, l: Seq<char>)
    ensures
        spec_all_tokens(lines.push(l)) == spec_all_tokens(lines) + spec_tokens(l),
{
    assert(lines.push(l).drop_last() =~= lines);
}

/// Computes the word-frequency table of one file's lines: each line is
/// split on ASCII whitespace, each token is lowercased with its
/// punctuation kept, and the table counts how often each lowercased token
/// occurs.
pub fn count_words(lines: &Vec<String>) -> (r: WordCountTable)
    requires
        spec_all_tokens(strs_view(lines@)).len() <= u32::MAX,
    ensures
        spec_is_count_table(r, strs_view(lines@)),
{
    let ghost total = spec_all_tokens(strs_view(lines@)).len();
    let mut t = WordCountTable::new();
    let ghost mut done: Seq<Seq<char>> = Seq::empty();
    let n = lines.len();
    let mut li: usize = 0;
    proof {
        assert(strs_view(lines@.subrange(0, 0)) =~= Seq::<Seq<char>>::empty());
        assert(done =~= spec_lowered(spec_all_tokens(strs_view(lines@.subrange(0, 0)))));
    }
    while li < n
        invariant
            n == lines@.len(),
            li <= n,
            t.wf(),
            counts_match(t.as_map(), done),
            t.spec_words() == spec_distinct_in_order(done),
            forall|j: int| 0 <= j < t.spec_words().len() ==> (#[trigger] t.spec_words()[j]).len()
                > 0,
            done == spec_lowered(spec_all_tokens(strs_view(lines@.subrange(0, li as int)))),
            spec_all_tokens(strs_view(lines@)).len() == total,
            total <= u32::MAX,
            spec_all_tokens(strs_view(lines@.subrange(0, li as int))).len() <= total,
        decreases n - li,
    {
        let ghost pre = strs_view(lines@.subrange(0, li as int));
        let line = &lines[li];
        let ghost cur = spec_tokens(line@);
        proof {
            assert(lines@ =~= lines@.subrange(0, li as int + 1) + lines@.subrange(
                li as int + 1,
                n as int,
            ));
            assert(strs_view(
                lines@.subrange(0, li as int + 1) + lines@.subrange(li as int + 1, n as int),
            ) =~= strs_view(lines@.subrange(0, li as int + 1)) + strs_view(
                lines@.subrange(li as int + 1, n as int),
            ));
            lemma_all_tokens_concat(
                strs_view(lines@.subrange(0, li as int + 1)),
                strs_view(lines@.subrange(li as int + 1, n as int)),
            );
            assert(strs_view(lines@.subrange(0, li as int + 1)) =~= pre.push(line@));
            lemma_all_tokens_line(pre, line@);
            assert(spec_all_tokens(pre).len() + cur.len() <= total);
        }
        let ghost base = done;
        let toks = tokenize(line.as_str());
        let m = toks.len();
        let mut ti: usize = 0;
        while ti < m
            invariant
                m == cur.len(),
                strs_view(toks@) == cur,
                forall|k: int| 0 <= k < cur.len() ==> (#[trigger] cur[k]).len() > 0,
                ti <= m,
                t.wf(),
                counts_match(t.as_map(), done),
                t.spec_words() == spec_distinct_in_order(done),
                forall|j: int|
                    0 <= j < t.spec_words().len() ==> (#[trigger] t.spec_words()[j]).len() > 0,
                done == base + spec_lowered(cur.subrange(0, ti as int)),
                done.len() == base.len() + ti,
                base.len() + cur.len() <= total,
                total <= u32::MAX,
            decreases m - ti,
        {
            let low = to_lower(toks[ti].as_str());
            proof {
                assert(toks@[ti as int]@ == cur[ti as int]);
                assert(cur[ti as int].len() > 0);
                assert(low@.len() > 0);
                assert(low@ == lower_of(cur[ti as int]));
                if t.as_map().contains_key(low@) {
                    lemma_occurrences_le_len(done, low@);
                    assert(t.as_map()[low@] <= done.len());
                    assert(done.len() < total);
                }
            }
            let ghost m_before = t.as_map();
            t.increment(low);
            proof {
                lemma_counts_step(m_before, done, low@);
                lemma_distinct_step(spec_distinct_in_order(done), done, low@);
                if done.contains(low@) {
                    assert(m_before.contains_key(low@));
                }
                done = done.push(low@);
                assert(spec_lowered(cur.subrange(0, ti as int + 1)) =~= spec_lowered(
                    cur.subrange(0, ti as int),
                ).push(lower_of(cur[ti as int])));
                assert(done =~= base + spec_lowered(cur.subrange(0, ti as int + 1)));
            }
            ti = ti + 1;
        }
        proof {
            assert(cur.subrange(0, m as int) =~= cur);
            lemma_all_tokens_line(pre, line@);
            assert(spec_lowered(spec_all_tokens(pre) + cur) =~= spec_lowered(
                spec_all_tokens(pre),
            ) + spec_lowered(cur));
            assert(strs_view(lines@.subrange(0, li as int + 1)) =~= pre.push(line@));
            assert(done =~= spec_lowered(
                spec_all_tokens(strs_view(lines@.subrange(0, li as int + 1))),
            ));
        }
        li = li + 1;
    }
    proof {
        assert(lines@.subrange(0, n as int) =~= lines@);
    }
    t
}

/// Counts a file's words after checking that the whole token count fits
/// the count type: an input with more tokens than a count can hold is
/// refused rather than miscounted.
pub fn try_count_words(lines: &Vec<String>) -> (r: Option<WordCountTable>)
    ensures
        spec_all_tokens(strs_view(lines@)).len() <= u32::MAX ==> (r matches Some(t)
            && spec_is_count_table(t, strs_view(lines@))),
        spec_all_tokens(strs_view(lines@)).len() > u32::MAX ==> r is None,
{
    let n = lines.len();
    let mut total: u64 = 0;
    let mut li: usize = 0;
    proof {
        assert(strs_view(lines@.subrange(0, 0)) =~= Seq::<Seq<char>>::empty());
    }
    while li < n
        invariant
            n == lines@.len(),
            li <= n,
            total == spec_all_tokens(strs_view(lines@.subrange(0, li as int))).len(),
            total <= u32::MAX,
        decreases n - li,
    {
        let ghost pre = strs_view(lines@.subrange(0, li as int));
        let line = &lines[li];
        let toks = tokenize(line.as_str());
        proof {
            assert(strs_view(lines@.subrange(0, li as int + 1)) =~= pre.push(line@));
            lemma_all_tokens_line(pre, line@);
        }
        if toks.len() as u64 > u32::MAX as u64 || total + toks.len() as u64
            > u32::MAX as u64 {
            proof {
                let whole = strs_view(lines@);
                let rest = strs_view(lines@.subrange(li as int + 1, n as int));
                assert(lines@ =~= lines@.subrange(0, li as int + 1) + lines@.subrange(
                    li as int + 1,
                    n as int,
                ));
                assert(whole =~= pre.push(line@) + rest);
                lemma_all_tokens_concat(pre.push(line@), rest);
            }
            return None;
        }
        total = total + toks.len() as u64;
        li = li + 1;
    }
    proof {
        assert(lines@.subrange(0, n as int) =~= lines@);
    }
    Some(count_words(lines))
}

/// One write request produced by a drain: the shard file to append to,
/// and the single entry line to append there.
pub struct WriteOp {
    pub path: String,
    pub line: String,
}

/// The (path, line) pairs of a sequence of write requests.
pub open spec fn ops_view(ops: Seq<WriteOp>) -> Seq<(Seq<char>, Seq<char>)> {
    ops.map_values(|o: WriteOp| (o.path@, o.line@))
}

/// The write request of one table entry: the entry's line, addressed to
/// the shard of the partition resolved from the word's leading character.
pub open spec fn spec_entry_op(word: Seq<char>, count: u32) -> (Seq<char>, Seq<char>) {
    (spec_shard_path(spec_key_partition(word)), spec_entry_line(word, count))
}

/// The write requests of one table, one per entry, in entry order.
pub open spec fn spec_table_ops(ws: Seq<Seq<char>>, cs: Seq<u32>) -> Seq<(Seq<char>, Seq<char>)> {
    Seq::new(ws.len(), |i: int| spec_entry_op(ws[i], cs[i]))
}

/// The write requests of a buffer of tables, buffered order first.
pub open spec fn spec_buffer_ops(tables: Seq<WordCountTable>) -> Seq<(Seq<char>, Seq<char>)>
    decreases tables.len(),
{
    if tables.len() == 0 {
        Seq::empty()
    } else {
        spec_buffer_ops(tables.drop_last()) + spec_table_ops(
            tables.last().spec_words(),
            tables.last().spec_counts(),
        )
    }
}

/// Whether a write request is addressed to the shard of one of the
/// valid partitions.
pub open spec fn targets_valid_shard(op: (Seq<char>, Seq<char>)) -> bool {
    exists|id: u8| 1 <= id <= crate::partition::NUM_PARTITIONS && op.0 == spec_shard_path(id)
}

/// Shard placement is deterministic: every write request a drain
/// produces is addressed to the shard of one of the valid partitions,
/// never anywhere else.
pub proof fn lemma_drain_targets_valid_shards(tables: Seq<WordCountTable>)
    ensures
        forall|i: int|
            0 <= i < spec_buffer_ops(tables).len() ==> targets_valid_shard(
                #[trigger] spec_buffer_ops(tables)[i],
            ),
    decreases tables.len(),
{
    if tables.len() > 0 {
        lemma_drain_targets_valid_shards(tables.drop_last());
        let pre = spec_buffer_ops(tables.drop_last());
        let ws = tables.last().spec_words();
        let cs = tables.last().spec_counts();
        assert forall|i: int| 0 <= i < spec_buffer_ops(tables).len() implies targets_valid_shard(
            #[trigger] spec_buffer_ops(tables)[i],
        ) by {
            if i < pre.len() {
                assert(spec_buffer_ops(tables)[i] == pre[i]);
            } else {
                let w = ws[i - pre.len()];
                let op = spec_entry_op(w, cs[i - pre.len()]);
                let id = spec_key_partition(w);
                if w.len() > 0 {
                    crate::partition::lemma_partition_total(w[0]);
                }
                assert(spec_buffer_ops(tables)[i] == op);
                assert(1 <= id <= crate::partition::NUM_PARTITIONS && op.0 == spec_shard_path(
                    id,
                ));
                assert(targets_valid_shard(op));
            }
        }
    }
}

/// The keys of the word-count table of a file's lines, in
/// first-occurrence order.
pub open spec fn spec_file_table_keys(lines: Seq<Seq<char>>) -> Seq<Seq<char>> {
    spec_distinct_in_order(spec_lowered_tokens(lines))
}

/// The counts of the word-count table of a file's lines, parallel to its
/// keys.
pub open spec fn spec_file_table_counts(lines: Seq<Seq<char>>) -> Seq<u32> {
    Seq::new(
        spec_file_table_keys(lines).len(),
        |i: int|
            spec_occurrences(
                spec_lowered_tokens(lines),
                spec_file_table_keys(lines)[i],
            ) as u32,
    )
}

/// The write requests that draining one file's table produces.
pub open spec fn spec_file_ops(lines: Seq<Seq<char>>) -> Seq<(Seq<char>, Seq<char>)> {
    spec_table_ops(spec_file_table_keys(lines), spec_file_table_counts(lines))
}

/// A word-count table of given lines is pinned down entirely: its keys
/// and counts equal the ones computed from the lines.
pub proof fn lemma_count_table_pinned(t: WordCountTable, lines: Seq<Seq<char>>)
    requires
        spec_is_count_table(t, lines),
        spec_all_tokens(lines).len() <= u32::MAX,
    ensures
        t.spec_words() == spec_file_table_keys(lines),
        t.spec_counts() == spec_file_table_counts(lines),
{
    crate::table::lemma_counts_determined(t);
    let toks = spec_lowered_tokens(lines);
    lemma_distinct_in_order_same_values(toks);
    assert forall|i: int| 0 <= i < t.spec_counts().len() implies t.spec_counts()[i]
        == spec_file_table_counts(lines)[i] by {
        assert(t.spec_words()[i] == spec_file_table_keys(lines)[i]);
        assert(spec_file_table_keys(lines).contains(spec_file_table_keys(lines)[i]));
        assert(toks.contains(t.spec_words()[i]));
        lemma_occurrences_le_len(toks, t.spec_words()[i]);
    }
    assert(t.spec_counts() =~= spec_file_table_counts(lines));
}

/// Counting is deterministic: two word-count tables computed from the
/// same file content are identical in keys, counts and map, so counting
/// the same content twice yields the identical table.
pub proof fn lemma_count_words_deterministic(
    t1: WordCountTable,
    t2: WordCountTable,
    lines: Seq<Seq<char>>,
)
    requires
        spec_is_count_table(t1, lines),
        spec_is_count_table(t2, lines),
        spec_all_tokens(lines).len() <= u32::MAX,
    ensures
        t1.spec_words() == t2.spec_words(),
        t1.spec_counts() == t2.spec_counts(),
        t1.as_map() == t2.as_map(),
{
    lemma_count_table_pinned(t1, lines);
    lemma_count_table_pinned(t2, lines);
    let toks = spec_lowered_tokens(lines);
    assert forall|k: Seq<char>| #[trigger] t1.as_map().contains_key(k) implies t2.as_map().contains_key(k) by {
        assert(toks.contains(k));
    }
    assert forall|k: Seq<char>| #[trigger] t2.as_map().contains_key(k) implies t1.as_map().contains_key(k) by {
        assert(toks.contains(k));
    }
    assert(t1.as_map() =~= t2.as_map());
}

/// A mapper worker's mutable state: the monotonic sequence counter,
/// incremented once per handled identifier request or processed file, and
/// the buffer of completed word-count tables awaiting a drain.
pub struct Mapper {
    message_id: usize,
    internal_buffer: Vec<WordCountTable>,
}

impl Mapper {
    /// The worker's sequence counter.
    pub closed spec fn spec_message_id(self) -> usize {
        self.message_id
    }

    /// The buffered word-count tables, oldest first.
    pub closed spec fn spec_buffer(self) -> Seq<WordCountTable> {
        self.internal_buffer@
    }

    /// Well-formedness: every buffered table is well formed.
    pub closed spec fn wf(self) -> bool {
        forall|i: int| 0 <= i < self.internal_buffer@.len() ==> (
        #[trigger] self.internal_buffer@[i]).wf()
    }

    /// Creates an idle worker with an empty buffer.
    pub fn new() -> (r: Mapper)
        ensures
            r.wf(),
            r.spec_message_id() == 0,
            r.spec_buffer() == Seq::<WordCountTable>::empty(),
    {
        let r = Mapper { message_id: 0, internal_buffer: Vec::new() };
        proof {
            assert(r.spec_buffer() =~= Seq::<WordCountTable>::empty());
        }
        r
    }

    /// The current value of the sequence counter.
    pub fn message_count(&self) -> (r: usize)
        ensures
            r == self.spec_message_id(),
    {
        self.message_id
    }

    /// The number of buffered word-count tables awaiting a drain.
    pub fn buffer_len(&self) -> (r: usize)
        ensures
            r == self.spec_buffer().len(),
    {
        self.internal_buffer.len()
    }

    /// Hands out the next value of the sequence counter.
    pub fn get_unique_id(&mut self) -> (r: usize)
        requires
            old(self).wf(),
            old(self).spec_message_id() < usize::MAX,
        ensures
            final(self).wf(),
            final(self).spec_message_id() == old(self).spec_message_id() + 1,
            r == final(self).spec_message_id(),
            final(self).spec_buffer() == old(self).spec_buffer(),
    {
        self.message_id = self.message_id + 1;
        self.message_id
    }

    /// Computes the word-frequency table of one file's lines without
    /// touching the worker's counter or buffer.
    pub fn process_file(&self, lines: &Vec<String>) -> (r: WordCountTable)
        requires
            spec_all_tokens(strs_view(lines@)).len() <= u32::MAX,
        ensures
            spec_is_count_table(r, strs_view(lines@)),
    {
        count_words(lines)
    }

    fn drain_buffer(&mut self) -> (r: Vec<WriteOp>)
        requires
            old(self).wf(),
        ensures
            final(self).wf(),
            final(self).spec_message_id() == old(self).spec_message_id(),
            final(self).spec_buffer() == Seq::<WordCountTable>::empty(),
            ops_view(r@) == spec_buffer_ops(old(self).spec_buffer()),
    {
        let mut ops: Vec<WriteOp> = Vec::new();
        let nb = self.internal_buffer.len();
        let mut bi: usize = 0;
        proof {
            assert(self.spec_buffer().subrange(0, 0) =~= Seq::<WordCountTable>::empty());
            assert(ops_view(ops@) =~= Seq::<(Seq<char>, Seq<char>)>::empty());
        }
        while bi < nb
            invariant
                self == old(self),
                self.wf(),
                nb == self.spec_buffer().len(),
                bi <= nb,
                ops_view(ops@) == spec_buffer_ops(self.spec_buffer().subrange(0, bi as int)),
            decreases nb - bi,
        {
            let tb = &self.internal_buffer[bi];
            let ne = tb.len();
            let mut ei: usize = 0;
            proof {
                crate::table::lemma_counts_determined(*tb);
                assert(spec_table_ops(tb.spec_words(), tb.spec_counts()).subrange(0, 0)
                    =~= Seq::<(Seq<char>, Seq<char>)>::empty());
                assert(ops_view(ops@) =~= spec_buffer_ops(
                    self.spec_buffer().subrange(0, bi as int),
                ) + spec_table_ops(tb.spec_words(), tb.spec_counts()).subrange(0, 0));
            }
            while ei < ne
                invariant
                    self == old(self),
                    self.wf(),
                    bi < nb,
                    nb == self.spec_buffer().len(),
                    *tb == self.spec_buffer()[bi as int],
                    tb.wf(),
                    ne == tb.spec_words().len(),
                    ne == tb.spec_counts().len(),
                    ei <= ne,
                    ops_view(ops@) == spec_buffer_ops(
                        self.spec_buffer().subrange(0, bi as int),
                    ) + spec_table_ops(tb.spec_words(), tb.spec_counts()).subrange(
                        0,
                        ei as int,
                    ),
                decreases ne - ei,
            {
                let w = tb.word_at(ei);
                let c = tb.count_at(ei);
                let pid = key_partition(w.as_str());
                let path = shard_path(pid);
                let entry = entry_line(w.as_str(), c);
                let op = WriteOp { path, line: entry };
                proof {
                    assert(ops_view(ops@.push(op)) =~= ops_view(ops@).push(
                        (op.path@, op.line@),
                    ));
                    assert((op.path@, op.line@) == spec_entry_op(
                        tb.spec_words()[ei as int],
                        tb.spec_counts()[ei as int],
                    ));
                    assert(spec_table_ops(tb.spec_words(), tb.spec_counts()).subrange(
                        0,
                        ei as int + 1,
                    ) =~= spec_table_ops(tb.spec_words(), tb.spec_counts()).subrange(
                        0,
                        ei as int,
                    ).push(spec_entry_op(tb.spec_words()[ei as int], tb.spec_counts()[ei as int])));
                }
                ops.push(op);
                ei = ei + 1;
            }
            proof {
                assert(spec_table_ops(tb.spec_words(), tb.spec_counts()).subrange(0, ne as int)
                    =~= spec_table_ops(tb.spec_words(), tb.spec_counts()));
                let pre = self.spec_buffer().subrange(0, bi as int + 1);
                assert(pre.drop_last() =~= self.spec_buffer().subrange(0, bi as int));
                assert(pre.last() == self.spec_buffer()[bi as int]);
            }
            bi = bi + 1;
        }
        proof {
            assert(self.spec_buffer().subrange(0, nb as int) =~= self.spec_buffer());
        }
        self.internal_buffer.clear();
        ops
    }

    /// Processes one file and buffers its table: the sequence counter
    /// gains one, the file's word-count table is appended to the buffer,
    /// and exactly when the new counter value is a multiple of the drain
    /// threshold the whole buffer is drained into write requests and
    /// cleared. Returns the new counter value and the requests to submit.
    pub fn process_file_with_buffer(&mut self, lines: &Vec<String>) -> (r: (
        usize,
        Vec<WriteOp>,
    ))
        requires
            old(self).wf(),
            old(self).spec_message_id() < usize::MAX,
            spec_all_tokens(strs_view(lines@)).len() <= u32::MAX,
        ensures
            final(self).wf(),
            final(self).spec_message_id() == old(self).spec_message_id() + 1,
            r.0 == final(self).spec_message_id(),
            (old(self).spec_message_id() + 1) % (DRAIN_THRESHOLD as int) != 0 ==> {
                &&& final(self).spec_buffer().len() == old(self).spec_buffer().len() + 1
                &&& final(self).spec_buffer().drop_last() == old(self).spec_buffer()
                &&& spec_is_count_table(final(self).spec_buffer().last(), strs_view(lines@))
                &&& r.1@.len() == 0
            },
            (old(self).spec_message_id() + 1) % (DRAIN_THRESHOLD as int) == 0 ==> {
                &&& final(self).spec_buffer().len() == 0
                &&& ops_view(r.1@) == spec_buffer_ops(old(self).spec_buffer()) + spec_file_ops(
                    strs_view(lines@),
                )
            },
    {
        self.message_id = self.message_id + 1;
        let id = self.message_id;
        let table = count_words(lines);
        let ghost old_buffer = self.spec_buffer();
        self.internal_buffer.push(table);
        proof {
            assert(self.spec_buffer().drop_last() =~= old_buffer);
            assert forall|i: int| 0 <= i < self.internal_buffer@.len() implies (
            #[trigger] self.internal_buffer@[i]).wf() by {
                if i < old_buffer.len() {
                    assert(old(self).internal_buffer@[i].wf());
                }
            }
        }
        if id % DRAIN_THRESHOLD == 0 {
            let ghost buffered = self.spec_buffer();
            let ops = self.drain_buffer();
            proof {
                assert(buffered.drop_last() =~= old_buffer);
                lemma_count_table_pinned(buffered.last(), strs_view(lines@));
                assert(spec_table_ops(buffered.last().spec_words(), buffered.last().spec_counts())
                    == spec_file_ops(strs_view(lines@)));
            }
            (id, ops)
        } else {
            let ops: Vec<WriteOp> = Vec::new();
            (id, ops)
        }
    }

    /// Drains the buffer unconditionally, as the cleanup broadcast at the
    /// end of a run demands, and acknowledges.
    pub fn cleanup(&mut self) -> (r: (String, Vec<WriteOp>))
        requires
            old(self).wf(),
        ensures
            final(self).wf(),
            final(self).spec_message_id() == old(self).spec_message_id(),
            final(self).spec_buffer().len() == 0,
            ops_view(r.1@) == spec_buffer_ops(old(self).spec_buffer()),
            r.0@ == "Cleanup Finished"@,
    {
        let ops = self.drain_buffer();
        (String::from_str("Cleanup Finished"), ops)
    }
}

} // verus!

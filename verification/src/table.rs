//! The per-file word-count table: a mapping from lowercased token to
//! occurrence count, built once per input file and consumed when a worker
//! drains its buffer.
//!
//! Entries are kept in insertion order in a pair of parallel vectors with
//! pairwise-distinct keys; the table's meaning is the association map over
//! those entries.

use vstd::prelude::*;

use crate::text::str_eq;
use crate::text::strs_view;

verus! {

/// Whether the keys of a table are pairwise distinct.
pub open spec fn distinct_keys(ws: Seq<Seq<char>>) -> bool {
    forall|i: int, j: int| 0 <= i < j < ws.len() ==> ws[i] != ws[j]
}

/// The association map over parallel key and count sequences; a later
/// entry for a key overrides an earlier one.
pub open spec fn spec_assoc_map(ws: Seq<Seq<char>>, cs: Seq<u32>) -> Map<Seq<char>, u32>
    decreases ws.len(),
{
    if ws.len() == 0 || cs.len() == 0 {
        Map::empty()
    } else {
        spec_assoc_map(ws.drop_last(), cs.drop_last()).insert(ws.last(), cs.last())
    }
}

/// A key listed at index `i` is in the association map, and when keys are
/// distinct it maps to the count at `i`.
pub proof fn lemma_assoc_map_index(ws: Seq<Seq<char>>, cs: Seq<u32>, i: int)
    requires
        ws.len() == cs.len(),
        distinct_keys(ws),
        0 <= i < ws.len(),
    ensures
        spec_assoc_map(ws, cs).contains_key(ws[i]),
        spec_assoc_map(ws, cs)[ws[i]] == cs[i],
    decreases ws.len(),
{
    if i < ws.len() - 1 {
        lemma_assoc_map_index(ws.drop_last(), cs.drop_last(), i);
    }
}

/// A key listed at no index is not in the association map.
pub proof fn lemma_assoc_map_absent(ws: Seq<Seq<char>>, cs: Seq<u32>, k: Seq<char>)
    requires
        ws.len() == cs.len(),
        forall|i: int| 0 <= i < ws.len() ==> ws[i] != k,
    ensures
        !spec_assoc_map(ws, cs).contains_key(k),
    decreases ws.len(),
{
    if ws.len() > 0 {
        lemma_assoc_map_absent(ws.drop_last(), cs.drop_last(), k);
    }
}

/// Updating the count at index `i` updates the association map at the key
/// listed there and nowhere else.
pub proof fn lemma_assoc_map_update(ws: Seq<Seq<char>>, cs: Seq<u32>, i: int, v: u32)
    requires
        ws.len() == cs.len(),
        distinct_keys(ws),
        0 <= i < ws.len(),
    ensures
        spec_assoc_map(ws, cs.update(i, v)) == spec_assoc_map(ws, cs).insert(ws[i], v),
    decreases ws.len(),
{
    let n = ws.len() as int;
    if i == n - 1 {
        assert(cs.update(i, v).drop_last() =~= cs.drop_last());
        assert(spec_assoc_map(ws.drop_last(), cs.drop_last()).insert(ws[i], cs[i]).insert(
            ws[i],
            v,
        ) =~= spec_assoc_map(ws.drop_last(), cs.drop_last()).insert(ws[i], v));
    } else {
        lemma_assoc_map_update(ws.drop_last(), cs.drop_last(), i, v);
        assert(cs.update(i, v).drop_last() =~= cs.drop_last().update(i, v));
        assert(cs.update(i, v).last() == cs.last());
        assert(spec_assoc_map(ws.drop_last(), cs.drop_last()).insert(ws[i], v).insert(
            ws.last(),
            cs.last(),
        ) =~= spec_assoc_map(ws.drop_last(), cs.drop_last()).insert(ws.last(), cs.last()).insert(
            ws[i],
            v,
        ));
    }
}

/// The map after counting one more occurrence of `k`: an existing count is
/// incremented, a missing key enters with count one.
pub open spec fn spec_bump(m: Map<Seq<char>, u32>, k: Seq<char>) -> Map<Seq<char>, u32> {
    if m.contains_key(k) {
        m.insert(k, (m[k] + 1) as u32)
    } else {
        m.insert(k, 1u32)
    }
}

/// A well-formed table's counts are determined by its keys and its map:
/// the count at each entry is the map's value for the key listed there.
pub proof fn lemma_counts_determined(t: WordCountTable)
    requires
        t.wf(),
    ensures
        t.spec_counts().len() == t.spec_words().len(),
        distinct_keys(t.spec_words()),
        forall|i: int|
            0 <= i < t.spec_words().len() ==> t.as_map().contains_key(
                #[trigger] t.spec_words()[i],
            ),
        forall|i: int|
            0 <= i < t.spec_words().len() ==> #[trigger] t.spec_counts()[i] == t.as_map()[t.spec_words()[i]],
{
    assert forall|i: int| 0 <= i < t.spec_words().len() implies t.as_map().contains_key(
        #[trigger] t.spec_words()[i],
    ) && t.spec_counts()[i] == t.as_map()[t.spec_words()[i]] by {
        lemma_assoc_map_index(t.spec_words(), t.spec_counts(), i);
    }
}

/// A word-frequency table for one input file: lowercased tokens paired
/// with how often each occurred, in first-occurrence order.
pub struct WordCountTable {
    words: Vec<String>,
    counts: Vec<u32>,
}

impl WordCountTable {
    /// The keys of the table, in insertion order.
    pub closed spec fn spec_words(self) -> Seq<Seq<char>> {
        strs_view(self.words@)
    }

    /// The counts of the table, parallel to the keys.
    pub closed spec fn spec_counts(self) -> Seq<u32> {
        self.counts@
    }

    /// The table as a map from key to count.
    pub open spec fn as_map(self) -> Map<Seq<char>, u32> {
        spec_assoc_map(self.spec_words(), self.spec_counts())
    }

    /// Well-formedness: one count per key, keys pairwise distinct.
    pub closed spec fn wf(self) -> bool {
        &&& self.words@.len() == self.counts@.len()
        &&& distinct_keys(self.spec_words())
    }

    /// Creates an empty table.
    pub fn new() -> (r: WordCountTable)
        ensures
            r.wf(),
            r.spec_words() == Seq::<Seq<char>>::empty(),
            r.as_map() == Map::<Seq<char>, u32>::empty(),
    {
        let r = WordCountTable { words: Vec::new(), counts: Vec::new() };
        proof {
            assert(r.spec_words() =~= Seq::<Seq<char>>::empty());
        }
        r
    }

    /// The number of distinct keys in the table.
    pub fn len(&self) -> (r: usize)
        ensures
            r == self.spec_words().len(),
    {
        self.words.len()
    }

    /// The key at entry `i`.
    pub fn word_at(&self, i: usize) -> (r: &String)
        requires
            i < self.spec_words().len(),
        ensures
            r@ == self.spec_words()[i as int],
    {
        &self.words[i]
    }

    /// The count at entry `i`.
    pub fn count_at(&self, i: usize) -> (r: u32)
        requires
            self.wf(),
            i < self.spec_words().len(),
        ensures
            r == self.spec_counts()[i as int],
    {
        self.counts[i]
    }

    /// Looks a key up.
    pub fn get(&self, word: &str) -> (r: Option<u32>)
        requires
            self.wf(),
        ensures
            match r {
                Some(c) => self.as_map().contains_key(word@) && self.as_map()[word@] == c,
                None => !self.as_map().contains_key(word@),
            },
    {
        let n = self.words.len();
        let mut i: usize = 0;
        while i < n
            invariant
                self.wf(),
                n == self.spec_words().len(),
                i <= n,
                forall|k: int| 0 <= k < i ==> self.spec_words()[k] != word@,
            decreases n - i,
        {
            if str_eq(self.words[i].as_str(), word) {
                proof {
                    lemma_assoc_map_index(self.spec_words(), self.spec_counts(), i as int);
                }
                return Some(self.counts[i]);
            }
            i = i + 1;
        }
        proof {
            lemma_assoc_map_absent(self.spec_words(), self.spec_counts(), word@);
        }
        None
    }

    /// Counts one more occurrence of `word`. A key already present keeps
    /// its place and gains one; a new key is appended with count one.
    pub fn increment(&mut self, word: String)
        requires
            old(self).wf(),
            old(self).as_map().contains_key(word@) ==> old(self).as_map()[word@] < u32::MAX,
        ensures
            final(self).wf(),
            final(self).as_map() == spec_bump(old(self).as_map(), word@),
            old(self).as_map().contains_key(word@) ==> final(self).spec_words() == old(
                self,
            ).spec_words(),
            !old(self).as_map().contains_key(word@) ==> final(self).spec_words() == old(
                self,
            ).spec_words().push(word@),
    {
        let n = self.words.len();
        let mut i: usize = 0;
        while i < n
            invariant
                self == old(self),
                self.wf(),
                self.as_map().contains_key(word@) ==> self.as_map()[word@] < u32::MAX,
                n == self.spec_words().len(),
                i <= n,
                forall|k: int| 0 <= k < i ==> self.spec_words()[k] != word@,
            decreases n - i,
        {
            if str_eq(self.words[i].as_str(), word.as_str()) {
                proof {
                    assert(self.spec_words()[i as int] == word@);
                    lemma_assoc_map_index(self.spec_words(), self.spec_counts(), i as int);
                    assert(self.as_map()[word@] == self.spec_counts()[i as int]);
                }
                let c = self.counts[i];
                proof {
                    assert(self.as_map().contains_key(word@));
                    assert(c == self.as_map()[word@]);
                    assert(c < u32::MAX);
                }
                self.counts[i] = c + 1;
                proof {
                    assert(self.spec_words() =~= old(self).spec_words());
                    lemma_assoc_map_update(
                        old(self).spec_words(),
                        old(self).spec_counts(),
                        i as int,
                        (c + 1) as u32,
                    );
                }
                return ;
            }
            i = i + 1;
        }
        proof {
            lemma_assoc_map_absent(self.spec_words(), self.spec_counts(), word@);
        }
        let ghost old_words = self.spec_words();
        let ghost old_counts = self.spec_counts();
        self.words.push(word);
        self.counts.push(1);
        proof {
            assert(self.spec_words() =~= old_words.push(word@));
            assert(self.spec_words().drop_last() =~= old_words);
            assert(self.spec_counts().drop_last() =~= old_counts);
        }
    }
}

} // verus!

//! Matching a query fingerprint against a named collection.
//!
//! Every stored fingerprint is scored by hash overlap with the query:
//! one point per query hash that occurs anywhere in the stored hash
//! sequence. The entry with the strictly highest score wins; ties resolve
//! to the entry inserted earliest, so matching is deterministic. A match is
//! reported only when the best score exceeds a fixed threshold.
use vstd::prelude::*;

use crate::fingerprint::AudioFingerprint;

verus! {

/// Score a stored fingerprint must strictly exceed against the query for a
/// match to be reported.
pub const MATCH_THRESHOLD: u32 = 10;

/// Number of query hashes that also occur in `stored`: one point for each
/// position of `q` whose value appears anywhere in `stored` (membership, not
/// multiset intersection — the stored side's multiplicity is irrelevant).
pub open spec fn match_score(q: Seq<u64>, stored: Seq<u64>) -> nat
    decreases q.len(),
{
    if q.len() == 0 {
        0
    } else {
        match_score(q.drop_last(), stored) + if stored.contains(q.last()) {
            1nat
        } else {
            0nat
        }
    }
}

/// First index holding an entry named `name`, or -1 if there is none.
pub open spec fn find_key(entries: Seq<(String, AudioFingerprint)>, name: Seq<char>) -> int
    decreases entries.len(),
{
    if entries.len() == 0 {
        -1
    } else if entries[0].0@ == name {
        0
    } else {
        let rest = find_key(entries.drop_first(), name);
        if rest < 0 {
            -1
        } else {
            rest + 1
        }
    }
}

/// The highest score any entry reaches against the query's hash sequence;
/// zero for the empty collection.
pub open spec fn best_score(entries: Seq<(String, AudioFingerprint)>, q: Seq<u64>) -> nat
    decreases entries.len(),
{
    if entries.len() == 0 {
        0
    } else {
        let prev = best_score(entries.drop_last(), q);
        let s = match_score(q, entries.last().1.hash@);
        if s > prev {
            s
        } else {
            prev
        }
    }
}

/// The name of the entry attaining `best_score`, the earliest such entry on
/// ties; `None` for the empty collection or when every score is zero.
pub open spec fn best_name(entries: Seq<(String, AudioFingerprint)>, q: Seq<u64>) -> Option<
    Seq<char>,
>
    decreases entries.len(),
{
    if entries.len() == 0 {
        None
    } else {
        let prev = best_score(entries.drop_last(), q);
        let s = match_score(q, entries.last().1.hash@);
        if s > prev {
            Some(entries.last().0@)
        } else {
            best_name(entries.drop_last(), q)
        }
    }
}

proof fn lemma_find_key_absent(entries: Seq<(String, AudioFingerprint)>, name: Seq<char>)
    requires
        forall|j: int| 0 <= j < entries.len() ==> (#[trigger] entries[j]).0@ != name,
    ensures
        find_key(entries, name) < 0,
    decreases entries.len(),
{
    if entries.len() > 0 {
        assert(entries[0].0@ != name);
        assert(forall|j: int|
            0 <= j < entries.drop_first().len() ==> (#[trigger] entries.drop_first()[j]).0@
                != name);
        lemma_find_key_absent(entries.drop_first(), name);
    }
}

proof fn lemma_find_key_at(entries: Seq<(String, AudioFingerprint)>, name: Seq<char>, i: int)
    requires
        0 <= i < entries.len(),
        entries[i].0@ == name,
        forall|j: int| 0 <= j < i ==> (#[trigger] entries[j]).0@ != name,
    ensures
        find_key(entries, name) == i,
    decreases i,
{
    if i > 0 {
        assert(entries[0].0@ != name);
        assert(entries.drop_first()[i - 1].0@ == name);
        assert(forall|j: int|
            0 <= j < i - 1 ==> (#[trigger] entries.drop_first()[j]).0@ != name);
        lemma_find_key_at(entries.drop_first(), name, i - 1);
    }
}

/// Every hash of `q` occurring in `s` makes the score the full query length.
proof fn lemma_score_all_contained(q: Seq<u64>, s: Seq<u64>)
    requires
        forall|k: int| 0 <= k < q.len() ==> s.contains(#[trigger] q[k]),
    ensures
        match_score(q, s) == q.len(),
    decreases q.len(),
{
    if q.len() > 0 {
        assert(s.contains(q[q.len() - 1]));
        lemma_score_all_contained(q.drop_last(), s);
    }
}

/// A hash sequence scores its full length against itself: every one of its
/// hashes occurs in it.
pub proof fn lemma_score_self(q: Seq<u64>)
    ensures
        match_score(q, q) == q.len(),
{
    assert forall|k: int| 0 <= k < q.len() implies q.contains(#[trigger] q[k]) by {}
    lemma_score_all_contained(q, q);
}

/// Matching is monotonic in the stored fingerprint: a stored hash sequence
/// holding every hash of another scores at least as high against any query —
/// adding overlapping hashes to an entry never decreases its score.
pub proof fn lemma_score_monotonic_stored(q: Seq<u64>, s1: Seq<u64>, s2: Seq<u64>)
    requires
        forall|h: u64| s1.contains(h) ==> s2.contains(h),
    ensures
        match_score(q, s1) <= match_score(q, s2),
    decreases q.len(),
{
    if q.len() > 0 {
        lemma_score_monotonic_stored(q.drop_last(), s1, s2);
    }
}

/// Matching is monotonic in the query: the score is additive over
/// concatenation, so appending hashes to the query never decreases it.
pub proof fn lemma_score_query_append(q: Seq<u64>, extra: Seq<u64>, s: Seq<u64>)
    ensures
        match_score(q + extra, s) == match_score(q, s) + match_score(extra, s),
    decreases extra.len(),
{
    if extra.len() == 0 {
        assert(q + extra =~= q);
    } else {
        lemma_score_query_append(q, extra.drop_last(), s);
        assert((q + extra).drop_last() =~= q + extra.drop_last());
        assert((q + extra).last() == extra.last());
    }
}

proof fn lemma_best_below(entries: Seq<(String, AudioFingerprint)>, q: Seq<u64>, bound: nat)
    requires
        bound > 0,
        forall|j: int|
            0 <= j < entries.len() ==> match_score(q, (#[trigger] entries[j]).1.hash@) < bound,
    ensures
        best_score(entries, q) < bound,
    decreases entries.len(),
{
    if entries.len() > 0 {
        assert(entries.last() == entries[entries.len() - 1]);
        assert(forall|j: int|
            0 <= j < entries.drop_last().len() ==> match_score(
                q,
                (#[trigger] entries.drop_last()[j]).1.hash@,
            ) < bound);
        lemma_best_below(entries.drop_last(), q, bound);
    }
}

/// Matching is reflexive: an entry holding exactly the query's hash sequence
/// scores the full sequence length, and when every other entry scores
/// strictly lower, it is the best-scoring entry and gives the match its name.
pub proof fn lemma_match_reflexive(
    entries: Seq<(String, AudioFingerprint)>,
    i: int,
    q: Seq<u64>,
)
    requires
        0 <= i < entries.len(),
        entries[i].1.hash@ == q,
        q.len() >= 1,
        forall|j: int|
            0 <= j < entries.len() && j != i ==> match_score(
                q,
                (#[trigger] entries[j]).1.hash@,
            ) < q.len(),
    ensures
        best_score(entries, q) == q.len(),
        best_name(entries, q) == Some(entries[i].0@),
    decreases entries.len(),
{
    lemma_score_self(q);
    let last = entries.len() - 1;
    assert(entries.last() == entries[last]);
    if i == last {
        assert(forall|j: int|
            0 <= j < entries.drop_last().len() ==> match_score(
                q,
                (#[trigger] entries.drop_last()[j]).1.hash@,
            ) < q.len());
        lemma_best_below(entries.drop_last(), q, q.len());
    } else {
        assert(entries.drop_last()[i] == entries[i]);
        assert(forall|j: int|
            0 <= j < entries.drop_last().len() && j != i ==> match_score(
                q,
                (#[trigger] entries.drop_last()[j]).1.hash@,
            ) < q.len());
        lemma_match_reflexive(entries.drop_last(), i, q);
    }
}

/// When a best entry is named, it is one of the stored entries, and its
/// score is exactly the best score of the collection.
pub proof fn lemma_best_name_names_best_entry(
    entries: Seq<(String, AudioFingerprint)>,
    q: Seq<u64>,
)
    requires
        best_name(entries, q) is Some,
    ensures
        exists|i: int|
            0 <= i < entries.len() && best_name(entries, q) == Some(
                (#[trigger] entries[i]).0@,
            ) && match_score(q, entries[i].1.hash@) == best_score(entries, q),
    decreases entries.len(),
{
    let last = entries.len() - 1;
    let prev = best_score(entries.drop_last(), q);
    let s = match_score(q, entries.last().1.hash@);
    if s > prev {
        assert(entries[last] == entries.last());
        assert(best_name(entries, q) == Some(entries[last].0@));
    } else {
        lemma_best_name_names_best_entry(entries.drop_last(), q);
        let i = choose|i: int|
            0 <= i < entries.drop_last().len() && best_name(entries.drop_last(), q) == Some(
                (#[trigger] entries.drop_last()[i]).0@,
            ) && match_score(q, entries.drop_last()[i].1.hash@) == best_score(
                entries.drop_last(),
                q,
            );
        assert(entries.drop_last()[i] == entries[i]);
        assert(best_name(entries, q) == Some(entries[i].0@));
        assert(match_score(q, entries[i].1.hash@) == best_score(entries, q));
    }
}

/// An empty collection matches nothing: its best score is zero, below any
/// threshold, and it names no entry.
pub proof fn lemma_empty_collection_no_match(q: Seq<u64>)
    ensures
        best_score(Seq::<(String, AudioFingerprint)>::empty(), q) == 0,
        best_name(Seq::<(String, AudioFingerprint)>::empty(), q) is None,
{
}

/// A named collection of fingerprints: entries are kept in insertion order
/// under unique names, and a query is matched against every entry.
pub struct FingerprintMatcher {
    database: Vec<(String, AudioFingerprint)>,
}

impl FingerprintMatcher {
    /// The entries, in insertion order.
    pub closed spec fn entries(&self) -> Seq<(String, AudioFingerprint)> {
        self.database@
    }

    /// Entry names are unique.
    pub open spec fn wf(&self) -> bool {
        forall|i: int, j: int|
            0 <= i < j < self.entries().len() ==> (#[trigger] self.entries()[i]).0@
                != (#[trigger] self.entries()[j]).0@
    }

    /// An empty collection.
    pub fn new() -> (r: FingerprintMatcher)
        ensures
            r.wf(),
            r.entries().len() == 0,
    {
        FingerprintMatcher { database: Vec::new() }
    }

    /// Insert `fingerprint` under `name`. If an entry of that name exists it
    /// is overwritten in place — last write wins — else the entry is
    /// appended.
    pub fn add_fingerprint(&mut self, name: &str, fingerprint: AudioFingerprint)
        requires
            old(self).wf(),
        ensures
            final(self).wf(),
            ({
                let old_db = old(self).entries();
                let db = final(self).entries();
                let idx = find_key(old_db, name@);
                if idx >= 0 {
                    &&& db.len() == old_db.len()
                    &&& forall|j: int| 0 <= j < db.len() && j != idx ==> db[j] == old_db[j]
                    &&& db[idx].0@ == name@
                    &&& db[idx].1 == fingerprint
                } else {
                    &&& db.len() == old_db.len() + 1
                    &&& forall|j: int| 0 <= j < old_db.len() ==> db[j] == old_db[j]
                    &&& db[old_db.len() as int].0@ == name@
                    &&& db[old_db.len() as int].1 == fingerprint
                }
            }),
    {
        let key: String = name.to_owned();
        let n: usize = self.database.len();
        let mut i: usize = 0;
        while i < n
            invariant
                i <= n == self.database@.len(),
                self.database@ == old(self).database@,
                key@ == name@,
                forall|j: int| 0 <= j < i ==> (#[trigger] self.database@[j]).0@ != name@,
            decreases n - i,
        {
            if self.database[i].0 == key {
                proof {
                    lemma_find_key_at(old(self).database@, name@, i as int);
                }
                let _replaced = self.database.remove(i);
                self.database.insert(i, (key, fingerprint));
                proof {
                    let old_db = old(self).database@;
                    assert forall|j: int|
                        0 <= j < self.database@.len() && j != i as int implies self.database@[j]
                        == old_db[j] by {
                        if j < i as int {
                            assert(old_db.remove(i as int)[j] == old_db[j]);
                        } else {
                            assert(old_db.remove(i as int)[j - 1] == old_db[j]);
                        }
                    }
                }
                return;
            }
            i += 1;
        }
        proof {
            lemma_find_key_absent(old(self).database@, name@);
        }
        self.database.push((key, fingerprint));
    }

    /// The overlap score of a query fingerprint against a stored one: the
    /// number of query hashes that occur anywhere in the stored hash
    /// sequence.
    pub fn compare_fingerprints(&self, fp1: &AudioFingerprint, fp2: &AudioFingerprint) -> (r:
        u32)
        requires
            fp1.hash@.len() <= u32::MAX,
        ensures
            r as nat == match_score(fp1.hash@, fp2.hash@),
    {
        let mut score: u32 = 0;
        let n: usize = fp1.hash.len();
        let mut i: usize = 0;
        while i < n
            invariant
                i <= n == fp1.hash@.len(),
                n <= u32::MAX,
                score <= i,
                score as nat == match_score(fp1.hash@.take(i as int), fp2.hash@),
            decreases n - i,
        {
            if contains_hash(&fp2.hash, fp1.hash[i]) {
                score += 1;
            }
            proof {
                assert(fp1.hash@.take(i as int + 1).drop_last() =~= fp1.hash@.take(i as int));
                assert(fp1.hash@.take(i as int + 1).last() == fp1.hash@[i as int]);
            }
            i += 1;
        }
        proof {
            assert(fp1.hash@.take(n as int) =~= fp1.hash@);
        }
        score
    }

    /// The name of the stored fingerprint scoring strictly highest against
    /// the query — ties resolve to the entry inserted earliest — or `None`
    /// when the collection is empty or the best score does not exceed
    /// `MATCH_THRESHOLD`.
    pub fn find_match(&self, fingerprint: &AudioFingerprint) -> (r: Option<String>)
        requires
            fingerprint.hash@.len() <= u32::MAX,
        ensures
            ({
                let bs = best_score(self.entries(), fingerprint.hash@);
                let bn = best_name(self.entries(), fingerprint.hash@);
                match r {
                    Some(name) => bs > MATCH_THRESHOLD && bn == Some(name@),
                    None => bs <= MATCH_THRESHOLD,
                }
            }),
    {
        let q = &fingerprint.hash;
        let mut best: Option<String> = None;
        let mut high: u32 = 0;
        let n: usize = self.database.len();
        let mut i: usize = 0;
        while i < n
            invariant
                i <= n == self.database@.len(),
                fingerprint.hash@.len() <= u32::MAX,
                high as nat == best_score(self.database@.take(i as int), fingerprint.hash@),
                match best {
                    Some(name) => best_name(self.database@.take(i as int), fingerprint.hash@)
                        == Some(name@),
                    None => high == 0 && best_name(
                        self.database@.take(i as int),
                        fingerprint.hash@,
                    ) is None,
                },
            decreases n - i,
        {
            let entry_score: u32 = self.compare_fingerprints(fingerprint, &self.database[i].1);
            proof {
                assert(self.database@.take(i as int + 1).drop_last() =~= self.database@.take(
                    i as int,
                ));
                assert(self.database@.take(i as int + 1).last() == self.database@[i as int]);
            }
            if entry_score > high {
                high = entry_score;
                best = Some(self.database[i].0.clone());
            }
            i += 1;
        }
        proof {
            assert(self.database@.take(n as int) =~= self.database@);
        }
        if high > MATCH_THRESHOLD {
            best
        } else {
            None
        }
    }
}

/// Whether `h` occurs in `hashes`.
fn contains_hash(hashes: &Vec<u64>, h: u64) -> (r: bool)
    ensures
        r == hashes@.contains(h),
{
    let n: usize = hashes.len();
    let mut i: usize = 0;
    while i < n
        invariant
            i <= n == hashes@.len(),
            forall|j: int| 0 <= j < i ==> hashes@[j] != h,
        decreases n - i,
    {
        if hashes[i] == h {
            assert(hashes@.contains(h));
            return true;
        }
        i += 1;
    }
    false
}

} // verus!

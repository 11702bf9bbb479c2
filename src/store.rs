//! The store engine: replay of the log into an index, `set`, `get` and
//! `remove`, and compaction of the log once it grows past a threshold.
use vstd::prelude::*;
use crate::codec::{Command, Op, DELIM, decode, decode_record, delim_free, encode, encode_op, lemma_decode_encode, lemma_encode_delim_free};
use crate::log::{LogFile, append_offset, appended, dead_record, disjoint, record_start, lemma_chunk_record, lemma_next_index_of_bounds, lemma_record_at_appended, lemma_record_at_delim_free, lemma_record_at_new, lemma_rewrite_again, lemma_rewritten_record, live_offsets, next_index_of, record_at, rewritten, strip_delim};

verus! {

/// The log size at which the store rewrites its log with the live records alone.
pub const COMPACT_THRESHOLD: usize = 16_000_000;

/// What can go wrong in a store operation.
#[derive(PartialEq, Eq, Structural, Debug, Clone, Copy)]
pub enum KvError {
    /// `remove` of a key that the store does not hold.
    KeyNotFound,
    /// A record of the log does not decode.
    Decode,
    /// The log removes a key that it never set.
    Corrupt,
    /// The log would outgrow the address space.
    TooLarge,
}

impl KvError {
    /// A message for the user.
    pub fn message(&self) -> (r: String)
        ensures
            *self == KvError::KeyNotFound ==> r@ == "Key not found"@,
            *self == KvError::Decode ==> r@ == "log record does not decode"@,
            *self == KvError::Corrupt ==> r@ == "log removes a key that was never set"@,
            *self == KvError::TooLarge ==> r@ == "log too large"@,
    {
        match self {
            KvError::KeyNotFound => "Key not found".to_string(),
            KvError::Decode => "log record does not decode".to_string(),
            KvError::Corrupt => "log removes a key that was never set".to_string(),
            KvError::TooLarge => "log too large".to_string(),
        }
    }
}

/// The contents of a store: each key with its value.
pub type Contents = Map<Seq<char>, Seq<char>>;

/// The contents after `op`, or the error it meets.
pub open spec fn apply(m: Contents, op: Op) -> Result<Contents, KvError> {
    match op {
        Op::Put(k, v) => Ok(m.insert(k, v)),
        Op::Rm(k) => if m.contains_key(k) {
            Ok(m.remove(k))
        } else {
            Err(KvError::Corrupt)
        },
    }
}

/// The outcome of replaying one more non-empty record `rec` after `res`.
pub open spec fn replay_step(res: Result<Contents, KvError>, rec: Seq<u8>) -> Result<Contents, KvError> {
    match res {
        Err(e) => Err(e),
        Ok(m) => match decode_record(rec) {
            None => Err(KvError::Decode),
            Some(op) => apply(m, op),
        },
    }
}

/// Replays the records of `s` from position `p` onwards, starting from `m`.
/// Empty records are skipped.
pub open spec fn replay_from(s: Seq<u8>, p: int, m: Contents) -> Result<Contents, KvError>
    decreases s.len() + 1 - p,
{
    if p < 0 || p >= s.len() {
        Ok(m)
    } else {
        let j = next_index_of(s, p, DELIM);
        proof {
            lemma_next_index_of_bounds(s, p, DELIM);
        }
        if j == p {
            replay_from(s, j + 1, m)
        } else {
            let r = replay_step(Ok(m), s.subrange(p, j));
            if r is Ok {
                replay_from(s, j + 1, r->Ok_0)
            } else {
                r
            }
        }
    }
}

/// The contents that the log `s` describes, or the error that replaying it meets.
pub open spec fn replay(s: Seq<u8>) -> Result<Contents, KvError> {
    replay_from(s, 0, Map::empty())
}

/// The value that `get` gives for `k` in `m`.
pub open spec fn lookup(m: Contents, k: Seq<char>) -> Option<Seq<char>> {
    if m.contains_key(k) {
        Some(m[k])
    } else {
        None
    }
}

/// The rewrite count after one more rewrite.
pub open spec fn bumped(n: u64) -> u64 {
    if n < u64::MAX {
        (n + 1) as u64
    } else {
        n
    }
}

/// `n` more bytes fit after the log `s`, with a delimiter, and leave the log
/// shorter than the largest `usize`.
pub open spec fn fits(s: Seq<u8>, n: int) -> bool {
    s.len() + 1 + n < usize::MAX
}

proof fn lemma_replay_last(s: Seq<u8>, rec: Seq<u8>, m: Contents)
    requires
        delim_free(rec),
        rec.len() > 0,
    ensures
        replay_from(appended(s, rec), append_offset(s), m) == replay_step(Ok(m), rec),
{
    let t = appended(s, rec);
    let o = append_offset(s);
    lemma_record_at_new(s, rec);
    assert(next_index_of(t, o, DELIM) == t.len());
    match replay_step(Ok(m), rec) {
        Err(e) => {},
        Ok(m2) => {
            assert(replay_from(t, t.len() + 1int, m2) == Ok::<Contents, KvError>(m2));
        },
    }
}

proof fn lemma_replay_appended_from(s: Seq<u8>, rec: Seq<u8>, p: int, m: Contents)
    requires
        delim_free(rec),
        rec.len() > 0,
        s.len() > 0,
        0 <= p <= s.len(),
    ensures
        replay_from(appended(s, rec), p, m) == replay_step(replay_from(s, p, m), rec),
    decreases s.len() + 1 - p,
{
    let t = appended(s, rec);
    lemma_replay_last(s, rec, m);
    if p == s.len() {
        lemma_record_at_appended(s, rec, p);
        assert(t[p] == DELIM);
        assert(next_index_of(t, p, DELIM) == p);
        assert(replay_from(s, p, m) == Ok::<Contents, KvError>(m));
        assert(replay_from(t, p, m) == replay_from(t, p + 1, m));
    } else {
        lemma_record_at_appended(s, rec, p);
        lemma_next_index_of_bounds(s, p, DELIM);
        let j = next_index_of(s, p, DELIM);
        assert(t.subrange(p, j) =~= s.subrange(p, j));
        assert(next_index_of(t, p, DELIM) == j);
        if j == p {
            lemma_replay_appended_from(s, rec, j + 1, m);
            assert(replay_from(t, p, m) == replay_from(t, j + 1, m));
            assert(replay_from(s, p, m) == replay_from(s, j + 1, m));
        } else {
            match replay_step(Ok(m), s.subrange(p, j)) {
                Err(e) => {
                    assert(replay_from(t, p, m) == Err::<Contents, KvError>(e));
                    assert(replay_from(s, p, m) == Err::<Contents, KvError>(e));
                },
                Ok(m2) => {
                    assert(replay_from(t, p, m) == replay_from(t, j + 1, m2));
                    assert(replay_from(s, p, m) == replay_from(s, j + 1, m2));
                    if j < s.len() {
                        lemma_replay_appended_from(s, rec, j + 1, m2);
                    } else {
                        lemma_replay_last(s, rec, m2);
                    }
                },
            }
        }
    }
}

/// Appending a non-empty record without delimiter to a log replays as one
/// more step after the log.
pub proof fn lemma_replay_appended(s: Seq<u8>, rec: Seq<u8>)
    requires
        delim_free(rec),
        rec.len() > 0,
    ensures
        replay(appended(s, rec)) == replay_step(replay(s), rec),
{
    if s.len() == 0 {
        lemma_replay_last(s, rec, Map::empty());
    } else {
        lemma_replay_appended_from(s, rec, 0, Map::empty());
    }
}

/// An index entry holds a key of `m` and the offset of a record of `s` that
/// sets that key to its value in `m`.
pub open spec fn entry_ok(s: Seq<u8>, m: Contents, e: (String, usize)) -> bool {
    &&& m.contains_key(e.0@)
    &&& e.1 < s.len()
    &&& record_start(s, e.1 as int)
    &&& decode_record(record_at(s, e.1 as int)) == Some(Op::Put(e.0@, m[e.0@]))
}

/// Where the entry at `j` stood before the entry at `found`, if any, left the index.
pub open spec fn shifted(found: Option<usize>, j: int) -> int {
    match found {
        Some(i) => if j < i {
            j
        } else {
            j + 1
        },
        None => j,
    }
}

/// The text of an optional string.
pub open spec fn text_of(o: Option<String>) -> Option<Seq<char>> {
    match o {
        Some(s) => Some(s@),
        None => None,
    }
}

/// The contents that the first `n` entries of `ix` describe, with the values of `m`.
pub open spec fn prefix_map(ix: Seq<(String, usize)>, m: Contents, n: int) -> Contents
    decreases n,
{
    if n <= 0 {
        Map::empty()
    } else {
        prefix_map(ix, m, n - 1).insert(ix[n - 1].0@, m[ix[n - 1].0@])
    }
}

proof fn lemma_prefix_map(ix: Seq<(String, usize)>, m: Contents, n: int)
    requires
        0 <= n <= ix.len(),
        forall|j: int| 0 <= j < ix.len() ==> m.contains_key(#[trigger] ix[j].0@),
    ensures
        forall|k: Seq<char>| #[trigger]
            prefix_map(ix, m, n).contains_key(k) ==> m.contains_key(k) && prefix_map(ix, m, n)[k]
                == m[k],
        forall|j: int| 0 <= j < n ==> prefix_map(ix, m, n).contains_key(#[trigger] ix[j].0@),
    decreases n,
{
    if n > 0 {
        lemma_prefix_map(ix, m, n - 1);
        let key = ix[n - 1].0@;
        assert(m.contains_key(key));
        let pm = prefix_map(ix, m, n - 1);
        assert(prefix_map(ix, m, n) == pm.insert(key, m[key]));
        assert forall|k: Seq<char>| #[trigger]
            prefix_map(ix, m, n).contains_key(k) implies m.contains_key(k) && prefix_map(ix, m, n)[k]
                == m[k] by {
            if k != key {
                assert(pm.contains_key(k));
            }
        }
    }
}

proof fn lemma_replay_rewritten(s: Seq<u8>, ix: Seq<(String, usize)>, m: Contents, offs: Seq<usize>, n: int)
    requires
        0 <= n <= ix.len(),
        offs.len() == ix.len(),
        forall|j: int| 0 <= j < ix.len() ==> #[trigger] offs[j] == ix[j].1,
        forall|j: int| 0 <= j < ix.len() ==> #[trigger] entry_ok(s, m, ix[j]),
    ensures
        replay(rewritten(s, offs.take(n))) == Ok::<Contents, KvError>(prefix_map(ix, m, n)),
    decreases n,
{
    if n == 0 {
        assert(offs.take(0) =~= Seq::<usize>::empty());
        assert(rewritten(s, offs.take(0)) =~= Seq::<u8>::empty());
    } else {
        lemma_replay_rewritten(s, ix, m, offs, n - 1);
        assert(offs.take(n).drop_last() =~= offs.take(n - 1));
        assert(offs[n - 1] == ix[n - 1].1);
        assert(entry_ok(s, m, ix[n - 1]));
        let rec = record_at(s, offs[n - 1] as int);
        lemma_record_at_delim_free(s, offs[n - 1] as int);
        assert(rec.len() > 0);
        lemma_replay_appended(rewritten(s, offs.take(n - 1)), rec);
    }
}

/// The index `ix` has one entry for each key of `m`, in ascending order of
/// offset, each pointing at a record of `s` that sets the key to its value.
pub open spec fn index_ok(s: Seq<u8>, m: Contents, ix: Seq<(String, usize)>) -> bool {
    &&& forall|i: int| 0 <= i < ix.len() ==> #[trigger] entry_ok(s, m, ix[i])
    &&& forall|k: Seq<char>| #[trigger]
        m.contains_key(k) ==> exists|i: int| 0 <= i < ix.len() && ix[i].0@ == k
    &&& forall|i: int, j: int| 0 <= i < j < ix.len() ==> ix[i].0@ != ix[j].0@ && ix[i].1 < ix[j].1
}

/// `ix` without the entry at `found`, if any.
pub open spec fn remove_found(ix: Seq<(String, usize)>, found: Option<usize>) -> Seq<(String, usize)> {
    match found {
        Some(i) => ix.remove(i as int),
        None => ix,
    }
}

/// `found` is where `k` stands in `ix`, or `None` where it is absent.
pub open spec fn found_ok(ix: Seq<(String, usize)>, found: Option<usize>, k: Seq<char>) -> bool {
    match found {
        Some(i) => i < ix.len() && ix[i as int].0@ == k,
        None => forall|j: int| 0 <= j < ix.len() ==> ix[j].0@ != k,
    }
}

/// The records that the entries of `ix` point at are the same in `s` and `t`.
pub open spec fn records_kept(s: Seq<u8>, t: Seq<u8>, ix: Seq<(String, usize)>) -> bool {
    forall|j: int|
        0 <= j < ix.len() ==> ix[j].1 < t.len() && #[trigger] record_at(t, ix[j].1 as int) == record_at(
            s,
            ix[j].1 as int,
        ) && (record_start(s, ix[j].1 as int) ==> record_start(t, ix[j].1 as int))
}

proof fn lemma_remove_found(s: Seq<u8>, m: Contents, ix: Seq<(String, usize)>, found: Option<usize>, k: Seq<char>)
    requires
        index_ok(s, m, ix),
        found_ok(ix, found, k),
    ensures
        forall|j: int|
            0 <= j < remove_found(ix, found).len() ==> #[trigger] remove_found(ix, found)[j]
                == ix[shifted(found, j)] && 0 <= shifted(found, j) < ix.len()
                && remove_found(ix, found)[j].0@ != k,
        remove_found(ix, found).len() == ix.len() - if found is Some { 1int } else { 0int },
{
    let mid = remove_found(ix, found);
    assert forall|j: int| 0 <= j < mid.len() implies #[trigger] mid[j] == ix[shifted(found, j)]
        && 0 <= shifted(found, j) < ix.len() && mid[j].0@ != k by {
        if let Some(i) = found {
            if j >= i {
                assert(ix[j + 1].0@ != ix[i as int].0@);
            }
        }
    }
}

/// Dropping the entry of `k`, if any, and adding one for a later record that
/// sets `k` to `v` keeps the index right.
proof fn lemma_index_put(
    s: Seq<u8>,
    t: Seq<u8>,
    m: Contents,
    ix: Seq<(String, usize)>,
    found: Option<usize>,
    key: String,
    v: Seq<char>,
    off: usize,
)
    requires
        index_ok(s, m, ix),
        found_ok(ix, found, key@),
        records_kept(s, t, ix),
        forall|j: int| 0 <= j < ix.len() ==> #[trigger] ix[j].1 < off,
        off < t.len(),
        record_start(t, off as int),
        decode_record(record_at(t, off as int)) == Some(Op::Put(key@, v)),
    ensures
        index_ok(t, m.insert(key@, v), remove_found(ix, found).push((key, off))),
{
    let k = key@;
    let mid = remove_found(ix, found);
    let ix2 = mid.push((key, off));
    let m2 = m.insert(k, v);
    lemma_remove_found(s, m, ix, found, k);
    assert forall|j: int| 0 <= j < ix2.len() implies #[trigger] entry_ok(t, m2, ix2[j]) by {
        if j < mid.len() {
            assert(mid[j] == ix[shifted(found, j)]);
            assert(entry_ok(s, m, ix[shifted(found, j)]));
            assert(record_at(t, ix[shifted(found, j)].1 as int) == record_at(s, ix[shifted(found, j)].1 as int));
            assert(ix2[j] == mid[j]);
        }
    }
    assert forall|kk: Seq<char>| #[trigger] m2.contains_key(kk) implies exists|i: int|
        0 <= i < ix2.len() && ix2[i].0@ == kk by {
        if kk == k {
            assert(ix2[mid.len() as int].0@ == kk);
        } else {
            assert(m.contains_key(kk));
            let i0 = choose|i0: int| 0 <= i0 < ix.len() && ix[i0].0@ == kk;
            match found {
                Some(i) => {
                    if i0 < i {
                        assert(mid[i0] == ix[shifted(found, i0)]);
                        assert(ix2[i0].0@ == kk);
                    } else {
                        assert(i0 != i);
                        assert(mid[i0 - 1] == ix[shifted(found, i0 - 1)]);
                        assert(ix2[i0 - 1].0@ == kk);
                    }
                },
                None => {
                    assert(mid[i0] == ix[shifted(found, i0)]);
                    assert(ix2[i0].0@ == kk);
                },
            }
        }
    }
    assert forall|a: int, b: int| 0 <= a < b < ix2.len() implies ix2[a].0@ != ix2[b].0@
        && ix2[a].1 < ix2[b].1 by {
        assert(mid[a] == ix[shifted(found, a)]);
        assert(ix[shifted(found, a)].1 < off);
        assert(ix2[a] == mid[a]);
        if b < mid.len() {
            assert(mid[b] == ix[shifted(found, b)]);
            assert(ix2[b] == mid[b]);
        }
    }
}

/// Dropping the entry of a key that the contents lose keeps the index right.
proof fn lemma_index_rm(s: Seq<u8>, t: Seq<u8>, m: Contents, ix: Seq<(String, usize)>, i: usize, k: Seq<char>)
    requires
        index_ok(s, m, ix),
        found_ok(ix, Some(i), k),
        records_kept(s, t, ix),
    ensures
        index_ok(t, m.remove(k), ix.remove(i as int)),
{
    let found = Some(i);
    let m2 = m.remove(k);
    let ix2 = ix.remove(i as int);
    lemma_remove_found(s, m, ix, found, k);
    assert forall|j: int| 0 <= j < ix2.len() implies #[trigger] entry_ok(t, m2, ix2[j]) by {
        assert(ix2[j] == ix[shifted(found, j)]);
        assert(entry_ok(s, m, ix[shifted(found, j)]));
        assert(record_at(t, ix[shifted(found, j)].1 as int) == record_at(s, ix[shifted(found, j)].1 as int));
    }
    assert forall|kk: Seq<char>| #[trigger] m2.contains_key(kk) implies exists|i1: int|
        0 <= i1 < ix2.len() && ix2[i1].0@ == kk by {
        assert(m.contains_key(kk));
        let i0 = choose|i0: int| 0 <= i0 < ix.len() && ix[i0].0@ == kk;
        if i0 < i {
            assert(ix2[i0] == ix[shifted(found, i0)]);
        } else {
            assert(i0 != i);
            assert(ix2[i0 - 1] == ix[shifted(found, i0 - 1)]);
        }
    }
    assert forall|a: int, b: int| 0 <= a < b < ix2.len() implies ix2[a].0@ != ix2[b].0@
        && ix2[a].1 < ix2[b].1 by {
        assert(ix2[a] == ix[shifted(found, a)]);
        assert(ix2[b] == ix[shifted(found, b)]);
    }
}

/// Appending keeps every record that an index entry points at.
proof fn lemma_append_keeps(s: Seq<u8>, m: Contents, ix: Seq<(String, usize)>, rec: Seq<u8>)
    requires
        index_ok(s, m, ix),
    ensures
        records_kept(s, appended(s, rec), ix),
{
    let t = appended(s, rec);
    assert forall|j: int| 0 <= j < ix.len() implies #[trigger] ix[j].1 < t.len()
        && record_at(t, ix[j].1 as int) == record_at(s, ix[j].1 as int) by {
        assert(entry_ok(s, m, ix[j]));
        lemma_record_at_appended(s, rec, ix[j].1 as int);
        if ix[j].1 > 0 {
            assert(t[ix[j].1 - 1] == s[ix[j].1 - 1]);
        }
    }
}

/// The record `rec` decodes to a command that sets or removes `k`.
pub open spec fn mentions(rec: Seq<u8>, k: Seq<char>) -> bool {
    match decode_record(rec) {
        Some(Op::Put(k2, _)) => k2 == k,
        Some(Op::Rm(k2)) => k2 == k,
        None => false,
    }
}

/// No record of `s` that starts after `o` and before `q` sets or removes `k`.
pub open spec fn quiet(s: Seq<u8>, k: Seq<char>, o: int, q: int) -> bool {
    forall|p: int| o < p < q && record_start(s, p) ==> !mentions(#[trigger] record_at(s, p), k)
}

/// Reading one record from `start` moves the cursor past no other record start.
proof fn lemma_quiet_extend(s: Seq<u8>, k: Seq<char>, o: int, start: int, q: int)
    requires
        0 <= o <= start < s.len(),
        start < q <= next_index_of(s, start, DELIM) + 1,
        quiet(s, k, o, start),
        o < start ==> !mentions(record_at(s, start), k),
    ensures
        quiet(s, k, o, q),
{
    lemma_next_index_of_bounds(s, start, DELIM);
    assert forall|p: int| o < p < q && record_start(s, p) implies !mentions(
        #[trigger] record_at(s, p),
        k,
    ) by {
        if p > start {
            assert(s[p - 1] != DELIM);
        }
    }
}

/// The offsets that the entries of `ix` hold for `k`.
pub open spec fn offsets_in(ix: Seq<(String, usize)>, k: Seq<char>) -> Set<int> {
    Set::new(|o: int| exists|i: int| 0 <= i < ix.len() && ix[i].0@ == k && ix[i].1 == o)
}

proof fn lemma_offsets_put(ix: Seq<(String, usize)>, found: Option<usize>, key: String, off: usize)
    requires
        found_ok(ix, found, key@),
        forall|i: int, j: int| 0 <= i < j < ix.len() ==> ix[i].0@ != ix[j].0@,
    ensures
        offsets_in(remove_found(ix, found).push((key, off)), key@) == set![off as int],
        forall|k: Seq<char>|
            k != key@ ==> #[trigger] offsets_in(remove_found(ix, found).push((key, off)), k)
                == offsets_in(ix, k),
{
    let mid = remove_found(ix, found);
    let ix2 = mid.push((key, off));
    assert forall|j: int| 0 <= j < mid.len() implies #[trigger] mid[j] == ix[shifted(found, j)]
        && 0 <= shifted(found, j) < ix.len() && mid[j].0@ != key@ by {
        if let Some(i) = found {
            if j >= i {
                assert(ix[j + 1].0@ != ix[i as int].0@);
            }
        }
    }
    assert forall|o: int| offsets_in(ix2, key@).contains(o) <==> o == off by {
        if offsets_in(ix2, key@).contains(o) {
            let j = choose|j: int| 0 <= j < ix2.len() && ix2[j].0@ == key@ && ix2[j].1 == o;
            if j < mid.len() {
                assert(mid[j] == ix[shifted(found, j)]);
            }
        }
        if o == off {
            assert(ix2[mid.len() as int].0@ == key@);
        }
    }
    assert(offsets_in(ix2, key@) =~= set![off as int]);
    assert forall|k: Seq<char>| k != key@ implies #[trigger] offsets_in(ix2, k) == offsets_in(ix, k) by {
        assert forall|o: int| offsets_in(ix2, k).contains(o) <==> offsets_in(ix, k).contains(o) by {
            if offsets_in(ix2, k).contains(o) {
                let j = choose|j: int| 0 <= j < ix2.len() && ix2[j].0@ == k && ix2[j].1 == o;
                assert(j < mid.len());
                assert(mid[j] == ix[shifted(found, j)]);
            }
            if offsets_in(ix, k).contains(o) {
                let j = choose|j: int| 0 <= j < ix.len() && ix[j].0@ == k && ix[j].1 == o;
                match found {
                    Some(i) => {
                        assert(j != i);
                        if j < i {
                            assert(mid[j] == ix[shifted(found, j)]);
                            assert(ix2[j] == mid[j]);
                        } else {
                            assert(mid[j - 1] == ix[shifted(found, j - 1)]);
                            assert(ix2[j - 1] == mid[j - 1]);
                        }
                    },
                    None => {
                        assert(mid[j] == ix[shifted(found, j)]);
                        assert(ix2[j] == mid[j]);
                    },
                }
            }
        }
        assert(offsets_in(ix2, k) =~= offsets_in(ix, k));
    }
}

proof fn lemma_offsets_rm(ix: Seq<(String, usize)>, i: usize, key: Seq<char>)
    requires
        found_ok(ix, Some(i), key),
        forall|a: int, b: int| 0 <= a < b < ix.len() ==> ix[a].0@ != ix[b].0@,
    ensures
        offsets_in(ix.remove(i as int), key) == Set::<int>::empty(),
        forall|k: Seq<char>|
            k != key ==> #[trigger] offsets_in(ix.remove(i as int), k) == offsets_in(ix, k),
{
    let found = Some(i);
    let ix2 = ix.remove(i as int);
    assert forall|j: int| 0 <= j < ix2.len() implies #[trigger] ix2[j] == ix[shifted(found, j)]
        && 0 <= shifted(found, j) < ix.len() && ix2[j].0@ != key by {
        if j >= i {
            assert(ix[j + 1].0@ != ix[i as int].0@);
        }
    }
    assert forall|o: int| !offsets_in(ix2, key).contains(o) by {
        if offsets_in(ix2, key).contains(o) {
            let j = choose|j: int| 0 <= j < ix2.len() && ix2[j].0@ == key && ix2[j].1 == o;
            assert(ix2[j] == ix[shifted(found, j)]);
        }
    }
    assert(offsets_in(ix2, key) =~= Set::<int>::empty());
    assert forall|k: Seq<char>| k != key implies #[trigger] offsets_in(ix2, k) == offsets_in(ix, k) by {
        assert forall|o: int| offsets_in(ix2, k).contains(o) <==> offsets_in(ix, k).contains(o) by {
            if offsets_in(ix2, k).contains(o) {
                let j = choose|j: int| 0 <= j < ix2.len() && ix2[j].0@ == k && ix2[j].1 == o;
                assert(ix2[j] == ix[shifted(found, j)]);
            }
            if offsets_in(ix, k).contains(o) {
                let j = choose|j: int| 0 <= j < ix.len() && ix[j].0@ == k && ix[j].1 == o;
                assert(j != i);
                if j < i {
                    assert(ix2[j] == ix[shifted(found, j)]);
                } else {
                    assert(ix2[j - 1] == ix[shifted(found, j - 1)]);
                }
            }
        }
        assert(offsets_in(ix2, k) =~= offsets_in(ix, k));
    }
}

/// `b` is the same store as `a`: contents, log, index and rewrite count.
pub open spec fn same_state(b: KvStore, a: KvStore) -> bool {
    &&& b.kv() == a.kv()
    &&& b.log_view() == a.log_view()
    &&& b.index_keys() == a.index_keys()
    &&& b.index_offsets() == a.index_offsets()
    &&& forall|k: Seq<char>| #[trigger] b.offsets_of(k) == a.offsets_of(k)
    &&& b.rewrite_count() == a.rewrite_count()
}

/// `b` is `a` with its log compacted: the new log holds the records that the
/// index of `a` points at, in its (ascending) order, and the index keeps its
/// keys and points at the new offsets.
pub open spec fn compacted_from(b: KvStore, a: KvStore) -> bool {
    &&& b.kv() == a.kv()
    &&& b.log_view() == rewritten(a.log_view(), a.index_offsets())
    &&& b.index_keys() == a.index_keys()
    &&& b.index_offsets().len() == a.index_offsets().len()
    &&& forall|i: int|
        0 <= i < b.index_offsets().len() ==> #[trigger] b.index_offsets()[i] == append_offset(
            rewritten(a.log_view(), a.index_offsets().take(i)),
        )
    &&& b.rewrite_count() == bumped(a.rewrite_count())
}

/// `b` is `a` after the record of `set(k, v)` was appended and indexed.
pub open spec fn put_step(b: KvStore, a: KvStore, k: Seq<char>, v: Seq<char>) -> bool {
    &&& b.wf()
    &&& b.kv() == a.kv().insert(k, v)
    &&& b.log_view() == appended(a.log_view(), encode_op(Op::Put(k, v)))
    &&& b.offsets_of(k) == set![append_offset(a.log_view())]
    &&& forall|k2: Seq<char>| k2 != k ==> #[trigger] b.offsets_of(k2) == a.offsets_of(k2)
    &&& b.rewrite_count() == a.rewrite_count()
}

/// `b` is `a` after the record of `remove(k)` was appended and `k` left the index.
pub open spec fn rm_step(b: KvStore, a: KvStore, k: Seq<char>) -> bool {
    &&& b.wf()
    &&& b.kv() == a.kv().remove(k)
    &&& b.log_view() == appended(a.log_view(), encode_op(Op::Rm(k)))
    &&& b.offsets_of(k) == Set::<int>::empty()
    &&& forall|k2: Seq<char>| k2 != k ==> #[trigger] b.offsets_of(k2) == a.offsets_of(k2)
    &&& b.rewrite_count() == a.rewrite_count()
}

/// A key/value store over an append-only log of records.
pub struct KvStore {
    log: LogFile,
    index: Vec<(String, usize)>,
    contents: Ghost<Contents>,
    generation: u64,
}

impl KvStore {
    /// Each key that the store holds, with its value.
    pub closed spec fn kv(&self) -> Contents {
        self.contents@
    }

    /// The bytes of the log.
    pub closed spec fn log_view(&self) -> Seq<u8> {
        self.log.bytes()
    }

    /// The offsets that the index holds for `k`.
    pub closed spec fn offsets_of(&self, k: Seq<char>) -> Set<int> {
        offsets_in(self.index@, k)
    }

    /// The keys of the index, in its order.
    pub closed spec fn index_keys(&self) -> Seq<Seq<char>> {
        self.index@.map_values(|e: (String, usize)| e.0@)
    }

    /// The offsets of the index, in its order, which is ascending.
    pub closed spec fn index_offsets(&self) -> Seq<usize> {
        self.index@.map_values(|e: (String, usize)| e.1)
    }

    /// A non-empty record of the log starts at `p` and the index does not
    /// point at it: a removal, or a value since overwritten or removed.
    pub closed spec fn dead_at(&self, p: int) -> bool {
        &&& 0 <= p < self.log.bytes().len()
        &&& record_start(self.log.bytes(), p)
        &&& record_at(self.log.bytes(), p).len() > 0
        &&& forall|i: int| 0 <= i < self.index@.len() ==> self.index@[i].1 != p
    }

    /// How many times the log has been rewritten.
    pub closed spec fn rewrite_count(&self) -> u64 {
        self.generation
    }

    /// The index has one entry for each key of the contents, in ascending
    /// order of offset, each pointing at a record that sets the key to its
    /// value; and the log replays to the contents.
    pub closed spec fn wf(&self) -> bool {
        &&& index_ok(self.log.bytes(), self.contents@, self.index@)
        &&& replay(self.log.bytes()) == Ok::<Contents, KvError>(self.contents@)
    }

    /// The position of `key` in the index.
    fn find(&self, key: &String) -> (r: Option<usize>)
        ensures
            match r {
                Some(i) => i < self.index@.len() && self.index@[i as int].0@ == key@,
                None => forall|i: int| 0 <= i < self.index@.len() ==> self.index@[i].0@ != key@,
            },
    {
        let mut i: usize = 0;
        while i < self.index.len()
            invariant
                i <= self.index@.len(),
                forall|j: int| 0 <= j < i ==> self.index@[j].0@ != key@,
            decreases self.index.len() - i,
        {
            if self.index[i].0 == *key {
                return Some(i);
            }
            i = i + 1;
        }
        None
    }

    /// Opens a store over the log `data`, replaying it from the start to
    /// rebuild the index. Fails where replay meets a record that does not
    /// decode, or a removal of a key that is not set.
    pub fn open(data: Vec<u8>) -> (r: Result<KvStore, KvError>)
        ensures
            r matches Ok(st) ==> st.wf() && st.log_view() == data@ && replay(data@) == Ok::<
                Contents,
                KvError,
            >(st.kv()) && st.rewrite_count() == 0,
            r matches Ok(st) ==> forall|i: int|
                0 <= i < st.index_offsets().len() ==> quiet(
                    data@,
                    #[trigger] st.index_keys()[i],
                    st.index_offsets()[i] as int,
                    data@.len() as int,
                ),
            r matches Err(e) ==> replay(data@) == Err::<Contents, KvError>(e),
    {
        let mut st = KvStore {
            log: LogFile::from_bytes(data),
            index: Vec::new(),
            contents: Ghost(Map::empty()),
            generation: 0,
        };
        match st.replay_log_file() {
            Ok(()) => {
                assert forall|i: int| 0 <= i < st.index_offsets().len() implies quiet(
                    st.log.bytes(),
                    #[trigger] st.index_keys()[i],
                    st.index_offsets()[i] as int,
                    st.log.bytes().len() as int,
                ) by {
                    assert(quiet(st.log.bytes(), st.index@[i].0@, st.index@[i].1 as int, st.log.bytes().len() as int));
                }
                Ok(st)
            },
            Err(e) => Err(e),
        }
    }

    /// Reads the log record by record from the start, applying each to the
    /// index and the contents.
    fn replay_log_file(&mut self) -> (r: Result<(), KvError>)
        requires
            old(self).log.pos() == 0,
            old(self).index@.len() == 0,
            old(self).contents@ == Map::<Seq<char>, Seq<char>>::empty(),
        ensures
            final(self).log.bytes() == old(self).log.bytes(),
            final(self).generation == old(self).generation,
            r is Ok ==> final(self).wf(),
            r is Ok ==> forall|i: int|
                0 <= i < final(self).index@.len() ==> quiet(
                    final(self).log.bytes(),
                    (#[trigger] final(self).index@[i]).0@,
                    final(self).index@[i].1 as int,
                    final(self).log.bytes().len() as int,
                ),
            r matches Err(e) ==> replay(old(self).log.bytes()) == Err::<Contents, KvError>(e),
    {
        let ghost s = self.log.bytes();
        loop
            invariant
                self.log.bytes() == s,
                s == old(self).log.bytes(),
                self.generation == old(self).generation,
                0 <= self.log.pos() <= s.len(),
                self.log.pos() < s.len() ==> record_start(s, self.log.pos()),
                index_ok(s, self.contents@, self.index@),
                forall|j: int| 0 <= j < self.index@.len() ==> #[trigger] self.index@[j].1 < self.log.pos(),
                replay(s) == replay_from(s, self.log.pos(), self.contents@),
                forall|i: int|
                    0 <= i < self.index@.len() ==> quiet(
                        s,
                        (#[trigger] self.index@[i]).0@,
                        self.index@[i].1 as int,
                        self.log.pos(),
                    ),
            ensures
                self.log.bytes() == s,
                index_ok(s, self.contents@, self.index@),
                replay(s) == Ok::<Contents, KvError>(self.contents@),
                forall|i: int|
                    0 <= i < self.index@.len() ==> quiet(
                        s,
                        (#[trigger] self.index@[i]).0@,
                        self.index@[i].1 as int,
                        s.len() as int,
                    ),
            decreases s.len() + 1 - self.log.pos(),
        {
            let start = self.log.current_offset();
            let ghost m = self.contents@;
            let ghost ix = self.index@;
            proof {
                lemma_chunk_record(s, start as int);
                lemma_next_index_of_bounds(s, start as int, DELIM);
            }
            let chunk = self.log.read_until(DELIM);
            if chunk.len() == 0 {
                assert(start >= s.len());
                assert(replay_from(s, start as int, m) == Ok::<Contents, KvError>(m));
                assert forall|i: int| 0 <= i < ix.len() implies quiet(
                    s,
                    (#[trigger] ix[i]).0@,
                    ix[i].1 as int,
                    s.len() as int,
                ) by {
                    assert(quiet(s, ix[i].0@, ix[i].1 as int, start as int));
                }
                break;
            }
            let rec = strip_delim(chunk);
            let ghost j = next_index_of(s, start as int, DELIM);
            assert(rec@ == s.subrange(start as int, j));
            if rec.len() == 0 {
                assert(j == start);
                assert(replay_from(s, start as int, m) == replay_from(s, j + 1, m));
                assert forall|i: int| 0 <= i < ix.len() implies quiet(
                    s,
                    (#[trigger] ix[i]).0@,
                    ix[i].1 as int,
                    self.log.pos(),
                ) by {
                    assert(ix[i].1 < start);
                    lemma_quiet_extend(s, ix[i].0@, ix[i].1 as int, start as int, self.log.pos());
                }
                continue;
            }
            proof {
                assert(records_kept(s, s, ix)) by {
                    assert forall|q: int| 0 <= q < ix.len() implies #[trigger] ix[q].1 < s.len()
                        && record_at(s, ix[q].1 as int) == record_at(s, ix[q].1 as int) by {
                        assert(entry_ok(s, m, ix[q]));
                    }
                }
            }
            match decode(rec.as_slice()) {
                None => {
                    assert(replay_from(s, start as int, m) == Err::<Contents, KvError>(KvError::Decode));
                    return Err(KvError::Decode);
                },
                Some(Command::Put(k, v)) => {
                    let found = self.find(&k);
                    match found {
                        Some(i) => {
                            self.index.remove(i);
                        },
                        None => {},
                    }
                    proof {
                        assert(found_ok(ix, found, k@));
                        lemma_index_put(s, s, m, ix, found, k, v@, start);
                    }
                    let ghost m2 = m.insert(k@, v@);
                    proof {
                        assert(replay_from(s, start as int, m) == replay_from(s, j + 1, m2));
                        if j == s.len() {
                            assert(replay_from(s, j + 1, m2) == Ok::<Contents, KvError>(m2));
                            assert(replay_from(s, s.len() as int, m2) == Ok::<Contents, KvError>(m2));
                        }
                    }
                    let ghost kk = k@;
                    self.index.push((k, start));
                    self.contents = Ghost(m2);
                    proof {
                        lemma_remove_found(s, m, ix, found, kk);
                        let ix2 = self.index@;
                        let mid = remove_found(ix, found);
                        assert forall|q: int| 0 <= q < ix2.len() implies quiet(
                            s,
                            (#[trigger] ix2[q]).0@,
                            ix2[q].1 as int,
                            self.log.pos(),
                        ) by {
                            if q < mid.len() {
                                assert(ix2[q] == mid[q]);
                                assert(mid[q] == ix[shifted(found, q)]);
                                assert(quiet(s, ix[shifted(found, q)].0@, ix[shifted(found, q)].1 as int, start as int));
                                assert(ix[shifted(found, q)].1 < start);
                                lemma_quiet_extend(s, ix2[q].0@, ix2[q].1 as int, start as int, self.log.pos());
                            } else {
                                lemma_quiet_extend(s, kk, start as int, start as int, self.log.pos());
                            }
                        }
                    }
                },
                Some(Command::Rm(k)) => {
                    let i = match self.find(&k) {
                        Some(i) => i,
                        None => {
                            proof {
                                if m.contains_key(k@) {
                                    let i0 = choose|i0: int| 0 <= i0 < ix.len() && ix[i0].0@ == k@;
                                }
                                assert(replay_from(s, start as int, m) == Err::<Contents, KvError>(
                                    KvError::Corrupt,
                                ));
                            }
                            return Err(KvError::Corrupt);
                        },
                    };
                    proof {
                        assert(entry_ok(s, m, ix[i as int]));
                        lemma_index_rm(s, s, m, ix, i, k@);
                    }
                    let ghost m2 = m.remove(k@);
                    proof {
                        assert(replay_from(s, start as int, m) == replay_from(s, j + 1, m2));
                        if j == s.len() {
                            assert(replay_from(s, j + 1, m2) == Ok::<Contents, KvError>(m2));
                            assert(replay_from(s, s.len() as int, m2) == Ok::<Contents, KvError>(m2));
                        }
                    }
                    self.index.remove(i);
                    self.contents = Ghost(m2);
                    proof {
                        lemma_remove_found(s, m, ix, Some(i), k@);
                        let ix2 = self.index@;
                        assert forall|q: int| 0 <= q < ix2.len() implies quiet(
                            s,
                            (#[trigger] ix2[q]).0@,
                            ix2[q].1 as int,
                            self.log.pos(),
                        ) by {
                            assert(ix2[q] == ix[shifted(Some(i), q)]);
                            assert(quiet(s, ix[shifted(Some(i), q)].0@, ix[shifted(Some(i), q)].1 as int, start as int));
                            assert(ix[shifted(Some(i), q)].1 < start);
                            lemma_quiet_extend(s, ix2[q].0@, ix2[q].1 as int, start as int, self.log.pos());
                        }
                    }
                },
            }
        }
        Ok(())
    }

    /// The value of `key`, or `None` where the store does not hold it.
    pub fn get(&mut self, key: String) -> (r: Result<Option<String>, KvError>)
        requires
            old(self).wf(),
        ensures
            final(self).wf(),
            same_state(*final(self), *old(self)),
            r matches Ok(o) && text_of(o) == lookup(old(self).kv(), key@),
    {
        let i = match self.find(&key) {
            Some(i) => i,
            None => {
                return Ok(None);
            },
        };
        let off = self.index[i].1;
        let ghost s = self.log.bytes();
        proof {
            assert(entry_ok(s, self.contents@, self.index@[i as int]));
            lemma_chunk_record(s, off as int);
        }
        let chunk = self.log.read_from(off, DELIM);
        let rec = strip_delim(chunk);
        assert(self.index@ == old(self).index@);
        match decode(rec.as_slice()) {
            Some(Command::Put(_, v)) => Ok(Some(v)),
            _ => {
                proof {
                    assert(decode_record(rec@) == Some(Op::Put(key@, self.contents@[key@])));
                }
                vstd::pervasive::unreached()
            },
        }
    }

    /// Sets `key` to `value`, replacing any earlier value.
    #[verifier::rlimit(40)]
    pub fn set(&mut self, key: String, value: String) -> (r: Result<(), KvError>)
        requires
            old(self).wf(),
        ensures
            final(self).wf(),
            r is Ok <==> fits(old(self).log_view(), encode_op(Op::Put(key@, value@)).len() as int),
            r is Ok ==> final(self).kv() == old(self).kv().insert(key@, value@),
            r is Ok && appended(old(self).log_view(), encode_op(Op::Put(key@, value@))).len()
                < COMPACT_THRESHOLD ==> final(self).log_view() == appended(
                old(self).log_view(),
                encode_op(Op::Put(key@, value@)),
            ),
            r is Ok && appended(old(self).log_view(), encode_op(Op::Put(key@, value@))).len()
                >= COMPACT_THRESHOLD ==> final(self).rewrite_count() == bumped(old(self).rewrite_count())
                && final(self).log_view().len() <= appended(
                old(self).log_view(),
                encode_op(Op::Put(key@, value@)),
            ).len(),
            r is Ok ==> exists|mid: KvStore|
                put_step(mid, *old(self), key@, value@) && (mid.log_view().len() < COMPACT_THRESHOLD
                    ==> same_state(*final(self), mid)) && (mid.log_view().len() >= COMPACT_THRESHOLD
                    ==> compacted_from(*final(self), mid)),
            r is Err ==> r == Err::<(), KvError>(KvError::TooLarge) && same_state(
                *final(self),
                *old(self),
            ),
    {
        let ghost k = key@;
        let ghost v = value@;
        let key2 = key.clone();
        let cmd = Command::Put(key, value);
        let rec = encode(&cmd);
        let len = self.log.len();
        if len >= usize::MAX - 1 || rec.len() >= usize::MAX - 1 - len {
            return Err(KvError::TooLarge);
        }
        let ghost s = self.log.bytes();
        let ghost m = self.contents@;
        let ghost ix = self.index@;
        proof {
            lemma_encode_delim_free(cmd.op());
            lemma_decode_encode(cmd.op());
            lemma_replay_appended(s, rec@);
            lemma_record_at_new(s, rec@);
        }
        self.log.append(rec.as_slice());
        let off = self.log.current_offset() - rec.len();
        assert(off == append_offset(s));
        let found = self.find(&key2);
        match found {
            Some(i) => {
                self.index.remove(i);
            },
            None => {},
        }
        assert(self.index@ == remove_found(ix, found));
        proof {
            lemma_append_keeps(s, m, ix, rec@);
            assert forall|j: int| 0 <= j < ix.len() implies #[trigger] ix[j].1 < off by {
                assert(entry_ok(s, m, ix[j]));
            }
            assert(found_ok(ix, found, k));
            if s.len() > 0 {
                assert(self.log.bytes()[s.len() as int] == DELIM);
            }
            lemma_index_put(s, self.log.bytes(), m, ix, found, key2, v, off);
            lemma_offsets_put(ix, found, key2, off);
        }
        self.index.push((key2, off));
        self.contents = Ghost(m.insert(k, v));
        let ghost mid = *self;
        assert(put_step(mid, *old(self), k, v));
        self.log_compact();
        Ok(())
    }

    /// Removes `key`, which the store must hold.
    pub fn remove(&mut self, key: String) -> (r: Result<(), KvError>)
        requires
            old(self).wf(),
        ensures
            final(self).wf(),
            !old(self).kv().contains_key(key@) ==> r == Err::<(), KvError>(KvError::KeyNotFound),
            old(self).kv().contains_key(key@) ==> (r is Ok <==> fits(
                old(self).log_view(),
                encode_op(Op::Rm(key@)).len() as int,
            )),
            r is Ok ==> final(self).kv() == old(self).kv().remove(key@),
            r is Ok && appended(old(self).log_view(), encode_op(Op::Rm(key@))).len()
                < COMPACT_THRESHOLD ==> final(self).log_view() == appended(
                old(self).log_view(),
                encode_op(Op::Rm(key@)),
            ),
            r is Ok && appended(old(self).log_view(), encode_op(Op::Rm(key@))).len()
                >= COMPACT_THRESHOLD ==> final(self).rewrite_count() == bumped(old(self).rewrite_count())
                && final(self).log_view().len() <= appended(
                old(self).log_view(),
                encode_op(Op::Rm(key@)),
            ).len(),
            r is Ok ==> exists|mid: KvStore|
                rm_step(mid, *old(self), key@) && (mid.log_view().len() < COMPACT_THRESHOLD
                    ==> same_state(*final(self), mid)) && (mid.log_view().len() >= COMPACT_THRESHOLD
                    ==> compacted_from(*final(self), mid)),
            r is Err ==> same_state(*final(self), *old(self)),
    {
        let ghost k = key@;
        let ghost s = self.log.bytes();
        let ghost m = self.contents@;
        let ghost ix = self.index@;
        let i = match self.find(&key) {
            Some(i) => i,
            None => {
                proof {
                    if m.contains_key(k) {
                        let i0 = choose|i0: int| 0 <= i0 < ix.len() && ix[i0].0@ == k;
                    }
                }
                return Err(KvError::KeyNotFound);
            },
        };
        proof {
            assert(entry_ok(s, m, ix[i as int]));
        }
        let cmd = Command::Rm(key);
        let rec = encode(&cmd);
        let len = self.log.len();
        if len >= usize::MAX - 1 || rec.len() >= usize::MAX - 1 - len {
            return Err(KvError::TooLarge);
        }
        proof {
            lemma_encode_delim_free(cmd.op());
            lemma_decode_encode(cmd.op());
            lemma_replay_appended(s, rec@);
        }
        self.log.append(rec.as_slice());
        proof {
            lemma_append_keeps(s, m, ix, rec@);
            lemma_index_rm(s, self.log.bytes(), m, ix, i, k);
            lemma_offsets_rm(ix, i, k);
        }
        self.index.remove(i);
        self.contents = Ghost(m.remove(k));
        let ghost mid = *self;
        assert(rm_step(mid, *old(self), k));
        self.log_compact();
        Ok(())
    }

    /// The bytes of the log, as they are to stand on disk.
    pub fn log_bytes(&self) -> (r: &[u8])
        ensures
            r@ == self.log_view(),
    {
        self.log.as_bytes()
    }

    /// How many times the log has been rewritten by compaction.
    pub fn rewrites(&self) -> (r: u64)
        ensures
            r == self.rewrite_count(),
    {
        self.generation
    }

    /// The compaction trigger: once the log has reached the threshold,
    /// compacts it; below the threshold, changes nothing. Gives whether the
    /// log was rewritten.
    pub fn log_compact(&mut self) -> (r: bool)
        requires
            old(self).wf(),
        ensures
            final(self).wf(),
            r ==> compacted_from(*final(self), *old(self)),
            !r ==> same_state(*final(self), *old(self)),
            old(self).log_view().len() < COMPACT_THRESHOLD ==> !r,
            COMPACT_THRESHOLD <= old(self).log_view().len() && old(self).log_view().len() < usize::MAX
                ==> r && final(self).log_view().len() <= old(self).log_view().len(),
            COMPACT_THRESHOLD <= old(self).log_view().len() && old(self).log_view().len() < usize::MAX
                && (exists|p: int| old(self).dead_at(p)) ==> final(self).log_view().len() < old(
                self,
            ).log_view().len(),
    {
        if self.log.len() < COMPACT_THRESHOLD {
            return false;
        }
        self.compact()
    }

    /// Rewrites the log with the records that the index points at, in
    /// ascending order of offset, and points the index at the new offsets,
    /// whatever the size of the log. Gives whether the log was rewritten.
    pub fn compact(&mut self) -> (r: bool)
        requires
            old(self).wf(),
        ensures
            final(self).wf(),
            r ==> compacted_from(*final(self), *old(self)),
            !r ==> same_state(*final(self), *old(self)),
            old(self).log_view().len() < usize::MAX ==> r && final(self).log_view().len() <= old(
                self,
            ).log_view().len(),
            old(self).log_view().len() < usize::MAX && (exists|p: int| old(self).dead_at(p))
                ==> final(self).log_view().len() < old(self).log_view().len(),
    {
        let ghost s = self.log.bytes();
        let ghost m = self.contents@;
        let ghost ix = self.index@;
        let mut retained: Vec<usize> = Vec::new();
        let mut i: usize = 0;
        while i < self.index.len()
            invariant
                self.index@ == ix,
                i <= ix.len(),
                retained@.len() == i,
                forall|j: int| 0 <= j < i ==> #[trigger] retained@[j] == ix[j].1,
            decreases self.index.len() - i,
        {
            retained.push(self.index[i].1);
            i = i + 1;
        }
        proof {
            assert(disjoint(s, retained@)) by {
                assert forall|a: int, b: int|
                    #![trigger retained@[a], retained@[b]]
                    0 <= a < b < retained@.len() implies next_index_of(s, retained@[a] as int, DELIM)
                        < retained@[b] by {
                    assert(retained@[a] == ix[a].1 && retained@[b] == ix[b].1);
                    assert(entry_ok(s, m, ix[a]));
                    assert(entry_ok(s, m, ix[b]));
                    lemma_next_index_of_bounds(s, retained@[a] as int, DELIM);
                    assert(s[retained@[b] - 1] == DELIM);
                }
            }
            if exists|p: int| old(self).dead_at(p) {
                let p = choose|p: int| old(self).dead_at(p);
                assert(dead_record(s, retained@, p)) by {
                    assert forall|q: int| 0 <= q < retained@.len() implies retained@[q] != p by {
                        assert(retained@[q] == ix[q].1);
                    }
                }
            }
            assert(live_offsets(s, retained@)) by {
                assert forall|j: int| 0 <= j < retained@.len() implies retained@[j] <= s.len()
                    && record_at(s, retained@[j] as int).len() > 0 by {
                    assert(retained@[j] == ix[j].1);
                    assert(entry_ok(s, m, ix[j]));
                }
            }
        }
        let offs = match self.log.compact(&retained) {
            Some(o) => o,
            None => {
                assert(self.index@ == ix);
                assert(forall|j: int| 0 <= j < ix.len() ==> #[trigger] entry_ok(s, m, ix[j]));
                return false;
            },
        };
        let mut new_index: Vec<(String, usize)> = Vec::new();
        i = 0;
        while i < self.index.len()
            invariant
                self.index@ == ix,
                offs@.len() == ix.len(),
                i <= ix.len(),
                new_index@.len() == i,
                forall|j: int|
                    0 <= j < i ==> (#[trigger] new_index@[j]).0@ == ix[j].0@ && new_index@[j].1
                        == offs@[j],
            decreases self.index.len() - i,
        {
            let k = self.index[i].0.clone();
            new_index.push((k, offs[i]));
            i = i + 1;
        }
        self.index = new_index;
        if self.generation < u64::MAX {
            self.generation = self.generation + 1;
        }
        proof {
            let t = self.log.bytes();
            let n = ix.len() as int;
            let ix2 = self.index@;
            lemma_replay_rewritten(s, ix, m, retained@, n);
            assert(retained@.take(n) =~= retained@);
            assert forall|j: int| 0 <= j < ix.len() implies m.contains_key(#[trigger] ix[j].0@) by {
                assert(entry_ok(s, m, ix[j]));
            }
            lemma_prefix_map(ix, m, n);
            assert forall|k: Seq<char>| m.contains_key(k) implies #[trigger] prefix_map(
                ix,
                m,
                n,
            ).contains_key(k) by {
                let j = choose|j: int| 0 <= j < ix.len() && ix[j].0@ == k;
            }
            assert(prefix_map(ix, m, n) =~= m);
            assert forall|j: int| 0 <= j < ix2.len() implies #[trigger] entry_ok(t, m, ix2[j]) by {
                assert(ix2[j].0@ == ix[j].0@);
                assert(entry_ok(s, m, ix[j]));
                assert(offs@[j] < t.len());
                assert(record_at(t, offs@[j] as int) == record_at(s, retained@[j] as int));
                assert(retained@[j] == ix[j].1);
            }
            assert forall|k: Seq<char>| #[trigger] m.contains_key(k) implies exists|j: int|
                0 <= j < ix2.len() && ix2[j].0@ == k by {
                let j = choose|j: int| 0 <= j < ix.len() && ix[j].0@ == k;
                assert(ix2[j].0@ == k);
            }
            assert forall|a: int, b: int| 0 <= a < b < ix2.len() implies ix2[a].0@ != ix2[b].0@
                && ix2[a].1 < ix2[b].1 by {
                assert(ix2[a].0@ == ix[a].0@);
                assert(ix2[b].0@ == ix[b].0@);
            }
            assert(retained@ =~= old(self).index_offsets());
            assert(self.index_keys() =~= old(self).index_keys()) by {
                assert forall|j: int| 0 <= j < ix2.len() implies self.index_keys()[j]
                    == old(self).index_keys()[j] by {
                    assert(ix2[j].0@ == ix[j].0@);
                }
            }
            assert forall|j: int| 0 <= j < self.index_offsets().len() implies #[trigger] self.index_offsets()[j]
                == append_offset(rewritten(s, retained@.take(j))) by {
                assert(ix2[j].1 == offs@[j]);
                assert(offs@[j] == append_offset(rewritten(s, retained@.take(j))));
            }
        }
        true
    }
}

/// After `set(k, v)`, `get(k)` gives `v`.
pub proof fn law_get_after_set(before: KvStore, after: KvStore, k: Seq<char>, v: Seq<char>)
    requires
        after.kv() == before.kv().insert(k, v),
    ensures
        lookup(after.kv(), k) == Some(v),
{
}

/// The index of a well-formed store holds exactly one offset for each key it
/// holds, and the record there sets the key to its current value; it holds
/// none for other keys.
pub proof fn law_one_offset_per_key(st: KvStore, k: Seq<char>)
    requires
        st.wf(),
    ensures
        st.kv().contains_key(k) ==> exists|o: int|
            st.offsets_of(k) == set![o] && decode_record(record_at(st.log_view(), o)) == Some(
                Op::Put(k, st.kv()[k]),
            ),
        !st.kv().contains_key(k) ==> st.offsets_of(k) == Set::<int>::empty(),
{
    let ix = st.index@;
    if st.kv().contains_key(k) {
        let i = choose|i: int| 0 <= i < ix.len() && ix[i].0@ == k;
        let o = ix[i].1 as int;
        assert(entry_ok(st.log.bytes(), st.contents@, ix[i]));
        assert forall|p: int| st.offsets_of(k).contains(p) <==> p == o by {
            if st.offsets_of(k).contains(p) {
                let j = choose|j: int| 0 <= j < ix.len() && ix[j].0@ == k && ix[j].1 == p;
                if j != i {
                    if j < i {
                        assert(ix[j].0@ != ix[i].0@);
                    } else {
                        assert(ix[i].0@ != ix[j].0@);
                    }
                }
            }
            if p == o {
                assert(ix[i].0@ == k && ix[i].1 == p);
            }
        }
        assert(st.offsets_of(k) =~= set![o]);
    } else {
        assert forall|p: int| !st.offsets_of(k).contains(p) by {
            if st.offsets_of(k).contains(p) {
                let j = choose|j: int| 0 <= j < ix.len() && ix[j].0@ == k && ix[j].1 == p;
                assert(entry_ok(st.log.bytes(), st.contents@, ix[j]));
            }
        }
        assert(st.offsets_of(k) =~= Set::<int>::empty());
    }
}

/// A compacted log holds one record per key of the store, each setting the
/// key to its value, at the offset that the index holds for it: tombstones
/// and overwritten values are gone.
pub proof fn law_compacted_records(a: KvStore, b: KvStore)
    requires
        a.wf(),
        compacted_from(b, a),
    ensures
        forall|i: int|
            0 <= i < b.index_keys().len() ==> decode_record(
                record_at(b.log_view(), #[trigger] b.index_offsets()[i] as int),
            ) == Some(Op::Put(b.index_keys()[i], b.kv()[b.index_keys()[i]])),
        forall|i: int, j: int|
            0 <= i < j < b.index_keys().len() ==> b.index_keys()[i] != b.index_keys()[j],
        forall|k: Seq<char>| #[trigger]
            b.kv().contains_key(k) <==> b.index_keys().contains(k),
{
    let s = a.log_view();
    let offs = a.index_offsets();
    assert(live_offsets(s, offs)) by {
        assert forall|i: int| 0 <= i < offs.len() implies offs[i] <= s.len()
            && record_at(s, offs[i] as int).len() > 0 by {
            assert(entry_ok(a.log.bytes(), a.contents@, a.index@[i]));
        }
    }
    assert(offs.take(offs.len() as int) =~= offs);
    assert forall|i: int| 0 <= i < b.index_keys().len() implies decode_record(
        record_at(b.log_view(), #[trigger] b.index_offsets()[i] as int),
    ) == Some(Op::Put(b.index_keys()[i], b.kv()[b.index_keys()[i]])) by {
        lemma_rewritten_record(s, offs, i, offs.len() as int);
        assert(entry_ok(a.log.bytes(), a.contents@, a.index@[i]));
    }
    assert forall|k: Seq<char>| #[trigger] b.kv().contains_key(k) <==> b.index_keys().contains(k) by {
        if b.kv().contains_key(k) {
            let i = choose|i: int| 0 <= i < a.index@.len() && a.index@[i].0@ == k;
            assert(b.index_keys()[i] == k);
        }
        if b.index_keys().contains(k) {
            let i = choose|i: int| 0 <= i < b.index_keys().len() && b.index_keys()[i] == k;
            assert(entry_ok(a.log.bytes(), a.contents@, a.index@[i]));
        }
    }
}

/// Compacting a log that compaction has just written changes nothing: the
/// second rewrite gives the same bytes, the same index and the same contents.
pub proof fn law_compact_twice(a: KvStore, b: KvStore, c: KvStore)
    requires
        a.wf(),
        compacted_from(b, a),
        compacted_from(c, b),
    ensures
        c.log_view() == b.log_view(),
        c.index_keys() == b.index_keys(),
        c.index_offsets() == b.index_offsets(),
        c.kv() == b.kv(),
{
    let s = a.log_view();
    let offs = a.index_offsets();
    let new_offs = b.index_offsets();
    assert(live_offsets(s, offs)) by {
        assert forall|i: int| 0 <= i < offs.len() implies offs[i] <= s.len()
            && record_at(s, offs[i] as int).len() > 0 by {
            assert(entry_ok(a.log.bytes(), a.contents@, a.index@[i]));
        }
    }
    lemma_rewrite_again(s, offs, new_offs, offs.len() as int);
    assert(new_offs.take(new_offs.len() as int) =~= new_offs);
    assert(offs.take(offs.len() as int) =~= offs);
    assert forall|i: int| 0 <= i < new_offs.len() implies #[trigger] c.index_offsets()[i] == new_offs[i] by {
        lemma_rewrite_again(s, offs, new_offs, i);
    }
    assert(c.index_offsets() =~= new_offs);
}

/// After `set(k, v1)` and then `set(k, v2)`, `get(k)` gives `v2`.
pub proof fn law_overwrite(
    s0: KvStore,
    s1: KvStore,
    s2: KvStore,
    k: Seq<char>,
    v1: Seq<char>,
    v2: Seq<char>,
)
    requires
        s1.kv() == s0.kv().insert(k, v1),
        s2.kv() == s1.kv().insert(k, v2),
    ensures
        lookup(s2.kv(), k) == Some(v2),
        s2.kv() == s0.kv().insert(k, v2),
{
    assert(s2.kv() =~= s0.kv().insert(k, v2));
}

/// After `set(k, v)` and then `remove(k)`, `get(k)` gives nothing, and the
/// store no longer holds `k`, so that a second `remove(k)` fails.
pub proof fn law_remove_after_set(s0: KvStore, s1: KvStore, s2: KvStore, k: Seq<char>, v: Seq<char>)
    requires
        s1.kv() == s0.kv().insert(k, v),
        s2.kv() == s1.kv().remove(k),
    ensures
        lookup(s2.kv(), k) == None::<Seq<char>>,
        !s2.kv().contains_key(k),
{
}

/// The log of a store replays to its contents, so a store opened again over
/// the same bytes holds the same keys and values.
pub proof fn law_reopen(st: KvStore)
    requires
        st.wf(),
    ensures
        replay(st.log_view()) == Ok::<Contents, KvError>(st.kv()),
{
}

/// A record appended to any log is read back whole at its offset and decodes
/// to the command it was written for.
pub proof fn law_framing(s: Seq<u8>, op: Op)
    ensures
        record_at(appended(s, encode_op(op)), append_offset(s)) == encode_op(op),
        decode_record(record_at(appended(s, encode_op(op)), append_offset(s))) == Some(op),
{
    lemma_encode_delim_free(op);
    lemma_record_at_new(s, encode_op(op));
    lemma_decode_encode(op);
}

} // verus!

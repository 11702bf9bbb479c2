//! The log: an append-only byte image of records separated by a delimiter,
//! with a cursor for sequential and offset-addressed reads.
use vstd::prelude::*;
use vstd::slice::{slice_subrange, slice_to_vec};
use crate::codec::{DELIM, delim_free};

verus! {

/// The first position at or after `i` that holds `d`, or the length of `s`.
pub open spec fn next_index_of(s: Seq<u8>, i: int, d: u8) -> int
    decreases s.len() - i,
{
    if i < 0 || i >= s.len() {
        s.len() as int
    } else if s[i] == d {
        i
    } else {
        next_index_of(s, i + 1, d)
    }
}

/// The record whose payload starts at `off`: the bytes up to the next
/// delimiter or the end of the log.
pub open spec fn record_at(s: Seq<u8>, off: int) -> Seq<u8> {
    s.subrange(off, next_index_of(s, off, DELIM))
}

/// The log after `rec` is appended: a delimiter comes first unless it is empty.
pub open spec fn appended(s: Seq<u8>, rec: Seq<u8>) -> Seq<u8> {
    if s.len() == 0 {
        rec
    } else {
        s + seq![DELIM] + rec
    }
}

/// Where the payload of a record appended to `s` starts.
pub open spec fn append_offset(s: Seq<u8>) -> int {
    if s.len() == 0 {
        0
    } else {
        s.len() + 1int
    }
}

/// What `read_until` hands back from `s` when its cursor stands at `c`: the
/// bytes up to and including the next `d`, or up to the end.
pub open spec fn chunk_from(s: Seq<u8>, c: int, d: u8) -> Seq<u8> {
    let j = next_index_of(s, c, d);
    if j < s.len() {
        s.subrange(c, j + 1)
    } else if c < s.len() {
        s.subrange(c, s.len() as int)
    } else {
        Seq::empty()
    }
}

/// Where the cursor stands after `read_until` from `c`.
pub open spec fn cursor_after(s: Seq<u8>, c: int, d: u8) -> int {
    let j = next_index_of(s, c, d);
    if j < s.len() {
        j + 1
    } else if c < s.len() {
        s.len() as int
    } else {
        c
    }
}

pub proof fn lemma_next_index_of_bounds(s: Seq<u8>, i: int, d: u8)
    requires
        0 <= i <= s.len(),
    ensures
        i <= next_index_of(s, i, d) <= s.len(),
        next_index_of(s, i, d) < s.len() ==> s[next_index_of(s, i, d)] == d,
        forall|k: int| i <= k < next_index_of(s, i, d) ==> s[k] != d,
    decreases s.len() - i,
{
    if i < s.len() && s[i] != d {
        lemma_next_index_of_bounds(s, i + 1, d);
    }
}

/// Appending leaves the record at every earlier offset as it was.
pub proof fn lemma_record_at_appended(s: Seq<u8>, rec: Seq<u8>, off: int)
    requires
        0 <= off <= s.len(),
        s.len() > 0,
    ensures
        next_index_of(appended(s, rec), off, DELIM) == next_index_of(s, off, DELIM),
        record_at(appended(s, rec), off) == record_at(s, off),
    decreases s.len() - off,
{
    let t = appended(s, rec);
    if off < s.len() && s[off] != DELIM {
        lemma_record_at_appended(s, rec, off + 1);
    }
    lemma_next_index_of_bounds(s, off, DELIM);
    assert(t.subrange(off, next_index_of(s, off, DELIM)) =~= s.subrange(
        off,
        next_index_of(s, off, DELIM),
    ));
}

/// A record without delimiter, once appended, is read back whole at its offset.
pub proof fn lemma_record_at_new(s: Seq<u8>, rec: Seq<u8>)
    requires
        delim_free(rec),
    ensures
        next_index_of(appended(s, rec), append_offset(s), DELIM) == appended(s, rec).len(),
        record_at(appended(s, rec), append_offset(s)) == rec,
{
    let t = appended(s, rec);
    let o = append_offset(s);
    assert forall|k: int| o <= k < t.len() implies t[k] != DELIM by {
        assert(t[k] == rec[k - o]);
    }
    lemma_next_index_of_all(t, o, DELIM);
    assert(t.subrange(o, t.len() as int) =~= rec);
}

proof fn lemma_next_index_of_all(s: Seq<u8>, i: int, d: u8)
    requires
        0 <= i <= s.len(),
        forall|k: int| i <= k < s.len() ==> s[k] != d,
    ensures
        next_index_of(s, i, d) == s.len(),
    decreases s.len() - i,
{
    if i < s.len() {
        lemma_next_index_of_all(s, i + 1, d);
    }
}

/// The log that holds the records of `s` at the offsets `offs`, in that order.
pub open spec fn rewritten(s: Seq<u8>, offs: Seq<usize>) -> Seq<u8>
    decreases offs.len(),
{
    if offs.len() == 0 {
        Seq::empty()
    } else {
        appended(rewritten(s, offs.drop_last()), record_at(s, offs.last() as int))
    }
}

/// Each of `offs` is an offset in `s` where a non-empty record starts.
pub open spec fn live_offsets(s: Seq<u8>, offs: Seq<usize>) -> bool {
    forall|i: int|
        0 <= i < offs.len() ==> offs[i] <= s.len() && #[trigger] record_at(s, offs[i] as int).len() > 0
}

/// A record starts at `off`: the start of the log, or just after a delimiter.
pub open spec fn record_start(s: Seq<u8>, off: int) -> bool {
    off == 0 || (0 < off <= s.len() && s[off - 1] == DELIM)
}

/// The records at `offs` do not overlap: each ends before any later one starts.
pub open spec fn disjoint(s: Seq<u8>, offs: Seq<usize>) -> bool {
    forall|i: int, j: int|
        #![trigger offs[i], offs[j]]
        0 <= i < j < offs.len() ==> next_index_of(s, offs[i] as int, DELIM) < offs[j]
}

/// `p` is where a non-empty record of `s` starts that none of `offs` points at.
pub open spec fn dead_record(s: Seq<u8>, offs: Seq<usize>, p: int) -> bool {
    &&& 0 <= p < s.len()
    &&& record_start(s, p)
    &&& record_at(s, p).len() > 0
    &&& forall|i: int| 0 <= i < offs.len() ==> offs[i] != p
}

/// The record at `off` holds no delimiter.
pub proof fn lemma_record_at_delim_free(s: Seq<u8>, off: int)
    requires
        0 <= off <= s.len(),
    ensures
        delim_free(record_at(s, off)),
{
    lemma_next_index_of_bounds(s, off, DELIM);
    let r = record_at(s, off);
    assert forall|i: int| 0 <= i < r.len() implies r[i] != DELIM by {
        assert(r[i] == s[off + i]);
    }
}

/// In a rewritten log, the `i`-th record stands whole at its new offset.
pub proof fn lemma_rewritten_record(s: Seq<u8>, offs: Seq<usize>, i: int, n: int)
    requires
        live_offsets(s, offs),
        0 <= i < n <= offs.len(),
    ensures
        append_offset(rewritten(s, offs.take(i))) < rewritten(s, offs.take(n)).len(),
        record_at(rewritten(s, offs.take(n)), append_offset(rewritten(s, offs.take(i)))) == record_at(
            s,
            offs[i] as int,
        ),
    decreases n,
{
    let o = append_offset(rewritten(s, offs.take(i)));
    let rec = record_at(s, offs[n - 1] as int);
    assert(record_at(s, offs[n - 1] as int).len() > 0);
    lemma_record_at_delim_free(s, offs[n - 1] as int);
    assert(offs.take(n).drop_last() =~= offs.take(n - 1));
    assert(offs.take(n).last() == offs[n - 1]);
    if n == i + 1 {
        lemma_record_at_new(rewritten(s, offs.take(i)), rec);
    } else {
        lemma_rewritten_record(s, offs, i, n - 1);
        lemma_record_at_appended(rewritten(s, offs.take(n - 1)), rec, o);
    }
}

/// Rewriting a rewritten log at its new offsets gives it back.
pub proof fn lemma_rewrite_again(s: Seq<u8>, offs: Seq<usize>, new_offs: Seq<usize>, n: int)
    requires
        live_offsets(s, offs),
        new_offs.len() == offs.len(),
        forall|i: int|
            0 <= i < offs.len() ==> #[trigger] new_offs[i] == append_offset(rewritten(s, offs.take(i))),
        0 <= n <= offs.len(),
    ensures
        rewritten(rewritten(s, offs), new_offs.take(n)) == rewritten(s, offs.take(n)),
    decreases n,
{
    let t = rewritten(s, offs);
    if n == 0 {
        assert(new_offs.take(0) =~= Seq::<usize>::empty());
        assert(offs.take(0) =~= Seq::<usize>::empty());
    } else {
        lemma_rewrite_again(s, offs, new_offs, n - 1);
        assert(new_offs.take(n).drop_last() =~= new_offs.take(n - 1));
        assert(offs.take(n).drop_last() =~= offs.take(n - 1));
        assert(offs.take(offs.len() as int) =~= offs);
        lemma_rewritten_record(s, offs, n - 1, offs.len() as int);
        assert(new_offs[n - 1] == append_offset(rewritten(s, offs.take(n - 1))));
    }
}

/// How many bytes `read_until` scans at a time.
pub const READ_CHUNK: usize = 8;

/// The log of one store: its bytes and a read cursor.
pub struct LogFile {
    data: Vec<u8>,
    cursor: usize,
}

impl LogFile {
    /// The bytes of the log.
    pub closed spec fn bytes(&self) -> Seq<u8> {
        self.data@
    }

    /// The position of the cursor.
    pub closed spec fn pos(&self) -> int {
        self.cursor as int
    }

    /// An empty log.
    pub fn new() -> (r: LogFile)
        ensures
            r.bytes() == Seq::<u8>::empty(),
            r.pos() == 0,
    {
        LogFile { data: Vec::new(), cursor: 0 }
    }

    /// A log that holds `data`, with the cursor at its start.
    pub fn from_bytes(data: Vec<u8>) -> (r: LogFile)
        ensures
            r.bytes() == data@,
            r.pos() == 0,
    {
        LogFile { data, cursor: 0 }
    }

    /// The bytes of the log.
    pub fn as_bytes(&self) -> (r: &[u8])
        ensures
            r@ == self.bytes(),
    {
        self.data.as_slice()
    }

    /// The length of the log.
    pub fn len(&self) -> (r: usize)
        ensures
            r == self.bytes().len(),
    {
        self.data.len()
    }

    /// The position of the cursor.
    pub fn current_offset(&self) -> (r: usize)
        ensures
            r == self.pos(),
    {
        self.cursor
    }

    /// Appends `rec` as a new record at the end of the log, after a delimiter
    /// if the log is not empty, and leaves the cursor at the end. Gives the
    /// number of bytes written.
    pub fn append(&mut self, rec: &[u8]) -> (n: usize)
        requires
            old(self).bytes().len() + 1 + rec@.len() <= usize::MAX,
        ensures
            final(self).bytes() == appended(old(self).bytes(), rec@),
            final(self).pos() == final(self).bytes().len(),
            n == final(self).bytes().len() - old(self).bytes().len(),
    {
        let mut n: usize = 0;
        if self.data.len() > 0 {
            self.data.push(DELIM);
            n = 1;
        }
        let ghost mid = self.data@;
        let mut i: usize = 0;
        while i < rec.len()
            invariant
                i <= rec@.len(),
                self.data@ == mid + rec@.take(i as int),
                mid.len() + rec@.len() <= usize::MAX,
            decreases rec.len() - i,
        {
            self.data.push(rec[i]);
            i = i + 1;
            assert(rec@.take(i as int) =~= rec@.take(i - 1).push(rec@[i - 1]));
        }
        assert(rec@.take(rec@.len() as int) =~= rec@);
        assert(self.data@ =~= appended(old(self).bytes(), rec@));
        self.cursor = self.data.len();
        n + rec.len()
    }

    /// Reads forward from the cursor, a chunk of `READ_CHUNK` bytes at a
    /// time, up to and including the next `delimiter`, or up to the end of
    /// the log, and leaves the cursor just after what was read. An empty
    /// result means the cursor stood at the end.
    pub fn read_until(&mut self, delimiter: u8) -> (r: Vec<u8>)
        ensures
            final(self).bytes() == old(self).bytes(),
            r@ == chunk_from(old(self).bytes(), old(self).pos(), delimiter),
            final(self).pos() == cursor_after(old(self).bytes(), old(self).pos(), delimiter),
    {
        let n = self.data.len();
        let c = self.cursor;
        if c >= n {
            assert(next_index_of(self.data@, c as int, delimiter) == n);
            return Vec::new();
        }
        let mut j: usize = c;
        while j < n
            invariant
                n == self.data@.len(),
                self.data@ == old(self).bytes(),
                c == old(self).pos(),
                self.cursor == c,
                c <= j <= n,
                next_index_of(self.data@, c as int, delimiter) == next_index_of(
                    self.data@,
                    j as int,
                    delimiter,
                ),
            decreases n - j,
        {
            let end = if n - j > READ_CHUNK {
                j + READ_CHUNK
            } else {
                n
            };
            let mut k: usize = j;
            while k < end
                invariant
                    n == self.data@.len(),
                    self.data@ == old(self).bytes(),
                    c == old(self).pos(),
                    self.cursor == c,
                    c <= j <= k <= end <= n,
                    next_index_of(self.data@, c as int, delimiter) == next_index_of(
                        self.data@,
                        k as int,
                        delimiter,
                    ),
                decreases end - k,
            {
                if self.data[k] == delimiter {
                    let r = slice_to_vec(slice_subrange(self.data.as_slice(), c, k + 1));
                    self.cursor = k + 1;
                    return r;
                }
                k = k + 1;
            }
            j = end;
        }
        let r = slice_to_vec(slice_subrange(self.data.as_slice(), c, n));
        self.cursor = n;
        r
    }

    /// Moves the cursor to `offset`, then reads as `read_until` does.
    pub fn read_from(&mut self, offset: usize, delimiter: u8) -> (r: Vec<u8>)
        ensures
            final(self).bytes() == old(self).bytes(),
            r@ == chunk_from(old(self).bytes(), offset as int, delimiter),
            final(self).pos() == cursor_after(old(self).bytes(), offset as int, delimiter),
    {
        self.cursor = offset;
        self.read_until(delimiter)
    }

    /// Rewrites the log with the records at `retained`, in that order, and
    /// gives the offset of each in the new log. Gives `None`, with the bytes
    /// unchanged, where the new log would outgrow the address space.
    pub fn compact(&mut self, retained: &Vec<usize>) -> (r: Option<Vec<usize>>)
        requires
            live_offsets(old(self).bytes(), retained@),
        ensures
            r matches Some(offs) ==> final(self).bytes() == rewritten(old(self).bytes(), retained@),
            r matches Some(offs) ==> offs@.len() == retained@.len(),
            r matches Some(offs) ==> forall|i: int|
                0 <= i < offs@.len() ==> #[trigger] offs@[i] < final(self).bytes().len(),
            r matches Some(offs) ==> forall|i: int|
                0 <= i < offs@.len() ==> #[trigger] record_at(final(self).bytes(), offs@[i] as int)
                    == record_at(old(self).bytes(), retained@[i] as int),
            r matches Some(offs) ==> forall|i: int, j: int|
                0 <= i < j < offs@.len() ==> offs@[i] < offs@[j],
            r matches Some(offs) ==> forall|i: int|
                0 <= i < offs@.len() ==> record_start(final(self).bytes(), #[trigger] offs@[i] as int),
            r matches Some(offs) ==> forall|i: int|
                0 <= i < offs@.len() ==> #[trigger] offs@[i] == append_offset(
                    rewritten(old(self).bytes(), retained@.take(i)),
                ),
            r is None ==> final(self).bytes() == old(self).bytes(),
            disjoint(old(self).bytes(), retained@) && old(self).bytes().len() < usize::MAX ==> r is Some
                && final(self).bytes().len() <= old(self).bytes().len(),
            disjoint(old(self).bytes(), retained@) && old(self).bytes().len() < usize::MAX && (exists|p: int|
                dead_record(old(self).bytes(), retained@, p)) ==> final(self).bytes().len() < old(
                self,
            ).bytes().len(),
    {
        let ghost s = self.data@;
        let ghost dj = disjoint(s, retained@) && s.len() < usize::MAX;
        let ghost has_dead = exists|p: int| dead_record(s, retained@, p);
        let ghost p = if has_dead {
            choose|p: int| dead_record(s, retained@, p)
        } else {
            0
        };
        let mut out = LogFile::new();
        let mut offs: Vec<usize> = Vec::new();
        let mut i: usize = 0;
        assert(retained@.take(0) =~= Seq::<usize>::empty());
        while i < retained.len()
            invariant
                self.data@ == s,
                s == old(self).bytes(),
                i <= retained@.len(),
                live_offsets(s, retained@),
                out.bytes() == rewritten(s, retained@.take(i as int)),
                offs@.len() == i,
                i > 0 ==> out.bytes().len() > 0,
                forall|j: int|
                    0 <= j < i ==> offs@[j] < out.bytes().len() && #[trigger] record_at(
                        out.bytes(),
                        offs@[j] as int,
                    ) == record_at(s, retained@[j] as int),
                forall|a: int, b: int| 0 <= a < b < i ==> offs@[a] < offs@[b],
                forall|j: int| 0 <= j < i ==> record_start(out.bytes(), #[trigger] offs@[j] as int),
                forall|j: int|
                    0 <= j < i ==> #[trigger] offs@[j] == append_offset(rewritten(s, retained@.take(j))),
                dj == (disjoint(s, retained@) && s.len() < usize::MAX),
                dj ==> if i == 0 {
                    out.bytes().len() == 0
                } else {
                    out.bytes().len() <= next_index_of(s, retained@[i - 1] as int, DELIM)
                },
                has_dead ==> dead_record(s, retained@, p),
                dj && has_dead && i > 0 && p < retained@[i - 1] ==> out.bytes().len()
                    < next_index_of(s, retained@[i - 1] as int, DELIM),
            decreases retained.len() - i,
        {
            let off = retained[i];
            proof {
                assert(record_at(s, retained@[i as int] as int).len() > 0);
                lemma_chunk_record(s, off as int);
                lemma_record_at_delim_free(s, off as int);
                assert(record_at(s, off as int).len() > 0);
            }
            let chunk = self.read_from(off, DELIM);
            let rec = strip_delim(chunk);
            let len = out.len();
            proof {
                lemma_next_index_of_bounds(s, off as int, DELIM);
                assert(rec@.len() == next_index_of(s, off as int, DELIM) - off);
                if dj && i > 0 {
                    assert(next_index_of(s, retained@[i - 1] as int, DELIM) < retained@[i as int]);
                    if has_dead && retained@[i - 1] < p {
                        lemma_next_index_of_bounds(s, retained@[i - 1] as int, DELIM);
                        assert(s[p - 1] == DELIM);
                    }
                }
                if has_dead {
                    assert(retained@[i as int] != p);
                }
            }
            if len > usize::MAX - 1 || rec.len() > usize::MAX - 1 - len {
                return None;
            }
            let start: usize = if len == 0 {
                0
            } else {
                len + 1
            };
            let ghost before = out.bytes();
            out.append(rec.as_slice());
            proof {
                lemma_record_at_new(before, rec@);
                assert forall|j: int| 0 <= j < i implies offs@[j] < out.bytes().len()
                    && #[trigger] record_at(out.bytes(), offs@[j] as int) == record_at(
                    s,
                    retained@[j] as int,
                ) by {
                    assert(record_at(before, offs@[j] as int) == record_at(s, retained@[j] as int));
                    lemma_record_at_appended(before, rec@, offs@[j] as int);
                }
                assert(retained@.take(i + 1).drop_last() =~= retained@.take(i as int));
            }
            offs.push(start);
            proof {
                assert(rec@ == record_at(s, off as int));
                assert(start as int == append_offset(before));
                assert(record_at(out.bytes(), offs@[i as int] as int) == record_at(s, retained@[i as int] as int));
                assert forall|j: int| 0 <= j <= i implies offs@[j] < out.bytes().len()
                    && #[trigger] record_at(out.bytes(), offs@[j] as int) == record_at(
                    s,
                    retained@[j] as int,
                ) by {
                    if j < i {
                        assert(record_at(out.bytes(), offs@[j] as int) == record_at(
                            s,
                            retained@[j] as int,
                        ));
                    }
                }
                assert forall|a: int, b: int| 0 <= a < b <= i implies offs@[a] < offs@[b] by {
                    if b == i {
                        assert(record_at(before, offs@[a] as int) == record_at(s, retained@[a] as int));
                    }
                }
                assert forall|j: int| 0 <= j <= i implies record_start(out.bytes(), #[trigger] offs@[j] as int) by {
                    if j < i {
                        assert(record_start(before, offs@[j] as int));
                        assert(record_at(before, offs@[j] as int) == record_at(s, retained@[j] as int));
                        if offs@[j] > 0 {
                            assert(out.bytes()[offs@[j] - 1] == before[offs@[j] - 1]);
                        }
                    } else if start > 0 {
                        assert(out.bytes()[start - 1] == DELIM);
                    }
                }
                assert(retained@[(i + 1) - 1] == off);
            }
            i = i + 1;
        }
        assert(retained@.take(retained@.len() as int) =~= retained@);
        let ghost fin = out.bytes();
        self.data = out.data;
        self.cursor = 0;
        assert(self.bytes() == fin);
        assert forall|j: int| 0 <= j < offs@.len() implies #[trigger] offs@[j] < self.bytes().len()
            && record_at(self.bytes(), offs@[j] as int) == record_at(old(self).bytes(), retained@[j] as int) by {
            assert(record_at(fin, offs@[j] as int) == record_at(s, retained@[j] as int));
        }
        proof {
            if dj && retained@.len() > 0 {
                let last = retained@.len() - 1;
                lemma_next_index_of_bounds(s, retained@[last] as int, DELIM);
                if has_dead && p > retained@[last] {
                    assert(s[p - 1] == DELIM);
                }
                if has_dead {
                    assert(retained@[last] != p);
                }
            }
        }
        Some(offs)
    }
}

/// The payload of a chunk that `read_until` gave: the chunk without its
/// final delimiter.
pub fn strip_delim(chunk: Vec<u8>) -> (r: Vec<u8>)
    ensures
        r@ == if chunk@.len() > 0 && chunk@.last() == DELIM {
            chunk@.drop_last()
        } else {
            chunk@
        },
{
    let mut chunk = chunk;
    if chunk.len() > 0 && chunk[chunk.len() - 1] == DELIM {
        chunk.pop();
    }
    chunk
}

/// Reading at an offset and removing the delimiter gives the record there.
pub proof fn lemma_chunk_record(s: Seq<u8>, off: int)
    requires
        0 <= off <= s.len(),
    ensures
        ({
            let ch = chunk_from(s, off, DELIM);
            (if ch.len() > 0 && ch.last() == DELIM {
                ch.drop_last()
            } else {
                ch
            }) == record_at(s, off)
        }),
        cursor_after(s, off, DELIM) == (if next_index_of(s, off, DELIM) < s.len() {
            next_index_of(s, off, DELIM) + 1
        } else {
            s.len() as int
        }),
{
    lemma_next_index_of_bounds(s, off, DELIM);
    let j = next_index_of(s, off, DELIM);
    let ch = chunk_from(s, off, DELIM);
    if j < s.len() {
        assert(ch.drop_last() =~= s.subrange(off, j));
    } else if off < s.len() {
        assert(ch =~= s.subrange(off, j));
        if ch.len() > 0 {
            assert(ch.last() == s[s.len() - 1]);
        }
    } else {
        assert(ch =~= s.subrange(off, j));
    }
}

} // verus!

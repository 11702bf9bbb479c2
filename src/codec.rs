//! Encoding and decoding of log records.
//!
//! A record is a small JSON object, one per mutation:
//! `{"cmd":"Set","params":["<key>","<value>"]}` or `{"cmd":"Rm","params":"<key>"}`.
//! Strings are escaped as JSON requires, so a record never holds a raw newline.
//!
//! The encoder writes each string as serde_json does. The decoder reads the
//! same shape and nothing looser: no whitespace, the fields in this order,
//! the two-character escapes and `\u00XX` below 0x80 only (no other `\u`
//! escapes, no surrogate pairs).
use vstd::prelude::*;
use vstd::utf8::*;

verus! {

broadcast use {encode_utf8_valid_utf8, encode_utf8_decode_utf8};

/// The byte that separates two records in the log.
pub const DELIM: u8 = 10;

/// The quote that opens and closes a JSON string.
pub const QUOTE: u8 = 34;

/// The backslash that starts a JSON escape sequence.
pub const BSLASH: u8 = 92;

/// One mutation of the store.
#[derive(Debug, Clone, PartialEq, Eq)]
pub enum Command {
    Put(String, String),
    Rm(String),
}

/// What a command means: its kind and its text parameters.
pub enum Op {
    Put(Seq<char>, Seq<char>),
    Rm(Seq<char>),
}

impl Command {
    /// What the command means.
    pub open spec fn op(&self) -> Op {
        match self {
            Command::Put(k, v) => Op::Put(k@, v@),
            Command::Rm(k) => Op::Rm(k@),
        }
    }
}

/// Lower-case hexadecimal digit of a value below 16.
pub open spec fn hex_digit(n: u8) -> u8 {
    if n < 10 {
        (48 + n) as u8
    } else {
        (87 + n) as u8
    }
}

/// Value of a hexadecimal digit of either case, or -1.
pub open spec fn hex_val(c: u8) -> int {
    if 48 <= c <= 57 {
        c - 48
    } else if 97 <= c <= 102 {
        c - 87
    } else if 65 <= c <= 70 {
        c - 55
    } else {
        -1
    }
}

/// The escaped form of one byte inside a JSON string.
pub open spec fn escape_byte(b: u8) -> Seq<u8> {
    if b == QUOTE {
        seq![BSLASH, QUOTE]
    } else if b == BSLASH {
        seq![BSLASH, BSLASH]
    } else if b == 8 {
        seq![BSLASH, 98u8]
    } else if b == 12 {
        seq![BSLASH, 102u8]
    } else if b == 10 {
        seq![BSLASH, 110u8]
    } else if b == 13 {
        seq![BSLASH, 114u8]
    } else if b == 9 {
        seq![BSLASH, 116u8]
    } else if b < 32 {
        seq![BSLASH, 117u8, 48u8, 48u8, hex_digit(b / 16), hex_digit(b % 16)]
    } else {
        seq![b]
    }
}

/// The escaped form of a byte string (without the surrounding quotes).
pub open spec fn escape(s: Seq<u8>) -> Seq<u8>
    decreases s.len(),
{
    if s.len() == 0 {
        Seq::empty()
    } else {
        escape_byte(s[0]) + escape(s.drop_first())
    }
}

/// Decodes one unit of a JSON string body at position `i`: a plain byte or an
/// escape sequence. Gives the byte and the position after the unit.
pub open spec fn unescape_one(s: Seq<u8>, i: int) -> Option<(u8, int)> {
    if i < 0 || i >= s.len() {
        None
    } else if s[i] == BSLASH {
        if i + 1 >= s.len() {
            None
        } else {
            let e = s[i + 1];
            if e == QUOTE || e == BSLASH || e == 47 {
                Some((e, i + 2))
            } else if e == 98 {
                Some((8u8, i + 2))
            } else if e == 102 {
                Some((12u8, i + 2))
            } else if e == 110 {
                Some((10u8, i + 2))
            } else if e == 114 {
                Some((13u8, i + 2))
            } else if e == 116 {
                Some((9u8, i + 2))
            } else if e == 117 && s.len() - i > 5 && s[i + 2] == 48 && s[i + 3] == 48 && 0
                <= hex_val(s[i + 4]) < 8 && 0 <= hex_val(s[i + 5]) {
                Some(((hex_val(s[i + 4]) * 16 + hex_val(s[i + 5])) as u8, i + 6))
            } else {
                None
            }
        }
    } else if s[i] == QUOTE || s[i] < 32 {
        None
    } else {
        Some((s[i], i + 1))
    }
}

/// Decodes a JSON string body starting at `i`, up to and including its closing
/// quote. Gives the bytes and the position after the closing quote.
pub open spec fn unescape_at(s: Seq<u8>, i: int) -> Option<(Seq<u8>, int)>
    decreases s.len() - i,
{
    if i < 0 || i >= s.len() {
        None
    } else if s[i] == QUOTE {
        Some((Seq::empty(), i + 1))
    } else {
        match unescape_one(s, i) {
            None => None,
            Some((b, j)) => if i < j <= s.len() {
                match unescape_at(s, j) {
                    None => None,
                    Some((t, k)) => Some((seq![b] + t, k)),
                }
            } else {
                None
            },
        }
    }
}

/// `s` holds `pat` starting at position `i`.
pub open spec fn has_at(s: Seq<u8>, i: int, pat: Seq<u8>) -> bool {
    0 <= i && i + pat.len() <= s.len() && s.subrange(i, i + pat.len()) == pat
}

/// `{"cmd":"Set","params":["`
pub open spec fn set_head() -> Seq<u8> {
    seq![123u8, 34, 99, 109, 100, 34, 58, 34, 83, 101, 116, 34, 44, 34, 112, 97, 114, 97, 109, 115, 34, 58, 91, 34]
}

/// `,"` between the two parameters of a Set record.
pub open spec fn set_mid() -> Seq<u8> {
    seq![44u8, 34]
}

/// `]}`
pub open spec fn set_tail() -> Seq<u8> {
    seq![93u8, 125]
}

/// `{"cmd":"Rm","params":"`
pub open spec fn rm_head() -> Seq<u8> {
    seq![123u8, 34, 99, 109, 100, 34, 58, 34, 82, 109, 34, 44, 34, 112, 97, 114, 97, 109, 115, 34, 58, 34]
}

/// `}`
pub open spec fn rm_tail() -> Seq<u8> {
    seq![125u8]
}

/// A string parameter without its opening quote: the escaped UTF-8 bytes and
/// the closing quote.
pub open spec fn quoted_rest(s: Seq<char>) -> Seq<u8> {
    escape(encode_utf8(s)) + seq![QUOTE]
}

/// The record that stands for `op` in the log.
pub open spec fn encode_op(op: Op) -> Seq<u8> {
    match op {
        Op::Put(k, v) => set_head() + quoted_rest(k) + set_mid() + quoted_rest(v) + set_tail(),
        Op::Rm(k) => rm_head() + quoted_rest(k) + rm_tail(),
    }
}

/// What a record means, or `None` where it is not a well-formed record.
pub open spec fn decode_record(r: Seq<u8>) -> Option<Op> {
    if has_at(r, 0, set_head()) {
        match unescape_at(r, set_head().len() as int) {
            Some((kb, p)) => if has_at(r, p, set_mid()) {
                match unescape_at(r, p + 2) {
                    Some((vb, q)) => if r.subrange(q, r.len() as int) == set_tail() && valid_utf8(kb)
                        && valid_utf8(vb) {
                        Some(Op::Put(decode_utf8(kb), decode_utf8(vb)))
                    } else {
                        None
                    },
                    None => None,
                }
            } else {
                None
            },
            None => None,
        }
    } else if has_at(r, 0, rm_head()) {
        match unescape_at(r, rm_head().len() as int) {
            Some((kb, p)) => if r.subrange(p, r.len() as int) == rm_tail() && valid_utf8(kb) {
                Some(Op::Rm(decode_utf8(kb)))
            } else {
                None
            },
            None => None,
        }
    } else {
        None
    }
}

/// `s` holds no delimiter byte.
pub open spec fn delim_free(s: Seq<u8>) -> bool {
    forall|i: int| 0 <= i < s.len() ==> s[i] != DELIM
}

pub proof fn lemma_escape_concat(a: Seq<u8>, b: Seq<u8>)
    ensures
        escape(a + b) == escape(a) + escape(b),
    decreases a.len(),
{
    if a.len() == 0 {
        assert(a + b =~= b);
        assert(escape(a) + escape(b) =~= escape(b));
    } else {
        assert((a + b).drop_first() =~= a.drop_first() + b);
        lemma_escape_concat(a.drop_first(), b);
        assert(escape(a + b) =~= escape(a) + escape(b));
    }
}

pub proof fn lemma_escape_delim_free(s: Seq<u8>)
    ensures
        delim_free(escape(s)),
    decreases s.len(),
{
    if s.len() > 0 {
        lemma_escape_delim_free(s.drop_first());
        let e = escape_byte(s[0]);
        assert(delim_free(e));
        assert forall|i: int| 0 <= i < escape(s).len() implies escape(s)[i] != DELIM by {
            if i >= e.len() {
                assert(escape(s)[i] == escape(s.drop_first())[i - e.len()]);
            }
        }
    }
}

/// Every record that `encode_op` writes holds no delimiter byte.
pub proof fn lemma_encode_delim_free(op: Op)
    ensures
        delim_free(encode_op(op)),
{
    match op {
        Op::Put(k, v) => {
            lemma_escape_delim_free(encode_utf8(k));
            lemma_escape_delim_free(encode_utf8(v));
        },
        Op::Rm(k) => {
            lemma_escape_delim_free(encode_utf8(k));
        },
    }
    let r = encode_op(op);
    assert forall|i: int| 0 <= i < r.len() implies r[i] != DELIM by {
        match op {
            Op::Put(k, v) => {
                let a = set_head();
                let b = quoted_rest(k);
                let c = set_mid();
                let d = quoted_rest(v);
                if i < a.len() {
                } else if i < a.len() + b.len() {
                    assert(r[i] == b[i - a.len()]);
                } else if i < a.len() + b.len() + c.len() {
                } else if i < a.len() + b.len() + c.len() + d.len() {
                    assert(r[i] == d[i - a.len() - b.len() - c.len()]);
                } else {
                }
            },
            Op::Rm(k) => {
                let b = quoted_rest(k);
                if i >= rm_head().len() && i < rm_head().len() + b.len() {
                    assert(r[i] == b[i - rm_head().len()]);
                }
            },
        }
    }
}

proof fn lemma_unescape_one_escape(s: Seq<u8>, i: int, b: u8)
    requires
        has_at(s, i, escape_byte(b)),
    ensures
        unescape_one(s, i) == Some((b, i + escape_byte(b).len())),
        s[i] != QUOTE,
{
    let e = escape_byte(b);
    assert(s[i] == e[0]);
    if e.len() > 1 {
        assert(s.subrange(i, i + e.len())[1] == e[1]);
    }
    if b < 32 && b != 8 && b != 9 && b != 10 && b != 12 && b != 13 {
        assert(s[i + 2] == e[2] && s[i + 3] == e[3] && s[i + 4] == e[4] && s[i + 5] == e[5]) by {
            assert(s.subrange(i, i + 6)[2] == e[2]);
            assert(s.subrange(i, i + 6)[3] == e[3]);
            assert(s.subrange(i, i + 6)[4] == e[4]);
            assert(s.subrange(i, i + 6)[5] == e[5]);
        }
        assert(hex_val(hex_digit(b / 16)) == b / 16);
        assert(hex_val(hex_digit(b % 16)) == b % 16);
        assert(((b / 16) * 16 + b % 16) as u8 == b);
    }
}

/// Decoding an escaped byte string gives it back, and stops just after its
/// closing quote.
pub proof fn lemma_unescape_escape(pre: Seq<u8>, x: Seq<u8>, rest: Seq<u8>)
    ensures
        unescape_at(pre + escape(x) + seq![QUOTE] + rest, pre.len() as int) == Some(
            (x, (pre.len() + escape(x).len() + 1) as int),
        ),
    decreases x.len(),
{
    let s = pre + escape(x) + seq![QUOTE] + rest;
    let i = pre.len() as int;
    if x.len() == 0 {
        assert(s[i] == QUOTE);
    } else {
        let e = escape_byte(x[0]);
        let pre2 = pre + e;
        assert(s =~= pre2 + escape(x.drop_first()) + seq![QUOTE] + rest);
        assert(s.subrange(i, i + e.len()) =~= e);
        lemma_unescape_one_escape(s, i, x[0]);
        lemma_unescape_escape(pre2, x.drop_first(), rest);
        assert(seq![x[0]] + x.drop_first() =~= x);
    }
}

proof fn lemma_decode_encode_put(k: Seq<char>, v: Seq<char>)
    ensures
        decode_record(encode_op(Op::Put(k, v))) == Some(Op::Put(k, v)),
{
    let r = encode_op(Op::Put(k, v));
    let kb = encode_utf8(k);
    let vb = encode_utf8(v);
    let h = set_head();
    let tail1 = set_mid() + quoted_rest(v) + set_tail();
    lemma_unescape_escape(h, kb, tail1);
    assert(r =~= h + escape(kb) + seq![QUOTE] + tail1);
    let p = (h.len() + escape(kb).len() + 1) as int;
    let pre2 = h + quoted_rest(k) + set_mid();
    lemma_unescape_escape(pre2, vb, set_tail());
    assert(r =~= pre2 + escape(vb) + seq![QUOTE] + set_tail());
    assert(pre2.len() == p + 2);
    assert(r.subrange(0, h.len() as int) =~= h);
    assert(r.subrange(p, p + 2) =~= set_mid());
    let q = (pre2.len() + escape(vb).len() + 1) as int;
    assert(r.subrange(q, r.len() as int) =~= set_tail());
    assert(unescape_at(r, h.len() as int) == Some((kb, p)));
    assert(has_at(r, 0, set_head()));
    assert(has_at(r, p, set_mid()));
    assert(unescape_at(r, p + 2) == Some((vb, q)));
}

proof fn lemma_decode_encode_rm(k: Seq<char>)
    ensures
        decode_record(encode_op(Op::Rm(k))) == Some(Op::Rm(k)),
{
    let r = encode_op(Op::Rm(k));
    let kb = encode_utf8(k);
    let h = rm_head();
    lemma_unescape_escape(h, kb, rm_tail());
    assert(r =~= h + escape(kb) + seq![QUOTE] + rm_tail());
    assert(r.subrange(0, h.len() as int) =~= h);
    assert(!has_at(r, 0, set_head())) by {
        assert(r.subrange(0, 24)[8] != set_head()[8]);
    }
    let p = (h.len() + escape(kb).len() + 1) as int;
    assert(r.subrange(p, r.len() as int) =~= rm_tail());
}

/// Every command decodes back from the record that stands for it.
pub proof fn lemma_decode_encode(op: Op)
    ensures
        decode_record(encode_op(op)) == Some(op),
{
    match op {
        Op::Put(k, v) => lemma_decode_encode_put(k, v),
        Op::Rm(k) => lemma_decode_encode_rm(k),
    }
}

/// What decoding from a position gives once `pre` has been decoded before it.
pub open spec fn extend(pre: Seq<u8>, r: Option<(Seq<u8>, int)>) -> Option<(Seq<u8>, int)> {
    match r {
        None => None,
        Some((t, k)) => Some((pre + t, k)),
    }
}

/// Relies on std's `String::from_utf8`: it accepts exactly the byte strings
/// that are valid UTF-8, and gives the text that they encode.
#[verifier::external_body]
fn string_from_utf8(b: Vec<u8>) -> (r: Option<String>)
    ensures
        r is Some <==> valid_utf8(b@),
        r matches Some(s) ==> s@ == decode_utf8(b@),
{
    String::from_utf8(b).ok()
}

fn set_head_bytes() -> (r: Vec<u8>)
    ensures
        r@ == set_head(),
{
    let r: Vec<u8> = vec![123, 34, 99, 109, 100, 34, 58, 34, 83, 101, 116, 34, 44, 34, 112, 97, 114, 97, 109, 115, 34, 58, 91, 34];
    assert(r@ =~= set_head());
    r
}

fn rm_head_bytes() -> (r: Vec<u8>)
    ensures
        r@ == rm_head(),
{
    let r: Vec<u8> = vec![123, 34, 99, 109, 100, 34, 58, 34, 82, 109, 34, 44, 34, 112, 97, 114, 97, 109, 115, 34, 58, 34];
    assert(r@ =~= rm_head());
    r
}

fn hex_digit_exec(n: u8) -> (r: u8)
    requires
        n < 16,
    ensures
        r == hex_digit(n),
{
    if n < 10 {
        48 + n
    } else {
        87 + n
    }
}

/// The value of a hexadecimal digit, or 255 where `c` is none.
fn hex_value(c: u8) -> (r: u8)
    ensures
        r == 255 <==> hex_val(c) == -1,
        r != 255 ==> r == hex_val(c),
{
    if 48 <= c && c <= 57 {
        c - 48
    } else if 97 <= c && c <= 102 {
        c - 87
    } else if 65 <= c && c <= 70 {
        c - 55
    } else {
        255
    }
}

fn push_bytes(out: &mut Vec<u8>, pat: &[u8])
    ensures
        final(out)@ == old(out)@ + pat@,
{
    let ghost start = out@;
    let mut i: usize = 0;
    while i < pat.len()
        invariant
            i <= pat@.len(),
            out@ == start + pat@.take(i as int),
        decreases pat.len() - i,
    {
        out.push(pat[i]);
        i = i + 1;
        assert(pat@.take(i as int) =~= pat@.take(i - 1).push(pat@[i - 1]));
    }
    assert(pat@.take(pat.len() as int) =~= pat@);
}

fn push_escaped_byte(out: &mut Vec<u8>, b: u8)
    ensures
        final(out)@ == old(out)@ + escape_byte(b),
{
    let ghost start = out@;
    if b == QUOTE {
        out.push(BSLASH);
        out.push(QUOTE);
    } else if b == BSLASH {
        out.push(BSLASH);
        out.push(BSLASH);
    } else if b == 8 {
        out.push(BSLASH);
        out.push(98);
    } else if b == 12 {
        out.push(BSLASH);
        out.push(102);
    } else if b == 10 {
        out.push(BSLASH);
        out.push(110);
    } else if b == 13 {
        out.push(BSLASH);
        out.push(114);
    } else if b == 9 {
        out.push(BSLASH);
        out.push(116);
    } else if b < 32 {
        out.push(BSLASH);
        out.push(117);
        out.push(48);
        out.push(48);
        out.push(hex_digit_exec(b / 16));
        out.push(hex_digit_exec(b % 16));
    } else {
        out.push(b);
    }
    assert(out@ =~= start + escape_byte(b));
}

/// Appends the escaped form of `s` to `out`.
fn push_escaped(out: &mut Vec<u8>, s: &[u8])
    ensures
        final(out)@ == old(out)@ + escape(s@),
{
    let ghost start = out@;
    let mut i: usize = 0;
    assert(escape(s@.take(0)) =~= Seq::<u8>::empty()) by {
        assert(s@.take(0) =~= Seq::<u8>::empty());
    }
    assert(out@ =~= start + escape(s@.take(0)));
    while i < s.len()
        invariant
            i <= s@.len(),
            out@ == start + escape(s@.take(i as int)),
        decreases s.len() - i,
    {
        let b = s[i];
        push_escaped_byte(out, b);
        proof {
            let one = seq![b];
            lemma_escape_concat(s@.take(i as int), one);
            assert(s@.take(i + 1) =~= s@.take(i as int) + one);
            assert(one.drop_first() =~= Seq::<u8>::empty());
            assert(escape(one.drop_first()) =~= Seq::<u8>::empty());
            assert(escape(one) =~= escape_byte(b));
        }
        i = i + 1;
    }
    assert(s@.take(s.len() as int) =~= s@);
}

/// The record that stands for `cmd`.
pub fn encode(cmd: &Command) -> (r: Vec<u8>)
    ensures
        r@ == encode_op(cmd.op()),
{
    match cmd {
        Command::Put(k, v) => {
            let mut out = set_head_bytes();
            push_escaped(&mut out, k.as_str().as_bytes());
            out.push(QUOTE);
            out.push(44);
            out.push(QUOTE);
            push_escaped(&mut out, v.as_str().as_bytes());
            out.push(QUOTE);
            out.push(93);
            out.push(125);
            assert(out@ =~= encode_op(cmd.op()));
            out
        },
        Command::Rm(k) => {
            let mut out = rm_head_bytes();
            push_escaped(&mut out, k.as_str().as_bytes());
            out.push(QUOTE);
            out.push(125);
            assert(out@ =~= encode_op(cmd.op()));
            out
        },
    }
}

fn has_at_exec(s: &[u8], i: usize, pat: &[u8]) -> (r: bool)
    ensures
        r == has_at(s@, i as int, pat@),
{
    let n = s.len();
    if i > n || pat.len() > n - i {
        return false;
    }
    let mut j: usize = 0;
    while j < pat.len()
        invariant
            i + pat@.len() <= s@.len(),
            n == s@.len(),
            j <= pat@.len(),
            forall|t: int| 0 <= t < j ==> s@[i + t] == pat@[t],
        decreases pat.len() - j,
    {
        assert(i + j < s@.len());
        if s[i + j] != pat[j] {
            assert(s@.subrange(i as int, i + pat@.len())[j as int] == s@[i + j]);
            return false;
        }
        j = j + 1;
    }
    assert(s@.subrange(i as int, i + pat@.len()) =~= pat@);
    true
}

fn unescape_one_exec(s: &[u8], i: usize) -> (r: Option<(u8, usize)>)
    ensures
        match r {
            Some((b, j)) => unescape_one(s@, i as int) == Some((b, j as int)),
            None => unescape_one(s@, i as int) is None,
        },
{
    if i >= s.len() {
        return None;
    }
    let c = s[i];
    if c == BSLASH {
        if i + 1 >= s.len() {
            return None;
        }
        let e = s[i + 1];
        if e == QUOTE || e == BSLASH || e == 47 {
            Some((e, i + 2))
        } else if e == 98 {
            Some((8, i + 2))
        } else if e == 102 {
            Some((12, i + 2))
        } else if e == 110 {
            Some((10, i + 2))
        } else if e == 114 {
            Some((13, i + 2))
        } else if e == 116 {
            Some((9, i + 2))
        } else if e == 117 && s.len() - i > 5 && s[i + 2] == 48 && s[i + 3] == 48 {
            let h = hex_value(s[i + 4]);
            let l = hex_value(s[i + 5]);
            if h < 8 && l != 255 {
                Some((h * 16 + l, i + 6))
            } else {
                None
            }
        } else {
            None
        }
    } else if c == QUOTE || c < 32 {
        None
    } else {
        Some((c, i + 1))
    }
}

/// Decodes the JSON string body that starts at `start`.
fn unescape_from(s: &[u8], start: usize) -> (r: Option<(Vec<u8>, usize)>)
    ensures
        match r {
            Some((t, k)) => unescape_at(s@, start as int) == Some((t@, k as int)),
            None => unescape_at(s@, start as int) is None,
        },
        r matches Some((t, k)) ==> k <= s@.len(),
{
    let mut out: Vec<u8> = Vec::new();
    let mut i: usize = start;
    proof {
        match unescape_at(s@, start as int) {
            Some((t, k)) => {
                assert(out@ + t =~= t);
            },
            None => {},
        }
    }
    loop
        invariant
            start <= i,
            unescape_at(s@, start as int) == extend(out@, unescape_at(s@, i as int)),
        decreases s.len() - i,
    {
        if i >= s.len() {
            return None;
        }
        if s[i] == QUOTE {
            assert(out@ + Seq::<u8>::empty() =~= out@);
            return Some((out, i + 1));
        }
        match unescape_one_exec(s, i) {
            None => {
                return None;
            },
            Some((b, j)) => {
                if j <= i || j > s.len() {
                    return None;
                }
                proof {
                    match unescape_at(s@, j as int) {
                        Some((t, k)) => {
                            assert(out@ + (seq![b] + t) =~= out@.push(b) + t);
                        },
                        None => {},
                    }
                }
                out.push(b);
                i = j;
            },
        }
    }
}

/// What the record `r` means, or `None` where it is malformed.
pub fn decode(r: &[u8]) -> (res: Option<Command>)
    ensures
        match res {
            Some(c) => decode_record(r@) == Some(c.op()),
            None => decode_record(r@) is None,
        },
{
    let n = r.len();
    let sh = set_head_bytes();
    let rh = rm_head_bytes();
    if has_at_exec(r, 0, sh.as_slice()) {
        let (kb, p) = match unescape_from(r, sh.len()) {
            Some(x) => x,
            None => return None,
        };
        if !has_at_exec(r, p, &[44, 34]) {
            return None;
        }
        let (vb, q) = match unescape_from(r, p + 2) {
            Some(x) => x,
            None => return None,
        };
        if !(has_at_exec(r, q, &[93, 125]) && q == n - 2) {
            proof {
                if r@.subrange(q as int, r@.len() as int) == set_tail() {
                    assert(r@.subrange(q as int, q + 2) =~= set_tail());
                }
            }
            return None;
        }
        assert(r@.subrange(q as int, r@.len() as int) =~= set_tail());
        let k = match string_from_utf8(kb) {
            Some(k) => k,
            None => return None,
        };
        let v = match string_from_utf8(vb) {
            Some(v) => v,
            None => return None,
        };
        Some(Command::Put(k, v))
    } else if has_at_exec(r, 0, rh.as_slice()) {
        let (kb, p) = match unescape_from(r, rh.len()) {
            Some(x) => x,
            None => return None,
        };
        if !(p < n && p == n - 1 && r[p] == 125) {
            proof {
                if r@.subrange(p as int, r@.len() as int) == rm_tail() {
                    assert(r@.subrange(p as int, r@.len() as int).len() == 1);
                    assert(r@.subrange(p as int, r@.len() as int)[0] == r@[p as int]);
                }
            }
            return None;
        }
        assert(r@.subrange(p as int, r@.len() as int) =~= rm_tail());
        let k = match string_from_utf8(kb) {
            Some(k) => k,
            None => return None,
        };
        Some(Command::Rm(k))
    } else {
        None
    }
}

} // verus!

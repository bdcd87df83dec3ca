//! Decoding of reply frames.
use vstd::prelude::*;
use vstd::utf8::*;

use crate::buffer::{buffer_bytes, buffer_slice};

verus! {

/// Carriage return, the first byte of every terminator.
pub const CR: u8 = 13;

/// Line feed, the second byte of every terminator.
pub const LF: u8 = 10;

/// `+`, the tag of a simple string.
pub const SIMPLE_TAG: u8 = 43;

/// `-`, the tag of an error; also the minus sign of a number.
pub const ERROR_TAG: u8 = 45;

/// `:`, the tag of an integer.
pub const INTEGER_TAG: u8 = 58;

/// `$`, the tag of a bulk string.
pub const BULK_TAG: u8 = 36;

/// `*`, the tag of an array.
pub const ARRAY_TAG: u8 = 42;

/// The minus sign.
pub const MINUS: u8 = 45;

pub open spec fn is_line_break(c: u8) -> bool {
    c == CR || c == LF
}

/// The line that starts at `start` ends at `e`: no CR or LF comes before
/// `e`, and the two bytes at `e` are the terminator CR LF.
pub open spec fn line_ends_at(b: Seq<u8>, start: int, e: int) -> bool {
    &&& 0 <= start <= e
    &&& e + 1 < b.len()
    &&& b[e] == CR
    &&& b[e + 1] == LF
    &&& forall|k: int| start <= k < e ==> !is_line_break(#[trigger] b[k])
}

/// Where the line that starts at `start` ends, if it is terminated.
pub open spec fn line_end(b: Seq<u8>, start: int) -> Option<int> {
    if exists|e: int| line_ends_at(b, start, e) {
        Some(choose|e: int| line_ends_at(b, start, e))
    } else {
        None
    }
}

pub open spec fn is_digit(c: u8) -> bool {
    48 <= c <= 57
}

/// A non-empty run of decimal digits.
pub open spec fn all_digits(s: Seq<u8>) -> bool {
    s.len() > 0 && forall|i: int| 0 <= i < s.len() ==> is_digit(#[trigger] s[i])
}

/// The number that a run of decimal digits writes.
pub open spec fn digits_value(s: Seq<u8>) -> nat
    decreases s.len(),
{
    if s.len() == 0 {
        0
    } else {
        digits_value(s.drop_last()) * 10 + (s.last() - 48) as nat
    }
}

/// The number that an optional minus sign followed by digits writes.
pub open spec fn signed_value(s: Seq<u8>) -> Option<int> {
    if s.len() > 0 && s[0] == MINUS {
        if all_digits(s.drop_first()) {
            Some(-digits_value(s.drop_first()))
        } else {
            None
        }
    } else if all_digits(s) {
        Some(digits_value(s) as int)
    } else {
        None
    }
}

pub proof fn lemma_line_end_unique(b: Seq<u8>, start: int, e: int)
    requires
        line_ends_at(b, start, e),
    ensures
        line_end(b, start) == Some(e),
{
    let c = choose|c: int| line_ends_at(b, start, c);
    if c < e {
        assert(!is_line_break(b[c]));
    } else if e < c {
        assert(!is_line_break(b[e]));
    }
}

/// Finds the terminator of the line that starts at `start`.
fn find_line_end(b: &[u8], start: usize) -> (r: Option<usize>)
    ensures
        match r {
            Some(e) => line_end(b@, start as int) == Some(e as int),
            None => line_end(b@, start as int) is None,
        },
{
    let mut k: usize = start;
    while k < b.len()
        invariant
            start <= k,
            forall|j: int| start <= j < k ==> !is_line_break(#[trigger] b@[j]),
        decreases b.len() - k,
    {
        if b[k] == CR || b[k] == LF {
            if b[k] == CR && k + 1 < b.len() && b[k + 1] == LF {
                proof {
                    lemma_line_end_unique(b@, start as int, k as int);
                }
                return Some(k);
            }
            assert forall|e: int| !line_ends_at(b@, start as int, e) by {
                if line_ends_at(b@, start as int, e) && e > k {
                    assert(!is_line_break(b@[k as int]));
                }
            }
            return None;
        }
        k = k + 1;
    }
    assert forall|e: int| !line_ends_at(b@, start as int, e) by {
        if line_ends_at(b@, start as int, e) {
            assert(!is_line_break(b@[e]));
        }
    }
    None
}

proof fn lemma_digits_value_grows(s: Seq<u8>, k: int)
    requires
        0 <= k <= s.len(),
    ensures
        digits_value(s.subrange(0, k)) <= digits_value(s),
    decreases s.len(),
{
    if k < s.len() {
        assert(s.drop_last().subrange(0, k) =~= s.subrange(0, k));
        lemma_digits_value_grows(s.drop_last(), k);
    } else {
        assert(s.subrange(0, k) =~= s);
    }
}

/// Reads the digits in `b[from..to]` as an unsigned number.
fn parse_digits(b: &[u8], from: usize, to: usize) -> (r: Option<u64>)
    requires
        from <= to <= b@.len(),
    ensures
        match r {
            Some(v) => all_digits(b@.subrange(from as int, to as int)) && v == digits_value(
                b@.subrange(from as int, to as int),
            ),
            None => !all_digits(b@.subrange(from as int, to as int)) || digits_value(
                b@.subrange(from as int, to as int),
            ) > u64::MAX,
        },
{
    let ghost s = b@.subrange(from as int, to as int);
    if from == to {
        return None;
    }
    let mut v: u64 = 0;
    let mut i: usize = from;
    while i < to
        invariant
            from <= i <= to <= b@.len(),
            s == b@.subrange(from as int, to as int),
            forall|j: int| 0 <= j < i - from ==> is_digit(#[trigger] s[j]),
            v == digits_value(s.subrange(0, i - from)),
        decreases to - i,
    {
        let c = b[i];
        if c < 48 || c > 57 {
            assert(!is_digit(s[i - from]));
            return None;
        }
        let d = (c - 48) as u64;
        assert(s.subrange(0, i + 1 - from).drop_last() =~= s.subrange(0, i - from));
        if v > (u64::MAX - d) / 10 {
            assert(v * 10 + d > u64::MAX) by (nonlinear_arith)
                requires
                    v > (u64::MAX - d) / 10,
                    d <= 9,
            ;
            proof {
                lemma_digits_value_grows(s, i + 1 - from);
            }
            return None;
        }
        assert(v * 10 + d <= u64::MAX) by (nonlinear_arith)
            requires
                v <= (u64::MAX - d) / 10,
                d <= 9,
        ;
        v = v * 10 + d;
        i = i + 1;
    }
    assert(s.subrange(0, i - from) =~= s);
    Some(v)
}


/// The deepest nesting of arrays that the decoder follows.
pub const MAX_NESTING: usize = 128;

/// A decoded reply frame.
#[derive(Debug, PartialEq)]
pub enum Reply {
    /// A simple string, tagged `+`.
    SingleLine(String),
    /// An error message sent by the server, tagged `-`.
    Error(String),
    /// A signed integer, tagged `:`.
    Integer(i64),
    /// A bulk string, tagged `$`; `None` is the null bulk string.
    BulkString(Option<String>),
    /// An array of replies, tagged `*`.
    Array(Vec<Reply>),
    /// Input that does not follow the grammar.
    Malformed,
}

/// The mathematical value of a reply.
pub enum RespValue {
    SingleLine(Seq<char>),
    Error(Seq<char>),
    Integer(int),
    BulkString(Option<Seq<char>>),
    Array(Seq<RespValue>),
    Malformed,
}

impl Reply {
    /// What this reply stands for, with texts as characters.
    pub open spec fn value(self) -> RespValue
        decreases self,
    {
        match self {
            Reply::SingleLine(s) => RespValue::SingleLine(s@),
            Reply::Error(s) => RespValue::Error(s@),
            Reply::Integer(n) => RespValue::Integer(n as int),
            Reply::BulkString(None) => RespValue::BulkString(None),
            Reply::BulkString(Some(s)) => RespValue::BulkString(Some(s@)),
            Reply::Array(v) => RespValue::Array(
                Seq::new(v@.len(), |i: int| if 0 <= i < v@.len() { v@[i].value() } else { RespValue::Malformed }),
            ),
            Reply::Malformed => RespValue::Malformed,
        }
    }
}

/// The text that a run of bytes encodes, if it is valid UTF-8.
pub open spec fn text_of(s: Seq<u8>) -> Option<Seq<char>> {
    if valid_utf8(s) {
        Some(decode_utf8(s))
    } else {
        None
    }
}

/// The reply frame that starts at `pos`, with the position just past it.
/// Arrays nest at most `depth` deep.
pub open spec fn parse_value(b: Seq<u8>, pos: int, depth: nat) -> Option<(RespValue, int)>
    decreases depth, 0nat, 0nat,
{
    if pos < 0 || pos >= b.len() {
        None
    } else {
        match line_end(b, pos + 1) {
            None => None,
            Some(e) => {
                let tag = b[pos];
                let line = b.subrange(pos + 1, e);
                let next = e + 2;
                if tag == SIMPLE_TAG {
                    match text_of(line) {
                        Some(t) => Some((RespValue::SingleLine(t), next)),
                        None => None,
                    }
                } else if tag == ERROR_TAG {
                    match text_of(line) {
                        Some(t) => Some((RespValue::Error(t), next)),
                        None => None,
                    }
                } else if tag == INTEGER_TAG {
                    match signed_value(line) {
                        Some(n) => if i64::MIN <= n <= i64::MAX {
                            Some((RespValue::Integer(n), next))
                        } else {
                            None
                        },
                        None => None,
                    }
                } else if tag == BULK_TAG {
                    if line == seq![45u8, 49u8] {
                        Some((RespValue::BulkString(None), next))
                    } else if all_digits(line) {
                        let end = next + digits_value(line);
                        if end < b.len() && b.len() - end >= 2 && b[end] == CR && b[end + 1] == LF {
                            match text_of(b.subrange(next, end)) {
                                Some(t) => Some((RespValue::BulkString(Some(t)), end + 2)),
                                None => None,
                            }
                        } else {
                            None
                        }
                    } else {
                        None
                    }
                } else if tag == ARRAY_TAG {
                    if all_digits(line) && depth > 0 {
                        match parse_items(b, next, digits_value(line), (depth - 1) as nat) {
                            Some((vs, q)) => Some((RespValue::Array(vs), q)),
                            None => None,
                        }
                    } else {
                        None
                    }
                } else {
                    None
                }
            },
        }
    }
}

/// The `n` reply frames that follow one another from `start`, with the
/// position just past the last.
pub open spec fn parse_items(b: Seq<u8>, start: int, n: nat, depth: nat) -> Option<(Seq<RespValue>, int)>
    decreases depth, 1nat, n,
{
    if n == 0 {
        Some((Seq::empty(), start))
    } else {
        match parse_items(b, start, (n - 1) as nat, depth) {
            Some((vs, p)) => match parse_value(b, p, depth) {
                Some((v, q)) => Some((vs.push(v), q)),
                None => None,
            },
            None => None,
        }
    }
}

/// The reply that a buffer holds: the frame at its start, or `Malformed`.
/// Bytes after that frame are not read.
pub open spec fn decode_value(b: Seq<u8>) -> RespValue {
    match parse_value(b, 0, MAX_NESTING as nat) {
        Some((v, _)) => v,
        None => RespValue::Malformed,
    }
}


/// Relies on `String::from_utf8`: it succeeds exactly on valid UTF-8, and
/// then holds the characters that the bytes encode.
#[verifier::external_body]
fn utf8_text(bytes: &[u8]) -> (r: Option<String>)
    ensures
        match r {
            Some(t) => text_of(bytes@) == Some(t@),
            None => text_of(bytes@) is None,
        },
{
    String::from_utf8(bytes.to_vec()).ok()
}

/// Decodes the reply frame that starts at `pos`, following arrays at most
/// `depth` deep; gives the reply and the position just past it.
fn parse_frame(b: &[u8], pos: usize, depth: usize) -> (r: Option<(Reply, usize)>)
    ensures
        match r {
            Some((rep, q)) => parse_value(b@, pos as int, depth as nat) == Some(
                (rep.value(), q as int),
            ) && q <= b@.len(),
            None => parse_value(b@, pos as int, depth as nat) is None,
        },
    decreases depth,
{
    if pos >= b.len() {
        return None;
    }
    let e = match find_line_end(b, pos + 1) {
        Some(e) => e,
        None => return None,
    };
    proof {
        assert(line_ends_at(b@, pos + 1, e as int));
    }
    let ghost line = b@.subrange(pos + 1, e as int);
    let tag = b[pos];
    let next = e + 2;
    if tag == SIMPLE_TAG || tag == ERROR_TAG {
        let t = match utf8_text(&b[pos + 1..e]) {
            Some(t) => t,
            None => return None,
        };
        if tag == SIMPLE_TAG {
            Some((Reply::SingleLine(t), next))
        } else {
            Some((Reply::Error(t), next))
        }
    } else if tag == INTEGER_TAG {
        if e > pos + 1 && b[pos + 1] == MINUS {
            assert(line.drop_first() =~= b@.subrange(pos + 2, e as int));
            match parse_digits(b, pos + 2, e) {
                Some(m) => {
                    if m > 9223372036854775808 {
                        return None;
                    }
                    let n: i64 = if m == 9223372036854775808 {
                        -9223372036854775808i64
                    } else {
                        -(m as i64)
                    };
                    Some((Reply::Integer(n), next))
                },
                None => None,
            }
        } else {
            match parse_digits(b, pos + 1, e) {
                Some(m) => {
                    if m > 9223372036854775807 {
                        return None;
                    }
                    Some((Reply::Integer(m as i64), next))
                },
                None => None,
            }
        }
    } else if tag == BULK_TAG {
        if e == pos + 3 && b[pos + 1] == MINUS && b[pos + 2] == 49 {
            assert(line =~= seq![45u8, 49u8]);
            return Some((Reply::BulkString(None), next));
        }
        proof {
            if line =~= seq![45u8, 49u8] {
                assert(line[0] == b@[pos + 1]);
                assert(line[1] == b@[pos + 2]);
            }
        }
        let n = match parse_digits(b, pos + 1, e) {
            Some(n) => n,
            None => return None,
        };
        if n > (b.len() - next) as u64 {
            return None;
        }
        let end = next + n as usize;
        if end < b.len() && b.len() - end >= 2 && b[end] == CR && b[end + 1] == LF {
            match utf8_text(&b[next..end]) {
                Some(t) => Some((Reply::BulkString(Some(t)), end + 2)),
                None => None,
            }
        } else {
            None
        }
    } else if tag == ARRAY_TAG {
        if depth == 0 {
            return None;
        }
        let count = match parse_digits(b, pos + 1, e) {
            Some(n) => n,
            None => {
                proof {
                    lemma_items_within(b@, next as int, digits_value(line), (depth - 1) as nat);
                }
                return None;
            },
        };
        let mut items: Vec<Reply> = Vec::new();
        let mut p: usize = next;
        let mut i: u64 = 0;
        assert(Seq::<Reply>::empty().map_values(|x: Reply| x.value()) =~= Seq::<RespValue>::empty());
        while i < count
            invariant
                depth > 0,
                pos < b@.len(),
                b@[pos as int] == ARRAY_TAG,
                line_end(b@, pos + 1) == Some(e as int),
                next == e + 2,
                line == b@.subrange(pos + 1, e as int),
                all_digits(line),
                count == digits_value(line),
                p <= b@.len(),
                i <= count,
                parse_items(b@, next as int, i as nat, (depth - 1) as nat) == Some(
                    (items@.map_values(|x: Reply| x.value()), p as int),
                ),
            decreases count - i,
        {
            match parse_frame(b, p, depth - 1) {
                Some((rep, q)) => {
                    proof {
                        let vs = items@.map_values(|x: Reply| x.value());
                        assert(items@.push(rep).map_values(|x: Reply| x.value()) =~= vs.push(rep.value()));
                    }
                    items.push(rep);
                    p = q;
                    i = i + 1;
                },
                None => {
                    proof {
                        assert(parse_items(b@, next as int, (i + 1) as nat, (depth - 1) as nat) is None);
                        lemma_items_fail_on(b@, next as int, i as nat, count as nat, (depth - 1) as nat);
                    }
                    return None;
                },
            }
        }
        let ghost vs = items@.map_values(|x: Reply| x.value());
        assert(parse_items(b@, next as int, digits_value(line), (depth - 1) as nat) == Some((vs, p as int)));
        let rep = Reply::Array(items);
        assert(rep.value()->Array_0 =~= vs);
        Some((rep, p))
    } else {
        None
    }
}

/// A frame lies within the buffer and takes at least one byte.
pub proof fn lemma_frame_within(b: Seq<u8>, pos: int, depth: nat)
    ensures
        parse_value(b, pos, depth) matches Some((_, q)) ==> pos < q <= b.len(),
    decreases depth, 0nat, 0nat,
{
    if 0 <= pos < b.len() {
        if let Some(e) = line_end(b, pos + 1) {
            let line = b.subrange(pos + 1, e);
            if b[pos] == ARRAY_TAG && all_digits(line) && depth > 0 {
                lemma_items_within(b, e + 2, digits_value(line), (depth - 1) as nat);
            }
        }
    }
}

/// A run of `n` frames lies within the buffer and takes at least `n` bytes.
pub proof fn lemma_items_within(b: Seq<u8>, start: int, n: nat, depth: nat)
    requires
        0 <= start <= b.len(),
    ensures
        parse_items(b, start, n, depth) matches Some((vs, q)) ==> start + n <= q <= b.len()
            && vs.len() == n,
    decreases depth, 1nat, n,
{
    if n > 0 {
        lemma_items_within(b, start, (n - 1) as nat, depth);
        if let Some((_, p)) = parse_items(b, start, (n - 1) as nat, depth) {
            lemma_frame_within(b, p, depth);
        }
    }
}

/// Once the frame after the first `i` ones fails, no longer run parses.
proof fn lemma_items_fail_on(b: Seq<u8>, start: int, i: nat, n: nat, depth: nat)
    requires
        i < n,
        parse_items(b, start, (i + 1) as nat, depth) is None,
    ensures
        parse_items(b, start, n, depth) is None,
    decreases n - i,
{
    if i + 1 < n {
        lemma_items_fail_on(b, start, i + 1, n, depth);
    }
}


impl Reply {
    /// Decodes the reply frame at the start of `buf`; bytes after it are
    /// left alone. Input that does not follow the grammar, or whose arrays
    /// nest deeper than `MAX_NESTING`, gives `Malformed`.
    pub fn decode(buf: &[u8]) -> (r: Reply)
        ensures
            r.value() == decode_value(buf@),
    {
        match parse_frame(buf, 0, MAX_NESTING) {
            Some((rep, _)) => rep,
            None => Reply::Malformed,
        }
    }

    /// Decodes the reply frame at the start of a received buffer.
    pub fn from_resp(src: &bytes::BytesMut) -> (r: Reply)
        ensures
            r.value() == decode_value(buffer_bytes(*src)),
    {
        Reply::decode(buffer_slice(src))
    }
}

} // verus!

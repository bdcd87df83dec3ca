//! Framing of commands as arrays of bulk strings.
use vstd::prelude::*;
use vstd::string::{StringExecFns, StringSliceAdditionalSpecFns};
use vstd::utf8::*;

use crate::buffer::{buffer_bytes, buffer_from};

verus! {

/// The terminator that ends every header and every payload.
pub open spec fn crlf() -> Seq<u8> {
    seq![13u8, 10u8]
}

/// The decimal digits of `n`, most significant first.
pub open spec fn decimal(n: nat) -> Seq<u8>
    decreases n,
{
    if n < 10 {
        seq![(48 + n) as u8]
    } else {
        decimal(n / 10).push((48 + n % 10) as u8)
    }
}

/// The decimal form of `n`, with a leading minus sign when it is negative.
pub open spec fn signed_decimal(n: int) -> Seq<u8> {
    if n < 0 {
        seq![45u8] + decimal((-n) as nat)
    } else {
        decimal(n as nat)
    }
}

/// One bulk string: `$`, the byte length of `a`, CR LF, `a`, CR LF.
pub open spec fn bulk(a: Seq<u8>) -> Seq<u8> {
    seq![36u8] + decimal(a.len()) + crlf() + a + crlf()
}

/// The bulk strings of `args`, one after another.
pub open spec fn bulks(args: Seq<Seq<u8>>) -> Seq<u8>
    decreases args.len(),
{
    if args.len() == 0 {
        Seq::empty()
    } else {
        bulks(args.drop_last()) + bulk(args.last())
    }
}

/// An array of bulk strings: `*`, the number of arguments, CR LF, then
/// each argument as a bulk string.
pub open spec fn array_frame(args: Seq<Seq<u8>>) -> Seq<u8> {
    seq![42u8] + decimal(args.len()) + crlf() + bulks(args)
}

/// The bytes of a text, as UTF-8.
pub open spec fn text_bytes(s: Seq<char>) -> Seq<u8> {
    encode_utf8(s)
}

/// Appends the decimal digits of `n`.
fn push_decimal(out: &mut Vec<u8>, n: u64)
    ensures
        final(out)@ == old(out)@ + decimal(n as nat),
    decreases n,
{
    if n >= 10 {
        push_decimal(out, n / 10);
    }
    out.push(48 + (n % 10) as u8);
    assert(out@ =~= old(out)@ + decimal(n as nat));
}

/// The decimal form of a signed number.
fn signed_digits(n: i64) -> (r: Vec<u8>)
    ensures
        r@ == signed_decimal(n as int),
{
    let mut out: Vec<u8> = Vec::new();
    if n < 0 {
        out.push(45);
        let m: u64 = if n == i64::MIN {
            9223372036854775808u64
        } else {
            (-n) as u64
        };
        push_decimal(&mut out, m);
    } else {
        push_decimal(&mut out, n as u64);
    }
    assert(out@ =~= signed_decimal(n as int));
    out
}

/// The decimal form of an unsigned number.
fn unsigned_digits(n: u64) -> (r: Vec<u8>)
    ensures
        r@ == decimal(n as nat),
{
    let mut out: Vec<u8> = Vec::new();
    push_decimal(&mut out, n);
    assert(out@ =~= decimal(n as nat));
    out
}

/// Appends `a` framed as one bulk string.
fn push_bulk(out: &mut Vec<u8>, a: &[u8])
    ensures
        final(out)@ == old(out)@ + bulk(a@),
{
    out.push(36);
    push_decimal(out, a.len() as u64);
    out.push(13);
    out.push(10);
    out.extend_from_slice(a);
    out.push(13);
    out.push(10);
    assert(final(out)@ =~= old(out)@ + bulk(a@));
}

/// Frames `args` as one array of bulk strings.
fn frame_arguments(args: &Vec<Vec<u8>>) -> (r: Vec<u8>)
    ensures
        r@ == array_frame(args@.map_values(|a: Vec<u8>| a@)),
{
    let ghost parts = args@.map_values(|a: Vec<u8>| a@);
    let mut out: Vec<u8> = Vec::new();
    out.push(42);
    push_decimal(&mut out, args.len() as u64);
    out.push(13);
    out.push(10);
    let ghost header = out@;
    assert(header + bulks(parts.subrange(0, 0)) =~= header);
    let mut i: usize = 0;
    while i < args.len()
        invariant
            i <= args@.len(),
            parts == args@.map_values(|a: Vec<u8>| a@),
            header == seq![42u8] + decimal(args@.len()) + crlf(),
            out@ == header + bulks(parts.subrange(0, i as int)),
        decreases args.len() - i,
    {
        push_bulk(&mut out, args[i].as_slice());
        proof {
            assert(parts.subrange(0, i + 1).drop_last() =~= parts.subrange(0, i as int));
            assert(out@ =~= header + bulks(parts.subrange(0, i + 1)));
        }
        i = i + 1;
    }
    assert(parts.subrange(0, i as int) =~= parts);
    assert(out@ =~= array_frame(parts));
    out
}


/// A copy of the UTF-8 bytes of `s`.
fn bytes_of(s: &String) -> (r: Vec<u8>)
    ensures
        r@ == text_bytes(s@),
{
    let b = s.as_str().as_bytes();
    let mut v: Vec<u8> = Vec::new();
    v.extend_from_slice(b);
    assert(v@ =~= text_bytes(s@));
    v
}

/// The condition under which `SET` writes its key.
#[derive(Debug, Clone, Copy, PartialEq, Eq, Structural)]
pub enum ExistOP {
    /// Only when the key does not exist yet.
    NX,
    /// Only when the key already exists.
    XX,
}

/// A byte with its ASCII capital letter, if it is one, made lower case.
pub open spec fn ascii_lower(c: u8) -> u8 {
    if 65 <= c <= 90 {
        (c + 32) as u8
    } else {
        c
    }
}

/// `s` spells the two-letter word `a b` (both lower case) in any case.
pub open spec fn spells_pair(s: Seq<u8>, a: u8, b: u8) -> bool {
    s.len() == 2 && ascii_lower(s[0]) == a && ascii_lower(s[1]) == b
}

/// The byte with an ASCII capital letter made lower case.
fn lower_byte(c: u8) -> (r: u8)
    ensures
        r == ascii_lower(c),
{
    if 65 <= c && c <= 90 {
        c + 32
    } else {
        c
    }
}

impl ExistOP {
    /// Reads the flag from its name, `nx` or `xx`, in any case.
    pub fn parse(s: &str) -> (r: Result<ExistOP, String>)
        ensures
            spells_pair(s.spec_bytes(), 110, 120) <==> r == Ok::<ExistOP, String>(ExistOP::NX),
            spells_pair(s.spec_bytes(), 120, 120) <==> r == Ok::<ExistOP, String>(ExistOP::XX),
            r is Err <==> !spells_pair(s.spec_bytes(), 110, 120) && !spells_pair(
                s.spec_bytes(),
                120,
                120,
            ),
    {
        let b = s.as_bytes();
        if b.len() == 2 {
            let first = lower_byte(b[0]);
            let second = lower_byte(b[1]);
            if first == 110 && second == 120 {
                return Ok(ExistOP::NX);
            }
            if first == 120 && second == 120 {
                return Ok(ExistOP::XX);
            }
        }
        Err(String::from_str("unexpected string, 'NX' or 'XX' expected"))
    }
}

impl std::str::FromStr for ExistOP {
    type Err = String;

    fn from_str(s: &str) -> Result<Self, Self::Err> {
        ExistOP::parse(s)
    }
}

/// A command to send to the server.
#[derive(Debug, Clone)]
pub enum Commands {
    /// Sets a key to a string value, with an optional expiry in seconds
    /// (`ex`) or milliseconds (`px`) and optional existence conditions.
    SetKey { key: String, value: String, ex: Option<u32>, px: Option<u32>, nx: bool, xx: bool },
    /// Reads the string value of a key.
    Get { key: String },
    /// Adds one to the integer value of a key.
    Incr { key: String },
    /// Reads the elements of a list from `start` to `stop`; negative
    /// positions count from the end.
    Lrange { key: String, start: i64, stop: i64 },
    /// Asks whether the server is alive.
    Ping,
}

/// The arguments that an optional flag with a number adds.
pub open spec fn numbered_flag(name: Seq<u8>, n: Option<u32>) -> Seq<Seq<u8>> {
    match n {
        Some(v) => seq![name, decimal(v as nat)],
        None => Seq::empty(),
    }
}

/// The argument that an optional flag adds.
pub open spec fn bare_flag(name: Seq<u8>, present: bool) -> Seq<Seq<u8>> {
    if present {
        seq![name]
    } else {
        Seq::empty()
    }
}

impl Commands {
    /// The command's arguments in the order they are sent: its name, its
    /// positional arguments, then the flags `EX`, `PX`, `NX`, `XX`.
    pub open spec fn arguments(&self) -> Seq<Seq<u8>> {
        match self {
            Commands::SetKey { key, value, ex, px, nx, xx } => seq![
                seq![83u8, 69u8, 84u8],
                text_bytes(key@),
                text_bytes(value@),
            ] + numbered_flag(seq![69u8, 88u8], *ex) + numbered_flag(seq![80u8, 88u8], *px)
                + bare_flag(seq![78u8, 88u8], *nx) + bare_flag(seq![88u8, 88u8], *xx),
            Commands::Get { key } => seq![seq![71u8, 69u8, 84u8], text_bytes(key@)],
            Commands::Incr { key } => seq![seq![73u8, 78u8, 67u8, 82u8], text_bytes(key@)],
            Commands::Lrange { key, start, stop } => seq![
                seq![76u8, 82u8, 65u8, 78u8, 71u8, 69u8],
                text_bytes(key@),
                signed_decimal(*start as int),
                signed_decimal(*stop as int),
            ],
            Commands::Ping => seq![seq![80u8, 73u8, 78u8, 71u8]],
        }
    }

    /// The bytes that frame this command.
    pub open spec fn frame(&self) -> Seq<u8> {
        array_frame(self.arguments())
    }

    /// The arguments, as byte strings, in the order of `arguments`.
    fn argument_list(&self) -> (r: Vec<Vec<u8>>)
        ensures
            r@.map_values(|a: Vec<u8>| a@) == self.arguments(),
    {
        let mut args: Vec<Vec<u8>> = Vec::new();
        match self {
            Commands::SetKey { key, value, ex, px, nx, xx } => {
                args.push(vec![83u8, 69u8, 84u8]);
                args.push(bytes_of(key));
                args.push(bytes_of(value));
                if let Some(v) = ex {
                    args.push(vec![69u8, 88u8]);
                    args.push(unsigned_digits(*v as u64));
                }
                if let Some(v) = px {
                    args.push(vec![80u8, 88u8]);
                    args.push(unsigned_digits(*v as u64));
                }
                if *nx {
                    args.push(vec![78u8, 88u8]);
                }
                if *xx {
                    args.push(vec![88u8, 88u8]);
                }
            },
            Commands::Get { key } => {
                args.push(vec![71u8, 69u8, 84u8]);
                args.push(bytes_of(key));
            },
            Commands::Incr { key } => {
                args.push(vec![73u8, 78u8, 67u8, 82u8]);
                args.push(bytes_of(key));
            },
            Commands::Lrange { key, start, stop } => {
                args.push(vec![76u8, 82u8, 65u8, 78u8, 71u8, 69u8]);
                args.push(bytes_of(key));
                args.push(signed_digits(*start));
                args.push(signed_digits(*stop));
            },
            Commands::Ping => {
                args.push(vec![80u8, 73u8, 78u8, 71u8]);
            },
        }
        assert(args@.map_values(|a: Vec<u8>| a@) =~= self.arguments());
        args
    }

    /// Frames the command as an array of bulk strings: the number of
    /// arguments, then each argument preceded by its length in bytes.
    pub fn encode(&self) -> (r: Vec<u8>)
        ensures
            r@ == self.frame(),
    {
        frame_arguments(&self.argument_list())
    }

    /// Frames the command into a buffer ready to be written.
    pub fn to_bytes(&self) -> (r: bytes::BytesMut)
        ensures
            buffer_bytes(r) == self.frame(),
    {
        let v = self.encode();
        buffer_from(v.as_slice())
    }
}

} // verus!

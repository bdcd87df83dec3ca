//! Encoded commands read back through the decoder.
use vstd::prelude::*;
use vstd::utf8::*;

use crate::command::{
    array_frame, bare_flag, bulk, bulks, crlf, decimal, numbered_flag, signed_decimal, text_bytes,
    Commands,
};
use crate::reply::{
    all_digits, digits_value, is_digit, line_end, lemma_line_end_unique, parse_items,
    parse_value, decode_value, is_line_break, RespValue, CR, LF, MAX_NESTING,
};

verus! {

/// What a run of bulk strings decodes to, one text per argument.
pub open spec fn bulk_values(args: Seq<Seq<u8>>) -> Seq<RespValue> {
    args.map_values(|a: Seq<u8>| RespValue::BulkString(Some(decode_utf8(a))))
}

/// Decimal digits read back as the number they were written from.
pub proof fn lemma_decimal_reads_back(n: nat)
    ensures
        all_digits(decimal(n)),
        digits_value(decimal(n)) == n,
    decreases n,
{
    if n >= 10 {
        lemma_decimal_reads_back(n / 10);
        let d = decimal(n);
        assert(d.drop_last() =~= decimal(n / 10));
        assert(d.last() == (48 + n % 10) as u8);
        assert((n / 10) * 10 + n % 10 == n) by (nonlinear_arith);
        assert(digits_value(d) == digits_value(decimal(n / 10)) * 10 + n % 10);
        assert forall|i: int| 0 <= i < d.len() implies is_digit(#[trigger] d[i]) by {
            if i < d.len() - 1 {
                assert(d[i] == decimal(n / 10)[i]);
            }
        }
    } else {
        assert(decimal(n).drop_last() =~= Seq::<u8>::empty());
        assert(digits_value(decimal(n)) == digits_value(Seq::<u8>::empty()) * 10 + n);
    }
}

/// A header line made of digits ends right after them.
proof fn lemma_digit_line(b: Seq<u8>, start: int, d: Seq<u8>)
    requires
        all_digits(d),
        0 <= start,
        start + d.len() + 2 <= b.len(),
        b.subrange(start, start + d.len()) == d,
        b[start + d.len()] == CR,
        b[start + d.len() + 1] == LF,
    ensures
        line_end(b, start) == Some(start + d.len()),
        b.subrange(start, start + d.len()) == d,
{
    assert forall|k: int| start <= k < start + d.len() implies !is_line_break(#[trigger] b[k]) by {
        assert(b[k] == b.subrange(start, start + d.len())[k - start]);
        assert(is_digit(d[k - start]));
    }
    lemma_line_end_unique(b, start, start + d.len());
}

/// A bulk string whose payload is text decodes to that text.
proof fn lemma_bulk_decodes(b: Seq<u8>, p: int, a: Seq<u8>, depth: nat)
    requires
        valid_utf8(a),
        0 <= p,
        p + bulk(a).len() <= b.len(),
        b.subrange(p, p + bulk(a).len()) == bulk(a),
    ensures
        parse_value(b, p, depth) == Some(
            (RespValue::BulkString(Some(decode_utf8(a))), p + bulk(a).len()),
        ),
{
    let d = decimal(a.len());
    let w = bulk(a);
    lemma_decimal_reads_back(a.len());
    let e: int = p + 1 + d.len();
    let next = e + 2;
    assert(w.len() == d.len() + a.len() + 5);
    assert forall|k: int| 0 <= k < w.len() implies b[p + k] == #[trigger] w[k] by {
        assert(b.subrange(p, p + w.len())[k] == b[p + k]);
    }
    assert(b[p] == w[0]);
    assert(b.subrange(p + 1, e) =~= d) by {
        assert forall|k: int| 0 <= k < d.len() implies b.subrange(p + 1, e)[k] == d[k] by {
            assert(b[p + 1 + k] == w[1 + k]);
        }
    }
    assert(b[e] == w[1 + d.len() as int]);
    assert(b[e + 1] == w[2 + d.len() as int]);
    lemma_digit_line(b, p + 1, d);
    assert(b.subrange(p + 1, e) != seq![45u8, 49u8]) by {
        if b.subrange(p + 1, e) =~= seq![45u8, 49u8] {
            assert(is_digit(d[0]));
        }
    }
    let end: int = next + a.len();
    assert(b.subrange(next, end) =~= a) by {
        assert forall|k: int| 0 <= k < a.len() implies b.subrange(next, end)[k] == a[k] by {
            assert(b[next + k] == w[3 + d.len() + k]);
        }
    }
    assert(b[end] == w[3 + d.len() as int + a.len() as int]);
    assert(b[end + 1] == w[4 + d.len() as int + a.len() as int]);
}

/// A run of bulk strings decodes to their texts, one after another.
proof fn lemma_bulks_decode(b: Seq<u8>, start: int, args: Seq<Seq<u8>>, depth: nat)
    requires
        forall|i: int| 0 <= i < args.len() ==> valid_utf8(#[trigger] args[i]),
        0 <= start,
        start + bulks(args).len() <= b.len(),
        b.subrange(start, start + bulks(args).len()) == bulks(args),
    ensures
        parse_items(b, start, args.len(), depth) == Some(
            (bulk_values(args), start + bulks(args).len()),
        ),
    decreases args.len(),
{
    if args.len() == 0 {
        assert(bulk_values(args) =~= Seq::<RespValue>::empty());
    } else {
        let front = args.drop_last();
        let last = args.last();
        let m: int = start + bulks(front).len();
        assert(bulks(args) == bulks(front) + bulk(last));
        assert(b.subrange(start, m) =~= bulks(front)) by {
            assert forall|k: int| 0 <= k < bulks(front).len() implies b.subrange(start, m)[k]
                == bulks(front)[k] by {
                assert(b.subrange(start, start + bulks(args).len())[k] == bulks(args)[k]);
            }
        }
        assert(b.subrange(m, m + bulk(last).len()) =~= bulk(last)) by {
            assert forall|k: int| 0 <= k < bulk(last).len() implies b.subrange(
                m,
                m + bulk(last).len(),
            )[k] == bulk(last)[k] by {
                assert(b.subrange(start, start + bulks(args).len())[bulks(front).len() + k]
                    == bulks(args)[bulks(front).len() + k]);
            }
        }
        assert forall|i: int| 0 <= i < front.len() implies valid_utf8(#[trigger] front[i]) by {
            assert(front[i] == args[i]);
        }
        assert(valid_utf8(args[args.len() - 1]));
        lemma_bulks_decode(b, start, front, depth);
        lemma_bulk_decodes(b, m, last, depth);
        assert(bulk_values(front).push(RespValue::BulkString(Some(decode_utf8(last))))
            =~= bulk_values(args));
    }
}

/// An array of bulk strings decodes to the texts of its arguments: the count
/// in its header is the number of bulk strings that follow, and each length
/// prefix is the byte length of the payload after it.
pub proof fn lemma_array_frame_decodes(args: Seq<Seq<u8>>)
    requires
        forall|i: int| 0 <= i < args.len() ==> valid_utf8(#[trigger] args[i]),
    ensures
        decode_value(array_frame(args)) == RespValue::Array(bulk_values(args)),
{
    let b = array_frame(args);
    let d = decimal(args.len());
    lemma_decimal_reads_back(args.len());
    let e: int = 1 + d.len() as int;
    assert(b.subrange(1, e) =~= d);
    assert(b[e] == CR && b[e + 1] == LF) by {
        assert(b[e] == (seq![42u8] + d + crlf())[e]);
        assert(b[e + 1] == (seq![42u8] + d + crlf())[e + 1]);
    }
    lemma_digit_line(b, 1, d);
    assert(b.subrange(e + 2, e + 2 + bulks(args).len()) =~= bulks(args));
    lemma_bulks_decode(b, e + 2, args, (MAX_NESTING - 1) as nat);
}

/// Every argument in `args` is valid UTF-8.
pub open spec fn all_text(args: Seq<Seq<u8>>) -> bool {
    forall|i: int| 0 <= i < args.len() ==> valid_utf8(#[trigger] args[i])
}

/// Bytes below 0x80 are valid UTF-8 on their own.
proof fn lemma_ascii_is_text(s: Seq<u8>)
    requires
        forall|i: int| 0 <= i < s.len() ==> #[trigger] s[i] <= 0x7f,
    ensures
        valid_utf8(s),
    decreases s.len(),
{
    if s.len() > 0 {
        let b0 = s[0];
        assert((b0 & 0x7f) <= 0x7f) by (bit_vector);
        let rest = s.subrange(1, s.len() as int);
        assert forall|i: int| 0 <= i < rest.len() implies #[trigger] rest[i] <= 0x7f by {
            assert(rest[i] == s[i + 1]);
        }
        lemma_ascii_is_text(rest);
        assert(pop_first_scalar(s) =~= rest);
    }
}

proof fn lemma_decimal_is_text(n: nat)
    ensures
        valid_utf8(decimal(n)),
{
    lemma_decimal_reads_back(n);
    let d = decimal(n);
    assert forall|i: int| 0 <= i < d.len() implies #[trigger] d[i] <= 0x7f by {
        assert(is_digit(d[i]));
    }
    lemma_ascii_is_text(d);
}

proof fn lemma_signed_decimal_is_text(n: int)
    ensures
        valid_utf8(signed_decimal(n)),
{
    let m = if n < 0 { (-n) as nat } else { n as nat };
    lemma_decimal_reads_back(m);
    let d = signed_decimal(n);
    assert forall|i: int| 0 <= i < d.len() implies #[trigger] d[i] <= 0x7f by {
        if n < 0 {
            if i > 0 {
                assert(d[i] == decimal(m)[i - 1]);
                assert(is_digit(decimal(m)[i - 1]));
            }
        } else {
            assert(is_digit(decimal(m)[i]));
        }
    }
    lemma_ascii_is_text(d);
}

proof fn lemma_all_text_concat(a: Seq<Seq<u8>>, b: Seq<Seq<u8>>)
    requires
        all_text(a),
        all_text(b),
    ensures
        all_text(a + b),
{
    assert forall|i: int| 0 <= i < (a + b).len() implies valid_utf8(#[trigger] (a + b)[i]) by {
        if i < a.len() {
            assert((a + b)[i] == a[i]);
        } else {
            assert((a + b)[i] == b[i - a.len()]);
        }
    }
}

proof fn lemma_flags_are_text(name: Seq<u8>, n: Option<u32>, present: bool)
    requires
        valid_utf8(name),
    ensures
        all_text(numbered_flag(name, n)),
        all_text(bare_flag(name, present)),
{
    if let Some(v) = n {
        lemma_decimal_is_text(v as nat);
    }
}

/// Every argument of a command is valid UTF-8.
pub proof fn lemma_arguments_are_text(c: Commands)
    ensures
        all_text(c.arguments()),
{
    match c {
        Commands::SetKey { key, value, ex, px, nx, xx } => {
            let set_name = seq![83u8, 69u8, 84u8];
            let ex_name = seq![69u8, 88u8];
            let px_name = seq![80u8, 88u8];
            let nx_name = seq![78u8, 88u8];
            let xx_name = seq![88u8, 88u8];
            lemma_ascii_is_text(set_name);
            lemma_ascii_is_text(ex_name);
            lemma_ascii_is_text(px_name);
            lemma_ascii_is_text(nx_name);
            lemma_ascii_is_text(xx_name);
            encode_utf8_valid_utf8(key@);
            encode_utf8_valid_utf8(value@);
            let head = seq![set_name, text_bytes(key@), text_bytes(value@)];
            assert(all_text(head));
            lemma_flags_are_text(ex_name, ex, nx);
            lemma_flags_are_text(px_name, px, nx);
            lemma_flags_are_text(nx_name, ex, nx);
            lemma_flags_are_text(xx_name, ex, xx);
            let a1 = head + numbered_flag(ex_name, ex);
            lemma_all_text_concat(head, numbered_flag(ex_name, ex));
            let a2 = a1 + numbered_flag(px_name, px);
            lemma_all_text_concat(a1, numbered_flag(px_name, px));
            let a3 = a2 + bare_flag(nx_name, nx);
            lemma_all_text_concat(a2, bare_flag(nx_name, nx));
            lemma_all_text_concat(a3, bare_flag(xx_name, xx));
        },
        Commands::Get { key } => {
            lemma_ascii_is_text(seq![71u8, 69u8, 84u8]);
            encode_utf8_valid_utf8(key@);
        },
        Commands::Incr { key } => {
            lemma_ascii_is_text(seq![73u8, 78u8, 67u8, 82u8]);
            encode_utf8_valid_utf8(key@);
        },
        Commands::Lrange { key, start, stop } => {
            lemma_ascii_is_text(seq![76u8, 82u8, 65u8, 78u8, 71u8, 69u8]);
            encode_utf8_valid_utf8(key@);
            lemma_signed_decimal_is_text(start as int);
            lemma_signed_decimal_is_text(stop as int);
        },
        Commands::Ping => {
            lemma_ascii_is_text(seq![80u8, 73u8, 78u8, 71u8]);
        },
    }
}

/// A framed command decodes to an array that holds each of its arguments as
/// a bulk string, in order.
pub proof fn lemma_command_frame_decodes(c: Commands)
    ensures
        decode_value(c.frame()) == RespValue::Array(bulk_values(c.arguments())),
{
    lemma_arguments_are_text(c);
    lemma_array_frame_decodes(c.arguments());
}

} // verus!

//! The wire encoding: one metric point as one JSON object, fields in the
//! point's (sorted) order, text escaped, integers in decimal.
//!
//! The encoding is defined over byte sequences; text contributes its UTF-8
//! bytes, in which every byte above 0x7f belongs to a multi-byte character
//! and never needs escaping.

use vstd::prelude::*;
use vstd::string::StrSliceExecFns;
use vstd::string::StringSliceAdditionalSpecFns;

use crate::point::Point;
use crate::value::Value;
use crate::value::ValueView;

verus! {

/// The byte for a hexadecimal digit, lower case.
pub open spec fn hex_digit(n: u8) -> u8 {
    if n < 10 {
        (48 + n) as u8
    } else {
        (87 + n) as u8
    }
}

/// How one byte of text appears inside a JSON string literal.
pub open spec fn esc_byte(b: u8) -> Seq<u8> {
    if b == 34 {  // quotation mark
        seq![92u8, 34u8]
    } else if b == 92 {  // backslash
        seq![92u8, 92u8]
    } else if b == 10 {  // line feed
        seq![92u8, 110u8]
    } else if b == 13 {  // carriage return
        seq![92u8, 114u8]
    } else if b == 9 {  // tab
        seq![92u8, 116u8]
    } else if b < 32 {  // other control bytes, as \u00..
        seq![92u8, 117u8, 48u8, 48u8, hex_digit(b / 16), hex_digit(b % 16)]
    } else {
        seq![b]
    }
}

/// A whole text, escaped byte for byte.
pub open spec fn esc_bytes(s: Seq<u8>) -> Seq<u8>
    decreases s.len(),
{
    if s.len() == 0 {
        Seq::empty()
    } else {
        esc_byte(s[0]) + esc_bytes(s.drop_first())
    }
}

proof fn lemma_esc_bytes_push(u: Seq<u8>, x: u8)
    ensures
        esc_bytes(u.push(x)) == esc_bytes(u) + esc_byte(x),
    decreases u.len(),
{
    let w = u.push(x);
    assert(w.len() == u.len() + 1);
    if u.len() == 0 {
        assert(w[0] == x);
        assert(w.drop_first() =~= Seq::<u8>::empty());
        assert(esc_bytes(w) == esc_byte(x) + esc_bytes(w.drop_first()));
        assert(esc_bytes(w.drop_first()) == Seq::<u8>::empty());
        assert(esc_bytes(u) == Seq::<u8>::empty());
        assert(esc_bytes(w) =~= esc_bytes(u) + esc_byte(x));
    } else {
        assert(w[0] == u[0]);
        assert(w.drop_first() =~= u.drop_first().push(x));
        lemma_esc_bytes_push(u.drop_first(), x);
        assert(esc_bytes(w) == esc_byte(u[0]) + esc_bytes(w.drop_first()));
        assert(esc_bytes(w.drop_first()) == esc_bytes(u.drop_first()) + esc_byte(x));
        assert(esc_bytes(u) == esc_byte(u[0]) + esc_bytes(u.drop_first()));
        assert(esc_bytes(w) =~= esc_bytes(u) + esc_byte(x));
    }
}

/// A JSON string literal: quote, escaped UTF-8 bytes, quote.
pub open spec fn json_str(s: Seq<char>) -> Seq<u8> {
    seq![34u8] + esc_bytes(vstd::utf8::encode_utf8(s)) + seq![34u8]
}

/// The decimal digits of a natural number, most significant first.
pub open spec fn dec_digits(n: nat) -> Seq<u8>
    decreases n,
{
    if n < 10 {
        seq![(48 + n) as u8]
    } else {
        dec_digits(n / 10) + seq![(48 + n % 10) as u8]
    }
}

/// A JSON integer: decimal digits, with a leading minus when negative.
pub open spec fn dec_int(i: int) -> Seq<u8> {
    if i >= 0 {
        dec_digits(i as nat)
    } else {
        seq![45u8] + dec_digits((-i) as nat)
    }
}

/// How one field value appears on the wire.
pub open spec fn json_value(v: ValueView) -> Seq<u8> {
    match v {
        ValueView::Text(s) => json_str(s),
        ValueView::Int(i) => dec_int(i),
        ValueView::Bool(b) => if b {
            seq![116u8, 114u8, 117u8, 101u8]  // true
        } else {
            seq![102u8, 97u8, 108u8, 115u8, 101u8]  // false
        },
    }
}

/// One `"name":value` member.
pub open spec fn json_member(e: (Seq<char>, ValueView)) -> Seq<u8> {
    json_str(e.0) + seq![58u8] + json_value(e.1)
}

/// The members of an object, comma separated, in the order given.
pub open spec fn json_members(es: Seq<(Seq<char>, ValueView)>) -> Seq<u8>
    decreases es.len(),
{
    if es.len() == 0 {
        Seq::empty()
    } else if es.len() == 1 {
        json_member(es[0])
    } else {
        json_members(es.drop_last()) + seq![44u8] + json_member(es.last())
    }
}

/// A whole point: one JSON object holding its fields in order.
pub open spec fn json_point(es: Seq<(Seq<char>, ValueView)>) -> Seq<u8> {
    seq![123u8] + json_members(es) + seq![125u8]
}

/// The byte for a hexadecimal digit, lower case.
fn hex_digit_ex(n: u8) -> (r: u8)
    requires
        n < 16,
    ensures
        r == hex_digit(n),
{
    if n < 10 {
        48 + n
    } else {
        87 + n
    }
}

/// Appends the escaped UTF-8 bytes of `s`.
fn push_escaped(out: &mut Vec<u8>, s: &str)
    ensures
        final(out)@ == old(out)@ + esc_bytes(s.spec_bytes()),
{
    let bytes = s.as_bytes_vec();
    let n: usize = bytes.len();
    let mut i: usize = 0;
    proof {
        assert(bytes@.take(0) =~= Seq::<u8>::empty());
        assert(out@ =~= out@ + esc_bytes(bytes@.take(0)));
    }
    while i < n
        invariant
            i <= n,
            n == bytes@.len(),
            bytes@ == s.spec_bytes(),
            out@ == old(out)@ + esc_bytes(bytes@.take(i as int)),
        decreases n - i,
    {
        let b: u8 = bytes[i];
        if b == 34 {
            out.push(92);
            out.push(34);
        } else if b == 92 {
            out.push(92);
            out.push(92);
        } else if b == 10 {
            out.push(92);
            out.push(110);
        } else if b == 13 {
            out.push(92);
            out.push(114);
        } else if b == 9 {
            out.push(92);
            out.push(116);
        } else if b < 32 {
            out.push(92);
            out.push(117);
            out.push(48);
            out.push(48);
            out.push(hex_digit_ex(b / 16));
            out.push(hex_digit_ex(b % 16));
        } else {
            out.push(b);
        }
        proof {
            lemma_esc_bytes_push(bytes@.take(i as int), b);
            assert(bytes@.take(i as int).push(b) =~= bytes@.take(i + 1));
            assert(out@ =~= old(out)@ + esc_bytes(bytes@.take(i + 1)));
        }
        i += 1;
    }
    proof {
        assert(bytes@.take(n as int) =~= bytes@);
    }
}

/// Appends the decimal digits of `n`.
pub(crate) fn push_dec_u64(out: &mut Vec<u8>, n: u64)
    ensures
        final(out)@ == old(out)@ + dec_digits(n as nat),
    decreases n,
{
    if n >= 10 {
        push_dec_u64(out, n / 10);
    }
    out.push(48 + (n % 10) as u8);
    proof {
        if n >= 10 {
            assert(out@ =~= old(out)@ + dec_digits(n as nat));
        } else {
            assert(out@ =~= old(out)@ + dec_digits(n as nat));
        }
    }
}

/// Appends a signed integer in decimal.
fn push_dec_i64(out: &mut Vec<u8>, v: i64)
    ensures
        final(out)@ == old(out)@ + dec_int(v as int),
{
    if v >= 0 {
        push_dec_u64(out, v as u64);
    } else {
        out.push(45);
        let wide: i128 = -(v as i128);
        proof {
            assert(0 < wide <= 0x8000_0000_0000_0000i128);
        }
        let m: u64 = wide as u64;
        push_dec_u64(out, m);
        proof {
            assert(m as nat == (-(v as int)) as nat);
            assert(out@ =~= old(out)@ + dec_int(v as int));
        }
    }
}

/// Appends one field value.
fn push_json_value(out: &mut Vec<u8>, v: &Value)
    ensures
        final(out)@ == old(out)@ + json_value(v@),
{
    match v {
        Value::Text(s) => {
            out.push(34);
            push_escaped(out, s.as_str());
            out.push(34);
            proof {
                assert(out@ =~= old(out)@ + json_value(v@));
            }
        },
        Value::Int(i) => {
            push_dec_i64(out, *i);
        },
        Value::Bool(b) => {
            if *b {
                out.push(116);
                out.push(114);
                out.push(117);
                out.push(101);
            } else {
                out.push(102);
                out.push(97);
                out.push(108);
                out.push(115);
                out.push(101);
            }
            proof {
                assert(out@ =~= old(out)@ + json_value(v@));
            }
        },
    }
}

/// Encodes a point as its one JSON object, fields in the point's order.
pub fn encode_point(p: &Point) -> (r: Vec<u8>)
    ensures
        r@ == json_point(p@),
{
    let mut out: Vec<u8> = Vec::new();
    out.push(123);
    let n: usize = p.len();
    let mut i: usize = 0;
    proof {
        assert(json_members(p@.take(0)) =~= Seq::<u8>::empty());
        assert(out@ =~= seq![123u8] + json_members(p@.take(0)));
    }
    while i < n
        invariant
            i <= n,
            n == p@.len(),
            out@ == seq![123u8] + json_members(p@.take(i as int)),
        decreases n - i,
    {
        if i > 0 {
            out.push(44);
        }
        out.push(34);
        push_escaped(&mut out, p.key_ref(i).as_str());
        out.push(34);
        out.push(58);
        push_json_value(&mut out, p.value_ref(i));
        proof {
            assert(p@.take(i + 1).drop_last() =~= p@.take(i as int));
            assert(p@.take(i + 1).last() == p@[i as int]);
            assert(out@ =~= seq![123u8] + json_members(p@.take(i + 1)));
        }
        i += 1;
    }
    out.push(125);
    proof {
        assert(p@.take(n as int) =~= p@);
        assert(out@ =~= json_point(p@));
    }
    out
}

} // verus!

//! The HTTP request that carries one point to an HTTP destination: a POST
//! of the encoded point, fire and forget.

use vstd::prelude::*;
use vstd::string::StrSliceExecFns;
use vstd::string::StringSliceAdditionalSpecFns;

use crate::dest::DestView;
use crate::dest::Destination;
use crate::json::dec_digits;
use crate::json::push_dec_u64;

verus! {

/// The request head for posting `body_len` bytes to a destination: the
/// request line with the destination's path (`/` when none was written),
/// the host header, and the framing headers, each line ended `\r\n`, with
/// the blank line that separates the head from the body.
pub open spec fn http_head_bytes(d: DestView, body_len: int) -> Seq<u8> {
    "POST ".spec_bytes() + (if d.path.len() == 0 {
        seq![47u8]
    } else {
        d.path
    }) + " HTTP/1.1\r\nHost: ".spec_bytes() + d.host
        + "\r\nContent-Type: application/json\r\nContent-Length: ".spec_bytes() + dec_digits(
        body_len as nat,
    ) + "\r\nConnection: close\r\n\r\n".spec_bytes()
}

/// Appends the UTF-8 bytes of `s`.
fn push_str_bytes(out: &mut Vec<u8>, s: &str)
    ensures
        final(out)@ == old(out)@ + s.spec_bytes(),
{
    let bytes = s.as_bytes_vec();
    let n: usize = bytes.len();
    let mut i: usize = 0;
    proof {
        assert(out@ =~= out@ + bytes@.take(0));
    }
    while i < n
        invariant
            i <= n,
            n == bytes@.len(),
            bytes@ == s.spec_bytes(),
            out@ == old(out)@ + bytes@.take(i as int),
        decreases n - i,
    {
        out.push(bytes[i]);
        proof {
            assert(out@ =~= old(out)@ + bytes@.take(i + 1));
        }
        i += 1;
    }
    proof {
        assert(bytes@.take(n as int) =~= bytes@);
    }
}

/// Appends a copy of `v`.
fn push_bytes(out: &mut Vec<u8>, v: &Vec<u8>)
    ensures
        final(out)@ == old(out)@ + v@,
{
    let n: usize = v.len();
    let mut i: usize = 0;
    proof {
        assert(out@ =~= out@ + v@.take(0));
    }
    while i < n
        invariant
            i <= n,
            n == v@.len(),
            out@ == old(out)@ + v@.take(i as int),
        decreases n - i,
    {
        out.push(v[i]);
        proof {
            assert(out@ =~= old(out)@ + v@.take(i + 1));
        }
        i += 1;
    }
    proof {
        assert(v@.take(n as int) =~= v@);
    }
}

/// Builds the request head for posting a body of `body_len` bytes to an
/// HTTP destination.
pub fn http_request_head(d: &Destination, body_len: usize) -> (r: Vec<u8>)
    ensures
        r@ == http_head_bytes(d@, body_len as int),
{
    let mut out: Vec<u8> = Vec::new();
    push_str_bytes(&mut out, "POST ");
    if d.path.len() == 0 {
        out.push(47);
    } else {
        push_bytes(&mut out, &d.path);
    }
    push_str_bytes(&mut out, " HTTP/1.1\r\nHost: ");
    push_bytes(&mut out, &d.host);
    push_str_bytes(&mut out, "\r\nContent-Type: application/json\r\nContent-Length: ");
    push_dec_u64(&mut out, body_len as u64);
    push_str_bytes(&mut out, "\r\nConnection: close\r\n\r\n");
    proof {
        assert(out@ =~= http_head_bytes(d@, body_len as int));
    }
    out
}

} // verus!

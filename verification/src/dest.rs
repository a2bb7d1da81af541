//! Destination addresses: `scheme://host[:port][/path]`.
//!
//! Two transports are recognized: `tcp://` (a raw stream, one line per
//! point) and `http://` (one POST per point). The queue scheme `nsq://` is
//! an alias that is rewritten to `http://` before use.

use vstd::prelude::*;
use vstd::string::StrSliceExecFns;
use vstd::string::StringSliceAdditionalSpecFns;
use vstd::string::StringExecFns;

verus! {

/// How bytes reach the collector.
#[derive(Clone, Copy, Debug, PartialEq, Eq, Structural)]
pub enum Transport {
    /// A raw stream socket; each payload is one newline-terminated line.
    Stream,
    /// An HTTP POST per payload; the response is ignored.
    Http,
}

/// A parsed destination. Host and path are kept as the address bytes they
/// were written with.
#[derive(Debug)]
pub struct Destination {
    pub transport: Transport,
    pub host: Vec<u8>,
    pub port: u16,
    pub path: Vec<u8>,
}

/// The mathematical shape of a [`Destination`].
pub struct DestView {
    pub transport: Transport,
    pub host: Seq<u8>,
    pub port: u16,
    pub path: Seq<u8>,
}

impl View for Destination {
    type V = DestView;

    open spec fn view(&self) -> DestView {
        DestView { transport: self.transport, host: self.host@, port: self.port, path: self.path@ }
    }
}

/// The scheme written before a stream address.
pub open spec fn tcp_prefix() -> Seq<u8> {
    seq![116u8, 99u8, 112u8, 58u8, 47u8, 47u8]  // tcp://
}

/// The scheme written before an HTTP address.
pub open spec fn http_prefix() -> Seq<u8> {
    seq![104u8, 116u8, 116u8, 112u8, 58u8, 47u8, 47u8]  // http://
}

/// An ASCII upper-case letter folded to lower case; any other byte as it
/// stands. Schemes are matched without regard to letter case.
pub open spec fn lower_byte(b: u8) -> u8 {
    if 65 <= b <= 90 {
        (b + 32) as u8
    } else {
        b
    }
}

/// A byte sequence folded letter for letter.
pub open spec fn lower_bytes(s: Seq<u8>) -> Seq<u8> {
    s.map_values(|b: u8| lower_byte(b))
}

/// The position of the first occurrence of `b`, or the length if absent.
pub open spec fn find_byte(s: Seq<u8>, b: u8) -> int
    decreases s.len(),
{
    if s.len() == 0 {
        0
    } else if s[0] == b {
        0
    } else {
        1 + find_byte(s.drop_first(), b)
    }
}

proof fn lemma_find_byte(s: Seq<u8>, b: u8)
    ensures
        0 <= find_byte(s, b) <= s.len(),
        find_byte(s, b) < s.len() ==> s[find_byte(s, b)] == b,
        forall|j: int| 0 <= j < find_byte(s, b) ==> s[j] != b,
    decreases s.len(),
{
    if s.len() > 0 && s[0] != b {
        lemma_find_byte(s.drop_first(), b);
        let f = find_byte(s, b);
        assert forall|j: int| 0 <= j < f implies s[j] != b by {
            if j > 0 {
                assert(s.drop_first()[j - 1] != b);
            }
        }
        if f < s.len() {
            assert(s[f] == s.drop_first()[f - 1]);
        }
    }
}

/// Whatever scan found the first occurrence, it agrees with `find_byte`.
proof fn lemma_find_byte_unique(s: Seq<u8>, b: u8, k: int)
    requires
        0 <= k <= s.len(),
        forall|j: int| 0 <= j < k ==> s[j] != b,
        k < s.len() ==> s[k] == b,
    ensures
        find_byte(s, b) == k,
{
    lemma_find_byte(s, b);
    let f = find_byte(s, b);
    if f < k {
        assert(s[f] != b);
        assert(false);
    }
    if k < f {
        assert(s[k] != b);
        assert(false);
    }
}

/// A decimal digit byte.
pub open spec fn is_digit(b: u8) -> bool {
    48 <= b <= 57
}

/// All bytes are decimal digits.
pub open spec fn all_digits(s: Seq<u8>) -> bool {
    forall|i: int| 0 <= i < s.len() ==> is_digit(#[trigger] s[i])
}

/// The number the digit bytes spell, most significant first.
pub open spec fn dec_val(s: Seq<u8>) -> int
    decreases s.len(),
{
    if s.len() == 0 {
        0
    } else {
        dec_val(s.drop_last()) * 10 + s.last() - 48
    }
}

/// A port: one to five digit bytes spelling at most 65535.
pub open spec fn parse_port(s: Seq<u8>) -> Option<u16> {
    if 1 <= s.len() <= 5 && all_digits(s) && dec_val(s) <= 65535 {
        Some(dec_val(s) as u16)
    } else {
        None
    }
}

/// `host[:port][/path]` after a scheme. A stream address must name its
/// port; an HTTP address without one uses 80. The host must be non-empty;
/// a bracketed host (an IPv6 address) is kept without its brackets; the
/// path keeps everything from the first slash on.
pub open spec fn parse_host_port(rest: Seq<u8>, t: Transport) -> Option<DestView> {
    let slash = find_byte(rest, 47);
    let hostport = rest.take(slash);
    let path = rest.skip(slash);
    if hostport.len() > 0 && hostport[0] == 91 {  // open bracket
        let rbr = find_byte(hostport, 93);  // close bracket
        if rbr == hostport.len() {
            None
        } else {
            let host = hostport.subrange(1, rbr);
            let after = hostport.skip(rbr + 1);
            if host.len() == 0 {
                None
            } else if after.len() == 0 {
                if t == Transport::Http {
                    Some(DestView { transport: t, host, port: 80, path })
                } else {
                    None
                }
            } else if after[0] == 58 {  // colon
                match parse_port(after.skip(1)) {
                    Some(p) => Some(DestView { transport: t, host, port: p, path }),
                    None => None,
                }
            } else {
                None
            }
        }
    } else {
        let colon = find_byte(hostport, 58);
        if colon < hostport.len() {
            let host = hostport.take(colon);
            let digits = hostport.skip(colon + 1);
            if host.len() > 0 {
                match parse_port(digits) {
                    Some(p) => Some(DestView { transport: t, host, port: p, path }),
                    None => None,
                }
            } else {
                None
            }
        } else {
            if hostport.len() > 0 && t == Transport::Http {
                Some(DestView { transport: t, host: hostport, port: 80, path })
            } else {
                None
            }
        }
    }
}

/// A whole destination address, as the bytes of its text. The scheme is
/// read without regard to letter case.
pub open spec fn parse_dest(s: Seq<u8>) -> Option<DestView> {
    if s.len() >= 6 && lower_bytes(s.take(6)) == tcp_prefix() {
        parse_host_port(s.skip(6), Transport::Stream)
    } else if s.len() >= 7 && lower_bytes(s.take(7)) == http_prefix() {
        parse_host_port(s.skip(7), Transport::Http)
    } else {
        None
    }
}

/// A fresh copy of `bytes[a..b]`.
fn copy_range(bytes: &Vec<u8>, a: usize, b: usize) -> (r: Vec<u8>)
    requires
        a <= b <= bytes@.len(),
    ensures
        r@ == bytes@.subrange(a as int, b as int),
{
    let mut r: Vec<u8> = Vec::new();
    let mut i: usize = a;
    proof {
        assert(r@ =~= bytes@.subrange(a as int, a as int));
    }
    while i < b
        invariant
            a <= i <= b <= bytes@.len(),
            r@ == bytes@.subrange(a as int, i as int),
        decreases b - i,
    {
        r.push(bytes[i]);
        proof {
            assert(r@ =~= bytes@.subrange(a as int, i + 1));
        }
        i += 1;
    }
    r
}

/// The first position of `stop` in `bytes[from..to]`, or `to` if absent.
fn scan_byte(bytes: &Vec<u8>, from: usize, to: usize, stop: u8) -> (r: usize)
    requires
        from <= to <= bytes@.len(),
    ensures
        from <= r <= to,
        forall|j: int| from <= j < r ==> bytes@[j] != stop,
        r < to ==> bytes@[r as int] == stop,
{
    let mut i: usize = from;
    while i < to && bytes[i] != stop
        invariant
            from <= i <= to <= bytes@.len(),
            forall|j: int| from <= j < i ==> bytes@[j] != stop,
        decreases to - i,
    {
        i += 1;
    }
    i
}

/// Ten to a small power.
pub open spec fn pow10(n: nat) -> int
    decreases n,
{
    if n == 0 {
        1
    } else {
        10 * pow10((n - 1) as nat)
    }
}

proof fn lemma_pow10_bound(k: nat)
    requires
        k <= 4,
    ensures
        pow10(k) <= 10000,
{
    assert(pow10(0) == 1);
    assert(pow10(1) == 10 * pow10(0));
    assert(pow10(2) == 10 * pow10(1));
    assert(pow10(3) == 10 * pow10(2));
    assert(pow10(4) == 10 * pow10(3));
    if k == 0 {
    } else if k == 1 {
    } else if k == 2 {
    } else if k == 3 {
    } else {
        assert(k == 4);
    }
}

/// Reads `bytes[a..b]` as a port number.
fn parse_port_digits(bytes: &Vec<u8>, a: usize, b: usize) -> (r: Option<u16>)
    requires
        a <= b <= bytes@.len(),
    ensures
        r == parse_port(bytes@.subrange(a as int, b as int)),
{
    let ghost digits = bytes@.subrange(a as int, b as int);
    if b - a < 1 || b - a > 5 {
        return None;
    }
    let mut val: u32 = 0;
    let mut i: usize = a;
    proof {
        assert(digits.take(0) =~= Seq::<u8>::empty());
    }
    while i < b
        invariant
            a <= i <= b <= bytes@.len(),
            b - a <= 5,
            digits == bytes@.subrange(a as int, b as int),
            all_digits(digits.take(i - a)),
            val == dec_val(digits.take(i - a)),
            val < pow10((i - a) as nat),
        decreases b - i,
    {
        let d: u8 = bytes[i];
        if d < 48 || d > 57 {
            proof {
                assert(digits[i - a] == d);
                assert(!is_digit(digits[i - a]));
            }
            return None;
        }
        proof {
            lemma_pow10_bound((i - a) as nat);
            assert(val < 10000);
        }
        val = val * 10 + (d - 48) as u32;
        proof {
            let k = (i - a) as nat;
            assert(pow10((k + 1) as nat) == 10 * pow10(k));
            assert(val < pow10((k + 1) as nat));
            assert(digits.take(i - a + 1).drop_last() =~= digits.take(i - a));
            assert(digits.take(i - a + 1).last() == d);
            assert(all_digits(digits.take(i - a + 1))) by {
                assert forall|j: int| 0 <= j < i - a + 1 implies is_digit(
                    #[trigger] digits.take(i - a + 1)[j],
                ) by {
                    if j < i - a {
                        assert(is_digit(digits.take(i - a)[j]));
                    }
                }
            }
        }
        i += 1;
    }
    proof {
        assert(digits.take(b - a) =~= digits);
    }
    if val > 65535 {
        return None;
    }
    Some(val as u16)
}

/// An ASCII upper-case letter folded to lower case.
fn lower_byte_ex(b: u8) -> (r: u8)
    ensures
        r == lower_byte(b),
{
    if b >= 65 && b <= 90 {
        b + 32
    } else {
        b
    }
}

/// Parses a destination address; relates one for one to [`parse_dest`] on
/// the bytes of the text.
#[verifier::rlimit(60)]
pub fn parse_destination(s: &str) -> (r: Option<Destination>)
    ensures
        match r {
            Some(d) => parse_dest(s.spec_bytes()) == Some(d@),
            None => parse_dest(s.spec_bytes()) is None,
        },
{
    let bytes = s.as_bytes_vec();
    let n: usize = bytes.len();
    let is_tcp = n >= 6 && lower_byte_ex(bytes[0]) == 116 && lower_byte_ex(bytes[1]) == 99
        && lower_byte_ex(bytes[2]) == 112 && bytes[3] == 58 && bytes[4] == 47 && bytes[5] == 47;
    let is_http = !is_tcp && n >= 7 && lower_byte_ex(bytes[0]) == 104 && lower_byte_ex(bytes[1])
        == 116 && lower_byte_ex(bytes[2]) == 116 && lower_byte_ex(bytes[3]) == 112 && bytes[4]
        == 58 && bytes[5] == 47 && bytes[6] == 47;
    proof {
        if n >= 6 && lower_bytes(bytes@.take(6)) == tcp_prefix() {
            assert(lower_bytes(bytes@.take(6))[0] == lower_byte(bytes@[0]));
            assert(lower_bytes(bytes@.take(6))[1] == lower_byte(bytes@[1]));
            assert(lower_bytes(bytes@.take(6))[2] == lower_byte(bytes@[2]));
            assert(lower_bytes(bytes@.take(6))[3] == lower_byte(bytes@[3]));
            assert(lower_bytes(bytes@.take(6))[4] == lower_byte(bytes@[4]));
            assert(lower_bytes(bytes@.take(6))[5] == lower_byte(bytes@[5]));
        }
        if is_tcp {
            assert(lower_bytes(bytes@.take(6))[0] == lower_byte(bytes@[0]));
            assert(lower_bytes(bytes@.take(6))[1] == lower_byte(bytes@[1]));
            assert(lower_bytes(bytes@.take(6))[2] == lower_byte(bytes@[2]));
            assert(lower_bytes(bytes@.take(6))[3] == lower_byte(bytes@[3]));
            assert(lower_bytes(bytes@.take(6))[4] == lower_byte(bytes@[4]));
            assert(lower_bytes(bytes@.take(6))[5] == lower_byte(bytes@[5]));
            assert(lower_bytes(bytes@.take(6)) =~= tcp_prefix());
        }
        if n >= 7 && lower_bytes(bytes@.take(7)) == http_prefix() {
            assert(lower_bytes(bytes@.take(7))[0] == lower_byte(bytes@[0]));
            assert(lower_bytes(bytes@.take(7))[1] == lower_byte(bytes@[1]));
            assert(lower_bytes(bytes@.take(7))[2] == lower_byte(bytes@[2]));
            assert(lower_bytes(bytes@.take(7))[3] == lower_byte(bytes@[3]));
            assert(lower_bytes(bytes@.take(7))[4] == lower_byte(bytes@[4]));
            assert(lower_bytes(bytes@.take(7))[5] == lower_byte(bytes@[5]));
            assert(lower_bytes(bytes@.take(7))[6] == lower_byte(bytes@[6]));
        }
        if is_http {
            assert(lower_bytes(bytes@.take(7))[0] == lower_byte(bytes@[0]));
            assert(lower_bytes(bytes@.take(7))[1] == lower_byte(bytes@[1]));
            assert(lower_bytes(bytes@.take(7))[2] == lower_byte(bytes@[2]));
            assert(lower_bytes(bytes@.take(7))[3] == lower_byte(bytes@[3]));
            assert(lower_bytes(bytes@.take(7))[4] == lower_byte(bytes@[4]));
            assert(lower_bytes(bytes@.take(7))[5] == lower_byte(bytes@[5]));
            assert(lower_bytes(bytes@.take(7))[6] == lower_byte(bytes@[6]));
            assert(lower_bytes(bytes@.take(7)) =~= http_prefix());
        }
    }
    if !is_tcp && !is_http {
        return None;
    }
    let off: usize = if is_tcp {
        6
    } else {
        7
    };
    let t: Transport = if is_tcp {
        Transport::Stream
    } else {
        Transport::Http
    };
    let ghost rest = bytes@.skip(off as int);
    let slash = scan_byte(&bytes, off, n, 47);
    proof {
        assert forall|j: int| 0 <= j < slash - off implies rest[j] != 47 by {
            assert(rest[j] == bytes@[off + j]);
        }
        if slash < n {
            assert(rest[slash - off] == bytes@[slash as int]);
        }
        lemma_find_byte_unique(rest, 47, slash - off);
        assert(rest.take(slash - off) =~= bytes@.subrange(off as int, slash as int));
        assert(rest.skip(slash - off) =~= bytes@.subrange(slash as int, n as int));
    }
    let ghost hostport = rest.take(slash - off);
    let path = copy_range(&bytes, slash, n);
    if off < slash && bytes[off] == 91 {
        // a bracketed host: an IPv6 address, kept without its brackets
        proof {
            assert(hostport[0] == bytes@[off as int]);
        }
        let rbr = scan_byte(&bytes, off, slash, 93);
        proof {
            assert forall|j: int| 0 <= j < rbr - off implies hostport[j] != 93 by {
                assert(hostport[j] == bytes@[off + j]);
            }
            if rbr < slash {
                assert(hostport[rbr - off] == bytes@[rbr as int]);
            }
            lemma_find_byte_unique(hostport, 93, rbr - off);
        }
        if rbr == slash {
            // no closing bracket before the path
            return None;
        }
        if rbr == off + 1 {
            // empty host
            return None;
        }
        let host = copy_range(&bytes, off + 1, rbr);
        proof {
            assert(hostport.subrange(1, rbr - off) =~= bytes@.subrange(off + 1, rbr as int));
            assert(hostport.skip(rbr - off + 1) =~= bytes@.subrange(rbr + 1, slash as int));
        }
        if rbr + 1 == slash {
            // bare bracketed host: streams must name a port
            let stream = match t {
                Transport::Stream => true,
                Transport::Http => false,
            };
            if stream {
                return None;
            }
            let d = Destination { transport: t, host, port: 80, path };
            proof {
                assert(parse_dest(s.spec_bytes()) == Some(d@));
            }
            return Some(d);
        }
        if bytes[rbr + 1] != 58 {
            return None;
        }
        proof {
            assert(hostport.skip(rbr - off + 1)[0] == bytes@[rbr + 1]);
            assert(hostport.skip(rbr - off + 1).skip(1) =~= bytes@.subrange(rbr + 2, slash as int));
        }
        let port = parse_port_digits(&bytes, rbr + 2, slash);
        return match port {
            Some(p) => {
                let d = Destination { transport: t, host, port: p, path };
                proof {
                    assert(parse_dest(s.spec_bytes()) == Some(d@));
                }
                Some(d)
            },
            None => None,
        };
    }
    let colon = scan_byte(&bytes, off, slash, 58);
    proof {
        assert forall|j: int| 0 <= j < colon - off implies hostport[j] != 58 by {
            assert(hostport[j] == bytes@[off + j]);
        }
        if colon < slash {
            assert(hostport[colon - off] == bytes@[colon as int]);
        }
        lemma_find_byte_unique(hostport, 58, colon - off);
    }
    if colon < slash {
        // host:port
        if colon == off {
            // empty host
            return None;
        }
        let host = copy_range(&bytes, off, colon);
        proof {
            assert(hostport.take(colon - off) =~= bytes@.subrange(off as int, colon as int));
            assert(hostport.skip(colon - off + 1) =~= bytes@.subrange(colon + 1, slash as int));
        }
        let port = parse_port_digits(&bytes, colon + 1, slash);
        match port {
            Some(p) => {
                let d = Destination { transport: t, host, port: p, path };
                proof {
                    assert(parse_dest(s.spec_bytes()) == Some(d@));
                }
                Some(d)
            },
            None => None,
        }
    } else {
        // bare host: streams must name a port
        let stream = match t {
            Transport::Stream => true,
            Transport::Http => false,
        };
        if stream {
            return None;
        }
        if slash == off {
            // empty host
            return None;
        }
        let host = copy_range(&bytes, off, slash);
        let d = Destination { transport: t, host, port: 80, path };
        proof {
            assert(parse_dest(s.spec_bytes()) == Some(d@));
        }
        Some(d)
    }
}

/// The queue scheme that is an alias for HTTP.
pub open spec fn nsq_scheme() -> Seq<char> {
    "nsq://"@
}

/// What connecting does to an address before storing it: the queue scheme
/// is rewritten to HTTP; any other address is kept as written.
pub open spec fn spec_rewrite_scheme(s: Seq<char>) -> Seq<char> {
    if s.len() >= 6 && s.subrange(0, 6) == nsq_scheme() {
        "http://"@ + s.skip(6)
    } else {
        s
    }
}

/// Rewrites the queue scheme to HTTP; keeps any other address as written.
pub fn rewrite_scheme(target: &str) -> (r: String)
    ensures
        r@ == spec_rewrite_scheme(target@),
{
    let n = target.unicode_len();
    let is_nsq = n >= 6 && target.get_char(0) == 'n' && target.get_char(1) == 's'
        && target.get_char(2) == 'q' && target.get_char(3) == ':' && target.get_char(4) == '/'
        && target.get_char(5) == '/';
    proof {
        reveal_strlit("nsq://");
        if n >= 6 && target@.subrange(0, 6) == nsq_scheme() {
            assert(target@[0] == nsq_scheme()[0]);
            assert(target@[1] == nsq_scheme()[1]);
            assert(target@[2] == nsq_scheme()[2]);
            assert(target@[3] == nsq_scheme()[3]);
            assert(target@[4] == nsq_scheme()[4]);
            assert(target@[5] == nsq_scheme()[5]);
        }
        if is_nsq {
            assert(target@.subrange(0, 6) =~= nsq_scheme());
        }
    }
    if is_nsq {
        let mut r = String::from_str("http://");
        let rest = target.substring_char(6, n);
        r.append(rest);
        r
    } else {
        String::from_str(target)
    }
}

} // verus!

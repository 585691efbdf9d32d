//! IP networks as plain values: the `IpNet` type carried by the DoH JSON
//! response's `edns_client_subnet` field, with its textual parsing and
//! rendering.

use vstd::prelude::*;
use crate::text::{dec_digits, dec_bytes, is_dec_digit, lemma_dec_bytes_ascii, lemma_run_digits,
    parse_dec_u32, push_dec_bytes, ascii_bytes_to_string};

verus! {

broadcast use vstd::string::group_string_axioms;

/// All bytes are ASCII.
pub open spec fn all_ascii(b: Seq<u8>) -> bool {
    forall|i: int| 0 <= i < b.len() ==> b[i] < 128
}

/// An IP network: an address and a prefix length, the shape of the
/// `edns_client_subnet` CIDR strings of the DoH JSON schema.
#[derive(Clone, Debug, PartialEq, Eq)]
pub struct IpNet {
    pub v6: bool,
    /// Four octets for IPv4, sixteen for IPv6.
    pub octets: Vec<u8>,
    pub prefix_len: u8,
}

impl IpNet {
    pub open spec fn wf(self) -> bool {
        if self.v6 {
            self.octets@.len() == 16 && self.prefix_len <= 128
        } else {
            self.octets@.len() == 4 && self.prefix_len <= 32
        }
    }
}

/// The dotted-quad rendering of four octets, as ASCII bytes.
pub open spec fn ipv4_bytes_text(o: Seq<u8>) -> Seq<u8> {
    dec_bytes(o[0] as nat) + seq![46u8] + dec_bytes(o[1] as nat) + seq![46u8] + dec_bytes(
        o[2] as nat,
    ) + seq![46u8] + dec_bytes(o[3] as nat)
}

pub open spec fn ipv4_text(o: Seq<u8>) -> Seq<char> {
    dec_digits(o[0] as nat) + seq!['.'] + dec_digits(o[1] as nat) + seq!['.'] + dec_digits(
        o[2] as nat,
    ) + seq!['.'] + dec_digits(o[3] as nat)
}

/// The CIDR rendering of an IPv4 network.
pub open spec fn ipnet_v4_text(o: Seq<u8>, prefix: u8) -> Seq<char> {
    ipv4_text(o) + seq!['/'] + dec_digits(prefix as nat)
}

/// One hexadecimal digit as an ASCII byte, lower case.
pub open spec fn hex_byte(d: nat) -> u8 {
    if d < 10 {
        (48 + d) as u8
    } else {
        (87 + d) as u8
    }
}

/// The hexadecimal digits of `n`, most significant first, as ASCII bytes.
pub open spec fn hex_bytes(n: nat) -> Seq<u8>
    decreases n,
{
    if n < 16 {
        seq![hex_byte(n)]
    } else {
        hex_bytes(n / 16).push(hex_byte(n % 16))
    }
}

pub proof fn lemma_hex_bytes_ascii(n: nat)
    ensures
        hex_bytes(n).len() >= 1,
        forall|i: int| 0 <= i < hex_bytes(n).len() ==> 48 <= #[trigger] hex_bytes(n)[i] <= 102,
    decreases n,
{
    if n >= 16 {
        lemma_hex_bytes_ascii(n / 16);
    }
}

/// The sixteen-bit group starting at octet `2 * i`.
pub open spec fn ipv6_group(o: Seq<u8>, i: int) -> nat {
    o[2 * i] as nat * 256 + o[2 * i + 1] as nat
}

/// The first `g` colon-separated groups of the uncompressed lower-case IPv6
/// rendering, as ASCII bytes.
pub open spec fn ipv6_bytes_prefix(o: Seq<u8>, g: int) -> Seq<u8>
    decreases g,
{
    if g <= 0 {
        Seq::empty()
    } else if g == 1 {
        hex_bytes(ipv6_group(o, 0))
    } else {
        ipv6_bytes_prefix(o, g - 1) + seq![58u8] + hex_bytes(ipv6_group(o, g - 1))
    }
}

/// The uncompressed lower-case rendering of sixteen octets: eight
/// hexadecimal groups without leading zeros, separated by colons.
pub open spec fn ipv6_bytes_text(o: Seq<u8>) -> Seq<u8> {
    ipv6_bytes_prefix(o, 8)
}

pub proof fn lemma_ipv6_bytes_prefix_ascii(o: Seq<u8>, g: int)
    ensures
        all_ascii(ipv6_bytes_prefix(o, g)),
    decreases g,
{
    if g == 1 {
        lemma_hex_bytes_ascii(ipv6_group(o, 0));
    } else if g > 1 {
        lemma_ipv6_bytes_prefix_ascii(o, g - 1);
        lemma_hex_bytes_ascii(ipv6_group(o, g - 1));
    }
}

/// Appends the hexadecimal digits of `n` to `out`.
pub fn push_hex_bytes(n: u16, out: &mut Vec<u8>)
    ensures
        final(out)@ == old(out)@ + hex_bytes(n as nat),
    decreases n,
{
    if n < 16 {
        let d: u8 = n as u8;
        if d < 10 {
            out.push(48 + d);
        } else {
            out.push(87 + d);
        }
        assert(final(out)@ =~= old(out)@ + hex_bytes(n as nat));
    } else {
        push_hex_bytes(n / 16, out);
        let d: u8 = (n % 16) as u8;
        if d < 10 {
            out.push(48 + d);
        } else {
            out.push(87 + d);
        }
        assert(final(out)@ =~= old(out)@ + hex_bytes(n as nat));
    }
}

impl IpNet {
    /// The CIDR text of this network: dotted quad for IPv4, uncompressed
    /// lower-case groups for IPv6, then `/` and the prefix length.
    pub fn to_text(&self) -> (r: String)
        requires
            self.wf(),
        ensures
            !self.v6 ==> r@ == ipnet_v4_text(self.octets@, self.prefix_len),
            self.v6 ==> r@ == (ipv6_bytes_text(self.octets@) + seq![47u8] + dec_bytes(
                self.prefix_len as nat,
            )).map_values(|b: u8| b as char),
            r.is_ascii(),
    {
        let mut buf: Vec<u8> = Vec::new();
        if !self.v6 {
            push_dec_bytes(self.octets[0] as u32, &mut buf);
            buf.push(46);
            push_dec_bytes(self.octets[1] as u32, &mut buf);
            buf.push(46);
            push_dec_bytes(self.octets[2] as u32, &mut buf);
            buf.push(46);
            push_dec_bytes(self.octets[3] as u32, &mut buf);
            proof {
                assert(buf@ =~= ipv4_bytes_text(self.octets@));
            }
        } else {
            let mut g: usize = 0;
            while g < 8
                invariant
                    self.wf(),
                    self.v6,
                    0 <= g <= 8,
                    buf@ == ipv6_bytes_prefix(self.octets@, g as int),
                decreases 8 - g,
            {
                if g > 0 {
                    buf.push(58);
                }
                let hi: u16 = self.octets[2 * g] as u16;
                let lo: u16 = self.octets[2 * g + 1] as u16;
                push_hex_bytes(hi * 256 + lo, &mut buf);
                proof {
                    assert(buf@ =~= ipv6_bytes_prefix(self.octets@, g + 1));
                }
                g += 1;
            }
        }
        buf.push(47);
        push_dec_bytes(self.prefix_len as u32, &mut buf);
        proof {
            lemma_dec_bytes_ascii(self.octets@[0] as nat);
            lemma_dec_bytes_ascii(self.octets@[1] as nat);
            lemma_dec_bytes_ascii(self.octets@[2] as nat);
            lemma_dec_bytes_ascii(self.octets@[3] as nat);
            lemma_dec_bytes_ascii(self.prefix_len as nat);
            lemma_ipv6_bytes_prefix_ascii(self.octets@, 8);
            assert(all_ascii(buf@));
        }
        let r = ascii_bytes_to_string(&buf);
        proof {
            if !self.v6 {
                assert(r@ =~= ipnet_v4_text(self.octets@, self.prefix_len));
            } else {
                assert(r@ =~= (ipv6_bytes_text(self.octets@) + seq![47u8] + dec_bytes(
                    self.prefix_len as nat,
                )).map_values(|b: u8| b as char));
            }
        }
        r
    }
}

/// The dotted-quad text splits into its four decimal runs and three dots.
pub proof fn lemma_ipv4_text_parts(s: Seq<char>, pos: int, e: int, o: Seq<u8>)
    requires
        o.len() == 4,
        0 <= pos <= e <= s.len(),
        s.subrange(pos, e) == ipv4_text(o),
    ensures
        ({
            let l0 = dec_digits(o[0] as nat).len() as int;
            let l1 = dec_digits(o[1] as nat).len() as int;
            let l2 = dec_digits(o[2] as nat).len() as int;
            let l3 = dec_digits(o[3] as nat).len() as int;
            &&& e == pos + l0 + 1 + l1 + 1 + l2 + 1 + l3
            &&& s.subrange(pos, pos + l0) == dec_digits(o[0] as nat)
            &&& s[pos + l0] == '.'
            &&& s.subrange(pos + l0 + 1, pos + l0 + 1 + l1) == dec_digits(o[1] as nat)
            &&& s[pos + l0 + 1 + l1] == '.'
            &&& s.subrange(pos + l0 + 1 + l1 + 1, pos + l0 + 1 + l1 + 1 + l2) == dec_digits(
                o[2] as nat,
            )
            &&& s[pos + l0 + 1 + l1 + 1 + l2] == '.'
            &&& s.subrange(pos + l0 + 1 + l1 + 1 + l2 + 1, e) == dec_digits(o[3] as nat)
        }),
{
    let l0 = dec_digits(o[0] as nat).len() as int;
    let l1 = dec_digits(o[1] as nat).len() as int;
    let l2 = dec_digits(o[2] as nat).len() as int;
    let l3 = dec_digits(o[3] as nat).len() as int;
    let t01 = dec_digits(o[0] as nat) + seq!['.'] + dec_digits(o[1] as nat);
    let t012 = t01 + seq!['.'] + dec_digits(o[2] as nat);
    assert(ipv4_text(o) == t012 + seq!['.'] + dec_digits(o[3] as nat));
    assert(ipv4_text(o).len() == l0 + 1 + l1 + 1 + l2 + 1 + l3);
    assert(e - pos == l0 + 1 + l1 + 1 + l2 + 1 + l3);
    assert(s.subrange(pos, pos + l0) =~= dec_digits(o[0] as nat)) by {
        assert forall|i: int| 0 <= i < l0 implies s[pos + i] == dec_digits(o[0] as nat)[i] by {
            assert(s[pos + i] == s.subrange(pos, e)[i]);
            assert(ipv4_text(o)[i] == t012[i] && t012[i] == t01[i] && t01[i] == dec_digits(
                o[0] as nat,
            )[i]);
        }
    }
    assert(s[pos + l0] == s.subrange(pos, e)[l0]);
    assert(ipv4_text(o)[l0] == t012[l0] && t012[l0] == t01[l0] && t01[l0] == '.');
    assert(s.subrange(pos + l0 + 1, pos + l0 + 1 + l1) =~= dec_digits(o[1] as nat)) by {
        assert forall|i: int| 0 <= i < l1 implies s[pos + l0 + 1 + i] == dec_digits(
            o[1] as nat,
        )[i] by {
            assert(s[pos + l0 + 1 + i] == s.subrange(pos, e)[l0 + 1 + i]);
            assert(ipv4_text(o)[l0 + 1 + i] == t012[l0 + 1 + i] && t012[l0 + 1 + i] == t01[l0 + 1
                + i] && t01[l0 + 1 + i] == dec_digits(o[1] as nat)[i]);
        }
    }
    assert(s[pos + l0 + 1 + l1] == s.subrange(pos, e)[l0 + 1 + l1]);
    assert(ipv4_text(o)[l0 + 1 + l1] == t012[l0 + 1 + l1] && t012[l0 + 1 + l1] == '.');
    assert(s.subrange(pos + l0 + 1 + l1 + 1, pos + l0 + 1 + l1 + 1 + l2) =~= dec_digits(
        o[2] as nat,
    )) by {
        assert forall|i: int| 0 <= i < l2 implies s[pos + l0 + 1 + l1 + 1 + i] == dec_digits(
            o[2] as nat,
        )[i] by {
            assert(s[pos + l0 + 1 + l1 + 1 + i] == s.subrange(pos, e)[l0 + 1 + l1 + 1 + i]);
            assert(ipv4_text(o)[l0 + 1 + l1 + 1 + i] == t012[l0 + 1 + l1 + 1 + i] && t012[l0 + 1
                + l1 + 1 + i] == dec_digits(o[2] as nat)[i]);
        }
    }
    assert(s[pos + l0 + 1 + l1 + 1 + l2] == s.subrange(pos, e)[l0 + 1 + l1 + 1 + l2]);
    assert(ipv4_text(o)[l0 + 1 + l1 + 1 + l2] == '.');
    assert(s.subrange(pos + l0 + 1 + l1 + 1 + l2 + 1, e) =~= dec_digits(o[3] as nat)) by {
        assert forall|i: int| 0 <= i < l3 implies s[pos + l0 + 1 + l1 + 1 + l2 + 1 + i]
            == dec_digits(o[3] as nat)[i] by {
            assert(s[pos + l0 + 1 + l1 + 1 + l2 + 1 + i] == s.subrange(pos, e)[l0 + 1 + l1 + 1
                + l2 + 1 + i]);
            assert(ipv4_text(o)[l0 + 1 + l1 + 1 + l2 + 1 + i] == dec_digits(o[3] as nat)[i]);
        }
    }
}

/// Reads a dotted-quad IPv4 address starting at `pos`; returns its octets
/// and the position just past it. Conversely, whenever the text at `pos`
/// is the dotted-quad rendering of four octets up to a non-digit boundary,
/// exactly those octets and that boundary are returned.
#[verifier::spinoff_prover]
#[verifier::rlimit(100)]
pub fn parse_ipv4(s: &str, pos: usize) -> (r: Option<(Vec<u8>, usize)>)
    requires
        s.is_ascii(),
        pos <= s@.len(),
    ensures
        match r {
            Some(v) => {
                &&& v.0@.len() == 4
                &&& pos < v.1 <= s@.len()
                &&& s@.subrange(pos as int, v.1 as int) == ipv4_text(v.0@)
            },
            None => true,
        },
        forall|o: Seq<u8>, e: int|
            #![trigger s@.subrange(pos as int, e), ipv4_text(o)]
            {
                &&& o.len() == 4
                &&& pos <= e <= s@.len()
                &&& s@.subrange(pos as int, e) == ipv4_text(o)
                &&& (e == s@.len() || !is_dec_digit(s@[e]))
            } ==> (r is Some && r.unwrap().0@ == o && r.unwrap().1 == e as usize),
{
    let nlen: usize = s.unicode_len();
    let ghost hyp = |o: Seq<u8>, e: int|
        {
            &&& o.len() == 4
            &&& pos <= e <= s@.len()
            &&& s@.subrange(pos as int, e) == ipv4_text(o)
            &&& (e == s@.len() || !is_dec_digit(s@[e]))
        };
    let r0 = parse_dec_u32(s, pos);
    let (a, e1) = match r0 {
        Some(v) => v,
        None => {
            proof {
                assert forall|o: Seq<u8>, e: int|
                    #![trigger s@.subrange(pos as int, e), ipv4_text(o)]
                    hyp(o, e) implies false by {
                    lemma_ipv4_text_parts(s@, pos as int, e, o);
                    let l0 = dec_digits(o[0] as nat).len() as int;
                    assert(s@.subrange(pos as int, pos + l0) == dec_digits(o[0] as nat));
                    assert(!is_dec_digit(s@[pos + l0]));
                    assert(o[0] as u32 as nat == o[0] as nat);
                    assert(r0 == Some((o[0] as u32, (pos + l0) as usize)));
                }
            }
            return None;
        },
    };
    if a > 255 || e1 >= nlen || s.get_ascii(e1) != 46 {
        proof {
            assert forall|o: Seq<u8>, e: int|
                #![trigger s@.subrange(pos as int, e), ipv4_text(o)]
                hyp(o, e) implies false by {
                lemma_ipv4_text_parts(s@, pos as int, e, o);
                let l0 = dec_digits(o[0] as nat).len() as int;
                assert(s@.subrange(pos as int, pos + l0) == dec_digits(o[0] as nat));
                assert(!is_dec_digit(s@[pos + l0]));
                assert(r0 == Some((o[0] as u32, (pos + l0) as usize)));
                assert(a == o[0] as u32 && e1 == pos + l0);
                assert(s@[e1 as int] == '.');
            }
        }
        return None;
    }
    let r1 = parse_dec_u32(s, e1 + 1);
    let (b, e2) = match r1 {
        Some(v) => v,
        None => {
            proof {
                assert forall|o: Seq<u8>, e: int|
                    #![trigger s@.subrange(pos as int, e), ipv4_text(o)]
                    hyp(o, e) implies false by {
                    lemma_ipv4_text_parts(s@, pos as int, e, o);
                    let l0 = dec_digits(o[0] as nat).len() as int;
                    let l1 = dec_digits(o[1] as nat).len() as int;
                    let l2 = dec_digits(o[2] as nat).len() as int;
                    let l3 = dec_digits(o[3] as nat).len() as int;
                    assert(s@.subrange(pos as int, pos + l0) == dec_digits(o[0] as nat));
                    assert(!is_dec_digit(s@[pos + l0]));
                    assert(r0 == Some((o[0] as u32, (pos + l0) as usize)));
                    assert(a == o[0] as u32 && e1 == pos + l0);
                    assert(s@.subrange(e1 + 1, e1 + 1 + l1) == dec_digits(o[1] as nat));
                    assert(!is_dec_digit(s@[e1 + 1 + l1]));
                    assert(r1 == Some((o[1] as u32, (e1 + 1 + l1) as usize)));
                }
            }
            return None;
        },
    };
    if b > 255 || e2 >= nlen || s.get_ascii(e2) != 46 {
        proof {
                assert forall|o: Seq<u8>, e: int|
                    #![trigger s@.subrange(pos as int, e), ipv4_text(o)]
                    hyp(o, e) implies false by {
                    lemma_ipv4_text_parts(s@, pos as int, e, o);
                    let l0 = dec_digits(o[0] as nat).len() as int;
                    let l1 = dec_digits(o[1] as nat).len() as int;
                    let l2 = dec_digits(o[2] as nat).len() as int;
                    let l3 = dec_digits(o[3] as nat).len() as int;
                    assert(s@.subrange(pos as int, pos + l0) == dec_digits(o[0] as nat));
                    assert(!is_dec_digit(s@[pos + l0]));
                    assert(r0 == Some((o[0] as u32, (pos + l0) as usize)));
                    assert(a == o[0] as u32 && e1 == pos + l0);
                    assert(s@.subrange(e1 + 1, e1 + 1 + l1) == dec_digits(o[1] as nat));
                    assert(!is_dec_digit(s@[e1 + 1 + l1]));
                    assert(r1 == Some((o[1] as u32, (e1 + 1 + l1) as usize)));
                    assert(b == o[1] as u32 && e2 == e1 + 1 + l1);
                    assert(s@[e2 as int] == '.');
                }
        }
        return None;
    }
    let r2 = parse_dec_u32(s, e2 + 1);
    let (c, e3) = match r2 {
        Some(v) => v,
        None => {
            proof {
                assert forall|o: Seq<u8>, e: int|
                    #![trigger s@.subrange(pos as int, e), ipv4_text(o)]
                    hyp(o, e) implies false by {
                    lemma_ipv4_text_parts(s@, pos as int, e, o);
                    let l0 = dec_digits(o[0] as nat).len() as int;
                    let l1 = dec_digits(o[1] as nat).len() as int;
                    let l2 = dec_digits(o[2] as nat).len() as int;
                    let l3 = dec_digits(o[3] as nat).len() as int;
                    assert(s@.subrange(pos as int, pos + l0) == dec_digits(o[0] as nat));
                    assert(!is_dec_digit(s@[pos + l0]));
                    assert(r0 == Some((o[0] as u32, (pos + l0) as usize)));
                    assert(a == o[0] as u32 && e1 == pos + l0);
                    assert(s@.subrange(e1 + 1, e1 + 1 + l1) == dec_digits(o[1] as nat));
                    assert(!is_dec_digit(s@[e1 + 1 + l1]));
                    assert(r1 == Some((o[1] as u32, (e1 + 1 + l1) as usize)));
                    assert(b == o[1] as u32 && e2 == e1 + 1 + l1);
                    assert(s@.subrange(e2 + 1, e2 + 1 + l2) == dec_digits(o[2] as nat));
                    assert(!is_dec_digit(s@[e2 + 1 + l2]));
                    assert(r2 == Some((o[2] as u32, (e2 + 1 + l2) as usize)));
                }
            }
            return None;
        },
    };
    if c > 255 || e3 >= nlen || s.get_ascii(e3) != 46 {
        proof {
                assert forall|o: Seq<u8>, e: int|
                    #![trigger s@.subrange(pos as int, e), ipv4_text(o)]
                    hyp(o, e) implies false by {
                    lemma_ipv4_text_parts(s@, pos as int, e, o);
                    let l0 = dec_digits(o[0] as nat).len() as int;
                    let l1 = dec_digits(o[1] as nat).len() as int;
                    let l2 = dec_digits(o[2] as nat).len() as int;
                    let l3 = dec_digits(o[3] as nat).len() as int;
                    assert(s@.subrange(pos as int, pos + l0) == dec_digits(o[0] as nat));
                    assert(!is_dec_digit(s@[pos + l0]));
                    assert(r0 == Some((o[0] as u32, (pos + l0) as usize)));
                    assert(a == o[0] as u32 && e1 == pos + l0);
                    assert(s@.subrange(e1 + 1, e1 + 1 + l1) == dec_digits(o[1] as nat));
                    assert(!is_dec_digit(s@[e1 + 1 + l1]));
                    assert(r1 == Some((o[1] as u32, (e1 + 1 + l1) as usize)));
                    assert(b == o[1] as u32 && e2 == e1 + 1 + l1);
                    assert(s@.subrange(e2 + 1, e2 + 1 + l2) == dec_digits(o[2] as nat));
                    assert(!is_dec_digit(s@[e2 + 1 + l2]));
                    assert(r2 == Some((o[2] as u32, (e2 + 1 + l2) as usize)));
                    assert(c == o[2] as u32 && e3 == e2 + 1 + l2);
                    assert(s@[e3 as int] == '.');
                }
        }
        return None;
    }
    let r3 = parse_dec_u32(s, e3 + 1);
    let (d, e4) = match r3 {
        Some(v) => v,
        None => {
            proof {
                assert forall|o: Seq<u8>, e: int|
                    #![trigger s@.subrange(pos as int, e), ipv4_text(o)]
                    hyp(o, e) implies false by {
                    lemma_ipv4_text_parts(s@, pos as int, e, o);
                    let l0 = dec_digits(o[0] as nat).len() as int;
                    let l1 = dec_digits(o[1] as nat).len() as int;
                    let l2 = dec_digits(o[2] as nat).len() as int;
                    let l3 = dec_digits(o[3] as nat).len() as int;
                    assert(s@.subrange(pos as int, pos + l0) == dec_digits(o[0] as nat));
                    assert(!is_dec_digit(s@[pos + l0]));
                    assert(r0 == Some((o[0] as u32, (pos + l0) as usize)));
                    assert(a == o[0] as u32 && e1 == pos + l0);
                    assert(s@.subrange(e1 + 1, e1 + 1 + l1) == dec_digits(o[1] as nat));
                    assert(!is_dec_digit(s@[e1 + 1 + l1]));
                    assert(r1 == Some((o[1] as u32, (e1 + 1 + l1) as usize)));
                    assert(b == o[1] as u32 && e2 == e1 + 1 + l1);
                    assert(s@.subrange(e2 + 1, e2 + 1 + l2) == dec_digits(o[2] as nat));
                    assert(!is_dec_digit(s@[e2 + 1 + l2]));
                    assert(r2 == Some((o[2] as u32, (e2 + 1 + l2) as usize)));
                    assert(c == o[2] as u32 && e3 == e2 + 1 + l2);
                    assert(s@.subrange(e3 + 1, e)  == dec_digits(o[3] as nat));
                    assert(r3 == Some((o[3] as u32, e as usize)));
                }
            }
            return None;
        },
    };
    if d > 255 {
        proof {
                assert forall|o: Seq<u8>, e: int|
                    #![trigger s@.subrange(pos as int, e), ipv4_text(o)]
                    hyp(o, e) implies false by {
                    lemma_ipv4_text_parts(s@, pos as int, e, o);
                    let l0 = dec_digits(o[0] as nat).len() as int;
                    let l1 = dec_digits(o[1] as nat).len() as int;
                    let l2 = dec_digits(o[2] as nat).len() as int;
                    let l3 = dec_digits(o[3] as nat).len() as int;
                    assert(s@.subrange(pos as int, pos + l0) == dec_digits(o[0] as nat));
                    assert(!is_dec_digit(s@[pos + l0]));
                    assert(r0 == Some((o[0] as u32, (pos + l0) as usize)));
                    assert(a == o[0] as u32 && e1 == pos + l0);
                    assert(s@.subrange(e1 + 1, e1 + 1 + l1) == dec_digits(o[1] as nat));
                    assert(!is_dec_digit(s@[e1 + 1 + l1]));
                    assert(r1 == Some((o[1] as u32, (e1 + 1 + l1) as usize)));
                    assert(b == o[1] as u32 && e2 == e1 + 1 + l1);
                    assert(s@.subrange(e2 + 1, e2 + 1 + l2) == dec_digits(o[2] as nat));
                    assert(!is_dec_digit(s@[e2 + 1 + l2]));
                    assert(r2 == Some((o[2] as u32, (e2 + 1 + l2) as usize)));
                    assert(c == o[2] as u32 && e3 == e2 + 1 + l2);
                    assert(s@.subrange(e3 + 1, e)  == dec_digits(o[3] as nat));
                    assert(r3 == Some((o[3] as u32, e as usize)));
                    assert(d == o[3] as u32);
                }
        }
        return None;
    }
    let mut o: Vec<u8> = Vec::new();
    o.push(a as u8);
    o.push(b as u8);
    o.push(c as u8);
    o.push(d as u8);
    proof {
        assert(o@ =~= seq![a as u8, b as u8, c as u8, d as u8]);
        assert(dec_bytes(o@[0] as nat) == dec_bytes(a as nat));
        assert(dec_bytes(o@[1] as nat) == dec_bytes(b as nat));
        assert(dec_bytes(o@[2] as nat) == dec_bytes(c as nat));
        assert(dec_bytes(o@[3] as nat) == dec_bytes(d as nat));
        assert(s@.subrange(pos as int, e4 as int) =~= ipv4_text(o@));
        assert forall|oh: Seq<u8>, e: int|
            #![trigger s@.subrange(pos as int, e), ipv4_text(oh)]
            {
                &&& oh.len() == 4
                &&& pos <= e <= s@.len()
                &&& s@.subrange(pos as int, e) == ipv4_text(oh)
                &&& (e == s@.len() || !is_dec_digit(s@[e]))
            } implies o@ == oh && e4 == e by {
            lemma_ipv4_text_parts(s@, pos as int, e, oh);
            let l0 = dec_digits(oh[0] as nat).len() as int;
            let l1 = dec_digits(oh[1] as nat).len() as int;
            let l2 = dec_digits(oh[2] as nat).len() as int;
            let l3 = dec_digits(oh[3] as nat).len() as int;
            assert(s@.subrange(pos as int, pos + l0) == dec_digits(oh[0] as nat));
            assert(!is_dec_digit(s@[pos + l0]));
            assert(r0 == Some((oh[0] as u32, (pos + l0) as usize)));
            assert(a == oh[0] as u32 && e1 == pos + l0);
            assert(s@.subrange(e1 + 1, e1 + 1 + l1) == dec_digits(oh[1] as nat));
            assert(!is_dec_digit(s@[e1 + 1 + l1]));
            assert(r1 == Some((oh[1] as u32, (e1 + 1 + l1) as usize)));
            assert(b == oh[1] as u32 && e2 == e1 + 1 + l1);
            assert(s@.subrange(e2 + 1, e2 + 1 + l2) == dec_digits(oh[2] as nat));
            assert(!is_dec_digit(s@[e2 + 1 + l2]));
            assert(r2 == Some((oh[2] as u32, (e2 + 1 + l2) as usize)));
            assert(c == oh[2] as u32 && e3 == e2 + 1 + l2);
            assert(s@.subrange(e3 + 1, e) == dec_digits(oh[3] as nat));
            assert(r3 == Some((oh[3] as u32, e as usize)));
            assert(d == oh[3] as u32 && e4 == e);
            assert(o@ =~= oh);
        }
    }
    Some((o, e4))
}

/// Reads an IPv6 address that must span exactly `[pos, end)`: colon-separated
/// hexadecimal groups, with one `::` standing for the missing zero groups.
/// Embedded dotted-quad forms are not accepted. Returns the sixteen octets.
pub fn parse_ipv6(s: &str, pos: usize, end: usize) -> (r: Option<Vec<u8>>)
    requires
        s.is_ascii(),
        pos <= end <= s@.len(),
    ensures
        match r {
            Some(o) => o@.len() == 16,
            None => true,
        },
{
    let mut head: Vec<u16> = Vec::new();
    let mut tail: Vec<u16> = Vec::new();
    let mut seen_dc: bool = false;
    let mut i: usize = pos;
    if end - i >= 2 && s.get_ascii(i) == 58 && s.get_ascii(i + 1) == 58 {
        seen_dc = true;
        i = i + 2;
    } else if i < end && s.get_ascii(i) == 58 {
        return None;
    }
    while i < end
        invariant
            s.is_ascii(),
            pos <= i <= end <= s@.len(),
            head@.len() + tail@.len() <= 8,
        decreases end - i,
    {
        let mut v: u32 = 0;
        let mut nd: usize = 0;
        let ghost i_start: int = i as int;
        while i < end && nd < 4
            invariant
                s.is_ascii(),
                pos <= i <= end <= s@.len(),
                nd <= 4,
                v < 0x10000,
                i == i_start + nd,
            decreases end - i,
        {
            let c: u8 = s.get_ascii(i);
            let dv: u32 = if 48 <= c && c <= 57 {
                (c - 48) as u32
            } else if 97 <= c && c <= 102 {
                (c - 87) as u32
            } else if 65 <= c && c <= 70 {
                (c - 55) as u32
            } else {
                16
            };
            if dv == 16 {
                break ;
            }
            if v >= 0x1000 {
                return None;
            }
            v = v * 16 + dv;
            nd = nd + 1;
            i = i + 1;
        }
        if nd == 0 {
            return None;
        }
        if head.len() + tail.len() >= 8 {
            return None;
        }
        if seen_dc {
            tail.push(v as u16);
        } else {
            head.push(v as u16);
        }
        if i < end {
            if s.get_ascii(i) != 58 {
                return None;
            }
            i = i + 1;
            if i < end && s.get_ascii(i) == 58 {
                if seen_dc {
                    return None;
                }
                seen_dc = true;
                i = i + 1;
            } else if i >= end {
                return None;
            }
        }
    }
    let groups: usize = head.len() + tail.len();
    if seen_dc {
        if groups >= 8 {
            return None;
        }
    } else {
        if groups != 8 {
            return None;
        }
    }
    let mut o: Vec<u8> = Vec::new();
    let mut j: usize = 0;
    while j < head.len()
        invariant
            0 <= j <= head@.len(),
            o@.len() == 2 * j,
        decreases head@.len() - j,
    {
        o.push((head[j] / 256) as u8);
        o.push((head[j] % 256) as u8);
        j = j + 1;
    }
    let zeros: usize = 8 - groups;
    let mut z: usize = 0;
    while z < zeros
        invariant
            0 <= z <= zeros,
            o@.len() == 2 * head@.len() + 2 * z,
        decreases zeros - z,
    {
        o.push(0);
        o.push(0);
        z = z + 1;
    }
    let mut k: usize = 0;
    while k < tail.len()
        invariant
            0 <= k <= tail@.len(),
            o@.len() == 2 * head@.len() + 2 * (8 - head@.len() - tail@.len()) + 2 * k,
            head@.len() + tail@.len() <= 8,
        decreases tail@.len() - k,
    {
        o.push((tail[k] / 256) as u8);
        o.push((tail[k] % 256) as u8);
        k = k + 1;
    }
    Some(o)
}

/// Every character of a dotted-quad rendering is ASCII.
pub proof fn lemma_ipv4_text_ascii(o: Seq<u8>)
    requires
        o.len() == 4,
    ensures
        forall|i: int| 0 <= i < ipv4_text(o).len() ==> '\0' <= #[trigger] ipv4_text(o)[i]
            <= '\u{7f}',
{
    let t = ipv4_text(o);
    assert(t.subrange(0, t.len() as int) =~= t);
    lemma_ipv4_text_parts(t, 0, t.len() as int, o);
    let l0 = dec_digits(o[0] as nat).len() as int;
    let l1 = dec_digits(o[1] as nat).len() as int;
    let l2 = dec_digits(o[2] as nat).len() as int;
    let l3 = dec_digits(o[3] as nat).len() as int;
    lemma_run_digits(t, 0, l0, o[0] as nat);
    lemma_run_digits(t, l0 + 1, l0 + 1 + l1, o[1] as nat);
    lemma_run_digits(t, l0 + 1 + l1 + 1, l0 + 1 + l1 + 1 + l2, o[2] as nat);
    lemma_run_digits(t, l0 + 1 + l1 + 1 + l2 + 1, t.len() as int, o[3] as nat);
    assert forall|i: int| 0 <= i < t.len() implies '\0' <= #[trigger] t[i] <= '\u{7f}' by {
        if i != l0 && i != l0 + 1 + l1 && i != l0 + 1 + l1 + 1 + l2 {
            assert(is_dec_digit(t[i]));
        }
    }
}

/// The CIDR text splits into the address text, the slash and the prefix
/// digits.
pub proof fn lemma_ipnet_v4_text_parts(s: Seq<char>, pos: int, e: int, o: Seq<u8>, p: u8)
    requires
        o.len() == 4,
        0 <= pos <= e <= s.len(),
        s.subrange(pos, e) == ipnet_v4_text(o, p),
    ensures
        ({
            let la = ipv4_text(o).len() as int;
            &&& e == pos + la + 1 + dec_digits(p as nat).len()
            &&& s.subrange(pos, pos + la) == ipv4_text(o)
            &&& s[pos + la] == '/'
            &&& s.subrange(pos + la + 1, e) == dec_digits(p as nat)
        }),
{
    let la = ipv4_text(o).len() as int;
    let ta = ipv4_text(o) + seq!['/'];
    assert(ipnet_v4_text(o, p) == ta + dec_digits(p as nat));
    assert(ipnet_v4_text(o, p).len() == la + 1 + dec_digits(p as nat).len());
    assert(e - pos == la + 1 + dec_digits(p as nat).len());
    assert(s.subrange(pos, pos + la) =~= ipv4_text(o)) by {
        assert forall|i: int| 0 <= i < la implies s[pos + i] == ipv4_text(o)[i] by {
            assert(s[pos + i] == s.subrange(pos, e)[i]);
            assert(ipnet_v4_text(o, p)[i] == ta[i] && ta[i] == ipv4_text(o)[i]);
        }
    }
    assert(s[pos + la] == s.subrange(pos, e)[la]);
    assert(ipnet_v4_text(o, p)[la] == ta[la] && ta[la] == '/');
    assert(s.subrange(pos + la + 1, e) =~= dec_digits(p as nat)) by {
        assert forall|i: int| 0 <= i < dec_digits(p as nat).len() implies s[pos + la + 1 + i]
            == dec_digits(p as nat)[i] by {
            assert(s[pos + la + 1 + i] == s.subrange(pos, e)[la + 1 + i]);
            assert(ipnet_v4_text(o, p)[la + 1 + i] == dec_digits(p as nat)[i]);
        }
    }
}

impl IpNet {
    /// Reads the CIDR text spanning exactly `[pos, end)` into a network
    /// value; `None` when the text is not a CIDR this type can hold — in
    /// particular, never for the rendering of an IPv4 network. The caller
    /// ensures no digit follows the span, as a closing quote never is one.
    #[verifier::spinoff_prover]
    #[verifier::rlimit(50)]
    pub fn parse(s: &str, pos: usize, end: usize) -> (r: Option<IpNet>)
        requires
            s.is_ascii(),
            pos <= end <= s@.len(),
            end == s@.len() || !is_dec_digit(s@[end as int]),
        ensures
            match r {
                Some(net) => {
                    &&& net.wf()
                    &&& !net.v6 ==> s@.subrange(pos as int, end as int) == ipnet_v4_text(
                        net.octets@,
                        net.prefix_len,
                    )
                },
                None => true,
            },
            r is None ==> forall|o: Seq<u8>, p: u8|
                o.len() == 4 && p <= 32 ==> s@.subrange(pos as int, end as int)
                    != #[trigger] ipnet_v4_text(o, p),
    {
        let mut slash: usize = pos;
        while slash < end && s.get_ascii(slash) != 47
            invariant
                s.is_ascii(),
                pos <= slash <= end <= s@.len(),
                forall|i: int| pos <= i < slash ==> s@[i] != '/',
            decreases end - slash,
        {
            slash = slash + 1;
        }
        if slash >= end {
            proof {
                assert forall|o: Seq<u8>, p: u8|
                    o.len() == 4 && p <= 32 implies s@.subrange(pos as int, end as int)
                    != #[trigger] ipnet_v4_text(o, p) by {
                    if s@.subrange(pos as int, end as int) == ipnet_v4_text(o, p) {
                        lemma_ipnet_v4_text_parts(s@, pos as int, end as int, o, p);
                        let la = ipv4_text(o).len() as int;
                        assert(s@[pos + la] == '/');
                    }
                }
            }
            return None;
        }
        if s.get_ascii(slash) != 47 {
            // unreachable: the scan above stopped on this very character
            proof {
                assert(false);
            }
            return None;
        }
        proof {
            // the hypothetical slash position coincides with the first one
            assert forall|o: Seq<u8>, p: u8|
                (o.len() == 4 && p <= 32 && s@.subrange(pos as int, end as int)
                    == #[trigger] ipnet_v4_text(o, p)) implies slash == pos + ipv4_text(
                o,
            ).len() by {
                lemma_ipnet_v4_text_parts(s@, pos as int, end as int, o, p);
                lemma_ipv4_text_ascii(o);
                let la = ipv4_text(o).len() as int;
                if slash < pos + la {
                    lemma_ipv4_text_parts(s@, pos as int, pos + la, o);
                    let l0 = dec_digits(o[0] as nat).len() as int;
                    let l1 = dec_digits(o[1] as nat).len() as int;
                    let l2 = dec_digits(o[2] as nat).len() as int;
                    let l3 = dec_digits(o[3] as nat).len() as int;
                    lemma_run_digits(s@, pos as int, pos + l0, o[0] as nat);
                    lemma_run_digits(s@, pos + l0 + 1, pos + l0 + 1 + l1, o[1] as nat);
                    lemma_run_digits(s@, pos + l0 + 1 + l1 + 1, pos + l0 + 1 + l1 + 1 + l2,
                        o[2] as nat);
                    lemma_run_digits(s@, pos + l0 + 1 + l1 + 1 + l2 + 1, pos + la, o[3] as nat);
                    let q: int = slash - pos;
                    if q < l0 {
                        assert(is_dec_digit(s@[slash as int]));
                    } else if q == l0 {
                        assert(s@[slash as int] == '.');
                    } else if q < l0 + 1 + l1 {
                        assert(is_dec_digit(s@[slash as int]));
                    } else if q == l0 + 1 + l1 {
                        assert(s@[slash as int] == '.');
                    } else if q < l0 + 1 + l1 + 1 + l2 {
                        assert(is_dec_digit(s@[slash as int]));
                    } else if q == l0 + 1 + l1 + 1 + l2 {
                        assert(s@[slash as int] == '.');
                    } else {
                        assert(is_dec_digit(s@[slash as int]));
                    }
                    assert(s@[slash as int] != '/');
                    assert(false);
                }
                if slash > pos + la {
                    assert(s@[pos + la] == '/');
                    assert(false);
                }
            }
        }
        let pr = parse_dec_u32(s, slash + 1);
        let (p, pend) = match pr {
            Some(v) => v,
            None => {
                proof {
                    assert forall|o: Seq<u8>, p: u8|
                        o.len() == 4 && p <= 32 implies s@.subrange(pos as int, end as int)
                        != #[trigger] ipnet_v4_text(o, p) by {
                        if s@.subrange(pos as int, end as int) == ipnet_v4_text(o, p) {
                            lemma_ipnet_v4_text_parts(s@, pos as int, end as int, o, p);
                            assert(s@.subrange(slash + 1, end as int) == dec_digits(p as nat));
                            assert(dec_digits((p as u32) as nat) == dec_digits(p as nat));
                            assert(pr == Some((p as u32, end)));
                        }
                    }
                }
                return None;
            },
        };
        if pend != end {
            proof {
                assert forall|o: Seq<u8>, ph: u8|
                    o.len() == 4 && ph <= 32 implies s@.subrange(pos as int, end as int)
                    != #[trigger] ipnet_v4_text(o, ph) by {
                    if s@.subrange(pos as int, end as int) == ipnet_v4_text(o, ph) {
                        lemma_ipnet_v4_text_parts(s@, pos as int, end as int, o, ph);
                        assert(s@.subrange(slash + 1, end as int) == dec_digits(ph as nat));
                        assert(dec_digits((ph as u32) as nat) == dec_digits(ph as nat));
                        assert(pr == Some((ph as u32, end)));
                    }
                }
            }
            return None;
        }
        let mut has_dot: bool = false;
        let mut di: usize = pos;
        while di < slash
            invariant
                s.is_ascii(),
                pos <= di <= slash <= s@.len(),
                has_dot == exists|i: int| pos <= i < di && s@[i] == '.',
            decreases slash - di,
        {
            if s.get_ascii(di) == 46 {
                has_dot = true;
                proof {
                    assert(s@[di as int] == '.');
                }
            }
            di = di + 1;
        }
        if has_dot {
            if p > 32 {
                proof {
                    assert forall|o: Seq<u8>, ph: u8|
                        o.len() == 4 && ph <= 32 implies s@.subrange(pos as int, end as int)
                        != #[trigger] ipnet_v4_text(o, ph) by {
                        if s@.subrange(pos as int, end as int) == ipnet_v4_text(o, ph) {
                            lemma_ipnet_v4_text_parts(s@, pos as int, end as int, o, ph);
                            assert(s@.subrange(slash + 1, end as int) == dec_digits(ph as nat));
                            assert(dec_digits((ph as u32) as nat) == dec_digits(ph as nat));
                            assert(pr == Some((ph as u32, end)));
                        }
                    }
                }
                return None;
            }
            let ar = parse_ipv4(s, pos);
            let (o, aend) = match ar {
                Some(v) => v,
                None => {
                    proof {
                        assert forall|o: Seq<u8>, ph: u8|
                            o.len() == 4 && ph <= 32 implies s@.subrange(pos as int, end as int)
                            != #[trigger] ipnet_v4_text(o, ph) by {
                            if s@.subrange(pos as int, end as int) == ipnet_v4_text(o, ph) {
                                lemma_ipnet_v4_text_parts(s@, pos as int, end as int, o, ph);
                                assert(s@.subrange(pos as int, slash as int) == ipv4_text(o));
                                assert(s@[slash as int] == '/' && !is_dec_digit(s@[slash as int]));
                                assert(ar is Some && ar.unwrap().0@ == o && ar.unwrap().1
                                    == slash);
                            }
                        }
                    }
                    return None;
                },
            };
            if aend != slash {
                proof {
                    assert forall|o2: Seq<u8>, ph: u8|
                        o2.len() == 4 && ph <= 32 implies s@.subrange(pos as int, end as int)
                        != #[trigger] ipnet_v4_text(o2, ph) by {
                        if s@.subrange(pos as int, end as int) == ipnet_v4_text(o2, ph) {
                            lemma_ipnet_v4_text_parts(s@, pos as int, end as int, o2, ph);
                            assert(s@.subrange(pos as int, slash as int) == ipv4_text(o2));
                            assert(s@[slash as int] == '/' && !is_dec_digit(s@[slash as int]));
                            assert(ar is Some && ar.unwrap().0@ == o2 && ar.unwrap().1 == slash);
                        }
                    }
                }
                return None;
            }
            let net = IpNet { v6: false, octets: o, prefix_len: p as u8 };
            proof {
                assert(s@.subrange(pos as int, slash as int) == ipv4_text(net.octets@));
                assert(s@[slash as int] == '/');
                assert(s@.subrange(slash + 1, end as int) == dec_digits(p as nat));
                assert(dec_digits(net.prefix_len as nat) == dec_digits(p as nat));
                assert(s@.subrange(pos as int, end as int) =~= ipnet_v4_text(
                    net.octets@,
                    net.prefix_len,
                ));
            }
            Some(net)
        } else {
            proof {
                assert forall|o: Seq<u8>, ph: u8|
                    o.len() == 4 && ph <= 32 implies s@.subrange(pos as int, end as int)
                    != #[trigger] ipnet_v4_text(o, ph) by {
                    if s@.subrange(pos as int, end as int) == ipnet_v4_text(o, ph) {
                        lemma_ipnet_v4_text_parts(s@, pos as int, end as int, o, ph);
                        let l0 = dec_digits(o[0] as nat).len() as int;
                        assert(s@.subrange(pos as int, slash as int) == ipv4_text(o));
                        assert(s@[pos + l0] == ipv4_text(o)[l0]);
                        lemma_ipv4_text_parts(s@, pos as int, slash as int, o);
                        assert(s@[pos + l0] == '.');
                        assert(pos <= pos + l0 < slash);
                    }
                }
            }
            if p > 128 {
                return None;
            }
            let o = match parse_ipv6(s, pos, slash) {
                Some(v) => v,
                None => { return None; },
            };
            Some(IpNet { v6: true, octets: o, prefix_len: p as u8 })
        }
    }
}

} // verus!

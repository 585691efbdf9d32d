//! The RFC 1035 wire codec: serialization of the DNS message model to
//! bytes and parsing of bytes back into the model, each side specified
//! against one serialization function, so that a parsed message is exactly
//! one that re-serializes to the input.
//!
//! The codec writes canonical, uncompressed messages and accepts only
//! those: a message whose names use compression pointers is rejected
//! rather than mis-read.

use vstd::prelude::*;
use crate::dns::{DnsMessage, DnsMessageType, DnsQuery, DnsRecord, DnsRData, DnsRecordType, DnsEdns,
    dot_pos, wf_dns_name, wf_name_labels, is_name_char, check_dns_name, lemma_dot_pos_bounds,
    lemma_dot_pos_unique, spec_edns_rdata_len};
use crate::text::ascii_bytes_to_string;

verus! {

broadcast use vstd::slice::axiom_spec_len;

/// An error of the wire codec: decoding met bytes that are not a canonical
/// message, or encoding was asked for a message that is not well formed.
#[derive(Clone, Copy, Debug, PartialEq, Eq, Structural)]
pub struct DnsCodecError {}

/// Big-endian bytes of a sixteen-bit value.
pub open spec fn be16(v: u16) -> Seq<u8> {
    seq![(v / 256) as u8, (v % 256) as u8]
}

/// Big-endian bytes of a thirty-two-bit value.
pub open spec fn be32(v: u32) -> Seq<u8> {
    seq![
        (v / 0x1000000) as u8,
        ((v / 0x10000) % 256) as u8,
        ((v / 256) % 256) as u8,
        (v % 256) as u8,
    ]
}

/// The characters the ASCII bytes stand for.
pub open spec fn bytes_as_chars(v: Seq<u8>) -> Seq<char> {
    v.map_values(|b: u8| b as char)
}

/// The bytes of the characters, which all lie below 128 in a well-formed
/// name.
pub open spec fn chars_as_bytes(s: Seq<char>) -> Seq<u8> {
    s.map_values(|c: char| c as u8)
}

pub fn push_be16(v: u16, out: &mut Vec<u8>)
    ensures
        final(out)@ == old(out)@ + be16(v),
{
    out.push((v / 256) as u8);
    out.push((v % 256) as u8);
    assert(final(out)@ =~= old(out)@ + be16(v));
}

pub fn push_be32(v: u32, out: &mut Vec<u8>)
    ensures
        final(out)@ == old(out)@ + be32(v),
{
    out.push((v / 0x1000000) as u8);
    out.push(((v / 0x10000) % 256) as u8);
    out.push(((v / 256) % 256) as u8);
    out.push((v % 256) as u8);
    assert(final(out)@ =~= old(out)@ + be32(v));
}

/// Reads the big-endian sixteen-bit value at `pos`.
pub fn read_u16(b: &[u8], pos: usize) -> (r: u16)
    requires
        pos + 2 <= b@.len(),
    ensures
        be16(r) == b@.subrange(pos as int, pos + 2),
        r == b@[pos as int] as int * 256 + b@[pos + 1] as int,
{
    let hi: u16 = b[pos] as u16;
    let lo: u16 = b[pos + 1] as u16;
    let r: u16 = hi * 256 + lo;
    proof {
        assert(r / 256 == hi && r % 256 == lo) by (nonlinear_arith)
            requires
                r == hi * 256 + lo,
                0 <= hi < 256,
                0 <= lo < 256,
        ;
        assert(be16(r) =~= b@.subrange(pos as int, pos + 2));
    }
    r
}

/// Reads the big-endian thirty-two-bit value at `pos`.
pub fn read_u32(b: &[u8], pos: usize) -> (r: u32)
    requires
        pos + 4 <= b@.len(),
    ensures
        be32(r) == b@.subrange(pos as int, pos + 4),
{
    let b0: u32 = b[pos] as u32;
    let b1: u32 = b[pos + 1] as u32;
    let b2: u32 = b[pos + 2] as u32;
    let b3: u32 = b[pos + 3] as u32;
    let r: u32 = b0 * 0x1000000 + b1 * 0x10000 + b2 * 256 + b3;
    proof {
        assert(r / 0x1000000 == b0 && (r / 0x10000) % 256 == b1 && (r / 256) % 256 == b2 && r
            % 256 == b3) by (nonlinear_arith)
            requires
                r == b0 * 0x1000000 + b1 * 0x10000 + b2 * 256 + b3,
                0 <= b0 < 256,
                0 <= b1 < 256,
                0 <= b2 < 256,
                0 <= b3 < 256,
        ;
        assert(be32(r) =~= b@.subrange(pos as int, pos + 4));
    }
    r
}

/// The wire encoding of a dot-terminated label sequence: each label as a
/// length octet and its bytes, closed by a zero octet.
pub open spec fn ser_name_labels(s: Seq<char>) -> Seq<u8>
    decreases s.len(),
{
    if s.len() == 0 {
        seq![0u8]
    } else {
        let k = dot_pos(s);
        if 0 <= k < s.len() {
            seq![k as u8] + chars_as_bytes(s.subrange(0, k)) + ser_name_labels(s.skip(k + 1))
        } else {
            seq![0u8]
        }
    }
}

/// The wire encoding of a well-formed domain name.
pub open spec fn ser_name(s: Seq<char>) -> Seq<u8> {
    if s.len() <= 1 {
        seq![0u8]
    } else {
        ser_name_labels(s)
    }
}

/// A well-formed label sequence encodes to one byte more than its length.
pub proof fn lemma_ser_name_labels_len(s: Seq<char>)
    requires
        wf_name_labels(s),
    ensures
        ser_name_labels(s).len() == s.len() + 1,
    decreases s.len(),
{
    if s.len() != 0 {
        let k = dot_pos(s);
        lemma_dot_pos_bounds(s);
        lemma_ser_name_labels_len(s.skip(k + 1));
    }
}

/// A well-formed name encodes to `len + 1` bytes, except the root name,
/// which encodes to the single zero byte.
pub proof fn lemma_ser_name_len(s: Seq<char>)
    requires
        wf_dns_name(s),
    ensures
        ser_name(s).len() == if s.len() <= 1 {
            1int
        } else {
            s.len() + 1int
        },
{
    if s.len() > 1 {
        lemma_ser_name_labels_len(s);
    }
}

/// Appends the wire encoding of a well-formed name.
pub fn push_name(name: &str, out: &mut Vec<u8>)
    requires
        wf_dns_name(name@),
    ensures
        final(out)@ == old(out)@ + ser_name(name@),
{
    proof {
        if name@.len() > 1 {
            crate::dns::lemma_wf_name_labels_ascii(name@);
            assert(vstd::utf8::is_ascii_chars(name@));
        } else {
            reveal_strlit(".");
            assert(vstd::utf8::is_ascii_chars(name@));
        }
        assert(name.is_ascii());
    }
    let n: usize = name.unicode_len();
    if n <= 1 {
        out.push(0);
        proof {
            assert(final(out)@ =~= old(out)@ + ser_name(name@));
        }
        return ;
    }
    let ghost base = out@;
    proof {
        assert(name@.skip(0) =~= name@);
    }
    let mut i: usize = 0;
    while i < n
        invariant
            name.is_ascii(),
            name@.len() == n,
            1 < n <= 254,
            0 <= i <= n,
            wf_name_labels(name@.skip(i as int)),
            base + ser_name_labels(name@) == out@ + ser_name_labels(name@.skip(i as int)),
        decreases n - i,
    {
        let ghost rest = name@.skip(i as int);
        let ghost out0 = out@;
        proof {
            lemma_dot_pos_bounds(rest);
        }
        let mut k: usize = i;
        while k < n && name.get_ascii(k) != 46
            invariant
                name.is_ascii(),
                name@.len() == n,
                i <= k <= n,
                forall|m: int| i <= m < k ==> name@[m] != '.',
            decreases n - k,
        {
            k += 1;
        }
        proof {
            assert forall|m: int| 0 <= m < k - i implies rest[m] != '.' by {
                assert(rest[m] == name@[i + m]);
            }
            if k < n {
                assert(rest[k - i] == name@[k as int]);
            }
            lemma_dot_pos_unique(rest, k - i);
            // the label sequence is well formed, so a closing dot exists
            assert(k < n && 1 <= k - i <= 63);
        }
        let label_len: usize = k - i;
        out.push(label_len as u8);
        proof {
            assert(out@ =~= out0 + seq![label_len as u8] + chars_as_bytes(
                name@.subrange(i as int, i as int),
            ));
        }
        let mut m: usize = i;
        while m < k
            invariant
                name.is_ascii(),
                name@.len() == n,
                i <= m <= k < n,
                label_len == k - i,
                out@ == out0 + seq![label_len as u8] + chars_as_bytes(
                    name@.subrange(i as int, m as int),
                ),
            decreases k - m,
        {
            out.push(name.get_ascii(m));
            proof {
                assert(out@ =~= out0 + seq![label_len as u8] + chars_as_bytes(
                    name@.subrange(i as int, m + 1),
                ));
            }
            m += 1;
        }
        proof {
            let ghost ll = label_len as int;
            assert(rest.subrange(0, ll) =~= name@.subrange(i as int, k as int));
            assert(rest.skip(ll + 1) =~= name@.skip(k + 1));
            assert(ser_name_labels(rest) == seq![label_len as u8] + chars_as_bytes(
                rest.subrange(0, ll),
            ) + ser_name_labels(rest.skip(ll + 1)));
            assert(out@ + ser_name_labels(name@.skip(k + 1)) =~= out0 + ser_name_labels(rest));
        }
        i = k + 1;
    }
    out.push(0);
    proof {
        assert(name@.skip(n as int) =~= Seq::<char>::empty());
        assert(final(out)@ =~= base + ser_name_labels(name@));
    }
}

/// Casting ASCII bytes to characters and back is the identity.
pub proof fn lemma_bytes_chars_roundtrip(v: Seq<u8>)
    requires
        forall|i: int| 0 <= i < v.len() ==> v[i] < 128,
    ensures
        chars_as_bytes(bytes_as_chars(v)) == v,
{
    assert(chars_as_bytes(bytes_as_chars(v)) =~= v);
}

/// The first label of a well-formed, nonempty label sequence, as its
/// encoding shows it: the length byte, the label bytes, and the encoded
/// tail.
pub proof fn lemma_ser_name_labels_first(cs: Seq<char>)
    requires
        wf_name_labels(cs),
        cs.len() > 0,
    ensures
        1 <= dot_pos(cs) <= 63,
        dot_pos(cs) < cs.len(),
        ser_name_labels(cs).len() == cs.len() + 1,
        ser_name_labels(cs)[0] == dot_pos(cs) as u8,
        forall|j: int|
            0 <= j < dot_pos(cs) ==> #[trigger] ser_name_labels(cs)[1 + j] == cs[j] as u8
                && is_name_char(cs[j]),
        ser_name_labels(cs).skip(dot_pos(cs) + 1) == ser_name_labels(cs.skip(dot_pos(cs) + 1)),
        wf_name_labels(cs.skip(dot_pos(cs) + 1)),
        cs.skip(dot_pos(cs) + 1).len() == cs.len() - dot_pos(cs) - 1,
{
    let k = dot_pos(cs);
    lemma_dot_pos_bounds(cs);
    lemma_ser_name_labels_len(cs);
    assert(ser_name_labels(cs) == seq![k as u8] + chars_as_bytes(cs.subrange(0, k))
        + ser_name_labels(cs.skip(k + 1)));
    assert forall|j: int|
        0 <= j < k implies #[trigger] ser_name_labels(cs)[1 + j] == cs[j] as u8 && is_name_char(
        cs[j],
    ) by {
        assert(chars_as_bytes(cs.subrange(0, k))[j] == cs.subrange(0, k)[j] as u8);
    }
    lemma_ser_name_labels_len(cs.skip(k + 1));
    assert(ser_name_labels(cs).skip(k + 1) =~= ser_name_labels(cs.skip(k + 1)));
}

/// A well-formed label sequence whose encoding occupies `[pos, e2)` of
/// `b`, starting with a length byte `llu`, decomposes into that first
/// label and an encoded tail.
pub proof fn lemma_labels_hyp_decompose(b: Seq<u8>, pos: int, e2: int, cs: Seq<char>, llu: int)
    requires
        wf_name_labels(cs),
        cs.len() <= 254,
        0 <= pos <= e2 <= b.len(),
        ser_name_labels(cs) == b.subrange(pos, e2),
        1 <= llu <= 63,
        b[pos] == llu as u8,
    ensures
        cs.len() >= 1,
        dot_pos(cs) == llu,
        e2 == pos + cs.len() + 1,
        e2 >= pos + 2 + llu,
        wf_name_labels(cs.skip(llu + 1)),
        cs.skip(llu + 1).len() == cs.len() - llu - 1,
        cs.skip(llu + 1).len() <= 254,
        ser_name_labels(cs.skip(llu + 1)) == b.subrange(pos + 1 + llu, e2),
        forall|j: int| 0 <= j < llu ==> b[pos + 1 + j] == cs[j] as u8 && is_name_char(cs[j]),
        cs[llu] == '.',
{
    if cs.len() == 0 {
        assert(ser_name_labels(cs) == seq![0u8]);
        assert(e2 - pos == 1);
        assert(b[pos] == b.subrange(pos, e2)[0]);
        assert(false);
    }
    lemma_ser_name_labels_first(cs);
    lemma_dot_pos_bounds(cs);
    assert(e2 == pos + cs.len() + 1);
    assert(b[pos] == b.subrange(pos, e2)[0]);
    assert(b[pos] == dot_pos(cs) as u8);
    assert(dot_pos(cs) == llu);
    assert(ser_name_labels(cs.skip(llu + 1)) =~= b.subrange(pos + 1 + llu, e2)) by {
        assert forall|t: int|
            0 <= t < e2 - (pos + 1 + llu) implies #[trigger] ser_name_labels(cs.skip(llu + 1))[t]
            == b[pos + 1 + llu + t] by {
            assert(ser_name_labels(cs.skip(llu + 1))[t] == ser_name_labels(cs).skip(llu + 1)[t]);
            assert(ser_name_labels(cs)[llu + 1 + t] == b.subrange(pos, e2)[llu + 1 + t]);
        }
    }
    assert forall|j: int|
        0 <= j < llu implies b[pos + 1 + j] == cs[j] as u8 && is_name_char(cs[j]) by {
        assert(ser_name_labels(cs)[1 + j] == b.subrange(pos, e2)[1 + j]);
    }
}

/// Reads an uncompressed name's label sequence starting at `pos`, returned
/// as the ASCII bytes of its dot-terminated text (empty for the root name).
/// The returned text re-encodes to exactly the consumed bytes. Compression
/// pointers and labels with bytes outside the printable ASCII range are
/// rejected.
pub fn parse_name_labels(b: &[u8], pos: usize) -> (r: Option<(Vec<u8>, usize)>)
    requires
        pos <= b@.len(),
    ensures
        match r {
            Some(v) => {
                &&& pos < v.1 <= b@.len()
                &&& v.0@.len() <= 254
                &&& (forall|t: int| 0 <= t < v.0@.len() ==> #[trigger] v.0@[t] < 128)
                &&& wf_name_labels(bytes_as_chars(v.0@))
                &&& ser_name_labels(bytes_as_chars(v.0@)) == b@.subrange(pos as int, v.1 as int)
            },
            None => true,
        },
        forall|cs: Seq<char>, e2: int|
            #![trigger ser_name_labels(cs), b@.subrange(pos as int, e2)]
            {
                &&& wf_name_labels(cs)
                &&& cs.len() <= 254
                &&& pos <= e2 <= b@.len()
                &&& ser_name_labels(cs) == b@.subrange(pos as int, e2)
            } ==> (r is Some && r.unwrap().1 == e2 && bytes_as_chars(r.unwrap().0@) == cs),
    decreases b@.len() - pos,
{
    if pos >= b.len() {
        proof {
            assert forall|cs: Seq<char>, e2: int|
                #![trigger ser_name_labels(cs), b@.subrange(pos as int, e2)]
                {
                    &&& wf_name_labels(cs)
                    &&& cs.len() <= 254
                    &&& pos <= e2 <= b@.len()
                    &&& ser_name_labels(cs) == b@.subrange(pos as int, e2)
                } implies false by {
                if cs.len() == 0 {
                    assert(ser_name_labels(cs) == seq![0u8]);
                } else {
                    lemma_ser_name_labels_first(cs);
                }
                assert(e2 - pos >= 1);
            }
        }
        return None;
    }
    let ll: u8 = b[pos];
    if ll == 0 {
        let chars: Vec<u8> = Vec::new();
        proof {
            assert(bytes_as_chars(chars@) =~= Seq::<char>::empty());
            assert(ser_name_labels(bytes_as_chars(chars@)) =~= b@.subrange(pos as int, pos + 1));
            assert forall|cs: Seq<char>, e2: int|
                #![trigger ser_name_labels(cs), b@.subrange(pos as int, e2)]
                {
                    &&& wf_name_labels(cs)
                    &&& cs.len() <= 254
                    &&& pos <= e2 <= b@.len()
                    &&& ser_name_labels(cs) == b@.subrange(pos as int, e2)
                } implies pos < e2 && e2 == pos + 1 && bytes_as_chars(chars@) == cs by {
                if cs.len() == 0 {
                    assert(ser_name_labels(cs) == seq![0u8]);
                    assert(e2 - pos == 1);
                    assert(bytes_as_chars(chars@) =~= cs);
                } else {
                    lemma_ser_name_labels_first(cs);
                    assert(b@[pos as int] == b@.subrange(pos as int, e2)[0]);
                    assert(b@[pos as int] == dot_pos(cs) as u8);
                    assert(false);
                }
            }
        }
        return Some((chars, pos + 1));
    }
    if ll > 63 {
        proof {
            assert forall|cs: Seq<char>, e2: int|
                #![trigger ser_name_labels(cs), b@.subrange(pos as int, e2)]
                {
                    &&& wf_name_labels(cs)
                    &&& cs.len() <= 254
                    &&& pos <= e2 <= b@.len()
                    &&& ser_name_labels(cs) == b@.subrange(pos as int, e2)
                } implies false by {
                if cs.len() == 0 {
                    assert(ser_name_labels(cs) == seq![0u8]);
                    assert(e2 - pos == 1);
                    assert(b@[pos as int] == b@.subrange(pos as int, e2)[0]);
                    assert(b@[pos as int] == 0);
                } else {
                    lemma_ser_name_labels_first(cs);
                    assert(e2 - pos == cs.len() + 1);
                    assert(b@[pos as int] == b@.subrange(pos as int, e2)[0]);
                    assert(b@[pos as int] == dot_pos(cs) as u8);
                }
            }
        }
        return None;
    }
    let llu: usize = ll as usize;
    if llu > b.len() - (pos + 1) {
        proof {
            assert forall|cs: Seq<char>, e2: int|
                #![trigger ser_name_labels(cs), b@.subrange(pos as int, e2)]
                {
                    &&& wf_name_labels(cs)
                    &&& cs.len() <= 254
                    &&& pos <= e2 <= b@.len()
                    &&& ser_name_labels(cs) == b@.subrange(pos as int, e2)
                } implies false by {
                if cs.len() == 0 {
                    assert(ser_name_labels(cs) == seq![0u8]);
                    assert(e2 - pos == 1);
                    assert(b@[pos as int] == b@.subrange(pos as int, e2)[0]);
                    assert(b@[pos as int] == 0);
                } else {
                    lemma_ser_name_labels_first(cs);
                    assert(cs.len() >= dot_pos(cs) + 1);
                    assert(e2 == pos + cs.len() + 1);
                    assert(b@[pos as int] == b@.subrange(pos as int, e2)[0]);
                    assert(b@[pos as int] == dot_pos(cs) as u8);
                }
            }
        }
        return None;
    }
    let mut chars: Vec<u8> = Vec::new();
    let next: usize = pos + 1 + llu;
    let mut idx: usize = pos + 1;
    while idx < next
        invariant
            next == pos + 1 + llu,
            llu == ll,
            ll == b@[pos as int],
            next <= b@.len(),
            pos + 1 <= idx <= next,
            chars@ == b@.subrange(pos + 1, idx as int),
            forall|t: int|
                0 <= t < chars@.len() ==> 33 <= #[trigger] chars@[t] <= 126 && chars@[t] != 46,
        decreases next - idx,
    {
        let c: u8 = b[idx];
        if c < 33 || c > 126 || c == 46 {
            proof {
                assert forall|cs: Seq<char>, e2: int|
                #![trigger ser_name_labels(cs), b@.subrange(pos as int, e2)]
                {
                    &&& wf_name_labels(cs)
                    &&& cs.len() <= 254
                    &&& pos <= e2 <= b@.len()
                    &&& ser_name_labels(cs) == b@.subrange(pos as int, e2)
                } implies false by {
                    if cs.len() == 0 {
                        assert(ser_name_labels(cs) == seq![0u8]);
                        assert(e2 - pos == 1);
                        assert(b@[pos as int] == b@.subrange(pos as int, e2)[0]);
                        assert(b@[pos as int] == 0);
                    } else {
                        lemma_ser_name_labels_first(cs);
                        assert(cs.len() >= dot_pos(cs) + 1);
                        assert(e2 == pos + cs.len() + 1);
                        assert(b@[pos as int] == b@.subrange(pos as int, e2)[0]);
                        assert(b@[pos as int] == dot_pos(cs) as u8);
                        let j: int = idx - pos - 1;
                        assert(0 <= j < dot_pos(cs));
                        assert(b@[idx as int] == b@.subrange(pos as int, e2)[1 + j]);
                        assert(b@[idx as int] == cs[j] as u8 && is_name_char(cs[j]));
                    }
                }
            }
            return None;
        }
        chars.push(c);
        proof {
            assert(chars@ =~= b@.subrange(pos + 1, idx + 1));
        }
        idx += 1;
    }
    match parse_name_labels(b, next) {
        None => {
            proof {
                assert forall|cs: Seq<char>, e2: int|
                    #![trigger ser_name_labels(cs), b@.subrange(pos as int, e2)]
                    {
                        &&& wf_name_labels(cs)
                        &&& cs.len() <= 254
                        &&& pos <= e2 <= b@.len()
                        &&& ser_name_labels(cs) == b@.subrange(pos as int, e2)
                    } implies false by {
                    lemma_labels_hyp_decompose(b@, pos as int, e2, cs, llu as int);
                    assert(ser_name_labels(cs.skip(llu + 1)) == b@.subrange(next as int, e2));
                }
            }
            None
        },
        Some((rest, end)) => {
            if rest.len() > 254 - (llu + 1) {
                proof {
                    assert forall|cs: Seq<char>, e2: int|
                        #![trigger ser_name_labels(cs), b@.subrange(pos as int, e2)]
                        {
                            &&& wf_name_labels(cs)
                            &&& cs.len() <= 254
                            &&& pos <= e2 <= b@.len()
                            &&& ser_name_labels(cs) == b@.subrange(pos as int, e2)
                        } implies false by {
                        lemma_labels_hyp_decompose(b@, pos as int, e2, cs, llu as int);
                        assert(ser_name_labels(cs.skip(llu + 1)) == b@.subrange(next as int, e2));
                        assert(bytes_as_chars(rest@) == cs.skip(llu + 1));
                        assert(bytes_as_chars(rest@).len() == rest@.len());
                        assert(rest@.len() == cs.len() - llu - 1);
                    }
                }
                return None;
            }
            let ghost label_bytes = chars@;
            chars.push(46);
            let mut t: usize = 0;
            while t < rest.len()
                invariant
                    0 <= t <= rest@.len(),
                    chars@ == label_bytes + seq![46u8] + rest@.subrange(0, t as int),
                decreases rest@.len() - t,
            {
                let c: u8 = rest[t];
                chars.push(c);
                proof {
                    assert(chars@ =~= label_bytes + seq![46u8] + rest@.subrange(0, t + 1));
                }
                t += 1;
            }
            proof {
                assert(rest@.subrange(0, rest@.len() as int) =~= rest@);
                assert(chars@ =~= label_bytes + seq![46u8] + rest@);
                let cs = bytes_as_chars(chars@);
                assert forall|q: int| 0 <= q < llu implies cs[q] != '.' by {
                    assert(chars@[q] == label_bytes[q]);
                }
                assert(chars@[llu as int] == 46);
                assert(cs[llu as int] == '.');
                lemma_dot_pos_unique(cs, llu as int);
                assert(dot_pos(cs) == llu);
                assert forall|q: int| 0 <= q < llu implies is_name_char(cs[q]) by {
                    assert(chars@[q] == label_bytes[q]);
                }
                assert(cs.skip(llu + 1) =~= bytes_as_chars(rest@));
                assert(wf_name_labels(cs));
                assert(cs.subrange(0, llu as int) =~= bytes_as_chars(label_bytes));
                lemma_bytes_chars_roundtrip(label_bytes);
                assert(chars_as_bytes(cs.subrange(0, llu as int)) == label_bytes);
                assert(ser_name_labels(cs) == seq![ll] + label_bytes + ser_name_labels(
                    bytes_as_chars(rest@),
                ));
                assert(label_bytes =~= b@.subrange(pos + 1, next as int));
                assert(ser_name_labels(cs) =~= b@.subrange(pos as int, end as int));
            }
            proof {
                assert forall|cs2: Seq<char>, e2: int|
                    #![trigger ser_name_labels(cs2), b@.subrange(pos as int, e2)]
                    {
                        &&& wf_name_labels(cs2)
                        &&& cs2.len() <= 254
                        &&& pos <= e2 <= b@.len()
                        &&& ser_name_labels(cs2) == b@.subrange(pos as int, e2)
                    } implies end == e2 && bytes_as_chars(chars@) == cs2 by {
                    lemma_labels_hyp_decompose(b@, pos as int, e2, cs2, llu as int);
                    assert(ser_name_labels(cs2.skip(llu + 1)) == b@.subrange(next as int, e2));
                    assert(bytes_as_chars(rest@) == cs2.skip(llu + 1));
                    assert(end == e2);
                    assert(bytes_as_chars(chars@) =~= cs2) by {
                        assert(chars@.len() == llu + 1 + rest@.len());
                        assert(cs2.skip(llu + 1).len() == cs2.len() - llu - 1);
                        assert(bytes_as_chars(rest@).len() == rest@.len());
                        assert(rest@.len() == cs2.len() - llu - 1);
                        assert(chars@.len() == cs2.len());
                        assert forall|j: int|
                            0 <= j < chars@.len() implies bytes_as_chars(chars@)[j] == cs2[j] by {
                            assert(bytes_as_chars(chars@)[j] == chars@[j] as char);
                            if j < llu {
                                assert(chars@[j] == label_bytes[j]);
                                assert(label_bytes[j] == b@[pos + 1 + j]);
                                assert(b@[pos + 1 + j] == cs2[j] as u8 && is_name_char(cs2[j]));
                            } else if j == llu {
                                assert(chars@[j] == 46);
                                assert(cs2[llu as int] == '.');
                            } else {
                                assert(chars@[j] == rest@[j - llu - 1]);
                                assert(bytes_as_chars(rest@)[j - llu - 1] == rest@[j - llu
                                    - 1] as char);
                                assert(cs2.skip(llu + 1)[j - llu - 1] == cs2[j]);
                            }
                        }
                    }
                }
            }
            Some((chars, end))
        },
    }
}

/// Reads an uncompressed domain name starting at `pos`: the returned name
/// is well formed and re-encodes to exactly the consumed bytes.
pub fn parse_name(b: &[u8], pos: usize) -> (r: Option<(String, usize)>)
    requires
        pos <= b@.len(),
    ensures
        match r {
            Some(v) => {
                &&& pos < v.1 <= b@.len()
                &&& wf_dns_name(v.0@)
                &&& ser_name(v.0@) == b@.subrange(pos as int, v.1 as int)
            },
            None => true,
        },
        forall|nm: Seq<char>, e2: int|
            #![trigger ser_name(nm), b@.subrange(pos as int, e2)]
            {
                &&& wf_dns_name(nm)
                &&& pos <= e2 <= b@.len()
                &&& ser_name(nm) == b@.subrange(pos as int, e2)
            } ==> (r is Some && r.unwrap().0@ == nm && r.unwrap().1 == e2),
{
    match parse_name_labels(b, pos) {
        None => {
            proof {
                assert forall|nm: Seq<char>, e2: int|
                    #![trigger ser_name(nm), b@.subrange(pos as int, e2)]
                    {
                        &&& wf_dns_name(nm)
                        &&& pos <= e2 <= b@.len()
                        &&& ser_name(nm) == b@.subrange(pos as int, e2)
                    } implies false by {
                    if nm.len() <= 1 {
                        assert(ser_name_labels(Seq::<char>::empty()) == seq![0u8]);
                        assert(ser_name_labels(Seq::<char>::empty()) == b@.subrange(
                            pos as int,
                            e2,
                        ));
                    } else {
                        assert(ser_name_labels(nm) == b@.subrange(pos as int, e2));
                    }
                }
            }
            None
        },
        Some((chars, end)) => {
            if chars.len() == 0 {
                let s = String::from_str(".");
                proof {
                    reveal_strlit(".");
                    assert(s@ =~= seq!['.']);
                    assert(bytes_as_chars(chars@) =~= Seq::<char>::empty());
                    assert forall|nm: Seq<char>, e2: int|
                        #![trigger ser_name(nm), b@.subrange(pos as int, e2)]
                        {
                            &&& wf_dns_name(nm)
                            &&& pos <= e2 <= b@.len()
                            &&& ser_name(nm) == b@.subrange(pos as int, e2)
                        } implies s@ == nm && end == e2 by {
                        if nm.len() <= 1 {
                            assert(ser_name_labels(Seq::<char>::empty()) == seq![0u8]);
                            assert(ser_name_labels(Seq::<char>::empty()) == b@.subrange(
                                pos as int,
                                e2,
                            ));
                            assert(bytes_as_chars(chars@) == Seq::<char>::empty());
                            assert(end == e2);
                        } else {
                            assert(ser_name_labels(nm) == b@.subrange(pos as int, e2));
                            assert(bytes_as_chars(chars@) == nm);
                            assert(bytes_as_chars(chars@).len() == chars@.len());
                            assert(false);
                        }
                    }
                }
                Some((s, end))
            } else {
                let s = ascii_bytes_to_string(&chars);
                proof {
                    let cs = bytes_as_chars(chars@);
                    assert(s@ =~= cs);
                    lemma_dot_pos_bounds(cs);
                    assert(cs.len() >= 2);
                    assert(wf_dns_name(s@));
                    assert(ser_name(s@) == b@.subrange(pos as int, end as int));
                    assert forall|nm: Seq<char>, e2: int|
                        #![trigger ser_name(nm), b@.subrange(pos as int, e2)]
                        {
                            &&& wf_dns_name(nm)
                            &&& pos <= e2 <= b@.len()
                            &&& ser_name(nm) == b@.subrange(pos as int, e2)
                        } implies s@ == nm && end == e2 by {
                        if nm.len() <= 1 {
                            assert(ser_name_labels(Seq::<char>::empty()) == seq![0u8]);
                            assert(ser_name_labels(Seq::<char>::empty()) == b@.subrange(
                                pos as int,
                                e2,
                            ));
                            assert(bytes_as_chars(chars@) == Seq::<char>::empty());
                            assert(bytes_as_chars(chars@).len() == chars@.len());
                            assert(false);
                        } else {
                            assert(ser_name_labels(nm) == b@.subrange(pos as int, e2));
                            assert(bytes_as_chars(chars@) == nm);
                            assert(end == e2);
                        }
                    }
                }
                Some((s, end))
            }
        },
    }
}

/// The wire encoding of a question: name, type, class.
pub open spec fn ser_question(q: DnsQuery) -> Seq<u8> {
    ser_name(q.name@) + be16(q.query_type.spec_to_u16()) + be16(q.query_class)
}

pub open spec fn ser_questions(qs: Seq<DnsQuery>) -> Seq<u8>
    decreases qs.len(),
{
    if qs.len() == 0 {
        Seq::empty()
    } else {
        ser_question(qs[0]) + ser_questions(qs.skip(1))
    }
}

/// The RDATA bytes of a record.
pub open spec fn rdata_bytes(rd: DnsRData) -> Seq<u8> {
    match rd {
        DnsRData::A(v) => v@,
        DnsRData::AAAA(v) => v@,
        DnsRData::CNAME(n) => ser_name(n@),
        DnsRData::NS(n) => ser_name(n@),
        DnsRData::PTR(n) => ser_name(n@),
        DnsRData::Unknown(v) => v@,
    }
}

/// The wire encoding of a resource record: name, type, class, TTL, RDATA
/// length, RDATA.
pub open spec fn ser_record(r: DnsRecord) -> Seq<u8> {
    ser_name(r.name@) + be16(r.record_type.spec_to_u16()) + be16(r.dns_class) + be32(r.ttl) + be16(
        rdata_bytes(r.rdata).len() as u16,
    ) + rdata_bytes(r.rdata)
}

pub open spec fn ser_records(rs: Seq<DnsRecord>) -> Seq<u8>
    decreases rs.len(),
{
    if rs.len() == 0 {
        Seq::empty()
    } else {
        ser_record(rs[0]) + ser_records(rs.skip(1))
    }
}

/// The wire encoding of EDNS options: code, length and data of each.
pub open spec fn ser_edns_options(opts: Seq<(u16, Vec<u8>)>) -> Seq<u8>
    decreases opts.len(),
{
    if opts.len() == 0 {
        Seq::empty()
    } else {
        be16(opts[0].0) + be16(opts[0].1@.len() as u16) + opts[0].1@ + ser_edns_options(
            opts.skip(1),
        )
    }
}

/// The wire encoding of the EDNS pseudo-record: an OPT record under the
/// root name whose class holds the payload size and whose TTL packs the
/// extended response code, version and flags.
pub open spec fn ser_edns(e: DnsEdns) -> Seq<u8> {
    seq![0u8] + be16(41) + be16(e.payload_size) + seq![e.ext_rcode, e.version] + be16(e.flags)
        + be16(spec_edns_rdata_len(e.options@) as u16) + ser_edns_options(e.options@)
}

/// Every option list's RDATA length is nonnegative.
pub proof fn lemma_edns_rdata_len_nonneg_all()
    ensures
        forall|opts: Seq<(u16, Vec<u8>)>| #[trigger] spec_edns_rdata_len(opts) >= 0,
{
    assert forall|opts: Seq<(u16, Vec<u8>)>| #[trigger] spec_edns_rdata_len(opts) >= 0 by {
        lemma_edns_rdata_len_nonneg(opts);
    }
}

pub proof fn lemma_edns_rdata_len_nonneg(opts: Seq<(u16, Vec<u8>)>)
    ensures
        spec_edns_rdata_len(opts) >= 0,
    decreases opts.len(),
{
    if opts.len() != 0 {
        lemma_edns_rdata_len_nonneg(opts.skip(1));
    }
}

/// The encoded options take exactly the RDATA length the header announces.
pub proof fn lemma_ser_edns_options_len(opts: Seq<(u16, Vec<u8>)>)
    requires
        forall|i: int| 0 <= i < opts.len() ==> #[trigger] opts[i].1@.len() <= 0xFFFF,
    ensures
        ser_edns_options(opts).len() == spec_edns_rdata_len(opts),
    decreases opts.len(),
{
    if opts.len() != 0 {
        assert forall|i: int| 0 <= i < opts.skip(1).len() implies #[trigger] opts.skip(
            1,
        )[i].1@.len() <= 0xFFFF by {
            assert(opts.skip(1)[i] == opts[i + 1]);
        }
        lemma_ser_edns_options_len(opts.skip(1));
    }
}

/// The first header flag byte: QR, opcode, AA, TC, RD.
pub open spec fn spec_flags1(m: DnsMessage) -> u8 {
    ((if m.message_type == DnsMessageType::Response {
        128int
    } else {
        0int
    }) + m.op_code * 8 + (if m.authoritative {
        4int
    } else {
        0int
    }) + (if m.truncated {
        2int
    } else {
        0int
    }) + (if m.recursion_desired {
        1int
    } else {
        0int
    })) as u8
}

/// The second header flag byte: RA, AD, CD, RCODE; the reserved Z bit is
/// always written as zero.
pub open spec fn spec_flags2(m: DnsMessage) -> u8 {
    ((if m.recursion_available {
        128int
    } else {
        0int
    }) + (if m.authentic_data {
        32int
    } else {
        0int
    }) + (if m.checking_disabled {
        16int
    } else {
        0int
    }) + m.response_code) as u8
}

/// The additional-section count: the plain additional records plus the OPT
/// pseudo-record when EDNS is present.
pub open spec fn spec_arcount(m: DnsMessage) -> int {
    m.additionals@.len() + if m.edns is Some {
        1int
    } else {
        0int
    }
}

/// The canonical wire encoding of a well-formed message: the twelve-byte
/// header, then the four sections, the EDNS pseudo-record last.
pub open spec fn ser_message(m: DnsMessage) -> Seq<u8> {
    be16(m.id) + seq![spec_flags1(m), spec_flags2(m)] + be16(m.queries@.len() as u16) + be16(
        m.answers@.len() as u16,
    ) + be16(m.name_servers@.len() as u16) + be16(spec_arcount(m) as u16) + ser_questions(
        m.queries@,
    ) + ser_records(m.answers@) + ser_records(m.name_servers@) + ser_records(m.additionals@)
        + match m.edns {
        Some(e) => ser_edns(e),
        None => Seq::<u8>::empty(),
    }
}

/// Whether the record type's numeric value is one with a variant of its own.
fn check_record_type_wf(t: DnsRecordType) -> (r: bool)
    ensures
        r == t.wf(),
{
    match t {
        DnsRecordType::Unknown(v) => v != 1 && v != 2 && v != 5 && v != 12 && v != 28 && v != 41,
        _ => true,
    }
}

/// Whether a record satisfies the model's well-formedness.
fn check_record_wf(r: &DnsRecord) -> (res: bool)
    ensures
        res == r.wf(),
{
    if !check_dns_name(r.name.as_str()) {
        return false;
    }
    if !check_record_type_wf(r.record_type) {
        return false;
    }
    if r.record_type == DnsRecordType::OPT {
        return false;
    }
    match &r.rdata {
        DnsRData::A(v) => r.record_type == DnsRecordType::A && v.len() == 4,
        DnsRData::AAAA(v) => r.record_type == DnsRecordType::AAAA && v.len() == 16,
        DnsRData::CNAME(n) => r.record_type == DnsRecordType::CNAME && check_dns_name(n.as_str()),
        DnsRData::NS(n) => r.record_type == DnsRecordType::NS && check_dns_name(n.as_str()),
        DnsRData::PTR(n) => r.record_type == DnsRecordType::PTR && check_dns_name(n.as_str()),
        DnsRData::Unknown(v) => v.len() <= 0xFFFF,
    }
}

/// Whether every record of the section is well formed.
fn check_records_wf(rs: &Vec<DnsRecord>) -> (res: bool)
    ensures
        res == forall|i: int| 0 <= i < rs@.len() ==> #[trigger] rs@[i].wf(),
{
    let mut i: usize = 0;
    while i < rs.len()
        invariant
            0 <= i <= rs@.len(),
            forall|k: int| 0 <= k < i ==> #[trigger] rs@[k].wf(),
        decreases rs@.len() - i,
    {
        if !check_record_wf(&rs[i]) {
            return false;
        }
        i += 1;
    }
    true
}

/// Whether the EDNS pseudo-record fits its length fields.
fn check_edns_wf(e: &DnsEdns) -> (res: bool)
    ensures
        res == e.wf(),
{
    if e.options.len() > 0xFFFF {
        return false;
    }
    let mut acc: u32 = 0;
    let mut i: usize = 0;
    proof {
        assert(e.options@.skip(0) =~= e.options@);
    }
    while i < e.options.len()
        invariant
            0 <= i <= e.options@.len(),
            acc <= 0xFFFF,
            forall|k: int| 0 <= k < i ==> #[trigger] e.options@[k].1@.len() <= 0xFFFF,
            spec_edns_rdata_len(e.options@) == acc + spec_edns_rdata_len(
                e.options@.skip(i as int),
            ),
        decreases e.options@.len() - i,
    {
        let dlen: usize = e.options[i].1.len();
        if dlen > 0xFFFF {
            proof {
                lemma_edns_rdata_len_nonneg(e.options@.skip(i as int));
            }
            return false;
        }
        proof {
            assert(e.options@.skip(i as int)[0] == e.options@[i as int]);
            assert(e.options@.skip(i as int).skip(1) =~= e.options@.skip(i + 1));
            lemma_edns_rdata_len_nonneg(e.options@.skip(i + 1));
        }
        let step: u32 = 4 + dlen as u32;
        if acc + step > 0xFFFF {
            proof {
                lemma_edns_rdata_len_nonneg(e.options@.skip(i + 1));
            }
            return false;
        }
        acc = acc + step;
        i += 1;
    }
    proof {
        assert(e.options@.skip(e.options@.len() as int) =~= Seq::<(u16, Vec<u8>)>::empty());
    }
    true
}

/// Whether the message is well formed, exactly as `DnsMessage::wf` states.
pub fn check_message_wf(m: &DnsMessage) -> (res: bool)
    ensures
        res == m.wf(),
{
    if m.op_code >= 16 || m.response_code >= 16 {
        return false;
    }
    if m.queries.len() > 0xFFFF || m.answers.len() > 0xFFFF || m.name_servers.len() > 0xFFFF {
        return false;
    }
    let edns_extra: usize = match &m.edns {
        Some(_) => 1,
        None => 0,
    };
    if m.additionals.len() > 0xFFFF - edns_extra {
        return false;
    }
    let mut i: usize = 0;
    while i < m.queries.len()
        invariant
            0 <= i <= m.queries@.len(),
            forall|k: int| 0 <= k < i ==> #[trigger] m.queries@[k].wf(),
        decreases m.queries@.len() - i,
    {
        let q = &m.queries[i];
        if !check_dns_name(q.name.as_str()) || !check_record_type_wf(q.query_type) {
            proof {
                assert(!m.queries@[i as int].wf());
            }
            return false;
        }
        i += 1;
    }
    if !check_records_wf(&m.answers) {
        return false;
    }
    if !check_records_wf(&m.name_servers) {
        return false;
    }
    if !check_records_wf(&m.additionals) {
        return false;
    }
    match &m.edns {
        Some(e) => check_edns_wf(e),
        None => true,
    }
}

/// Appends a byte vector verbatim.
fn push_bytes(v: &Vec<u8>, out: &mut Vec<u8>)
    ensures
        final(out)@ == old(out)@ + v@,
{
    let mut i: usize = 0;
    while i < v.len()
        invariant
            0 <= i <= v@.len(),
            out@ == old(out)@ + v@.subrange(0, i as int),
        decreases v@.len() - i,
    {
        out.push(v[i]);
        proof {
            assert(out@ =~= old(out)@ + v@.subrange(0, i + 1));
        }
        i += 1;
    }
    proof {
        assert(final(out)@ =~= old(out)@ + v@);
    }
}

/// Appends the wire encoding of a question.
fn push_question(q: &DnsQuery, out: &mut Vec<u8>)
    requires
        q.wf(),
    ensures
        final(out)@ == old(out)@ + ser_question(*q),
{
    push_name(q.name.as_str(), out);
    push_be16(q.query_type.to_u16(), out);
    push_be16(q.query_class, out);
    proof {
        assert(final(out)@ =~= old(out)@ + ser_question(*q));
    }
}

/// The wire length of a record's RDATA.
fn rdata_len(rd: &DnsRData) -> (r: usize)
    requires
        match rd {
            DnsRData::CNAME(n) => wf_dns_name(n@),
            DnsRData::NS(n) => wf_dns_name(n@),
            DnsRData::PTR(n) => wf_dns_name(n@),
            _ => true,
        },
    ensures
        r == rdata_bytes(*rd).len(),
{
    match rd {
        DnsRData::A(v) => v.len(),
        DnsRData::AAAA(v) => v.len(),
        DnsRData::CNAME(n) => {
            proof {
                lemma_ser_name_len(n@);
            }
            let cn: usize = n.as_str().unicode_len();
            if cn <= 1 {
                1
            } else {
                cn + 1
            }
        },
        DnsRData::NS(n) => {
            proof {
                lemma_ser_name_len(n@);
            }
            let cn: usize = n.as_str().unicode_len();
            if cn <= 1 {
                1
            } else {
                cn + 1
            }
        },
        DnsRData::PTR(n) => {
            proof {
                lemma_ser_name_len(n@);
            }
            let cn: usize = n.as_str().unicode_len();
            if cn <= 1 {
                1
            } else {
                cn + 1
            }
        },
        DnsRData::Unknown(v) => v.len(),
    }
}

/// Appends the wire encoding of a resource record.
fn push_record(r: &DnsRecord, out: &mut Vec<u8>)
    requires
        r.wf(),
    ensures
        final(out)@ == old(out)@ + ser_record(*r),
{
    push_name(r.name.as_str(), out);
    push_be16(r.record_type.to_u16(), out);
    push_be16(r.dns_class, out);
    push_be32(r.ttl, out);
    let rl: usize = rdata_len(&r.rdata);
    proof {
        match &r.rdata {
            DnsRData::CNAME(n) => lemma_ser_name_len(n@),
            DnsRData::NS(n) => lemma_ser_name_len(n@),
            DnsRData::PTR(n) => lemma_ser_name_len(n@),
            _ => (),
        }
    }
    push_be16(rl as u16, out);
    match &r.rdata {
        DnsRData::A(v) => push_bytes(v, out),
        DnsRData::AAAA(v) => push_bytes(v, out),
        DnsRData::CNAME(n) => push_name(n.as_str(), out),
        DnsRData::NS(n) => push_name(n.as_str(), out),
        DnsRData::PTR(n) => push_name(n.as_str(), out),
        DnsRData::Unknown(v) => push_bytes(v, out),
    }
    proof {
        assert(final(out)@ =~= old(out)@ + ser_record(*r));
    }
}

/// Appends the wire encoding of a record section.
fn push_records(rs: &Vec<DnsRecord>, out: &mut Vec<u8>)
    requires
        forall|i: int| 0 <= i < rs@.len() ==> #[trigger] rs@[i].wf(),
    ensures
        final(out)@ == old(out)@ + ser_records(rs@),
{
    let mut i: usize = 0;
    proof {
        assert(rs@.skip(0) =~= rs@);
    }
    while i < rs.len()
        invariant
            forall|k: int| 0 <= k < rs@.len() ==> #[trigger] rs@[k].wf(),
            0 <= i <= rs@.len(),
            old(out)@ + ser_records(rs@) == out@ + ser_records(rs@.skip(i as int)),
        decreases rs@.len() - i,
    {
        let ghost pre = out@;
        push_record(&rs[i], out);
        proof {
            assert(rs@.skip(i as int)[0] == rs@[i as int]);
            assert(rs@.skip(i as int).skip(1) =~= rs@.skip(i + 1));
            assert(out@ + ser_records(rs@.skip(i + 1)) =~= pre + ser_records(rs@.skip(i as int)));
        }
        i += 1;
    }
    proof {
        assert(rs@.skip(rs@.len() as int) =~= Seq::<DnsRecord>::empty());
        assert(final(out)@ =~= old(out)@ + ser_records(rs@));
    }
}

/// Appends the wire encoding of the EDNS pseudo-record.
fn push_edns(e: &DnsEdns, out: &mut Vec<u8>)
    requires
        e.wf(),
    ensures
        final(out)@ == old(out)@ + ser_edns(*e),
{
    out.push(0);
    push_be16(41, out);
    push_be16(e.payload_size, out);
    out.push(e.ext_rcode);
    out.push(e.version);
    push_be16(e.flags, out);
    let mut acc: u32 = 0;
    let mut i: usize = 0;
    proof {
        assert(e.options@.skip(0) =~= e.options@);
    }
    while i < e.options.len()
        invariant
            e.wf(),
            0 <= i <= e.options@.len(),
            acc <= 0xFFFF,
            spec_edns_rdata_len(e.options@) == acc + spec_edns_rdata_len(
                e.options@.skip(i as int),
            ),
        decreases e.options@.len() - i,
    {
        proof {
            assert(e.options@.skip(i as int)[0] == e.options@[i as int]);
            assert(e.options@.skip(i as int).skip(1) =~= e.options@.skip(i + 1));
            lemma_edns_rdata_len_nonneg(e.options@.skip(i + 1));
        }
        let dlen: usize = e.options[i].1.len();
        acc = acc + (4 + dlen as u32);
        i += 1;
    }
    proof {
        assert(e.options@.skip(e.options@.len() as int) =~= Seq::<(u16, Vec<u8>)>::empty());
        assert(acc == spec_edns_rdata_len(e.options@));
    }
    push_be16(acc as u16, out);
    let ghost mid = out@;
    let mut j: usize = 0;
    proof {
        assert(e.options@.skip(0) =~= e.options@);
    }
    while j < e.options.len()
        invariant
            e.wf(),
            0 <= j <= e.options@.len(),
            mid + ser_edns_options(e.options@) == out@ + ser_edns_options(
                e.options@.skip(j as int),
            ),
        decreases e.options@.len() - j,
    {
        let ghost pre = out@;
        push_be16(e.options[j].0, out);
        push_be16(e.options[j].1.len() as u16, out);
        push_bytes(&e.options[j].1, out);
        proof {
            assert(e.options@.skip(j as int)[0] == e.options@[j as int]);
            assert(e.options@.skip(j as int).skip(1) =~= e.options@.skip(j + 1));
            assert(out@ + ser_edns_options(e.options@.skip(j + 1)) =~= pre + ser_edns_options(
                e.options@.skip(j as int),
            ));
        }
        j += 1;
    }
    proof {
        assert(e.options@.skip(e.options@.len() as int) =~= Seq::<(u16, Vec<u8>)>::empty());
        assert(final(out)@ =~= old(out)@ + ser_edns(*e));
    }
}

/// Encodes a message to its canonical wire bytes: `Ok` exactly for well-
/// formed messages, whose encoding is then `ser_message`.
pub fn message_to_bytes(message: &DnsMessage) -> (r: Result<Vec<u8>, DnsCodecError>)
    ensures
        match r {
            Ok(bytes) => message.wf() && bytes@ == ser_message(*message),
            Err(_) => !message.wf(),
        },
{
    if !check_message_wf(message) {
        return Err(DnsCodecError {  });
    }
    let mut out: Vec<u8> = Vec::new();
    push_be16(message.id, &mut out);
    let qr: u8 = match message.message_type {
        DnsMessageType::Response => 128,
        DnsMessageType::Query => 0,
    };
    let f1: u8 = qr + message.op_code * 8 + (if message.authoritative {
        4
    } else {
        0
    }) + (if message.truncated {
        2
    } else {
        0
    }) + (if message.recursion_desired {
        1
    } else {
        0
    });
    let f2: u8 = (if message.recursion_available {
        128
    } else {
        0
    }) + (if message.authentic_data {
        32
    } else {
        0
    }) + (if message.checking_disabled {
        16
    } else {
        0
    }) + message.response_code as u8;
    out.push(f1);
    out.push(f2);
    push_be16(message.queries.len() as u16, &mut out);
    push_be16(message.answers.len() as u16, &mut out);
    push_be16(message.name_servers.len() as u16, &mut out);
    let arcount: usize = message.additionals.len() + (match &message.edns {
        Some(_) => 1,
        None => 0,
    });
    push_be16(arcount as u16, &mut out);
    let ghost header = out@;
    proof {
        assert(header =~= be16(message.id) + seq![spec_flags1(*message), spec_flags2(*message)]
            + be16(message.queries@.len() as u16) + be16(message.answers@.len() as u16) + be16(
            message.name_servers@.len() as u16,
        ) + be16(spec_arcount(*message) as u16));
    }
    let mut qi: usize = 0;
    proof {
        assert(message.queries@.skip(0) =~= message.queries@);
    }
    while qi < message.queries.len()
        invariant
            message.wf(),
            0 <= qi <= message.queries@.len(),
            header + ser_questions(message.queries@) == out@ + ser_questions(
                message.queries@.skip(qi as int),
            ),
        decreases message.queries@.len() - qi,
    {
        let ghost pre = out@;
        push_question(&message.queries[qi], &mut out);
        proof {
            assert(message.queries@.skip(qi as int)[0] == message.queries@[qi as int]);
            assert(message.queries@.skip(qi as int).skip(1) =~= message.queries@.skip(qi + 1));
            assert(out@ + ser_questions(message.queries@.skip(qi + 1)) =~= pre + ser_questions(
                message.queries@.skip(qi as int),
            ));
        }
        qi += 1;
    }
    proof {
        assert(message.queries@.skip(message.queries@.len() as int) =~= Seq::<DnsQuery>::empty());
        assert(out@ =~= header + ser_questions(message.queries@));
    }
    push_records(&message.answers, &mut out);
    push_records(&message.name_servers, &mut out);
    push_records(&message.additionals, &mut out);
    match &message.edns {
        Some(e) => {
            push_edns(e, &mut out);
        },
        None => {},
    }
    proof {
        assert(out@ =~= ser_message(*message));
    }
    Ok(out)
}

/// A copy of the byte range `[from, to)`.
fn copy_range(b: &[u8], from: usize, to: usize) -> (r: Vec<u8>)
    requires
        from <= to <= b@.len(),
    ensures
        r@ == b@.subrange(from as int, to as int),
{
    let mut r: Vec<u8> = Vec::new();
    let mut i: usize = from;
    while i < to
        invariant
            from <= i <= to <= b@.len(),
            r@ == b@.subrange(from as int, i as int),
        decreases to - i,
    {
        r.push(b[i]);
        proof {
            assert(r@ =~= b@.subrange(from as int, i + 1));
        }
        i += 1;
    }
    r
}

/// The encoded EDNS pseudo-record, or nothing when a message carries none.
pub open spec fn spec_edns_part(ed: Option<DnsEdns>) -> Seq<u8> {
    match ed {
        Some(e) => ser_edns(e),
        None => Seq::<u8>::empty(),
    }
}

/// A well-formed question whose encoding occupies `[pos, e2)` of `b`
/// splits into its name and the four bytes of type and class, and its name
/// parses there.
pub proof fn lemma_ser_question_parts(q: DnsQuery, b: Seq<u8>, pos: int, e2: int)
    requires
        q.wf(),
        0 <= pos <= e2 <= b.len(),
        ser_question(q) == b.subrange(pos, e2),
    ensures
        ({
            let ln = ser_name(q.name@).len() as int;
            &&& e2 == pos + ln + 4
            &&& b.subrange(pos, pos + ln) == ser_name(q.name@)
            &&& b.subrange(pos + ln, pos + ln + 2) == be16(q.query_type.spec_to_u16())
            &&& b.subrange(pos + ln + 2, pos + ln + 4) == be16(q.query_class)
        }),
{
    let ln = ser_name(q.name@).len() as int;
    let t1 = ser_name(q.name@) + be16(q.query_type.spec_to_u16());
    assert(ser_question(q) == t1 + be16(q.query_class));
    assert(e2 - pos == ln + 4);
    assert(b.subrange(pos, pos + ln) =~= ser_name(q.name@)) by {
        assert forall|i: int| 0 <= i < ln implies b[pos + i] == ser_name(q.name@)[i] by {
            assert(b[pos + i] == b.subrange(pos, e2)[i]);
            assert(ser_question(q)[i] == t1[i] && t1[i] == ser_name(q.name@)[i]);
        }
    }
    assert(b.subrange(pos + ln, pos + ln + 2) =~= be16(q.query_type.spec_to_u16())) by {
        assert forall|i: int| 0 <= i < 2 implies b[pos + ln + i] == be16(
            q.query_type.spec_to_u16(),
        )[i] by {
            assert(b[pos + ln + i] == b.subrange(pos, e2)[ln + i]);
            assert(ser_question(q)[ln + i] == t1[ln + i] && t1[ln + i] == be16(
                q.query_type.spec_to_u16(),
            )[i]);
        }
    }
    assert(b.subrange(pos + ln + 2, pos + ln + 4) =~= be16(q.query_class)) by {
        assert forall|i: int| 0 <= i < 2 implies b[pos + ln + 2 + i] == be16(q.query_class)[i] by {
            assert(b[pos + ln + 2 + i] == b.subrange(pos, e2)[ln + 2 + i]);
            assert(ser_question(q)[ln + 2 + i] == be16(q.query_class)[i]);
        }
    }
}

/// Reads a question starting at `pos`: the result is well formed and
/// re-encodes to exactly the consumed bytes.
fn parse_question(b: &[u8], pos: usize) -> (r: Option<(DnsQuery, usize)>)
    requires
        pos <= b@.len(),
    ensures
        match r {
            Some(v) => {
                &&& pos < v.1 <= b@.len()
                &&& v.0.wf()
                &&& ser_question(v.0) == b@.subrange(pos as int, v.1 as int)
            },
            None => true,
        },
        forall|q: DnsQuery, e2: int|
            #![trigger ser_question(q), b@.subrange(pos as int, e2)]
            {
                &&& q.wf()
                &&& pos <= e2 <= b@.len()
                &&& ser_question(q) == b@.subrange(pos as int, e2)
            } ==> (r is Some && r.unwrap().1 == e2),
{
    let nr = parse_name(b, pos);
    let (name, p1) = match nr {
        Some(v) => v,
        None => {
            proof {
                assert forall|q: DnsQuery, e2: int|
                    #![trigger ser_question(q), b@.subrange(pos as int, e2)]
                    {
                        &&& q.wf()
                        &&& pos <= e2 <= b@.len()
                        &&& ser_question(q) == b@.subrange(pos as int, e2)
                    } implies false by {
                    lemma_ser_question_parts(q, b@, pos as int, e2);
                }
            }
            return None;
        },
    };
    if b.len() - p1 < 4 {
        proof {
            assert forall|q: DnsQuery, e2: int|
                #![trigger ser_question(q), b@.subrange(pos as int, e2)]
                {
                    &&& q.wf()
                    &&& pos <= e2 <= b@.len()
                    &&& ser_question(q) == b@.subrange(pos as int, e2)
                } implies false by {
                lemma_ser_question_parts(q, b@, pos as int, e2);
                assert(p1 == pos + ser_name(q.name@).len());
            }
        }
        return None;
    }
    let tcode: u16 = read_u16(b, p1);
    let qclass: u16 = read_u16(b, p1 + 2);
    let q = DnsQuery {
        name,
        query_type: DnsRecordType::from_u16(tcode),
        query_class: qclass,
    };
    proof {
        assert(ser_question(q) =~= b@.subrange(pos as int, p1 + 4));
        assert forall|qh: DnsQuery, e2: int|
            #![trigger ser_question(qh), b@.subrange(pos as int, e2)]
            {
                &&& qh.wf()
                &&& pos <= e2 <= b@.len()
                &&& ser_question(qh) == b@.subrange(pos as int, e2)
            } implies p1 + 4 == e2 by {
            lemma_ser_question_parts(qh, b@, pos as int, e2);
            assert(p1 == pos + ser_name(qh.name@).len());
        }
    }
    Some((q, p1 + 4))
}

/// Splits a nonempty hypothetical question list's encoding at the head:
/// whenever a list of `count >= 1` well-formed questions encodes to
/// `[pos, e2)`, the head encodes to its own prefix and the tail to the
/// remainder.
proof fn lemma_questions_hyp_head(b: Seq<u8>, pos: int, count: int)
    requires
        count >= 1,
        0 <= pos <= b.len(),
    ensures
        forall|qsh: Seq<DnsQuery>, e2: int|
            #![trigger ser_questions(qsh), b.subrange(pos, e2)]
            {
                &&& qsh.len() == count
                &&& pos <= e2 <= b.len()
                &&& ser_questions(qsh) == b.subrange(pos, e2)
            } ==> {
                let l0 = ser_question(qsh[0]).len() as int;
                &&& pos + l0 <= e2
                &&& ser_question(qsh[0]) == b.subrange(pos, pos + l0)
                &&& ser_questions(qsh.skip(1)) == b.subrange(pos + l0, e2)
            },
{
    assert forall|qsh: Seq<DnsQuery>, e2: int|
        #![trigger ser_questions(qsh), b.subrange(pos, e2)]
        {
            &&& qsh.len() == count
            &&& pos <= e2 <= b.len()
            &&& ser_questions(qsh) == b.subrange(pos, e2)
        } implies {
        let l0 = ser_question(qsh[0]).len() as int;
        &&& pos + l0 <= e2
        &&& ser_question(qsh[0]) == b.subrange(pos, pos + l0)
        &&& ser_questions(qsh.skip(1)) == b.subrange(pos + l0, e2)
    } by {
        let l0 = ser_question(qsh[0]).len() as int;
        assert(ser_questions(qsh) == ser_question(qsh[0]) + ser_questions(qsh.skip(1)));
        assert(ser_question(qsh[0]) =~= b.subrange(pos, pos + l0)) by {
            assert forall|i: int| 0 <= i < l0 implies ser_question(qsh[0])[i] == b[pos + i] by {
                assert(ser_questions(qsh)[i] == b.subrange(pos, e2)[i]);
            }
        }
        assert(ser_questions(qsh.skip(1)) =~= b.subrange(pos + l0, e2)) by {
            assert forall|i: int| 0 <= i < e2 - pos - l0 implies ser_questions(qsh.skip(1))[i]
                == b[pos + l0 + i] by {
                assert(ser_questions(qsh)[l0 + i] == b.subrange(pos, e2)[l0 + i]);
            }
        }
    }
}

/// Reads `count` questions starting at `pos`.
fn parse_questions(b: &[u8], pos: usize, count: u16) -> (r: Option<(Vec<DnsQuery>, usize)>)
    requires
        pos <= b@.len(),
    ensures
        match r {
            Some(v) => {
                &&& pos <= v.1 <= b@.len()
                &&& v.0@.len() == count
                &&& (forall|i: int| 0 <= i < v.0@.len() ==> #[trigger] v.0@[i].wf())
                &&& ser_questions(v.0@) == b@.subrange(pos as int, v.1 as int)
            },
            None => true,
        },
        forall|qs: Seq<DnsQuery>, e2: int|
            #![trigger ser_questions(qs), b@.subrange(pos as int, e2)]
            {
                &&& qs.len() == count
                &&& (forall|i: int| 0 <= i < qs.len() ==> (#[trigger] qs[i]).wf())
                &&& pos <= e2 <= b@.len()
                &&& ser_questions(qs) == b@.subrange(pos as int, e2)
            } ==> (r is Some && r.unwrap().1 == e2),
    decreases count,
{
    if count == 0 {
        let qs: Vec<DnsQuery> = Vec::new();
        proof {
            assert(ser_questions(qs@) =~= b@.subrange(pos as int, pos as int));
            assert forall|qsh: Seq<DnsQuery>, e2: int|
                #![trigger ser_questions(qsh), b@.subrange(pos as int, e2)]
                {
                    &&& qsh.len() == count
                    &&& (forall|i: int| 0 <= i < qsh.len() ==> (#[trigger] qsh[i]).wf())
                    &&& pos <= e2 <= b@.len()
                    &&& ser_questions(qsh) == b@.subrange(pos as int, e2)
                } implies pos == e2 by {
                assert(ser_questions(qsh).len() == 0);
            }
        }
        return Some((qs, pos));
    }
    proof {
        lemma_questions_hyp_head(b@, pos as int, count as int);
    }
    let qr = parse_question(b, pos);
    let (q, p1) = match qr {
        Some(v) => v,
        None => {
            proof {
                assert forall|qsh: Seq<DnsQuery>, e2: int|
                    #![trigger ser_questions(qsh), b@.subrange(pos as int, e2)]
                    {
                        &&& qsh.len() == count
                        &&& (forall|i: int| 0 <= i < qsh.len() ==> (#[trigger] qsh[i]).wf())
                        &&& pos <= e2 <= b@.len()
                        &&& ser_questions(qsh) == b@.subrange(pos as int, e2)
                    } implies false by {
                    assert(ser_question(qsh[0]) == b@.subrange(
                        pos as int,
                        pos + ser_question(qsh[0]).len(),
                    ));
                }
            }
            return None;
        },
    };
    match parse_questions(b, p1, count - 1) {
        Some((mut rest, end)) => {
            let ghost rest0 = rest@;
            rest.insert(0, q);
            proof {
                assert(rest@[0] == q);
                assert(rest@.skip(1) =~= rest0);
            }
            proof {
                assert(ser_questions(rest@) =~= b@.subrange(pos as int, end as int));
                assert forall|qsh: Seq<DnsQuery>, e2: int|
                    #![trigger ser_questions(qsh), b@.subrange(pos as int, e2)]
                    {
                        &&& qsh.len() == count
                        &&& (forall|i: int| 0 <= i < qsh.len() ==> (#[trigger] qsh[i]).wf())
                        &&& pos <= e2 <= b@.len()
                        &&& ser_questions(qsh) == b@.subrange(pos as int, e2)
                    } implies end == e2 by {
                    assert(ser_question(qsh[0]) == b@.subrange(
                        pos as int,
                        pos + ser_question(qsh[0]).len(),
                    ));
                    assert(p1 == pos + ser_question(qsh[0]).len());
                    assert(ser_questions(qsh.skip(1)) == b@.subrange(p1 as int, e2));
                    assert(qsh.skip(1).len() == (count - 1) as u16);
                    assert forall|i: int| 0 <= i < qsh.skip(1).len() implies (#[trigger] qsh.skip(
                        1,
                    )[i]).wf() by {
                        assert(qsh.skip(1)[i] == qsh[i + 1]);
                    }
                }
            }
            Some((rest, end))
        },
        None => {
            proof {
                assert forall|qsh: Seq<DnsQuery>, e2: int|
                    #![trigger ser_questions(qsh), b@.subrange(pos as int, e2)]
                    {
                        &&& qsh.len() == count
                        &&& (forall|i: int| 0 <= i < qsh.len() ==> (#[trigger] qsh[i]).wf())
                        &&& pos <= e2 <= b@.len()
                        &&& ser_questions(qsh) == b@.subrange(pos as int, e2)
                    } implies false by {
                    assert(ser_question(qsh[0]) == b@.subrange(
                        pos as int,
                        pos + ser_question(qsh[0]).len(),
                    ));
                    assert(p1 == pos + ser_question(qsh[0]).len());
                    assert(ser_questions(qsh.skip(1)) == b@.subrange(p1 as int, e2));
                    assert(qsh.skip(1).len() == (count - 1) as u16);
                    assert forall|i: int| 0 <= i < qsh.skip(1).len() implies (#[trigger] qsh.skip(
                        1,
                    )[i]).wf() by {
                        assert(qsh.skip(1)[i] == qsh[i + 1]);
                    }
                }
            }
            None
        },
    }
}

/// Reads the RDATA of `[pos, pos + rdlen)` under the given record type: a
/// typed value when the type is interpreted and the bytes parse as it, the
/// raw bytes otherwise. The result re-encodes to exactly those bytes.
fn parse_rdata(b: &[u8], pos: usize, rdlen: usize, rtype: DnsRecordType) -> (r: Option<DnsRData>)
    requires
        pos + rdlen <= b@.len(),
        rdlen <= 0xFFFF,
        rtype != DnsRecordType::OPT,
    ensures
        r is Some,
        match r {
            Some(rd) => {
                &&& rdata_bytes(rd) == b@.subrange(pos as int, pos + rdlen)
                &&& match rd {
                    DnsRData::A(v) => rtype == DnsRecordType::A && v@.len() == 4,
                    DnsRData::AAAA(v) => rtype == DnsRecordType::AAAA && v@.len() == 16,
                    DnsRData::CNAME(n) => rtype == DnsRecordType::CNAME && wf_dns_name(n@),
                    DnsRData::NS(n) => rtype == DnsRecordType::NS && wf_dns_name(n@),
                    DnsRData::PTR(n) => rtype == DnsRecordType::PTR && wf_dns_name(n@),
                    DnsRData::Unknown(v) => v@.len() <= 0xFFFF,
                }
            },
            None => true,
        },
{
    proof {
        vstd::slice::axiom_spec_len(b);
    }
    let end: usize = pos + rdlen;
    match rtype {
        DnsRecordType::A => {
            if rdlen == 4 {
                Some(DnsRData::A(copy_range(b, pos, end)))
            } else {
                Some(DnsRData::Unknown(copy_range(b, pos, end)))
            }
        },
        DnsRecordType::AAAA => {
            if rdlen == 16 {
                Some(DnsRData::AAAA(copy_range(b, pos, end)))
            } else {
                Some(DnsRData::Unknown(copy_range(b, pos, end)))
            }
        },
        DnsRecordType::CNAME => {
            match parse_name(b, pos) {
                Some((n, e)) if e == end => Some(DnsRData::CNAME(n)),
                _ => Some(DnsRData::Unknown(copy_range(b, pos, end))),
            }
        },
        DnsRecordType::NS => {
            match parse_name(b, pos) {
                Some((n, e)) if e == end => Some(DnsRData::NS(n)),
                _ => Some(DnsRData::Unknown(copy_range(b, pos, end))),
            }
        },
        DnsRecordType::PTR => {
            match parse_name(b, pos) {
                Some((n, e)) if e == end => Some(DnsRData::PTR(n)),
                _ => Some(DnsRData::Unknown(copy_range(b, pos, end))),
            }
        },
        DnsRecordType::OPT => {
            // unreachable: the caller never passes the OPT type
            proof {
                assert(false);
            }
            None
        },
        DnsRecordType::Unknown(_) => Some(DnsRData::Unknown(copy_range(b, pos, end))),
    }
}

/// A well-formed record whose encoding occupies `[pos, e2)` of `b` splits
/// into its name, the fixed ten bytes of type, class, TTL and RDATA
/// length, and its RDATA; a well-formed record's type is never OPT's.
pub proof fn lemma_ser_record_parts(rec: DnsRecord, b: Seq<u8>, pos: int, e2: int)
    requires
        rec.wf(),
        0 <= pos <= e2 <= b.len(),
        ser_record(rec) == b.subrange(pos, e2),
    ensures
        ({
            let ln = ser_name(rec.name@).len() as int;
            let rl = rdata_bytes(rec.rdata).len() as int;
            &&& e2 == pos + ln + 10 + rl
            &&& rl <= 0xFFFF
            &&& b.subrange(pos, pos + ln) == ser_name(rec.name@)
            &&& b.subrange(pos + ln, pos + ln + 2) == be16(rec.record_type.spec_to_u16())
            &&& rec.record_type.spec_to_u16() != 41
            &&& b.subrange(pos + ln + 8, pos + ln + 10) == be16(
                rdata_bytes(rec.rdata).len() as u16,
            )
        }),
{
    let ln = ser_name(rec.name@).len() as int;
    let rl = rdata_bytes(rec.rdata).len() as int;
    let t1 = ser_name(rec.name@) + be16(rec.record_type.spec_to_u16());
    let t2 = t1 + be16(rec.dns_class);
    let t3 = t2 + be32(rec.ttl);
    let t4 = t3 + be16(rdata_bytes(rec.rdata).len() as u16);
    assert(ser_record(rec) == t4 + rdata_bytes(rec.rdata));
    assert(t1.len() == ln + 2);
    assert(t2.len() == ln + 4);
    assert(t3.len() == ln + 8);
    assert(t4.len() == ln + 10);
    assert(rl <= 0xFFFF) by {
        match rec.rdata {
            DnsRData::CNAME(n) => lemma_ser_name_len(n@),
            DnsRData::NS(n) => lemma_ser_name_len(n@),
            DnsRData::PTR(n) => lemma_ser_name_len(n@),
            _ => (),
        }
    }
    assert(e2 - pos == ln + 10 + rl);
    assert(b.subrange(pos, pos + ln) =~= ser_name(rec.name@)) by {
        assert forall|i: int| 0 <= i < ln implies b[pos + i] == ser_name(rec.name@)[i] by {
            assert(b.subrange(pos, e2)[i] == ser_record(rec)[i]);
            assert(ser_record(rec)[i] == t4[i] && t4[i] == t3[i] && t3[i] == t2[i] && t2[i]
                == t1[i] && t1[i] == ser_name(rec.name@)[i]);
        }
    }
    assert(b.subrange(pos + ln, pos + ln + 2) =~= be16(rec.record_type.spec_to_u16())) by {
        assert forall|i: int| 0 <= i < 2 implies b[pos + ln + i] == be16(
            rec.record_type.spec_to_u16(),
        )[i] by {
            assert(b.subrange(pos, e2)[ln + i] == ser_record(rec)[ln + i]);
            assert(ser_record(rec)[ln + i] == t4[ln + i] && t4[ln + i] == t3[ln + i] && t3[ln + i]
                == t2[ln + i] && t2[ln + i] == t1[ln + i] && t1[ln + i] == be16(
                rec.record_type.spec_to_u16(),
            )[i]);
        }
    }
    assert(pos + ln + 10 <= e2);
    assert(b[pos + ln + 8] == b.subrange(pos, e2)[ln + 8]);
    assert(ser_record(rec)[ln + 8] == t4[ln + 8]);
    assert(t4[ln + 8] == be16(rdata_bytes(rec.rdata).len() as u16)[0]);
    assert(b[pos + ln + 9] == b.subrange(pos, e2)[ln + 9]);
    assert(ser_record(rec)[ln + 9] == t4[ln + 9]);
    assert(t4[ln + 9] == be16(rdata_bytes(rec.rdata).len() as u16)[1]);
    assert(b.subrange(pos + ln + 8, pos + ln + 10) =~= be16(
        rdata_bytes(rec.rdata).len() as u16,
    ));
}

/// Reads a resource record starting at `pos`; OPT pseudo-records are not
/// records of the model and are rejected here.
fn parse_record(b: &[u8], pos: usize) -> (r: Option<(DnsRecord, usize)>)
    requires
        pos <= b@.len(),
    ensures
        match r {
            Some(v) => {
                &&& pos < v.1 <= b@.len()
                &&& v.0.wf()
                &&& ser_record(v.0) == b@.subrange(pos as int, v.1 as int)
            },
            None => true,
        },
        forall|rec: DnsRecord, e2: int|
            #![trigger ser_record(rec), b@.subrange(pos as int, e2)]
            {
                &&& rec.wf()
                &&& pos <= e2 <= b@.len()
                &&& ser_record(rec) == b@.subrange(pos as int, e2)
            } ==> (r is Some && r.unwrap().1 == e2),
{
    let nr = parse_name(b, pos);
    let (name, p1) = match nr {
        Some(v) => v,
        None => {
            proof {
                assert forall|rec: DnsRecord, e2: int|
            #![trigger ser_record(rec), b@.subrange(pos as int, e2)]
            {
                &&& rec.wf()
                &&& pos <= e2 <= b@.len()
                &&& ser_record(rec) == b@.subrange(pos as int, e2)
            } implies false by {
                    lemma_ser_record_parts(rec, b@, pos as int, e2);
                }
            }
            return None;
        },
    };
    if b.len() - p1 < 10 {
        proof {
            assert forall|rec: DnsRecord, e2: int|
            #![trigger ser_record(rec), b@.subrange(pos as int, e2)]
            {
                &&& rec.wf()
                &&& pos <= e2 <= b@.len()
                &&& ser_record(rec) == b@.subrange(pos as int, e2)
            } implies false by {
                lemma_ser_record_parts(rec, b@, pos as int, e2);
                assert(p1 == pos + ser_name(rec.name@).len());
            }
        }
        return None;
    }
    let tcode: u16 = read_u16(b, p1);
    if tcode == 41 {
        proof {
            assert forall|rec: DnsRecord, e2: int|
            #![trigger ser_record(rec), b@.subrange(pos as int, e2)]
            {
                &&& rec.wf()
                &&& pos <= e2 <= b@.len()
                &&& ser_record(rec) == b@.subrange(pos as int, e2)
            } implies false by {
                lemma_ser_record_parts(rec, b@, pos as int, e2);
                assert(p1 == pos + ser_name(rec.name@).len());
                assert(be16(rec.record_type.spec_to_u16()) == b@.subrange(p1 as int, p1 + 2));
                assert(tcode == rec.record_type.spec_to_u16());
            }
        }
        return None;
    }
    let rtype = DnsRecordType::from_u16(tcode);
    let dns_class: u16 = read_u16(b, p1 + 2);
    let ttl: u32 = read_u32(b, p1 + 4);
    let rdlen: u16 = read_u16(b, p1 + 8);
    let rstart: usize = p1 + 10;
    let rdl: usize = rdlen as usize;
    if rdl > b.len() - rstart {
        proof {
            assert forall|rec: DnsRecord, e2: int|
            #![trigger ser_record(rec), b@.subrange(pos as int, e2)]
            {
                &&& rec.wf()
                &&& pos <= e2 <= b@.len()
                &&& ser_record(rec) == b@.subrange(pos as int, e2)
            } implies false by {
                lemma_ser_record_parts(rec, b@, pos as int, e2);
                assert(p1 == pos + ser_name(rec.name@).len());
                assert(be16(rdata_bytes(rec.rdata).len() as u16) == b@.subrange(p1 + 8, p1 + 10));
                assert(rdlen == rdata_bytes(rec.rdata).len());
            }
        }
        return None;
    }
    let rdata = match parse_rdata(b, rstart, rdl, rtype) {
        Some(v) => v,
        None => { return None; },
    };
    let rec = DnsRecord { name, record_type: rtype, dns_class, ttl, rdata };
    let end: usize = rstart + rdl;
    proof {
        assert(rdata_bytes(rec.rdata).len() == rdl);
        assert(ser_record(rec) =~= b@.subrange(pos as int, end as int));
        assert forall|rech: DnsRecord, e2: int|
            #![trigger ser_record(rech), b@.subrange(pos as int, e2)]
            {
                &&& rech.wf()
                &&& pos <= e2 <= b@.len()
                &&& ser_record(rech) == b@.subrange(pos as int, e2)
            } implies end == e2 by {
            lemma_ser_record_parts(rech, b@, pos as int, e2);
            assert(p1 == pos + ser_name(rech.name@).len());
            assert(be16(rdata_bytes(rech.rdata).len() as u16) == b@.subrange(p1 + 8, p1 + 10));
            assert(rdlen == rdata_bytes(rech.rdata).len());
        }
    }
    Some((rec, end))
}

/// Splits a nonempty hypothetical record list's encoding at the head.
proof fn lemma_records_hyp_head(b: Seq<u8>, pos: int, count: int)
    requires
        count >= 1,
        0 <= pos <= b.len(),
    ensures
        forall|rsh: Seq<DnsRecord>, e2: int|
            #![trigger ser_records(rsh), b.subrange(pos, e2)]
            {
                &&& rsh.len() == count
                &&& pos <= e2 <= b.len()
                &&& ser_records(rsh) == b.subrange(pos, e2)
            } ==> {
                let l0 = ser_record(rsh[0]).len() as int;
                &&& pos + l0 <= e2
                &&& ser_record(rsh[0]) == b.subrange(pos, pos + l0)
                &&& ser_records(rsh.skip(1)) == b.subrange(pos + l0, e2)
            },
{
    assert forall|rsh: Seq<DnsRecord>, e2: int|
        #![trigger ser_records(rsh), b.subrange(pos, e2)]
        {
            &&& rsh.len() == count
            &&& pos <= e2 <= b.len()
            &&& ser_records(rsh) == b.subrange(pos, e2)
        } implies {
        let l0 = ser_record(rsh[0]).len() as int;
        &&& pos + l0 <= e2
        &&& ser_record(rsh[0]) == b.subrange(pos, pos + l0)
        &&& ser_records(rsh.skip(1)) == b.subrange(pos + l0, e2)
    } by {
        let l0 = ser_record(rsh[0]).len() as int;
        assert(ser_records(rsh) == ser_record(rsh[0]) + ser_records(rsh.skip(1)));
        assert(ser_record(rsh[0]) =~= b.subrange(pos, pos + l0)) by {
            assert forall|i: int| 0 <= i < l0 implies ser_record(rsh[0])[i] == b[pos + i] by {
                assert(ser_records(rsh)[i] == b.subrange(pos, e2)[i]);
            }
        }
        assert(ser_records(rsh.skip(1)) =~= b.subrange(pos + l0, e2)) by {
            assert forall|i: int| 0 <= i < e2 - pos - l0 implies ser_records(rsh.skip(1))[i]
                == b[pos + l0 + i] by {
                assert(ser_records(rsh)[l0 + i] == b.subrange(pos, e2)[l0 + i]);
            }
        }
    }
}

/// Reads `count` resource records starting at `pos`.
fn parse_records(b: &[u8], pos: usize, count: u16) -> (r: Option<(Vec<DnsRecord>, usize)>)
    requires
        pos <= b@.len(),
    ensures
        match r {
            Some(v) => {
                &&& pos <= v.1 <= b@.len()
                &&& v.0@.len() == count
                &&& (forall|i: int| 0 <= i < v.0@.len() ==> #[trigger] v.0@[i].wf())
                &&& ser_records(v.0@) == b@.subrange(pos as int, v.1 as int)
            },
            None => true,
        },
        forall|rsh: Seq<DnsRecord>, e2: int|
            #![trigger ser_records(rsh), b@.subrange(pos as int, e2)]
            {
                &&& rsh.len() == count
                &&& (forall|i: int| 0 <= i < rsh.len() ==> (#[trigger] rsh[i]).wf())
                &&& pos <= e2 <= b@.len()
                &&& ser_records(rsh) == b@.subrange(pos as int, e2)
            } ==> (r is Some && r.unwrap().1 == e2),
    decreases count,
{
    if count == 0 {
        let rs: Vec<DnsRecord> = Vec::new();
        proof {
            assert(ser_records(rs@) =~= b@.subrange(pos as int, pos as int));
            assert forall|rsh: Seq<DnsRecord>, e2: int|
                #![trigger ser_records(rsh), b@.subrange(pos as int, e2)]
                {
                    &&& rsh.len() == count
                    &&& (forall|i: int| 0 <= i < rsh.len() ==> (#[trigger] rsh[i]).wf())
                    &&& pos <= e2 <= b@.len()
                    &&& ser_records(rsh) == b@.subrange(pos as int, e2)
                } implies pos == e2 by {
                assert(ser_records(rsh).len() == 0);
            }
        }
        return Some((rs, pos));
    }
    proof {
        lemma_records_hyp_head(b@, pos as int, count as int);
    }
    let rr = parse_record(b, pos);
    let (rec, p1) = match rr {
        Some(v) => v,
        None => {
            proof {
                assert forall|rsh: Seq<DnsRecord>, e2: int|
            #![trigger ser_records(rsh), b@.subrange(pos as int, e2)]
            {
                &&& rsh.len() == count
                &&& (forall|i: int| 0 <= i < rsh.len() ==> (#[trigger] rsh[i]).wf())
                &&& pos <= e2 <= b@.len()
                &&& ser_records(rsh) == b@.subrange(pos as int, e2)
            } implies false by {
                    assert(ser_record(rsh[0]) == b@.subrange(
                        pos as int,
                        pos + ser_record(rsh[0]).len(),
                    ));
                    assert(rsh[0].wf());
                }
            }
            return None;
        },
    };
    match parse_records(b, p1, count - 1) {
        Some((mut rest, end)) => {
            let ghost rest0 = rest@;
            rest.insert(0, rec);
            proof {
                assert(rest@.skip(1) =~= rest0);
                assert(ser_records(rest@) =~= b@.subrange(pos as int, end as int));
                assert forall|rsh: Seq<DnsRecord>, e2: int|
            #![trigger ser_records(rsh), b@.subrange(pos as int, e2)]
            {
                &&& rsh.len() == count
                &&& (forall|i: int| 0 <= i < rsh.len() ==> (#[trigger] rsh[i]).wf())
                &&& pos <= e2 <= b@.len()
                &&& ser_records(rsh) == b@.subrange(pos as int, e2)
            } implies end == e2 by {
                    assert(ser_record(rsh[0]) == b@.subrange(
                        pos as int,
                        pos + ser_record(rsh[0]).len(),
                    ));
                    assert(p1 == pos + ser_record(rsh[0]).len());
                    assert(ser_records(rsh.skip(1)) == b@.subrange(p1 as int, e2));
                    assert(rsh.skip(1).len() == (count - 1) as u16);
                    assert forall|i: int| 0 <= i < rsh.skip(1).len() implies (#[trigger] rsh.skip(
                        1,
                    )[i]).wf() by {
                        assert(rsh.skip(1)[i] == rsh[i + 1]);
                    }
                }
            }
            Some((rest, end))
        },
        None => {
            proof {
                assert forall|rsh: Seq<DnsRecord>, e2: int|
            #![trigger ser_records(rsh), b@.subrange(pos as int, e2)]
            {
                &&& rsh.len() == count
                &&& (forall|i: int| 0 <= i < rsh.len() ==> (#[trigger] rsh[i]).wf())
                &&& pos <= e2 <= b@.len()
                &&& ser_records(rsh) == b@.subrange(pos as int, e2)
            } implies false by {
                    assert(ser_record(rsh[0]) == b@.subrange(
                        pos as int,
                        pos + ser_record(rsh[0]).len(),
                    ));
                    assert(p1 == pos + ser_record(rsh[0]).len());
                    assert(ser_records(rsh.skip(1)) == b@.subrange(p1 as int, e2));
                    assert(rsh.skip(1).len() == (count - 1) as u16);
                    assert forall|i: int| 0 <= i < rsh.skip(1).len() implies (#[trigger] rsh.skip(
                        1,
                    )[i]).wf() by {
                        assert(rsh.skip(1)[i] == rsh[i + 1]);
                    }
                }
            }
            None
        },
    }
}

/// Splits a nonempty hypothetical option list's encoding at the head.
proof fn lemma_options_hyp_head(b: Seq<u8>, pos: int, endpos: int)
    requires
        0 <= pos <= endpos <= b.len(),
    ensures
        forall|opts: Seq<(u16, Vec<u8>)>|
            #![trigger ser_edns_options(opts)]
            {
                &&& opts.len() >= 1
                &&& (forall|i: int| 0 <= i < opts.len() ==> (#[trigger] opts[i]).1@.len() <= 0xFFFF)
                &&& ser_edns_options(opts) == b.subrange(pos, endpos)
            } ==> {
                let d0 = opts[0].1@.len() as int;
                &&& pos + 4 + d0 <= endpos
                &&& b.subrange(pos + 2, pos + 4) == be16(opts[0].1@.len() as u16)
                &&& ser_edns_options(opts.skip(1)) == b.subrange(pos + 4 + d0, endpos)
            },
{
    assert forall|opts: Seq<(u16, Vec<u8>)>|
        #![trigger ser_edns_options(opts)]
        {
            &&& opts.len() >= 1
            &&& (forall|i: int| 0 <= i < opts.len() ==> (#[trigger] opts[i]).1@.len() <= 0xFFFF)
            &&& ser_edns_options(opts) == b.subrange(pos, endpos)
        } implies {
        let d0 = opts[0].1@.len() as int;
        &&& pos + 4 + d0 <= endpos
        &&& b.subrange(pos + 2, pos + 4) == be16(opts[0].1@.len() as u16)
        &&& ser_edns_options(opts.skip(1)) == b.subrange(pos + 4 + d0, endpos)
    } by {
        let d0 = opts[0].1@.len() as int;
        let t1 = be16(opts[0].0) + be16(opts[0].1@.len() as u16);
        let t2 = t1 + opts[0].1@;
        assert(ser_edns_options(opts) == t2 + ser_edns_options(opts.skip(1)));
        assert(t1.len() == 4 && t2.len() == 4 + d0);
        assert(endpos - pos == 4 + d0 + ser_edns_options(opts.skip(1)).len());
        assert(b.subrange(pos + 2, pos + 4) =~= be16(opts[0].1@.len() as u16)) by {
            assert(b[pos + 2] == b.subrange(pos, endpos)[2]);
            assert(ser_edns_options(opts)[2] == t2[2] && t2[2] == t1[2] && t1[2] == be16(
                opts[0].1@.len() as u16,
            )[0]);
            assert(b[pos + 3] == b.subrange(pos, endpos)[3]);
            assert(ser_edns_options(opts)[3] == t2[3] && t2[3] == t1[3] && t1[3] == be16(
                opts[0].1@.len() as u16,
            )[1]);
        }
        assert(ser_edns_options(opts.skip(1)) =~= b.subrange(pos + 4 + d0, endpos)) by {
            assert forall|i: int| 0 <= i < endpos - pos - 4 - d0 implies #[trigger] ser_edns_options(
                opts.skip(1),
            )[i] == b[pos + 4 + d0 + i] by {
                assert(ser_edns_options(opts)[4 + d0 + i] == b.subrange(pos, endpos)[4 + d0 + i]);
            }
        }
    }
}

/// Reads EDNS options filling exactly `[pos, endpos)`.
#[verifier::spinoff_prover]
#[verifier::rlimit(60)]
fn parse_edns_options(b: &[u8], pos: usize, endpos: usize) -> (r: Option<Vec<(u16, Vec<u8>)>>)
    requires
        pos <= endpos <= b@.len(),
    ensures
        match r {
            Some(v) => {
                &&& (forall|i: int| 0 <= i < v@.len() ==> #[trigger] v@[i].1@.len() <= 0xFFFF)
                &&& v@.len() <= endpos - pos
                &&& ser_edns_options(v@) == b@.subrange(pos as int, endpos as int)
            },
            None => true,
        },
        forall|opts: Seq<(u16, Vec<u8>)>|
            #![trigger ser_edns_options(opts)]
            {
                &&& (forall|i: int| 0 <= i < opts.len() ==> (#[trigger] opts[i]).1@.len() <= 0xFFFF)
                &&& ser_edns_options(opts) == b@.subrange(pos as int, endpos as int)
            } ==> r is Some,
    decreases endpos - pos,
{
    if pos == endpos {
        let v: Vec<(u16, Vec<u8>)> = Vec::new();
        proof {
            assert(ser_edns_options(v@) =~= b@.subrange(pos as int, pos as int));
        }
        return Some(v);
    }
    proof {
        lemma_options_hyp_head(b@, pos as int, endpos as int);
        lemma_edns_rdata_len_nonneg_all();
    }
    if endpos - pos < 4 {
        proof {
            assert forall|opts: Seq<(u16, Vec<u8>)>|
            #![trigger ser_edns_options(opts)]
            {
                &&& (forall|i: int| 0 <= i < opts.len() ==> (#[trigger] opts[i]).1@.len() <= 0xFFFF)
                &&& ser_edns_options(opts) == b@.subrange(pos as int, endpos as int)
            } implies false by {
                if opts.len() == 0 {
                    assert(ser_edns_options(opts).len() == 0);
                } else {
                    assert(ser_edns_options(opts.skip(1)) == b@.subrange(
                        pos + 4 + opts[0].1@.len(),
                        endpos as int,
                    ));
                }
            }
        }
        return None;
    }
    let code: u16 = read_u16(b, pos);
    let olen: u16 = read_u16(b, pos + 2);
    let ol: usize = olen as usize;
    if ol > endpos - (pos + 4) {
        proof {
            assert forall|opts: Seq<(u16, Vec<u8>)>|
            #![trigger ser_edns_options(opts)]
            {
                &&& (forall|i: int| 0 <= i < opts.len() ==> (#[trigger] opts[i]).1@.len() <= 0xFFFF)
                &&& ser_edns_options(opts) == b@.subrange(pos as int, endpos as int)
            } implies false by {
                if opts.len() == 0 {
                    assert(ser_edns_options(opts).len() == 0);
                } else {
                    assert(b@.subrange(pos + 2, pos + 4) == be16(opts[0].1@.len() as u16));
                    assert(olen == opts[0].1@.len());
                    assert(ser_edns_options(opts.skip(1)) == b@.subrange(
                        pos + 4 + opts[0].1@.len(),
                        endpos as int,
                    ));
                }
            }
        }
        return None;
    }
    let data = copy_range(b, pos + 4, pos + 4 + ol);
    let next: usize = pos + 4 + ol;
    match parse_edns_options(b, next, endpos) {
        None => {
            proof {
                assert forall|opts: Seq<(u16, Vec<u8>)>|
            #![trigger ser_edns_options(opts)]
            {
                &&& (forall|i: int| 0 <= i < opts.len() ==> (#[trigger] opts[i]).1@.len() <= 0xFFFF)
                &&& ser_edns_options(opts) == b@.subrange(pos as int, endpos as int)
            } implies false by {
                    if opts.len() == 0 {
                        assert(ser_edns_options(opts).len() == 0);
                    } else {
                        assert(b@.subrange(pos + 2, pos + 4) == be16(opts[0].1@.len() as u16));
                        assert(olen == opts[0].1@.len());
                        assert(ser_edns_options(opts.skip(1)) == b@.subrange(
                            next as int,
                            endpos as int,
                        ));
                        assert forall|i: int|
                            0 <= i < opts.skip(1).len() implies (#[trigger] opts.skip(
                            1,
                        )[i]).1@.len() <= 0xFFFF by {
                            assert(opts.skip(1)[i] == opts[i + 1]);
                        }
                    }
                }
            }
            None
        },
        Some(mut rest) => {
            let ghost rest0 = rest@;
            rest.insert(0, (code, data));
            proof {
                assert(rest@.skip(1) =~= rest0);
                assert(be16(rest@[0].1@.len() as u16) == be16(olen));
                assert(ser_edns_options(rest@) =~= b@.subrange(pos as int, endpos as int));
                assert forall|i: int| 0 <= i < rest@.len() implies #[trigger] rest@[i].1@.len()
                    <= 0xFFFF by {
                    if i > 0 {
                        assert(rest@.skip(1)[i - 1] == rest@[i]);
                    }
                }
                assert(rest@.len() <= endpos - pos);
                assert(ser_edns_options(rest@) == b@.subrange(pos as int, endpos as int));
            }
            Some(rest)
        },
    }
}

/// A well-formed EDNS pseudo-record whose encoding occupies `[pos, e2)` of
/// `b` splits into its eleven fixed bytes and its options.
pub proof fn lemma_ser_edns_parts(e: DnsEdns, b: Seq<u8>, pos: int, e2: int)
    requires
        e.wf(),
        0 <= pos <= e2 <= b.len(),
        ser_edns(e) == b.subrange(pos, e2),
    ensures
        e2 == pos + 11 + spec_edns_rdata_len(e.options@),
        spec_edns_rdata_len(e.options@) >= 0,
        b[pos] == 0,
        b[pos + 1] == 0,
        b[pos + 2] == 41,
        b.subrange(pos + 9, pos + 11) == be16(spec_edns_rdata_len(e.options@) as u16),
        ser_edns_options(e.options@) == b.subrange(pos + 11, e2),
        forall|i: int| 0 <= i < e.options@.len() ==> (#[trigger] e.options@[i]).1@.len() <= 0xFFFF,
{
    let t1 = seq![0u8] + be16(41);
    let t2 = t1 + be16(e.payload_size);
    let t3 = t2 + seq![e.ext_rcode, e.version];
    let t4 = t3 + be16(e.flags);
    let t5 = t4 + be16(spec_edns_rdata_len(e.options@) as u16);
    assert(ser_edns(e) == t5 + ser_edns_options(e.options@));
    assert(t1.len() == 3 && t2.len() == 5 && t3.len() == 7 && t4.len() == 9 && t5.len() == 11);
    lemma_ser_edns_options_len(e.options@);
    lemma_edns_rdata_len_nonneg(e.options@);
    assert(e2 - pos == 11 + spec_edns_rdata_len(e.options@));
    assert(b[pos] == b.subrange(pos, e2)[0]);
    assert(ser_edns(e)[0] == t5[0] && t5[0] == t4[0] && t4[0] == t3[0] && t3[0] == t2[0] && t2[0]
        == t1[0] && t1[0] == 0);
    assert(b[pos + 1] == b.subrange(pos, e2)[1]);
    assert(ser_edns(e)[1] == t5[1] && t5[1] == t4[1] && t4[1] == t3[1] && t3[1] == t2[1] && t2[1]
        == t1[1] && t1[1] == be16(41)[0]);
    assert(b[pos + 2] == b.subrange(pos, e2)[2]);
    assert(ser_edns(e)[2] == t5[2] && t5[2] == t4[2] && t4[2] == t3[2] && t3[2] == t2[2] && t2[2]
        == t1[2] && t1[2] == be16(41)[1]);
    assert(b[pos + 9] == b.subrange(pos, e2)[9]);
    assert(ser_edns(e)[9] == t5[9] && t5[9] == be16(spec_edns_rdata_len(e.options@) as u16)[0]);
    assert(b[pos + 10] == b.subrange(pos, e2)[10]);
    assert(ser_edns(e)[10] == t5[10] && t5[10] == be16(spec_edns_rdata_len(e.options@) as u16)[1]);
    assert(b.subrange(pos + 9, pos + 11) =~= be16(spec_edns_rdata_len(e.options@) as u16));
    assert(ser_edns_options(e.options@) =~= b.subrange(pos + 11, e2)) by {
        assert forall|i: int| 0 <= i < e2 - pos - 11 implies #[trigger] ser_edns_options(
            e.options@,
        )[i] == b[pos + 11 + i] by {
            assert(ser_edns(e)[11 + i] == b.subrange(pos, e2)[11 + i]);
        }
    }
}

/// Reads the EDNS pseudo-record starting at `pos`, whose first three bytes
/// the caller has already seen to be the root name and the OPT type.
fn parse_edns(b: &[u8], pos: usize) -> (r: Option<(DnsEdns, usize)>)
    requires
        pos <= b@.len(),
    ensures
        match r {
            Some(v) => {
                &&& pos < v.1 <= b@.len()
                &&& v.0.wf()
                &&& ser_edns(v.0) == b@.subrange(pos as int, v.1 as int)
            },
            None => true,
        },
        forall|ed: DnsEdns, e2: int|
            #![trigger ser_edns(ed), b@.subrange(pos as int, e2)]
            {
                &&& ed.wf()
                &&& pos <= e2 <= b@.len()
                &&& ser_edns(ed) == b@.subrange(pos as int, e2)
            } ==> (r is Some && r.unwrap().1 == e2),
{
    if b.len() - pos < 11 {
        proof {
            assert forall|ed: DnsEdns, e2: int|
            #![trigger ser_edns(ed), b@.subrange(pos as int, e2)]
            {
                &&& ed.wf()
                &&& pos <= e2 <= b@.len()
                &&& ser_edns(ed) == b@.subrange(pos as int, e2)
            } implies false by {
                lemma_ser_edns_parts(ed, b@, pos as int, e2);
            }
        }
        return None;
    }
    if b[pos] != 0 {
        proof {
            assert forall|ed: DnsEdns, e2: int|
            #![trigger ser_edns(ed), b@.subrange(pos as int, e2)]
            {
                &&& ed.wf()
                &&& pos <= e2 <= b@.len()
                &&& ser_edns(ed) == b@.subrange(pos as int, e2)
            } implies false by {
                lemma_ser_edns_parts(ed, b@, pos as int, e2);
            }
        }
        return None;
    }
    let t: u16 = read_u16(b, pos + 1);
    if t != 41 {
        proof {
            assert forall|ed: DnsEdns, e2: int|
            #![trigger ser_edns(ed), b@.subrange(pos as int, e2)]
            {
                &&& ed.wf()
                &&& pos <= e2 <= b@.len()
                &&& ser_edns(ed) == b@.subrange(pos as int, e2)
            } implies false by {
                lemma_ser_edns_parts(ed, b@, pos as int, e2);
            }
        }
        return None;
    }
    let payload_size: u16 = read_u16(b, pos + 3);
    let ext_rcode: u8 = b[pos + 5];
    let version: u8 = b[pos + 6];
    let flags: u16 = read_u16(b, pos + 7);
    let rdlen: u16 = read_u16(b, pos + 9);
    let rstart: usize = pos + 11;
    let rdl: usize = rdlen as usize;
    if rdl > b.len() - rstart {
        proof {
            assert forall|ed: DnsEdns, e2: int|
            #![trigger ser_edns(ed), b@.subrange(pos as int, e2)]
            {
                &&& ed.wf()
                &&& pos <= e2 <= b@.len()
                &&& ser_edns(ed) == b@.subrange(pos as int, e2)
            } implies false by {
                lemma_ser_edns_parts(ed, b@, pos as int, e2);
                assert(be16(spec_edns_rdata_len(ed.options@) as u16) == b@.subrange(
                    pos + 9,
                    pos + 11,
                ));
                assert(rdlen == spec_edns_rdata_len(ed.options@));
            }
        }
        return None;
    }
    let options = match parse_edns_options(b, rstart, rstart + rdl) {
        Some(v) => v,
        None => {
            proof {
                assert forall|ed: DnsEdns, e2: int|
            #![trigger ser_edns(ed), b@.subrange(pos as int, e2)]
            {
                &&& ed.wf()
                &&& pos <= e2 <= b@.len()
                &&& ser_edns(ed) == b@.subrange(pos as int, e2)
            } implies false by {
                    lemma_ser_edns_parts(ed, b@, pos as int, e2);
                    assert(be16(spec_edns_rdata_len(ed.options@) as u16) == b@.subrange(
                        pos + 9,
                        pos + 11,
                    ));
                    assert(rdlen == spec_edns_rdata_len(ed.options@));
                    assert(ser_edns_options(ed.options@) == b@.subrange(
                        rstart as int,
                        (rstart + rdl) as int,
                    ));
                }
            }
            return None;
        },
    };
    let e = DnsEdns { payload_size, ext_rcode, version, flags, options };
    proof {
        lemma_ser_edns_options_len(e.options@);
        assert(e.wf());
        assert(be16(spec_edns_rdata_len(e.options@) as u16) == be16(rdlen));
        assert(ser_edns(e) =~= b@.subrange(pos as int, rstart + rdl));
        assert forall|ed: DnsEdns, e2: int|
            #![trigger ser_edns(ed), b@.subrange(pos as int, e2)]
            {
                &&& ed.wf()
                &&& pos <= e2 <= b@.len()
                &&& ser_edns(ed) == b@.subrange(pos as int, e2)
            } implies rstart + rdl == e2 by {
            lemma_ser_edns_parts(ed, b@, pos as int, e2);
            assert(be16(spec_edns_rdata_len(ed.options@) as u16) == b@.subrange(pos + 9, pos + 11));
            assert(rdlen == spec_edns_rdata_len(ed.options@));
        }
    }
    Some((e, rstart + rdl))
}

/// A well-formed record's first three encoded bytes never spell the root
/// name followed by the OPT type, and a record takes at least eleven bytes.
pub proof fn lemma_record_head_bytes(rec: DnsRecord, b: Seq<u8>, pos: int, e2: int)
    requires
        rec.wf(),
        0 <= pos <= e2 <= b.len(),
        ser_record(rec) == b.subrange(pos, e2),
    ensures
        e2 - pos >= 11,
        !(b[pos] == 0 && b[pos + 1] == 0 && b[pos + 2] == 41),
{
    lemma_ser_record_parts(rec, b, pos, e2);
    lemma_ser_name_len(rec.name@);
    let ln = ser_name(rec.name@).len() as int;
    if rec.name@.len() <= 1 {
        assert(b.subrange(pos, pos + ln) == ser_name(rec.name@));
        assert(ser_name(rec.name@) == seq![0u8]);
        assert(ln == 1);
        let tc = rec.record_type.spec_to_u16();
        assert(b.subrange(pos + 1, pos + 3) == be16(tc));
        assert(b[pos + 1] == b.subrange(pos + 1, pos + 3)[0] && b[pos + 2] == b.subrange(
            pos + 1,
            pos + 3,
        )[1]);
        if b[pos + 1] == 0 && b[pos + 2] == 41 {
            assert(tc / 256 == 0 && tc % 256 == 41);
            assert(tc == 41);
        }
    } else {
        assert(wf_name_labels(rec.name@));
        lemma_ser_name_labels_first(rec.name@);
        assert(ser_name(rec.name@)[0] == dot_pos(rec.name@) as u8);
        assert(b[pos] == b.subrange(pos, e2)[0]);
        assert(b[pos] == ser_name(rec.name@)[0]);
    }
}

/// Splits a nonempty hypothetical additional section's encoding at the
/// head record.
proof fn lemma_additionals_hyp_head(b: Seq<u8>, pos: int)
    requires
        0 <= pos <= b.len(),
    ensures
        forall|recs: Seq<DnsRecord>, ed: Option<DnsEdns>, e2: int|
            #![trigger ser_records(recs), spec_edns_part(ed), b.subrange(pos, e2)]
            {
                &&& recs.len() >= 1
                &&& pos <= e2 <= b.len()
                &&& ser_records(recs) + spec_edns_part(ed) == b.subrange(pos, e2)
            } ==> {
                let l0 = ser_record(recs[0]).len() as int;
                &&& pos + l0 <= e2
                &&& ser_record(recs[0]) == b.subrange(pos, pos + l0)
                &&& ser_records(recs.skip(1)) + spec_edns_part(ed) == b.subrange(pos + l0, e2)
            },
{
    assert forall|recs: Seq<DnsRecord>, ed: Option<DnsEdns>, e2: int|
        #![trigger ser_records(recs), spec_edns_part(ed), b.subrange(pos, e2)]
        {
            &&& recs.len() >= 1
            &&& pos <= e2 <= b.len()
            &&& ser_records(recs) + spec_edns_part(ed) == b.subrange(pos, e2)
        } implies {
        let l0 = ser_record(recs[0]).len() as int;
        &&& pos + l0 <= e2
        &&& ser_record(recs[0]) == b.subrange(pos, pos + l0)
        &&& ser_records(recs.skip(1)) + spec_edns_part(ed) == b.subrange(pos + l0, e2)
    } by {
        let l0 = ser_record(recs[0]).len() as int;
        assert(ser_records(recs) == ser_record(recs[0]) + ser_records(recs.skip(1)));
        assert((ser_records(recs) + spec_edns_part(ed)).len() == e2 - pos);
        assert(ser_records(recs).len() == l0 + ser_records(recs.skip(1)).len());
        assert(e2 - pos == l0 + ser_records(recs.skip(1)).len() + spec_edns_part(ed).len());
        assert(ser_record(recs[0]) =~= b.subrange(pos, pos + l0)) by {
            assert forall|i: int| 0 <= i < l0 implies #[trigger] ser_record(recs[0])[i] == b[pos
                + i] by {
                assert((ser_records(recs) + spec_edns_part(ed))[i] == b.subrange(pos, e2)[i]);
            }
        }
        assert(ser_records(recs.skip(1)) + spec_edns_part(ed) =~= b.subrange(pos + l0, e2)) by {
            assert forall|i: int|
                0 <= i < e2 - pos - l0 implies #[trigger] (ser_records(recs.skip(1))
                + spec_edns_part(ed))[i] == b[pos + l0 + i] by {
                assert((ser_records(recs) + spec_edns_part(ed))[l0 + i] == b.subrange(
                    pos,
                    e2,
                )[l0 + i]);
                if i < ser_records(recs.skip(1)).len() {
                    assert(ser_records(recs)[l0 + i] == ser_records(recs.skip(1))[i]);
                }
            }
        }
    }
}

/// Reads the additional section: `count` records of which a final OPT
/// pseudo-record, if present, becomes the message's EDNS.
fn parse_additionals(b: &[u8], pos: usize, count: u16) -> (r: Option<
    (Vec<DnsRecord>, Option<DnsEdns>, usize),
>)
    requires
        pos <= b@.len(),
    ensures
        match r {
            Some(v) => {
                &&& pos <= v.2 <= b@.len()
                &&& (forall|i: int| 0 <= i < v.0@.len() ==> #[trigger] v.0@[i].wf())
                &&& v.0@.len() + (if v.1 is Some {
                    1int
                } else {
                    0int
                }) == count
                &&& (match v.1 {
                    Some(e) => e.wf(),
                    None => true,
                })
                &&& ser_records(v.0@) + (if v.1 is Some {
                    ser_edns(v.1.unwrap())
                } else {
                    Seq::<u8>::empty()
                }) == b@.subrange(pos as int, v.2 as int)
            },
            None => true,
        },
        forall|recs: Seq<DnsRecord>, ed: Option<DnsEdns>, e2: int|
            #![trigger ser_records(recs), spec_edns_part(ed), b@.subrange(pos as int, e2)]
            {
                &&& (forall|i: int| 0 <= i < recs.len() ==> (#[trigger] recs[i]).wf())
                &&& recs.len() + (if ed is Some {
                    1int
                } else {
                    0int
                }) == count
                &&& (match ed {
                    Some(e) => e.wf(),
                    None => true,
                })
                &&& pos <= e2 <= b@.len()
                &&& ser_records(recs) + spec_edns_part(ed) == b@.subrange(pos as int, e2)
            } ==> (r is Some && r.unwrap().2 == e2),
    decreases count,
{
    proof {
        lemma_additionals_hyp_head(b@, pos as int);
    }
    if count == 0 {
        let rs: Vec<DnsRecord> = Vec::new();
        proof {
            assert(ser_records(rs@) + Seq::<u8>::empty() =~= b@.subrange(pos as int, pos as int));
            assert forall|recs: Seq<DnsRecord>, ed: Option<DnsEdns>, e2: int|
            #![trigger ser_records(recs), spec_edns_part(ed), b@.subrange(pos as int, e2)]
            {
                &&& (forall|i: int| 0 <= i < recs.len() ==> (#[trigger] recs[i]).wf())
                &&& recs.len() + (if ed is Some {
                    1int
                } else {
                    0int
                }) == count
                &&& (match ed {
                    Some(e) => e.wf(),
                    None => true,
                })
                &&& pos <= e2 <= b@.len()
                &&& ser_records(recs) + spec_edns_part(ed) == b@.subrange(pos as int, e2)
            } implies pos == e2 by {
                assert(recs.len() == 0 && ed is None);
                assert(ser_records(recs).len() == 0 && spec_edns_part(ed).len() == 0);
            }
        }
        return Some((rs, None::<DnsEdns>, pos));
    }
    let is_opt: bool = b.len() - pos >= 3 && b[pos] == 0 && b[pos + 1] == 0 && b[pos + 2] == 41;
    if is_opt {
        if count != 1 {
            proof {
                assert forall|recs: Seq<DnsRecord>, ed: Option<DnsEdns>, e2: int|
            #![trigger ser_records(recs), spec_edns_part(ed), b@.subrange(pos as int, e2)]
            {
                &&& (forall|i: int| 0 <= i < recs.len() ==> (#[trigger] recs[i]).wf())
                &&& recs.len() + (if ed is Some {
                    1int
                } else {
                    0int
                }) == count
                &&& (match ed {
                    Some(e) => e.wf(),
                    None => true,
                })
                &&& pos <= e2 <= b@.len()
                &&& ser_records(recs) + spec_edns_part(ed) == b@.subrange(pos as int, e2)
            } implies false by {
                    if recs.len() >= 1 {
                        assert(ser_record(recs[0]) == b@.subrange(
                            pos as int,
                            pos + ser_record(recs[0]).len(),
                        ));
                        assert(recs[0].wf());
                        lemma_record_head_bytes(
                            recs[0],
                            b@,
                            pos as int,
                            pos + ser_record(recs[0]).len() as int,
                        );
                    }
                    assert(recs.len() == 0);
                    assert(ed is Some && count == 1);
                }
            }
            return None;
        }
        let er = parse_edns(b, pos);
        let (e, end) = match er {
            Some(v) => v,
            None => {
                proof {
                    assert forall|recs: Seq<DnsRecord>, ed: Option<DnsEdns>, e2: int|
            #![trigger ser_records(recs), spec_edns_part(ed), b@.subrange(pos as int, e2)]
            {
                &&& (forall|i: int| 0 <= i < recs.len() ==> (#[trigger] recs[i]).wf())
                &&& recs.len() + (if ed is Some {
                    1int
                } else {
                    0int
                }) == count
                &&& (match ed {
                    Some(e) => e.wf(),
                    None => true,
                })
                &&& pos <= e2 <= b@.len()
                &&& ser_records(recs) + spec_edns_part(ed) == b@.subrange(pos as int, e2)
            } implies false by {
                    if recs.len() >= 1 {
                        assert(ser_record(recs[0]) == b@.subrange(
                            pos as int,
                            pos + ser_record(recs[0]).len(),
                        ));
                        assert(recs[0].wf());
                        lemma_record_head_bytes(
                            recs[0],
                            b@,
                            pos as int,
                            pos + ser_record(recs[0]).len() as int,
                        );
                    }
                        assert(recs.len() == 0 && ed is Some);
                        assert(ser_records(recs) + spec_edns_part(ed) =~= ser_edns(ed.unwrap()));
                        assert(ser_edns(ed.unwrap()) == b@.subrange(pos as int, e2));
                    }
                }
                return None;
            },
        };
        let rs: Vec<DnsRecord> = Vec::new();
        proof {
            assert(ser_records(rs@) + ser_edns(e) =~= b@.subrange(pos as int, end as int));
            assert forall|recs: Seq<DnsRecord>, ed: Option<DnsEdns>, e2: int|
            #![trigger ser_records(recs), spec_edns_part(ed), b@.subrange(pos as int, e2)]
            {
                &&& (forall|i: int| 0 <= i < recs.len() ==> (#[trigger] recs[i]).wf())
                &&& recs.len() + (if ed is Some {
                    1int
                } else {
                    0int
                }) == count
                &&& (match ed {
                    Some(e) => e.wf(),
                    None => true,
                })
                &&& pos <= e2 <= b@.len()
                &&& ser_records(recs) + spec_edns_part(ed) == b@.subrange(pos as int, e2)
            } implies end == e2 by {
                    if recs.len() >= 1 {
                        assert(ser_record(recs[0]) == b@.subrange(
                            pos as int,
                            pos + ser_record(recs[0]).len(),
                        ));
                        assert(recs[0].wf());
                        lemma_record_head_bytes(
                            recs[0],
                            b@,
                            pos as int,
                            pos + ser_record(recs[0]).len() as int,
                        );
                    }
                assert(recs.len() == 0 && ed is Some);
                assert(ser_records(recs) + spec_edns_part(ed) =~= ser_edns(ed.unwrap()));
                assert(ser_edns(ed.unwrap()) == b@.subrange(pos as int, e2));
            }
        }
        return Some((rs, Some(e), end));
    }
    let rr = parse_record(b, pos);
    let (rec, p1) = match rr {
        Some(v) => v,
        None => {
            proof {
                assert forall|recs: Seq<DnsRecord>, ed: Option<DnsEdns>, e2: int|
            #![trigger ser_records(recs), spec_edns_part(ed), b@.subrange(pos as int, e2)]
            {
                &&& (forall|i: int| 0 <= i < recs.len() ==> (#[trigger] recs[i]).wf())
                &&& recs.len() + (if ed is Some {
                    1int
                } else {
                    0int
                }) == count
                &&& (match ed {
                    Some(e) => e.wf(),
                    None => true,
                })
                &&& pos <= e2 <= b@.len()
                &&& ser_records(recs) + spec_edns_part(ed) == b@.subrange(pos as int, e2)
            } implies false by {
                    if recs.len() == 0 {
                        assert(ed is Some);
                        assert(ser_records(recs) + spec_edns_part(ed) =~= ser_edns(ed.unwrap()));
                        assert(ser_edns(ed.unwrap()) == b@.subrange(pos as int, e2));
                        lemma_ser_edns_parts(ed.unwrap(), b@, pos as int, e2);
                    } else {
                        assert(ser_record(recs[0]) == b@.subrange(
                            pos as int,
                            pos + ser_record(recs[0]).len(),
                        ));
                        assert(recs[0].wf());
                    }
                }
            }
            return None;
        },
    };
    match parse_additionals(b, p1, count - 1) {
        Some((mut rest, edns, end)) => {
            let ghost rest0 = rest@;
            rest.insert(0, rec);
            proof {
                let ep = if edns is Some {
                    ser_edns(edns.unwrap())
                } else {
                    Seq::<u8>::empty()
                };
                assert(ser_records(rest0) + ep == b@.subrange(p1 as int, end as int));
                assert(rest@.skip(1) =~= rest0);
                assert(rest@[0] == rec);
                assert(ser_records(rest@) == ser_record(rec) + ser_records(rest0));
                assert((ser_record(rec) + ser_records(rest0)) + ep =~= ser_record(rec) + (
                ser_records(rest0) + ep));
                assert(ser_record(rec) + (ser_records(rest0) + ep) =~= b@.subrange(
                    pos as int,
                    end as int,
                ));
                assert forall|recs: Seq<DnsRecord>, ed: Option<DnsEdns>, e2: int|
            #![trigger ser_records(recs), spec_edns_part(ed), b@.subrange(pos as int, e2)]
            {
                &&& (forall|i: int| 0 <= i < recs.len() ==> (#[trigger] recs[i]).wf())
                &&& recs.len() + (if ed is Some {
                    1int
                } else {
                    0int
                }) == count
                &&& (match ed {
                    Some(e) => e.wf(),
                    None => true,
                })
                &&& pos <= e2 <= b@.len()
                &&& ser_records(recs) + spec_edns_part(ed) == b@.subrange(pos as int, e2)
            } implies end == e2 by {
                    if recs.len() == 0 {
                        assert(ed is Some);
                        assert(ser_records(recs) + spec_edns_part(ed) =~= ser_edns(ed.unwrap()));
                        assert(ser_edns(ed.unwrap()) == b@.subrange(pos as int, e2));
                        lemma_ser_edns_parts(ed.unwrap(), b@, pos as int, e2);
                        assert(false);
                    }
                    assert(ser_record(recs[0]) == b@.subrange(
                        pos as int,
                        pos + ser_record(recs[0]).len(),
                    ));
                    assert(recs[0].wf());
                    assert(p1 == pos + ser_record(recs[0]).len());
                    assert(ser_records(recs.skip(1)) + spec_edns_part(ed) == b@.subrange(
                        p1 as int,
                        e2,
                    ));
                    assert(recs.skip(1).len() + (if ed is Some {
                        1int
                    } else {
                        0int
                    }) == (count - 1) as u16);
                    assert forall|i: int| 0 <= i < recs.skip(1).len() implies (#[trigger] recs.skip(
                        1,
                    )[i]).wf() by {
                        assert(recs.skip(1)[i] == recs[i + 1]);
                    }
                }
            }
            Some((rest, edns, end))
        },
        None => {
            proof {
                assert forall|recs: Seq<DnsRecord>, ed: Option<DnsEdns>, e2: int|
            #![trigger ser_records(recs), spec_edns_part(ed), b@.subrange(pos as int, e2)]
            {
                &&& (forall|i: int| 0 <= i < recs.len() ==> (#[trigger] recs[i]).wf())
                &&& recs.len() + (if ed is Some {
                    1int
                } else {
                    0int
                }) == count
                &&& (match ed {
                    Some(e) => e.wf(),
                    None => true,
                })
                &&& pos <= e2 <= b@.len()
                &&& ser_records(recs) + spec_edns_part(ed) == b@.subrange(pos as int, e2)
            } implies false by {
                    if recs.len() == 0 {
                        assert(ed is Some);
                        assert(ser_records(recs) + spec_edns_part(ed) =~= ser_edns(ed.unwrap()));
                        assert(ser_edns(ed.unwrap()) == b@.subrange(pos as int, e2));
                        lemma_ser_edns_parts(ed.unwrap(), b@, pos as int, e2);
                        assert(false);
                    }
                    assert(ser_record(recs[0]) == b@.subrange(
                        pos as int,
                        pos + ser_record(recs[0]).len(),
                    ));
                    assert(recs[0].wf());
                    assert(p1 == pos + ser_record(recs[0]).len());
                    assert(ser_records(recs.skip(1)) + spec_edns_part(ed) == b@.subrange(
                        p1 as int,
                        e2,
                    ));
                    assert(recs.skip(1).len() + (if ed is Some {
                        1int
                    } else {
                        0int
                    }) == (count - 1) as u16);
                    assert forall|i: int| 0 <= i < recs.skip(1).len() implies (#[trigger] recs.skip(
                        1,
                    )[i]).wf() by {
                        assert(recs.skip(1)[i] == recs[i + 1]);
                    }
                }
            }
            None
        },
    }
}

/// A message whose header bytes and encoded sections each occupy their
/// place in `b` encodes to exactly `b`.
pub proof fn lemma_ser_message_compose(m: DnsMessage, b: Seq<u8>, p1: int, p2: int, p3: int)
    requires
        b.len() >= 12,
        12 <= p1 <= p2 <= p3 <= b.len(),
        be16(m.id) == b.subrange(0, 2),
        b[2] == spec_flags1(m),
        b[3] == spec_flags2(m),
        be16(m.queries@.len() as u16) == b.subrange(4, 6),
        be16(m.answers@.len() as u16) == b.subrange(6, 8),
        be16(m.name_servers@.len() as u16) == b.subrange(8, 10),
        be16(spec_arcount(m) as u16) == b.subrange(10, 12),
        ser_questions(m.queries@) == b.subrange(12, p1),
        ser_records(m.answers@) == b.subrange(p1, p2),
        ser_records(m.name_servers@) == b.subrange(p2, p3),
        ser_records(m.additionals@) + spec_edns_part(m.edns) == b.subrange(p3, b.len() as int),
    ensures
        ser_message(m) == b,
{
    let ep = match m.edns {
        Some(e) => ser_edns(e),
        None => Seq::<u8>::empty(),
    };
    assert(ep == spec_edns_part(m.edns));
    let adds = ser_records(m.additionals@);
    assert((adds + ep).len() == b.len() - p3);
    assert(adds.len() + ep.len() == b.len() - p3);
    assert forall|j: int| 0 <= j < adds.len() implies adds[j] == b[p3 + j] by {
        assert((adds + ep)[j] == adds[j]);
        assert((adds + ep)[j] == b.subrange(p3, b.len() as int)[j]);
    }
    assert forall|j: int| 0 <= j < ep.len() implies ep[j] == b[p3 + adds.len() + j] by {
        assert((adds + ep)[adds.len() + j] == ep[j]);
        assert((adds + ep)[adds.len() + j] == b.subrange(p3, b.len() as int)[adds.len() + j]);
    }
    let s0 = be16(m.id) + seq![spec_flags1(m), spec_flags2(m)] + be16(m.queries@.len() as u16)
        + be16(m.answers@.len() as u16) + be16(m.name_servers@.len() as u16) + be16(
        spec_arcount(m) as u16,
    );
    assert(s0 =~= b.subrange(0, 12));
    let s1 = s0 + ser_questions(m.queries@);
    assert(s1 =~= b.subrange(0, p1));
    let s2 = s1 + ser_records(m.answers@);
    assert(s2 =~= b.subrange(0, p2));
    let s3 = s2 + ser_records(m.name_servers@);
    assert(s3 =~= b.subrange(0, p3));
    let s4 = s3 + adds;
    let s5 = s4 + ep;
    assert(s5 =~= b);
    assert(ser_message(m) == s5);
}

proof fn lemma_flags1_decompose(f: u8)
    ensures
        f == (f / 128) * 128 + ((f / 8) % 16) * 8 + ((f / 4) % 2) * 4 + ((f / 2) % 2) * 2 + f % 2,
{
    assert(f == (f / 128) * 128 + ((f / 8) % 16) * 8 + ((f / 4) % 2) * 4 + ((f / 2) % 2) * 2 + f
        % 2) by (bit_vector);
}

proof fn lemma_flags2_decompose(f: u8)
    ensures
        f == (f / 128) * 128 + ((f / 64) % 2) * 64 + ((f / 32) % 2) * 32 + ((f / 16) % 2) * 16 + f
            % 16,
{
    assert(f == (f / 128) * 128 + ((f / 64) % 2) * 64 + ((f / 32) % 2) * 32 + ((f / 16) % 2) * 16
        + f % 16) by (bit_vector);
}

/// Decodes canonical wire bytes into a message: on success the message is
/// well formed and re-encodes to exactly the input, so that decoding
/// followed by encoding is the identity on the bytes it accepts. Messages
/// using name compression, a set reserved Z bit, an OPT record that is not
/// the last additional record, or trailing bytes are rejected.
#[verifier::spinoff_prover]
#[verifier::rlimit(100)]
pub fn message_from_bytes(b: &[u8]) -> (r: Result<DnsMessage, DnsCodecError>)
    ensures
        match r {
            Ok(m) => m.wf() && ser_message(m) == b@,
            Err(_) => true,
        },
{
    if b.len() < 12 {
        return Err(DnsCodecError {  });
    }
    let id: u16 = read_u16(b, 0);
    let f1: u8 = b[2];
    let f2: u8 = b[3];
    let qd: u16 = read_u16(b, 4);
    let an: u16 = read_u16(b, 6);
    let ns: u16 = read_u16(b, 8);
    let ar: u16 = read_u16(b, 10);
    if (f2 / 64) % 2 != 0 {
        // reserved Z bit set: not canonical
        return Err(DnsCodecError {  });
    }
    let message_type = if f1 >= 128 {
        DnsMessageType::Response
    } else {
        DnsMessageType::Query
    };
    let op_code: u8 = (f1 / 8) % 16;
    let authoritative: bool = (f1 / 4) % 2 == 1;
    let truncated: bool = (f1 / 2) % 2 == 1;
    let recursion_desired: bool = f1 % 2 == 1;
    let recursion_available: bool = f2 / 128 == 1;
    let authentic_data: bool = (f2 / 32) % 2 == 1;
    let checking_disabled: bool = (f2 / 16) % 2 == 1;
    let response_code: u16 = (f2 % 16) as u16;
    let (queries, p1) = match parse_questions(b, 12, qd) {
        Some(v) => v,
        None => {
            return Err(DnsCodecError {  });
        },
    };
    let (answers, p2) = match parse_records(b, p1, an) {
        Some(v) => v,
        None => {
            return Err(DnsCodecError {  });
        },
    };
    let (name_servers, p3) = match parse_records(b, p2, ns) {
        Some(v) => v,
        None => {
            return Err(DnsCodecError {  });
        },
    };
    let (additionals, edns, p4) = match parse_additionals(b, p3, ar) {
        Some(v) => v,
        None => {
            return Err(DnsCodecError {  });
        },
    };
    if p4 != b.len() {
        return Err(DnsCodecError {  });
    }
    let m = DnsMessage {
        id,
        message_type,
        op_code,
        authoritative,
        truncated,
        recursion_desired,
        recursion_available,
        authentic_data,
        checking_disabled,
        response_code,
        queries,
        answers,
        name_servers,
        additionals,
        edns,
    };
    proof {
        lemma_flags1_decompose(f1);
        lemma_flags2_decompose(f2);
        assert(f1 / 128 == if f1 >= 128 {
            1int
        } else {
            0int
        });
        assert(spec_flags1(m) == f1);
        assert(spec_flags2(m) == f2);
        assert(m.wf());
        assert(b@[2] == b@.subrange(2, 4)[0] && b@[3] == b@.subrange(2, 4)[1]);
        assert(be16(m.queries@.len() as u16) == be16(qd));
        assert(be16(m.answers@.len() as u16) == be16(an));
        assert(be16(m.name_servers@.len() as u16) == be16(ns));
        assert(be16(spec_arcount(m) as u16) == be16(ar));
        lemma_ser_message_compose(m, b@, p1 as int, p2 as int, p3 as int);
    }
    Ok(m)
}

/// Round trip of the codec: encoding a decoded message yields the bytes
/// that were decoded. Whenever decoding accepts a datagram, re-encoding
/// the decoded message reproduces that datagram byte for byte.
pub fn encode_of_decoded(b: &[u8]) -> (r: Option<Vec<u8>>)
    ensures
        match r {
            Some(out) => out@ == b@,
            None => true,
        },
{
    match message_from_bytes(b) {
        Ok(m) => {
            match message_to_bytes(&m) {
                Ok(out) => Some(out),
                Err(_) => {
                    // unreachable: a decoded message is well formed
                    proof {
                        assert(false);
                    }
                    None
                },
            }
        },
        Err(_) => None,
    }
}

} // verus!

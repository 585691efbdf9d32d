//! Text utilities shared by the codecs: decimal rendering and parsing with
//! exact character-level specifications, and conversion of ASCII bytes into
//! a `String`.

use vstd::prelude::*;

verus! {

broadcast use vstd::string::group_string_axioms;

/// The decimal digits of `n`, most significant first, as ASCII bytes.
pub open spec fn dec_bytes(n: nat) -> Seq<u8>
    decreases n,
{
    if n < 10 {
        seq![(48 + n) as u8]
    } else {
        dec_bytes(n / 10).push((48 + n % 10) as u8)
    }
}

/// The decimal digits of `n`, most significant first, as characters.
pub open spec fn dec_digits(n: nat) -> Seq<char> {
    dec_bytes(n).map_values(|b: u8| b as char)
}

pub proof fn lemma_dec_bytes_ascii(n: nat)
    ensures
        dec_bytes(n).len() >= 1,
        forall|i: int| 0 <= i < dec_bytes(n).len() ==> 48 <= #[trigger] dec_bytes(n)[i] <= 57,
    decreases n,
{
    if n >= 10 {
        lemma_dec_bytes_ascii(n / 10);
    }
}

/// A decimal character.
pub open spec fn is_dec_digit(c: char) -> bool {
    '0' <= c <= '9'
}

/// Only zero's rendering starts with the digit zero.
pub proof fn lemma_dec_bytes_first(n: nat)
    ensures
        n >= 1 ==> dec_bytes(n)[0] != 48,
    decreases n,
{
    if n >= 10 {
        lemma_dec_bytes_first(n / 10);
        lemma_dec_bytes_ascii(n / 10);
    }
}

/// Two numbers with the same decimal rendering are equal.
pub proof fn lemma_dec_bytes_injective(n1: nat, n2: nat)
    requires
        dec_bytes(n1) == dec_bytes(n2),
    ensures
        n1 == n2,
    decreases n1,
{
    lemma_dec_bytes_ascii(n1);
    lemma_dec_bytes_ascii(n2);
    if n1 < 10 && n2 < 10 {
        assert(dec_bytes(n1) == seq![(48 + n1) as u8]);
        assert(dec_bytes(n2) == seq![(48 + n2) as u8]);
        assert(seq![(48 + n1) as u8][0] == (48 + n1) as u8);
        assert(seq![(48 + n2) as u8][0] == (48 + n2) as u8);
        assert(dec_bytes(n1)[0] == dec_bytes(n2)[0]);
        assert((48 + n1) as u8 == (48 + n2) as u8);
    } else if n1 < 10 {
        assert(dec_bytes(n2) == dec_bytes(n2 / 10).push((48 + n2 % 10) as u8));
        assert(dec_bytes(n2).len() >= 2) by {
            lemma_dec_bytes_ascii(n2 / 10);
            assert(dec_bytes(n2) == dec_bytes(n2 / 10).push((48 + n2 % 10) as u8));
        }
        assert(dec_bytes(n1).len() == 1);
    } else if n2 < 10 {
        assert(dec_bytes(n1) == dec_bytes(n1 / 10).push((48 + n1 % 10) as u8));
        assert(dec_bytes(n1).len() >= 2) by {
            lemma_dec_bytes_ascii(n1 / 10);
            assert(dec_bytes(n1) == dec_bytes(n1 / 10).push((48 + n1 % 10) as u8));
        }
        assert(dec_bytes(n2).len() == 1);
    } else {
        assert(dec_bytes(n1) == dec_bytes(n1 / 10).push((48 + n1 % 10) as u8));
        assert(dec_bytes(n2) == dec_bytes(n2 / 10).push((48 + n2 % 10) as u8));
        let l = dec_bytes(n1).len();
        assert(dec_bytes(n1)[l - 1] == (48 + n1 % 10) as u8);
        assert(dec_bytes(n2)[l - 1] == (48 + n2 % 10) as u8);
        assert(n1 % 10 == n2 % 10);
        assert(dec_bytes(n1).drop_last() =~= dec_bytes(n1 / 10));
        assert(dec_bytes(n2).drop_last() =~= dec_bytes(n2 / 10));
        lemma_dec_bytes_injective(n1 / 10, n2 / 10);
        assert(n1 == 10 * (n1 / 10) + n1 % 10);
        assert(n2 == 10 * (n2 / 10) + n2 % 10);
    }
}

/// A nonempty prefix of a decimal rendering is the rendering of a number
/// no larger than the rendered one.
pub proof fn lemma_dec_bytes_prefix(n: nat, k: int)
    requires
        1 <= k <= dec_bytes(n).len(),
    ensures
        exists|m: nat| #[trigger] dec_bytes(m) == dec_bytes(n).subrange(0, k) && m <= n,
    decreases n,
{
    if k == dec_bytes(n).len() {
        assert(dec_bytes(n).subrange(0, k) =~= dec_bytes(n));
    } else {
        assert(n >= 10);
        assert(dec_bytes(n).subrange(0, k) =~= dec_bytes(n / 10).subrange(0, k));
        lemma_dec_bytes_prefix(n / 10, k);
        let m0 = choose|m0: nat| #[trigger] dec_bytes(m0) == dec_bytes(n / 10).subrange(0, k)
            && m0 <= n / 10;
        assert(dec_bytes(m0) == dec_bytes(n).subrange(0, k) && m0 <= n);
    }
}

/// Two numbers with the same decimal character rendering are equal.
pub proof fn lemma_dec_digits_injective(n1: nat, n2: nat)
    requires
        dec_digits(n1) == dec_digits(n2),
    ensures
        n1 == n2,
{
    lemma_dec_bytes_ascii(n1);
    lemma_dec_bytes_ascii(n2);
    assert(dec_digits(n1).len() == dec_bytes(n1).len());
    assert(dec_digits(n2).len() == dec_bytes(n2).len());
    assert(dec_bytes(n1) =~= dec_bytes(n2)) by {
        assert forall|i: int| 0 <= i < dec_bytes(n1).len() implies dec_bytes(n1)[i]
            == dec_bytes(n2)[i] by {
            assert(dec_digits(n1)[i] == dec_bytes(n1)[i] as char);
            assert(dec_digits(n2)[i] == dec_bytes(n2)[i] as char);
        }
    }
    lemma_dec_bytes_injective(n1, n2);
}

/// Every character of a decimal run in `s` is a digit.
pub proof fn lemma_run_digits(s: Seq<char>, pos: int, e: int, n: nat)
    requires
        0 <= pos <= e <= s.len(),
        s.subrange(pos, e) == dec_digits(n),
    ensures
        forall|i: int| pos <= i < e ==> #[trigger] is_dec_digit(s[i]),
{
    lemma_dec_bytes_ascii(n);
    assert(dec_digits(n).len() == dec_bytes(n).len());
    assert forall|i: int| pos <= i < e implies #[trigger] is_dec_digit(s[i]) by {
        assert(s[i] == s.subrange(pos, e)[i - pos]);
        assert(dec_digits(n)[i - pos] == dec_bytes(n)[i - pos] as char);
        assert(48 <= dec_bytes(n)[i - pos] <= 57);
    }
}

/// Relies on `String::from_utf8`: ASCII bytes are valid UTF-8 and decode to
/// one character per byte, each the character of that byte.
#[verifier::external_body]
pub fn ascii_bytes_to_string(v: &Vec<u8>) -> (r: String)
    requires
        forall|i: int| 0 <= i < v@.len() ==> v@[i] < 128,
    ensures
        r@.len() == v@.len(),
        forall|i: int| 0 <= i < v@.len() ==> r@[i] == v@[i] as char,
        r.is_ascii(),
{
    match String::from_utf8(v.clone()) {
        Ok(s) => s,
        Err(_) => String::new(),
    }
}

/// Appends the decimal digits of `n` to `out`.
pub fn push_dec_bytes(n: u32, out: &mut Vec<u8>)
    ensures
        final(out)@ == old(out)@ + dec_bytes(n as nat),
    decreases n,
{
    if n < 10 {
        out.push(48 + (n as u8));
        assert(final(out)@ =~= old(out)@ + dec_bytes(n as nat));
    } else {
        push_dec_bytes(n / 10, out);
        out.push(48 + ((n % 10) as u8));
        assert(final(out)@ =~= old(out)@ + dec_bytes(n as nat));
    }
}

/// The decimal rendering of `n`, with no sign and no leading zero.
pub fn u32_to_string(n: u32) -> (r: String)
    ensures
        r@ == dec_digits(n as nat),
        r.is_ascii(),
{
    let mut buf: Vec<u8> = Vec::new();
    push_dec_bytes(n, &mut buf);
    proof {
        lemma_dec_bytes_ascii(n as nat);
    }
    let r = ascii_bytes_to_string(&buf);
    proof {
        assert(r@ =~= dec_digits(n as nat));
    }
    r
}

/// Reads a decimal `u32` starting at `pos`: one `0`, or a nonzero digit
/// followed by any further digits, as JSON writes numbers. Returns the value
/// and the position just past it. `None` when no digit starts at `pos` or
/// the digits exceed `u32`. Conversely, whenever the text at `pos` is the
/// decimal rendering of a `u32` up to a non-digit boundary, exactly that
/// value and boundary are returned.
pub fn parse_dec_u32(s: &str, pos: usize) -> (r: Option<(u32, usize)>)
    requires
        s.is_ascii(),
        pos <= s@.len(),
    ensures
        match r {
            Some(v) => {
                &&& pos < v.1 <= s@.len()
                &&& s@.subrange(pos as int, v.1 as int) == dec_digits(v.0 as nat)
            },
            None => true,
        },
        forall|n: u32, e: int|
            #![trigger s@.subrange(pos as int, e), dec_digits(n as nat)]
            {
                &&& pos < e <= s@.len()
                &&& s@.subrange(pos as int, e) == dec_digits(n as nat)
                &&& (e == s@.len() || !is_dec_digit(s@[e]))
            } ==> r == Some((n, e as usize)),
{
    let nlen: usize = s.unicode_len();
    if pos >= nlen {
        return None;
    }
    let c0: u8 = s.get_ascii(pos);
    if c0 < 48 || c0 > 57 {
        proof {
            assert forall|n: u32, e: int|
                #![trigger s@.subrange(pos as int, e), dec_digits(n as nat)]
                {
                    &&& pos < e <= s@.len()
                    &&& s@.subrange(pos as int, e) == dec_digits(n as nat)
                    &&& (e == s@.len() || !is_dec_digit(s@[e]))
                } implies false by {
                lemma_run_digits(s@, pos as int, e, n as nat);
                assert(is_dec_digit(s@[pos as int]));
            }
        }
        return None;
    }
    if c0 == 48 {
        proof {
            assert(s@.subrange(pos as int, pos + 1) =~= dec_digits(0));
            assert forall|n: u32, e: int|
                #![trigger s@.subrange(pos as int, e), dec_digits(n as nat)]
                {
                    &&& pos < e <= s@.len()
                    &&& s@.subrange(pos as int, e) == dec_digits(n as nat)
                    &&& (e == s@.len() || !is_dec_digit(s@[e]))
                } implies Some((0u32, (pos + 1) as usize)) == Some((n, e as usize)) by {
                assert(dec_bytes(n as nat)[0] as char == s@.subrange(pos as int, e)[0]);
                assert(s@[pos as int] as u8 == 48);
                lemma_dec_bytes_ascii(n as nat);
                lemma_dec_bytes_first(n as nat);
                assert(n == 0);
                assert(e - pos == dec_digits(0).len());
            }
        }
        return Some((0, pos + 1));
    }
    let mut n: u32 = (c0 - 48) as u32;
    let mut end: usize = pos + 1;
    proof {
        assert(s@.subrange(pos as int, end as int) =~= dec_digits(n as nat));
    }
    while end < s.len()
        invariant
            s.is_ascii(),
            pos < end <= s@.len(),
            n >= 1,
            s@.subrange(pos as int, end as int) == dec_digits(n as nat),
        decreases s@.len() - end,
    {
        let c: u8 = s.get_ascii(end);
        if c < 48 || c > 57 {
            proof {
                assert forall|n0: u32, e: int|
                    #![trigger s@.subrange(pos as int, e), dec_digits(n0 as nat)]
                    {
                        &&& pos < e <= s@.len()
                        &&& s@.subrange(pos as int, e) == dec_digits(n0 as nat)
                        &&& (e == s@.len() || !is_dec_digit(s@[e]))
                    } implies Some((n, end)) == Some((n0, e as usize)) by {
                    lemma_run_digits(s@, pos as int, e, n0 as nat);
                    lemma_run_digits(s@, pos as int, end as int, n as nat);
                    if e > end {
                        assert(is_dec_digit(s@[end as int]));
                        assert(false);
                    }
                    if e < end {
                        assert(is_dec_digit(s@[e]));
                        assert(false);
                    }
                    assert(e == end);
                    lemma_dec_digits_injective(n as nat, n0 as nat);
                }
            }
            return Some((n, end));
        }
        let d: u32 = (c - 48) as u32;
        if n > (0xFFFF_FFFF - d) / 10 {
            proof {
                assert forall|n0: u32, e: int|
                    #![trigger s@.subrange(pos as int, e), dec_digits(n0 as nat)]
                    {
                        &&& pos < e <= s@.len()
                        &&& s@.subrange(pos as int, e) == dec_digits(n0 as nat)
                        &&& (e == s@.len() || !is_dec_digit(s@[e]))
                    } implies false by {
                    lemma_run_digits(s@, pos as int, e, n0 as nat);
                    lemma_run_digits(s@, pos as int, end as int, n as nat);
                    // the hypothetical run continues past `end`
                    if e <= end {
                        if e < end {
                            assert(is_dec_digit(s@[e]));
                        } else {
                            assert(is_dec_digit(s@[end as int]));
                        }
                        assert(false);
                    }
                    let big: nat = n as nat * 10 + d as nat;
                    assert(big >= 10 && big / 10 == n as nat && big % 10 == d as nat && big
                        > 0xFFFF_FFFF) by (nonlinear_arith)
                        requires
                            n > (0xFFFF_FFFFu32 - d) / 10,
                            0 <= d < 10,
                            n >= 1,
                            big == n as nat * 10 + d as nat,
                    ;
                    assert(dec_bytes(big) == dec_bytes(n as nat).push((48 + d) as u8));
                    lemma_dec_bytes_ascii(n0 as nat);
                    lemma_dec_bytes_ascii(n as nat);
                    let k: int = end + 1 - pos;
                    assert(dec_digits(n0 as nat).len() == dec_bytes(n0 as nat).len());
                    assert(dec_digits(n as nat).len() == dec_bytes(n as nat).len());
                    assert(dec_bytes(n0 as nat).subrange(0, k) =~= dec_bytes(big)) by {
                        assert forall|i: int| 0 <= i < k implies dec_bytes(n0 as nat)[i]
                            == dec_bytes(big)[i] by {
                            assert(s@[pos + i] == s@.subrange(pos as int, e)[i]);
                            assert(dec_digits(n0 as nat)[i] == dec_bytes(n0 as nat)[i] as char);
                            assert(s@[pos + i] == dec_bytes(n0 as nat)[i] as char);
                            if i < k - 1 {
                                assert(s@[pos + i] == s@.subrange(pos as int, end as int)[i]);
                                assert(dec_digits(n as nat)[i] == dec_bytes(n as nat)[i] as char);
                                assert(s@[pos + i] == dec_bytes(n as nat)[i] as char);
                                assert(dec_bytes(big)[i] == dec_bytes(n as nat)[i]);
                            } else {
                                assert(s@[end as int] as u8 == (48 + d) as u8);
                                assert(dec_bytes(big)[i] == (48 + d) as u8);
                            }
                        }
                    }
                    lemma_dec_bytes_prefix(n0 as nat, k);
                    let m = choose|m: nat| #[trigger] dec_bytes(m) == dec_bytes(
                        n0 as nat,
                    ).subrange(0, k) && m <= n0 as nat;
                    lemma_dec_bytes_injective(m, big);
                    assert(big <= n0 as nat);
                    assert(false);
                }
            }
            return None;
        }
        proof {
            assert(n * 10 + d <= 0xFFFF_FFFFu32 && (n * 10 + d) / 10 == n as int && (n * 10
                + d) % 10 == d as int && n * 10 + d >= 10) by (nonlinear_arith)
                requires
                    n <= (0xFFFF_FFFFu32 - d) / 10,
                    0 <= d < 10,
                    n >= 1,
            ;
        }
        let n2: u32 = n * 10 + d;
        proof {
            assert(dec_bytes(n2 as nat) == dec_bytes(n as nat).push((48 + d) as u8));
            assert(s@.subrange(pos as int, end + 1) =~= s@.subrange(pos as int, end as int).push(
                s@[end as int],
            ));
            assert(s@[end as int] == (48 + d) as u8 as char);
            assert(s@.subrange(pos as int, end + 1) =~= dec_digits(n2 as nat));
        }
        n = n2;
        end = end + 1;
    }
    proof {
        assert forall|n0: u32, e: int|
            #![trigger s@.subrange(pos as int, e), dec_digits(n0 as nat)]
            {
                &&& pos < e <= s@.len()
                &&& s@.subrange(pos as int, e) == dec_digits(n0 as nat)
                &&& (e == s@.len() || !is_dec_digit(s@[e]))
            } implies Some((n, end)) == Some((n0, e as usize)) by {
            lemma_run_digits(s@, pos as int, end as int, n as nat);
            if e < end {
                assert(is_dec_digit(s@[e]));
                assert(false);
            }
            assert(e == end);
            lemma_dec_digits_injective(n as nat, n0 as nat);
        }
    }
    Some((n, end))
}

/// Whether `a` and the ASCII string `b` hold the same characters.
pub fn str_eq(a: &str, b: &str) -> (r: bool)
    requires
        b.is_ascii(),
    ensures
        r == (a@ == b@),
{
    if !a.is_ascii() {
        proof {
            assert(a@ != b@) by {
                if a@ == b@ {
                    assert(vstd::utf8::is_ascii_chars(a@));
                }
            }
        }
        return false;
    }
    if a.unicode_len() != b.unicode_len() {
        proof {
            assert(a@ != b@);
        }
        return false;
    }
    let n: usize = a.unicode_len();
    let mut i: usize = 0;
    while i < n
        invariant
            a.is_ascii(),
            b.is_ascii(),
            a@.len() == n,
            b@.len() == n,
            0 <= i <= n,
            forall|k: int| 0 <= k < i ==> a@[k] == b@[k],
        decreases n - i,
    {
        if a.get_ascii(i) != b.get_ascii(i) {
            proof {
                assert(a@ != b@);
            }
            return false;
        }
        i += 1;
    }
    proof {
        assert(a@ =~= b@);
    }
    true
}

/// Whether the characters of `s` in `[i, j)` are exactly those of the ASCII
/// string `lit`.
pub fn span_eq(s: &str, i: usize, j: usize, lit: &str) -> (r: bool)
    requires
        s.is_ascii(),
        lit.is_ascii(),
        i <= j <= s@.len(),
    ensures
        r == (s@.subrange(i as int, j as int) == lit@),
{
    if j - i != lit.unicode_len() {
        proof {
            assert(s@.subrange(i as int, j as int) != lit@);
        }
        return false;
    }
    let n: usize = lit.unicode_len();
    let mut k: usize = 0;
    while k < n
        invariant
            s.is_ascii(),
            lit.is_ascii(),
            i <= j <= s@.len(),
            j - i == n,
            lit@.len() == n,
            0 <= k <= n,
            forall|m: int| 0 <= m < k ==> s@[i + m] == lit@[m],
        decreases n - k,
    {
        if s.get_ascii(i + k) != lit.get_ascii(k) {
            proof {
                assert(s@.subrange(i as int, j as int)[k as int] != lit@[k as int]);
            }
            return false;
        }
        k += 1;
    }
    proof {
        assert(s@.subrange(i as int, j as int) =~= lit@);
    }
    true
}

} // verus!

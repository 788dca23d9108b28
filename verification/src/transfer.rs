//! The content transfer encodings of MIME: base64 and quoted-printable.

use crate::bytes::is_space;
use vstd::prelude::*;

verus! {

/// The six bits that a character of the base64 alphabet stands for.
pub open spec fn sextet(c: u8) -> Option<u8> {
    if 65 <= c <= 90 {
        Some((c - 65) as u8)
    } else if 97 <= c <= 122 {
        Some((c - 71) as u8)
    } else if 48 <= c <= 57 {
        Some((c + 4) as u8)
    } else if c == 43 {
        Some(62u8)
    } else if c == 47 {
        Some(63u8)
    } else {
        None
    }
}

/// The sextets that the first `n` bytes of `s` stand for. Blanks and the
/// padding sign `=` stand for nothing; any other byte outside the
/// alphabet makes the text undecodable.
pub open spec fn sextets_upto(s: Seq<u8>, n: int) -> Option<Seq<u8>>
    decreases n,
{
    if n <= 0 {
        Some(Seq::empty())
    } else {
        match sextets_upto(s, n - 1) {
            None => None,
            Some(v) => {
                let c = s[n - 1];
                if is_space(c) || c == 61 {
                    Some(v)
                } else {
                    match sextet(c) {
                        Some(x) => Some(v.push(x)),
                        None => None,
                    }
                }
            },
        }
    }
}

/// The number of whole bytes in `n` sextets.
pub open spec fn packed_len(n: int) -> int {
    n * 3 / 4
}

/// Byte `j` of the bit string that the sextets spell out.
pub open spec fn packed_byte(v: Seq<u8>, j: int) -> u8 {
    let at = j / 3 * 4;
    if j % 3 == 0 {
        (v[at] % 64 * 4 + v[at + 1] % 64 / 16) as u8
    } else if j % 3 == 1 {
        (v[at + 1] % 16 * 16 + v[at + 2] % 64 / 4) as u8
    } else {
        (v[at + 2] % 4 * 64 + v[at + 3] % 64) as u8
    }
}

/// The whole bytes of the bit string that the sextets spell out.
pub open spec fn packed(v: Seq<u8>) -> Seq<u8> {
    Seq::new(packed_len(v.len() as int) as nat, |j: int| packed_byte(v, j))
}

/// The bytes that a base64 text stands for. A text with a byte outside
/// the alphabet, or with a single character left over after the groups
/// of four, stands for nothing.
pub open spec fn base64_decoded(s: Seq<u8>) -> Option<Seq<u8>> {
    match sextets_upto(s, s.len() as int) {
        None => None,
        Some(v) => if v.len() % 4 == 1 {
            None
        } else {
            Some(packed(v))
        },
    }
}

/// The value of a hexadecimal digit, of either case.
pub open spec fn hex_value(c: u8) -> Option<u8> {
    if 48 <= c <= 57 {
        Some((c - 48) as u8)
    } else if 65 <= c <= 70 {
        Some((c - 55) as u8)
    } else if 97 <= c <= 102 {
        Some((c - 87) as u8)
    } else {
        None
    }
}

/// `first` followed by `rest`, where there is a rest.
pub open spec fn prepend(first: Seq<u8>, rest: Option<Seq<u8>>) -> Option<Seq<u8>> {
    match rest {
        Some(r) => Some(first + r),
        None => None,
    }
}

/// The bytes that a quoted-printable text stands for, from index `i` on.
/// `=` before a line break stands for nothing, `=` before two
/// hexadecimal digits for the byte they name, and `=` before anything
/// else makes the text undecodable. Every other byte stands for itself.
pub open spec fn quoted_from(s: Seq<u8>, i: int) -> Option<Seq<u8>>
    decreases s.len() - i,
{
    if i < 0 || i >= s.len() {
        Some(Seq::empty())
    } else if s[i] != 61 {
        prepend(seq![s[i]], quoted_from(s, i + 1))
    } else if i + 1 < s.len() && s[i + 1] == 10 {
        quoted_from(s, i + 2)
    } else if i + 2 < s.len() && s[i + 1] == 13 && s[i + 2] == 10 {
        quoted_from(s, i + 3)
    } else if i + 2 < s.len() && hex_value(s[i + 1]).is_some() && hex_value(s[i + 2]).is_some() {
        prepend(
            seq![(hex_value(s[i + 1]).unwrap() * 16 + hex_value(s[i + 2]).unwrap()) as u8],
            quoted_from(s, i + 3),
        )
    } else {
        None
    }
}

/// The bytes that a quoted-printable text stands for.
pub open spec fn quoted_decoded(s: Seq<u8>) -> Option<Seq<u8>> {
    quoted_from(s, 0)
}

/// How the body of a part is encoded.
#[derive(Clone, Copy, Debug, PartialEq, Eq, Structural)]
pub enum TransferEncoding {
    /// `7bit`, `8bit`, `binary`, or none named: the body is the content.
    Identity,
    QuotedPrintable,
    Base64,
}

/// The content that a body stands for under an encoding.
pub open spec fn transfer_decoded(encoding: TransferEncoding, body: Seq<u8>) -> Option<Seq<u8>> {
    match encoding {
        TransferEncoding::Identity => Some(body),
        TransferEncoding::QuotedPrintable => quoted_decoded(body),
        TransferEncoding::Base64 => base64_decoded(body),
    }
}

fn sextet_of(c: u8) -> (r: Option<u8>)
    ensures
        r == sextet(c),
{
    if 65 <= c && c <= 90 {
        Some(c - 65)
    } else if 97 <= c && c <= 122 {
        Some(c - 71)
    } else if 48 <= c && c <= 57 {
        Some(c + 4)
    } else if c == 43 {
        Some(62)
    } else if c == 47 {
        Some(63)
    } else {
        None
    }
}

fn hex_of(c: u8) -> (r: Option<u8>)
    ensures
        r == hex_value(c),
        r matches Some(x) ==> x < 16,
{
    if 48 <= c && c <= 57 {
        Some(c - 48)
    } else if 65 <= c && c <= 70 {
        Some(c - 55)
    } else if 97 <= c && c <= 102 {
        Some(c - 87)
    } else {
        None
    }
}

/// Reads the sextets of a base64 text.
fn read_sextets(s: &[u8]) -> (res: Option<Vec<u8>>)
    ensures
        res.is_some() == sextets_upto(s@, s@.len() as int).is_some(),
        res matches Some(v) ==> sextets_upto(s@, s@.len() as int) == Some(v@),
{
    let mut v: Vec<u8> = Vec::new();
    let mut i: usize = 0;
    while i < s.len()
        invariant
            i <= s.len(),
            sextets_upto(s@, i as int) == Some(v@),
        decreases s.len() - i,
    {
        let c = s[i];
        if !(c == 32 || c == 9 || c == 13 || c == 10 || c == 61) {
            match sextet_of(c) {
                Some(x) => {
                    v.push(x);
                },
                None => {
                    proof {
                        lemma_sextets_fail(s@, i + 1, s@.len() as int);
                    }
                    return None;
                },
            }
        }
        i += 1;
    }
    Some(v)
}

/// Once undecodable, a text stays so however it goes on.
proof fn lemma_sextets_fail(s: Seq<u8>, i: int, n: int)
    requires
        0 <= i <= n,
        sextets_upto(s, i).is_none(),
    ensures
        sextets_upto(s, n).is_none(),
    decreases n - i,
{
    if i < n {
        lemma_sextets_fail(s, i, n - 1);
    }
}

/// Decodes a base64 text.
pub fn decode_base64(s: &[u8]) -> (res: Option<Vec<u8>>)
    ensures
        res.is_some() == base64_decoded(s@).is_some(),
        res matches Some(out) ==> base64_decoded(s@) == Some(out@),
{
    let v = match read_sextets(s) {
        Some(v) => v,
        None => {
            return None;
        },
    };
    if v.len() % 4 == 1 {
        return None;
    }
    let n: usize = v.len() / 4 * 3 + if v.len() % 4 == 0 {
        0
    } else {
        v.len() % 4 - 1
    };
    assert(n == packed_len(v@.len() as int));
    let count: usize = v.len();
    let mut out: Vec<u8> = Vec::new();
    let mut j: usize = 0;
    while j < n
        invariant
            j <= n,
            count == v@.len(),
            n == packed_len(v@.len() as int),
            out@.len() == j,
            forall|k: int| 0 <= k < j ==> out@[k] == packed_byte(v@, k),
        decreases n - j,
    {
        let at: usize = j / 3 * 4;
        let b: u8 = if j % 3 == 0 {
            v[at] % 64 * 4 + v[at + 1] % 64 / 16
        } else if j % 3 == 1 {
            v[at + 1] % 16 * 16 + v[at + 2] % 64 / 4
        } else {
            v[at + 2] % 4 * 64 + v[at + 3] % 64
        };
        out.push(b);
        j += 1;
    }
    assert(out@ =~= packed(v@));
    Some(out)
}

proof fn lemma_prepend(out: Seq<u8>, first: Seq<u8>, rest: Option<Seq<u8>>)
    ensures
        prepend(out, prepend(first, rest)) == prepend(out + first, rest),
{
    match rest {
        Some(r) => {
            assert(out + (first + r) =~= (out + first) + r);
        },
        None => {},
    }
}

/// Decodes a quoted-printable text.
pub fn decode_quoted(s: &[u8]) -> (res: Option<Vec<u8>>)
    ensures
        res.is_some() == quoted_decoded(s@).is_some(),
        res matches Some(out) ==> quoted_decoded(s@) == Some(out@),
{
    let mut out: Vec<u8> = Vec::new();
    let mut i: usize = 0;
    let n = s.len();
    assert(prepend(out@, quoted_from(s@, 0)) == quoted_from(s@, 0)) by {
        match quoted_from(s@, 0) {
            Some(r) => {
                assert(out@ + r =~= r);
            },
            None => {},
        }
    }
    while i < n
        invariant
            i <= n,
            n == s@.len(),
            quoted_decoded(s@) == prepend(out@, quoted_from(s@, i as int)),
        decreases n - i,
    {
        let c = s[i];
        let ghost before = out@;
        if c != 61 {
            out.push(c);
            proof {
                lemma_prepend(before, seq![c], quoted_from(s@, i + 1));
                assert(before + seq![c] =~= out@);
            }
            i += 1;
        } else if n - i > 1 && s[i + 1] == 10 {
            i += 2;
        } else if n - i > 2 && s[i + 1] == 13 && s[i + 2] == 10 {
            i += 3;
        } else if n - i > 2 {
            match (hex_of(s[i + 1]), hex_of(s[i + 2])) {
                (Some(hi), Some(lo)) => {
                    let b: u8 = hi * 16 + lo;
                    out.push(b);
                    proof {
                        lemma_prepend(before, seq![b], quoted_from(s@, i + 3));
                        assert(before + seq![b] =~= out@);
                    }
                    i += 3;
                },
                _ => {
                    return None;
                },
            }
        } else {
            return None;
        }
    }
    assert(out@ + Seq::<u8>::empty() =~= out@);
    Some(out)
}

/// Decodes the body of a part.
pub fn decode_transfer(encoding: TransferEncoding, body: &[u8]) -> (res: Option<Vec<u8>>)
    ensures
        res.is_some() == transfer_decoded(encoding, body@).is_some(),
        res matches Some(out) ==> transfer_decoded(encoding, body@) == Some(out@),
{
    match encoding {
        TransferEncoding::Identity => {
            let mut out: Vec<u8> = Vec::new();
            crate::bytes::append(&mut out, body);
            assert(out@ =~= body@);
            Some(out)
        },
        TransferEncoding::QuotedPrintable => decode_quoted(body),
        TransferEncoding::Base64 => decode_base64(body),
    }
}

} // verus!

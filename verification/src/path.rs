//! Request paths: percent-decoding and the split into segments.

use vstd::prelude::*;
use vstd::utf8::{decode_utf8, encode_utf8, valid_utf8};
use crate::text::{copy_range, string_from_utf8, texts_of};

verus! {

/// Whether an octet is the ASCII code of a hexadecimal digit.
pub open spec fn is_hex_octet(b: u8) -> bool {
    (0x30 <= b && b <= 0x39) || (0x41 <= b && b <= 0x46) || (0x61 <= b && b <= 0x66)
}

/// The number that the hexadecimal digit with this ASCII code stands for.
pub open spec fn hex_octet_value(b: u8) -> int {
    if b <= 0x39 {
        b - 0x30
    } else if b <= 0x46 {
        b - 0x41 + 10
    } else {
        b - 0x61 + 10
    }
}

/// The octets `b[i..]` with every percent-encoded triplet replaced by the
/// octet that it stands for, behind `acc`; `None` where a `%` has no two
/// hexadecimal digits behind it.
pub open spec fn unescape_from(b: Seq<u8>, i: int, acc: Seq<u8>) -> Option<Seq<u8>>
    decreases b.len() - i,
{
    if i < 0 || i >= b.len() {
        Some(acc)
    } else if b[i] == 0x25 {
        if i + 2 < b.len() && is_hex_octet(b[i + 1]) && is_hex_octet(b[i + 2]) {
            unescape_from(
                b,
                i + 3,
                acc.push((16 * hex_octet_value(b[i + 1]) + hex_octet_value(b[i + 2])) as u8),
            )
        } else {
            None
        }
    } else {
        unescape_from(b, i + 1, acc.push(b[i]))
    }
}

/// The percent-decoded form of a path: its UTF-8 octets with each triplet
/// replaced, read as UTF-8 again. `None` where a triplet is malformed or
/// the result is no UTF-8.
pub open spec fn decoded(path: Seq<char>) -> Option<Seq<char>> {
    match unescape_from(encode_utf8(path), 0, Seq::empty()) {
        Some(octets) => if valid_utf8(octets) {
            Some(decode_utf8(octets))
        } else {
            None
        },
        None => None,
    }
}

/// The segments of `s[i..]`, where the segment that `i` lies in begins at
/// `start`, behind those in `done`.
pub open spec fn split_from(s: Seq<char>, i: int, start: int, done: Seq<Seq<char>>) -> Seq<
    Seq<char>,
>
    decreases s.len() - i,
{
    if i < 0 || i >= s.len() {
        done.push(s.subrange(start, s.len() as int))
    } else if s[i] == '/' {
        split_from(s, i + 1, i + 1, done.push(s.subrange(start, i)))
    } else {
        split_from(s, i + 1, start, done)
    }
}

/// The segments of a decoded path: what stands between its slashes, from
/// the first slash on. The path `/` has one empty segment. A path that does
/// not begin with a slash has no segments.
pub open spec fn segments(path: Seq<char>) -> Option<Seq<Seq<char>>> {
    if path.len() == 0 || path[0] != '/' {
        None
    } else {
        Some(split_from(path, 1, 1, Seq::empty()))
    }
}

fn octet_is_hex(b: u8) -> (r: bool)
    ensures
        r == is_hex_octet(b),
{
    (0x30 <= b && b <= 0x39) || (0x41 <= b && b <= 0x46) || (0x61 <= b && b <= 0x66)
}

fn octet_hex_value(b: u8) -> (r: u8)
    requires
        is_hex_octet(b),
    ensures
        r == hex_octet_value(b),
        r < 16,
{
    if b <= 0x39 {
        b - 0x30
    } else if b <= 0x46 {
        b - 0x41 + 10
    } else {
        b - 0x61 + 10
    }
}

/// Percent-decodes a path.
pub fn decode(path: &str) -> (r: Option<String>)
    ensures
        match r {
            Some(d) => decoded(path@) == Some(d@),
            None => decoded(path@) is None,
        },
{
    let octets: &[u8] = path.as_bytes();
    let mut out: Vec<u8> = Vec::new();
    let mut i: usize = 0;
    while i < octets.len()
        invariant
            i <= octets.len(),
            octets@ == encode_utf8(path@),
            unescape_from(octets@, 0, Seq::empty()) == unescape_from(octets@, i as int, out@),
        decreases octets.len() - i,
    {
        let b: u8 = octets[i];
        if b == 0x25 {
            if octets.len() - i > 2 && octet_is_hex(octets[i + 1]) && octet_is_hex(octets[i + 2]) {
                let hi: u8 = octet_hex_value(octets[i + 1]);
                let lo: u8 = octet_hex_value(octets[i + 2]);
                out.push(16 * hi + lo);
                i += 3;
            } else {
                return None;
            }
        } else {
            out.push(b);
            i += 1;
        }
    }
    string_from_utf8(out)
}

/// Splits a decoded path into its segments.
pub fn split(path: &Vec<char>) -> (r: Option<Vec<Vec<char>>>)
    ensures
        match r {
            Some(segs) => segments(path@) == Some(texts_of(segs@)),
            None => segments(path@) is None,
        },
{
    if path.len() == 0 || path[0] != '/' {
        return None;
    }
    let mut done: Vec<Vec<char>> = Vec::new();
    let mut start: usize = 1;
    let mut i: usize = 1;
    assert(texts_of(done@) == Seq::<Seq<char>>::empty());
    while i < path.len()
        invariant
            1 <= start <= i <= path.len(),
            split_from(path@, 1, 1, Seq::empty()) == split_from(
                path@,
                i as int,
                start as int,
                texts_of(done@),
            ),
        decreases path.len() - i,
    {
        if path[i] == '/' {
            let ghost before = texts_of(done@);
            done.push(copy_range(path, start, i));
            assert(texts_of(done@) == before.push(path@.subrange(start as int, i as int)));
            start = i + 1;
        }
        i += 1;
    }
    done.push(copy_range(path, start, path.len()));
    Some(done)
}

} // verus!

//! The grammar of path templates.
//!
//! A template is `/` followed by segments that `/` separates. A segment is a
//! sequence of pieces: runs of literal characters and percent-encoded
//! triplets, and parameter tokens in braces. [`parse`] says, for every text,
//! either which pieces it is made of or where and why it stops being a
//! template; [`scan`] computes it.

use vstd::prelude::*;
use crate::text::{is_digit, is_literal_char, is_name_char, is_upper_hex, octet};

verus! {

/// Why a text is no template.
#[derive(Clone, Copy, PartialEq, Eq, Structural, Debug)]
pub enum Reason {
    /// The text is empty or does not begin with `/`.
    MissingLeadingSlash,
    /// A segment other than the last one is empty.
    EmptySegment,
    /// A character that is neither a literal character nor part of a token.
    UnexpectedCharacter,
    /// `%` without two upper-case hexadecimal digits behind it.
    BadPercentEncoding,
    /// A triplet that encodes a character which may stand unencoded.
    RedundantEncoding,
    /// `{` with no name behind it.
    EmptyName,
    /// A token that is not closed by `}`.
    UnclosedParameter,
    /// A repeat count that begins with `0` or has more than nine digits.
    BadRepeatCount,
    /// Two tokens with no literal run between them.
    AdjacentParameters,
    /// An optional or wildcard token in a segment that holds more than it.
    ModifierInMixedSegment,
    /// An optional or wildcard segment that is not the last one.
    ModifierNotFinal,
    /// A parameter name that an earlier token of the template has.
    DuplicateName,
}

/// A position in a text and the reason why the grammar is broken there.
pub struct Fault {
    pub position: int,
    pub reason: Reason,
}

/// The error of a text that is no template.
#[derive(Clone, Copy, Debug)]
pub struct GrammarError {
    pub position: usize,
    pub reason: Reason,
}

impl View for GrammarError {
    type V = Fault;

    open spec fn view(&self) -> Fault {
        Fault { position: self.position as int, reason: self.reason }
    }
}

/// One piece of a segment.
pub enum Piece {
    /// A run of literal characters and triplets, as written.
    Literal(Seq<char>),
    /// `{name}`
    Required(Seq<char>),
    /// `{name?}`
    Optional(Seq<char>),
    /// `{name*}` or `{name*N}`
    Wildcard(Seq<char>, Option<int>),
}

impl Piece {
    /// The name of a token; the empty text for a literal run.
    pub open spec fn name(self) -> Seq<char> {
        match self {
            Piece::Literal(_) => Seq::empty(),
            Piece::Required(n) => n,
            Piece::Optional(n) => n,
            Piece::Wildcard(n, _) => n,
        }
    }

    /// Whether this is an optional or a wildcard token.
    pub open spec fn is_modifier(self) -> bool {
        self is Optional || self is Wildcard
    }
}

/// Whether the two hexadecimal digits encode a character that may stand
/// unencoded in a literal run.
pub open spec fn redundant(hi: char, lo: char) -> bool {
    octet(hi, lo) < 128 && is_literal_char(octet(hi, lo) as u8 as char)
}

/// Whether a triplet that the grammar accepts begins at `i`.
pub open spec fn triplet_at(s: Seq<char>, i: int) -> bool {
    &&& 0 <= i
    &&& i + 2 < s.len()
    &&& s[i] == '%'
    &&& is_upper_hex(s[i + 1])
    &&& is_upper_hex(s[i + 2])
    &&& !redundant(s[i + 1], s[i + 2])
}

/// The length of the longest literal run that begins at `i`.
pub open spec fn run_len(s: Seq<char>, i: int) -> nat
    decreases s.len() - i,
{
    if 0 <= i < s.len() && is_literal_char(s[i]) {
        1 + run_len(s, i + 1)
    } else if triplet_at(s, i) {
        3 + run_len(s, i + 3)
    } else {
        0
    }
}

/// The number of name characters from `i` on.
pub open spec fn name_len(s: Seq<char>, i: int) -> nat
    decreases s.len() - i,
{
    if 0 <= i < s.len() && is_name_char(s[i]) {
        1 + name_len(s, i + 1)
    } else {
        0
    }
}

/// The number of decimal digits from `i` on.
pub open spec fn digits_len(s: Seq<char>, i: int) -> nat
    decreases s.len() - i,
{
    if 0 <= i < s.len() && is_digit(s[i]) {
        1 + digits_len(s, i + 1)
    } else {
        0
    }
}

/// The number that a text of decimal digits stands for.
pub open spec fn decimal(digits: Seq<char>) -> nat
    decreases digits.len(),
{
    if digits.len() == 0 {
        0
    } else {
        (10 * decimal(digits.drop_last()) + (digits.last() as int - '0' as int)) as nat
    }
}

/// A literal run ends within the text.
pub proof fn lemma_run_len_bound(s: Seq<char>, i: int)
    requires
        0 <= i <= s.len(),
    ensures
        i + run_len(s, i) <= s.len(),
    decreases s.len() - i,
{
    if i < s.len() && is_literal_char(s[i]) {
        lemma_run_len_bound(s, i + 1);
    } else if triplet_at(s, i) {
        lemma_run_len_bound(s, i + 3);
    }
}

/// A name ends within the text.
pub proof fn lemma_name_len_bound(s: Seq<char>, i: int)
    requires
        0 <= i <= s.len(),
    ensures
        i + name_len(s, i) <= s.len(),
    decreases s.len() - i,
{
    if i < s.len() && is_name_char(s[i]) {
        lemma_name_len_bound(s, i + 1);
    }
}

/// A run of digits ends within the text.
pub proof fn lemma_digits_len_bound(s: Seq<char>, i: int)
    requires
        0 <= i <= s.len(),
    ensures
        i + digits_len(s, i) <= s.len(),
    decreases s.len() - i,
{
    if i < s.len() && is_digit(s[i]) {
        lemma_digits_len_bound(s, i + 1);
    }
}

/// Whether a character can stand in a literal run: it ends no segment and
/// belongs to no token.
pub open spec fn run_char(c: char) -> bool {
    c != '/' && c != '{' && c != '}' && c != '?'
}

/// Every position of a literal run holds a character that can stand in
/// one.
pub proof fn lemma_run_chars(s: Seq<char>, i: int, k: int)
    requires
        0 <= i <= s.len(),
        0 <= k < run_len(s, i),
    ensures
        i + k < s.len(),
        run_char(s[i + k]),
    decreases k,
{
    if i < s.len() && is_literal_char(s[i]) {
        if k > 0 {
            lemma_run_chars(s, i + 1, k - 1);
        }
    } else if triplet_at(s, i) {
        if k >= 3 {
            lemma_run_chars(s, i + 3, k - 3);
        }
    }
}

/// No literal run begins where the longest one has ended.
pub proof fn lemma_run_maximal(s: Seq<char>, i: int)
    requires
        0 <= i <= s.len(),
    ensures
        run_len(s, i + run_len(s, i)) == 0,
    decreases s.len() - i,
{
    if i < s.len() && is_literal_char(s[i]) {
        lemma_run_maximal(s, i + 1);
    } else if triplet_at(s, i) {
        lemma_run_maximal(s, i + 3);
    }
}

/// Every position of a name holds a name character.
pub proof fn lemma_name_chars(s: Seq<char>, i: int, k: int)
    requires
        0 <= i <= s.len(),
        0 <= k < name_len(s, i),
    ensures
        i + k < s.len(),
        is_name_char(s[i + k]),
    decreases k,
{
    if k > 0 {
        lemma_name_chars(s, i + 1, k - 1);
    }
}

/// Every position of a run of digits holds a digit.
pub proof fn lemma_digit_chars(s: Seq<char>, i: int, k: int)
    requires
        0 <= i <= s.len(),
        0 <= k < digits_len(s, i),
    ensures
        i + k < s.len(),
        is_digit(s[i + k]),
    decreases k,
{
    if k > 0 {
        lemma_digit_chars(s, i + 1, k - 1);
    }
}

/// A token ends behind its opening brace and within the text.
pub proof fn lemma_token_end(s: Seq<char>, i: int)
    requires
        0 <= i < s.len(),
    ensures
        token_at(s, i) matches Ok((_, end)) ==> i + 2 < end <= s.len(),
{
    lemma_name_len_bound(s, i + 1);
    let n = i + 1 + name_len(s, i + 1);
    if n < s.len() {
        lemma_digits_len_bound(s, n + 1);
    }
}

/// The token that begins at `i`, where `s[i]` is `{`, and the position behind
/// it; or the fault that keeps it from being one.
pub open spec fn token_at(s: Seq<char>, i: int) -> Result<(Piece, int), Fault> {
    let n = i + 1 + name_len(s, i + 1);
    let name = s.subrange(i + 1, n);
    if n == i + 1 {
        Err(Fault { position: n, reason: Reason::EmptyName })
    } else if n >= s.len() {
        Err(Fault { position: n, reason: Reason::UnclosedParameter })
    } else if s[n] == '}' {
        Ok((Piece::Required(name), n + 1))
    } else if s[n] == '?' {
        if n + 1 < s.len() && s[n + 1] == '}' {
            Ok((Piece::Optional(name), n + 2))
        } else {
            Err(Fault { position: n + 1, reason: Reason::UnclosedParameter })
        }
    } else if s[n] == '*' {
        let k = digits_len(s, n + 1);
        let d = n + 1 + k;
        if k > 0 && (s[n + 1] == '0' || k > 9) {
            Err(Fault { position: n + 1, reason: Reason::BadRepeatCount })
        } else if d < s.len() && s[d] == '}' {
            let count = if k == 0 {
                None
            } else {
                Some(decimal(s.subrange(n + 1, d)) as int)
            };
            Ok((Piece::Wildcard(name, count), d + 1))
        } else {
            Err(Fault { position: d, reason: Reason::UnclosedParameter })
        }
    } else {
        Err(Fault { position: n, reason: Reason::UnclosedParameter })
    }
}

/// Why no literal run begins at `i`.
pub open spec fn literal_fault(s: Seq<char>, i: int) -> Reason {
    if s[i] == '%' {
        if i + 2 < s.len() && is_upper_hex(s[i + 1]) && is_upper_hex(s[i + 2]) {
            Reason::RedundantEncoding
        } else {
            Reason::BadPercentEncoding
        }
    } else {
        Reason::UnexpectedCharacter
    }
}

/// The rest of a template from the piece boundary `i` on. `done` holds the
/// segments that are complete, `cur` the pieces of the segment that `i` lies
/// in, and `seen` the names of all tokens so far.
pub open spec fn scan_from(
    s: Seq<char>,
    i: int,
    done: Seq<Seq<Piece>>,
    cur: Seq<Piece>,
    seen: Seq<Seq<char>>,
) -> Result<Seq<Seq<Piece>>, Fault>
    decreases s.len() - i,
    via scan_from_decreases
{
    if i < 0 || i >= s.len() {
        Ok(done.push(cur))
    } else if s[i] == '/' {
        if cur.len() == 0 {
            Err(Fault { position: i, reason: Reason::EmptySegment })
        } else {
            scan_from(s, i + 1, done.push(cur), Seq::empty(), seen)
        }
    } else if s[i] == '{' {
        if cur.len() > 0 && !(cur.last() is Literal) {
            Err(Fault { position: i, reason: Reason::AdjacentParameters })
        } else {
            match token_at(s, i) {
                Err(f) => Err(f),
                Ok((piece, end)) => {
                    if piece.is_modifier() && cur.len() > 0 {
                        Err(Fault { position: i, reason: Reason::ModifierInMixedSegment })
                    } else if piece.is_modifier() && end < s.len() {
                        Err(
                            Fault {
                                position: i,
                                reason: if s[end] == '/' {
                                    Reason::ModifierNotFinal
                                } else {
                                    Reason::ModifierInMixedSegment
                                },
                            },
                        )
                    } else if seen.contains(piece.name()) {
                        Err(Fault { position: i, reason: Reason::DuplicateName })
                    } else {
                        scan_from(s, end, done, cur.push(piece), seen.push(piece.name()))
                    }
                },
            }
        }
    } else {
        let r = run_len(s, i);
        if r == 0 {
            Err(Fault { position: i, reason: literal_fault(s, i) })
        } else {
            scan_from(s, i + r, done, cur.push(Piece::Literal(s.subrange(i, i + r))), seen)
        }
    }
}

#[via_fn]
proof fn scan_from_decreases(
    s: Seq<char>,
    i: int,
    done: Seq<Seq<Piece>>,
    cur: Seq<Piece>,
    seen: Seq<Seq<char>>,
) {
    if 0 <= i < s.len() {
        lemma_run_len_bound(s, i);
        lemma_token_end(s, i);
    }
}

/// The segments of a template, each as its pieces, or the first fault of a
/// text that is none.
pub open spec fn parse(s: Seq<char>) -> Result<Seq<Seq<Piece>>, Fault> {
    if s.len() == 0 || s[0] != '/' {
        Err(Fault { position: 0, reason: Reason::MissingLeadingSlash })
    } else {
        scan_from(s, 1, Seq::empty(), Seq::empty(), Seq::empty())
    }
}

/// Whether a text is a template.
pub open spec fn is_template(s: Seq<char>) -> bool {
    parse(s) is Ok
}

} // verus!

//! The executable scanner for the template grammar.

use vstd::prelude::*;
use crate::grammar::{
    decimal, digits_len, lemma_digit_chars, lemma_token_end, literal_fault, name_len, parse,
    run_len, scan_from, token_at, triplet_at, Fault, GrammarError, Piece, Reason,
};
use crate::text::{
    char_is_digit, char_is_literal, char_is_name, char_is_upper_hex, copy_range, hex_digit,
    is_digit, same_chars, texts_of,
};

verus! {

/// One piece of a segment, as the scanner hands it out.
#[derive(Debug)]
pub enum Token {
    /// A run of literal characters and triplets.
    Literal(Vec<char>),
    /// `{name}`
    Required(Vec<char>),
    /// `{name?}`
    Optional(Vec<char>),
    /// `{name*}` or `{name*N}`
    Wildcard(Vec<char>, Option<i32>),
}

impl View for Token {
    type V = Piece;

    open spec fn view(&self) -> Piece {
        match self {
            Token::Literal(t) => Piece::Literal(t@),
            Token::Required(n) => Piece::Required(n@),
            Token::Optional(n) => Piece::Optional(n@),
            Token::Wildcard(n, c) => Piece::Wildcard(
                n@,
                match c {
                    Some(k) => Some(*k as int),
                    None => None,
                },
            ),
        }
    }
}

/// The pieces that a sequence of tokens stands for.
pub open spec fn pieces_of(tokens: Seq<Token>) -> Seq<Piece> {
    tokens.map_values(|t: Token| t@)
}

/// The segments that a sequence of token lists stands for.
pub open spec fn segments_of(lists: Seq<Vec<Token>>) -> Seq<Seq<Piece>> {
    lists.map_values(|l: Vec<Token>| pieces_of(l@))
}

/// Ten to the power of `n`.
pub open spec fn pow10(n: nat) -> nat
    decreases n,
{
    if n == 0 {
        1
    } else {
        10 * pow10((n - 1) as nat)
    }
}

/// Nine digits stay below ten to the power of nine.
proof fn lemma_pow10_bound(n: nat)
    requires
        n <= 9,
    ensures
        pow10(n) <= 1_000_000_000,
    decreases 9 - n,
{
    reveal_with_fuel(pow10, 11);
}

/// Whether a triplet that the grammar accepts begins at `i`.
fn is_triplet(s: &Vec<char>, i: usize) -> (r: bool)
    requires
        i <= s.len(),
    ensures
        r == triplet_at(s@, i as int),
{
    if s.len() - i < 3 {
        return false;
    }
    if s[i] != '%' || !char_is_upper_hex(s[i + 1]) || !char_is_upper_hex(s[i + 2]) {
        return false;
    }
    let hi: u8 = hex_digit(s[i + 1]);
    let lo: u8 = hex_digit(s[i + 2]);
    let v: u8 = 16 * hi + lo;
    !(v < 128 && char_is_literal(v as char))
}

/// The length of the longest literal run that begins at `i`.
pub fn run_length(s: &Vec<char>, i: usize) -> (r: usize)
    requires
        i <= s.len(),
    ensures
        r == run_len(s@, i as int),
        i + r <= s.len(),
{
    let mut j: usize = i;
    loop
        invariant
            i <= j <= s.len(),
            run_len(s@, i as int) == (j - i) + run_len(s@, j as int),
        decreases s.len() - j,
    {
        if j < s.len() && char_is_literal(s[j]) {
            j += 1;
        } else if is_triplet(s, j) {
            j += 3;
        } else {
            return j - i;
        }
    }
}

/// The number of name characters from `i` on.
pub fn name_length(s: &Vec<char>, i: usize) -> (r: usize)
    requires
        i <= s.len(),
    ensures
        r == name_len(s@, i as int),
        i + r <= s.len(),
{
    let mut j: usize = i;
    while j < s.len() && char_is_name(s[j])
        invariant
            i <= j <= s.len(),
            name_len(s@, i as int) == (j - i) + name_len(s@, j as int),
        decreases s.len() - j,
    {
        j += 1;
    }
    j - i
}

/// The number of decimal digits from `i` on.
pub fn digits_length(s: &Vec<char>, i: usize) -> (r: usize)
    requires
        i <= s.len(),
    ensures
        r == digits_len(s@, i as int),
        i + r <= s.len(),
{
    let mut j: usize = i;
    while j < s.len() && char_is_digit(s[j])
        invariant
            i <= j <= s.len(),
            digits_len(s@, i as int) == (j - i) + digits_len(s@, j as int),
        decreases s.len() - j,
    {
        j += 1;
    }
    j - i
}

/// The number that the digits `s[from..to]` stand for.
fn read_count(s: &Vec<char>, from: usize, to: usize) -> (r: i32)
    requires
        from <= to <= s.len(),
        to - from <= 9,
        forall|k: int| from <= k < to ==> is_digit(#[trigger] s@[k]),
    ensures
        r == decimal(s@.subrange(from as int, to as int)),
{
    let mut v: u64 = 0;
    let mut j: usize = from;
    while j < to
        invariant
            from <= j <= to <= s.len(),
            to - from <= 9,
            forall|k: int| from <= k < to ==> is_digit(#[trigger] s@[k]),
            v == decimal(s@.subrange(from as int, j as int)),
            v < pow10((j - from) as nat),
        decreases to - j,
    {
        proof {
            lemma_pow10_bound((j - from) as nat);
            let next = s@.subrange(from as int, j + 1);
            assert(next.drop_last() == s@.subrange(from as int, j as int));
            assert(next.last() == s@[j as int]);
        }
        let d: u64 = (s[j] as u8 - 48) as u64;
        v = 10 * v + d;
        j += 1;
    }
    proof {
        lemma_pow10_bound((to - from) as nat);
    }
    v as i32
}

/// The token that begins at `i`, and the position behind it.
pub fn read_token(s: &Vec<char>, i: usize) -> (r: Result<(Token, usize), GrammarError>)
    requires
        i < s.len(),
        s@[i as int] == '{',
    ensures
        match r {
            Ok((token, end)) => token_at(s@, i as int) == Ok::<(Piece, int), Fault>(
                (token@, end as int),
            ) && i + 2 < end <= s.len(),
            Err(e) => token_at(s@, i as int) == Err::<(Piece, int), Fault>(e@),
        },
{
    proof {
        lemma_token_end(s@, i as int);
    }
    let len: usize = name_length(s, i + 1);
    let n: usize = i + 1 + len;
    if len == 0 {
        return Err(GrammarError { position: n, reason: Reason::EmptyName });
    }
    if n >= s.len() {
        return Err(GrammarError { position: n, reason: Reason::UnclosedParameter });
    }
    let name: Vec<char> = copy_range(s, i + 1, n);
    let c: char = s[n];
    if c == '}' {
        Ok((Token::Required(name), n + 1))
    } else if c == '?' {
        if n + 1 < s.len() && s[n + 1] == '}' {
            Ok((Token::Optional(name), n + 2))
        } else {
            Err(GrammarError { position: n + 1, reason: Reason::UnclosedParameter })
        }
    } else if c == '*' {
        let k: usize = digits_length(s, n + 1);
        let d: usize = n + 1 + k;
        if k > 0 && (s[n + 1] == '0' || k > 9) {
            Err(GrammarError { position: n + 1, reason: Reason::BadRepeatCount })
        } else if d < s.len() && s[d] == '}' {
            if k == 0 {
                Ok((Token::Wildcard(name, None), d + 1))
            } else {
                proof {
                    assert forall|x: int| n + 1 <= x < d implies is_digit(#[trigger] s@[x]) by {
                        lemma_digit_chars(s@, n + 1, x - (n + 1));
                    }
                }
                let count: i32 = read_count(s, n + 1, d);
                Ok((Token::Wildcard(name, Some(count)), d + 1))
            }
        } else {
            Err(GrammarError { position: d, reason: Reason::UnclosedParameter })
        }
    } else {
        Err(GrammarError { position: n, reason: Reason::UnclosedParameter })
    }
}

/// Whether `list` holds `name`.
pub fn holds_text(list: &Vec<Vec<char>>, name: &Vec<char>) -> (r: bool)
    ensures
        r == texts_of(list@).contains(name@),
{
    let mut k: usize = 0;
    while k < list.len()
        invariant
            k <= list.len(),
            forall|j: int| 0 <= j < k ==> texts_of(list@)[j] != name@,
        decreases list.len() - k,
    {
        if same_chars(&list[k], name) {
            assert(texts_of(list@)[k as int] == name@);
            return true;
        }
        k += 1;
    }
    false
}

/// Why no literal run begins at `i`.
fn literal_reason(s: &Vec<char>, i: usize) -> (r: Reason)
    requires
        i < s.len(),
    ensures
        r == literal_fault(s@, i as int),
{
    if s[i] == '%' {
        if s.len() - i >= 3 && char_is_upper_hex(s[i + 1]) && char_is_upper_hex(s[i + 2]) {
            Reason::RedundantEncoding
        } else {
            Reason::BadPercentEncoding
        }
    } else {
        Reason::UnexpectedCharacter
    }
}

fn token_name(token: &Token) -> (r: Vec<char>)
    ensures
        r@ == token@.name(),
{
    match token {
        Token::Literal(_) => Vec::new(),
        Token::Required(n) => copy_range(n, 0, n.len()),
        Token::Optional(n) => copy_range(n, 0, n.len()),
        Token::Wildcard(n, _) => copy_range(n, 0, n.len()),
    }
}

fn token_is_modifier(token: &Token) -> (r: bool)
    ensures
        r == token@.is_modifier(),
{
    match token {
        Token::Optional(_) => true,
        Token::Wildcard(_, _) => true,
        _ => false,
    }
}

fn token_is_literal(token: &Token) -> (r: bool)
    ensures
        r == (token@ is Literal),
{
    match token {
        Token::Literal(_) => true,
        _ => false,
    }
}

/// Scans a text as a template: the tokens of each segment, or the first fault.
pub fn scan(s: &Vec<char>) -> (r: Result<Vec<Vec<Token>>, GrammarError>)
    ensures
        match r {
            Ok(lists) => parse(s@) == Ok::<Seq<Seq<Piece>>, Fault>(segments_of(lists@))
                && lists.len() >= 1,
            Err(e) => parse(s@) == Err::<Seq<Seq<Piece>>, Fault>(e@),
        },
{
    if s.len() == 0 || s[0] != '/' {
        return Err(GrammarError { position: 0, reason: Reason::MissingLeadingSlash });
    }
    let mut done: Vec<Vec<Token>> = Vec::new();
    let mut cur: Vec<Token> = Vec::new();
    let mut seen: Vec<Vec<char>> = Vec::new();
    let mut i: usize = 1;
    assert(segments_of(done@) == Seq::<Seq<Piece>>::empty());
    assert(pieces_of(cur@) == Seq::<Piece>::empty());
    assert(texts_of(seen@) == Seq::<Seq<char>>::empty());
    while i < s.len()
        invariant
            1 <= i <= s.len(),
            parse(s@) == scan_from(
                s@,
                i as int,
                segments_of(done@),
                pieces_of(cur@),
                texts_of(seen@),
            ),
        decreases s.len() - i,
    {
        let c: char = s[i];
        if c == '/' {
            if cur.len() == 0 {
                return Err(GrammarError { position: i, reason: Reason::EmptySegment });
            }
            let ghost before = segments_of(done@);
            let ghost pieces = pieces_of(cur@);
            done.push(cur);
            cur = Vec::new();
            assert(segments_of(done@) == before.push(pieces));
            assert(pieces_of(cur@) == Seq::<Piece>::empty());
            i += 1;
        } else if c == '{' {
            if cur.len() > 0 && !token_is_literal(&cur[cur.len() - 1]) {
                return Err(GrammarError { position: i, reason: Reason::AdjacentParameters });
            }
            match read_token(s, i) {
                Err(e) => {
                    return Err(e);
                },
                Ok((token, end)) => {
                    if token_is_modifier(&token) && cur.len() > 0 {
                        return Err(
                            GrammarError { position: i, reason: Reason::ModifierInMixedSegment },
                        );
                    }
                    if token_is_modifier(&token) && end < s.len() {
                        let reason = if s[end] == '/' {
                            Reason::ModifierNotFinal
                        } else {
                            Reason::ModifierInMixedSegment
                        };
                        return Err(GrammarError { position: i, reason });
                    }
                    let name: Vec<char> = token_name(&token);
                    if holds_text(&seen, &name) {
                        return Err(GrammarError { position: i, reason: Reason::DuplicateName });
                    }
                    let ghost before = pieces_of(cur@);
                    let ghost names = texts_of(seen@);
                    let ghost piece = token@;
                    cur.push(token);
                    seen.push(name);
                    assert(pieces_of(cur@) == before.push(piece));
                    assert(texts_of(seen@) == names.push(piece.name()));
                    i = end;
                },
            }
        } else {
            let r: usize = run_length(s, i);
            if r == 0 {
                return Err(GrammarError { position: i, reason: literal_reason(s, i) });
            }
            let text: Vec<char> = copy_range(s, i, i + r);
            let ghost before = pieces_of(cur@);
            cur.push(Token::Literal(text));
            assert(pieces_of(cur@) == before.push(Piece::Literal(s@.subrange(i as int, i + r))));
            i += r;
        }
    }
    let ghost before = segments_of(done@);
    let ghost pieces = pieces_of(cur@);
    done.push(cur);
    assert(segments_of(done@) == before.push(pieces));
    Ok(done)
}

} // verus!

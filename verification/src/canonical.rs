//! The canonical form of a template, and the validator.
//!
//! The canonical form has every literal character in lower case. Names of
//! parameters and the two digits of a percent-encoded triplet stay as they
//! were written, so that the canonical form is a template again.

use vstd::prelude::*;
use crate::grammar::{
    digits_len, is_template, lemma_digit_chars, lemma_digits_len_bound, lemma_name_chars,
    lemma_name_len_bound, lemma_run_len_bound, lemma_run_maximal, lemma_token_end, name_len,
    parse, run_len, scan_from, token_at, triplet_at, Fault, GrammarError, Piece,
};
use crate::scanner::scan;
use crate::text::{
    chars_of, is_digit, is_literal_char, is_name_char, lower_char, string_from_chars, to_lower,
};

verus! {

/// The canonical form of `s[i..]`, where `in_braces` says whether `i` lies
/// inside a token.
pub open spec fn canon_from(s: Seq<char>, i: int, in_braces: bool) -> Seq<char>
    decreases s.len() - i,
{
    if i < 0 || i >= s.len() {
        Seq::empty()
    } else if in_braces {
        seq![s[i]] + canon_from(s, i + 1, s[i] != '}')
    } else if s[i] == '{' {
        seq![s[i]] + canon_from(s, i + 1, true)
    } else if s[i] == '%' && i + 2 < s.len() {
        seq![s[i], s[i + 1], s[i + 2]] + canon_from(s, i + 3, false)
    } else {
        seq![lower_char(s[i])] + canon_from(s, i + 1, false)
    }
}

/// The canonical form of a text: what stands outside braces and is no
/// triplet is in lower case, the rest is unchanged.
pub open spec fn canonical(s: Seq<char>) -> Seq<char> {
    canon_from(s, 0, false)
}

/// What the validator returns for a text: the canonical form of a template,
/// the first fault of anything else.
pub open spec fn validated(s: Seq<char>) -> Result<Seq<char>, Fault> {
    match parse(s) {
        Ok(_) => Ok(canonical(s)),
        Err(f) => Err(f),
    }
}

/// The canonical form is as long as the text.
pub proof fn lemma_canon_len(s: Seq<char>, i: int, in_braces: bool)
    requires
        0 <= i <= s.len(),
    ensures
        canon_from(s, i, in_braces).len() == s.len() - i,
    decreases s.len() - i,
{
    if i < s.len() {
        if in_braces {
            lemma_canon_len(s, i + 1, s[i] != '}');
        } else if s[i] == '{' {
            lemma_canon_len(s, i + 1, true);
        } else if s[i] == '%' && i + 2 < s.len() {
            lemma_canon_len(s, i + 3, false);
        } else {
            lemma_canon_len(s, i + 1, false);
        }
    }
}

/// What follows the first character of a canonical suffix.
proof fn lemma_suffix_step(t: Seq<char>, i: int, k: int, head: Seq<char>, rest: Seq<char>)
    requires
        0 <= i,
        0 < k,
        i + k <= t.len(),
        head.len() == k,
        t.subrange(i, t.len() as int) == head + rest,
    ensures
        t.subrange(i, i + k) == head,
        t.subrange(i + k, t.len() as int) == rest,
{
    let whole = t.subrange(i, t.len() as int);
    assert(t.subrange(i, i + k) == whole.subrange(0, k));
    assert(whole.subrange(0, k) == head);
    assert(t.subrange(i + k, t.len() as int) == whole.subrange(k, whole.len() as int));
    assert(whole.subrange(k, whole.len() as int) == rest);
}

/// A text whose rest is canonical already is left as it is from there on.
proof fn lemma_canon_fixed(s: Seq<char>, t: Seq<char>, i: int, in_braces: bool)
    requires
        0 <= i <= s.len(),
        t.len() == s.len(),
        t.subrange(i, t.len() as int) == canon_from(s, i, in_braces),
    ensures
        canon_from(t, i, in_braces) == canon_from(s, i, in_braces),
    decreases s.len() - i,
{
    if i < s.len() {
        if in_braces {
            let rest = canon_from(s, i + 1, s[i] != '}');
            lemma_suffix_step(t, i, 1, seq![s[i]], rest);
            assert(t.subrange(i, i + 1)[0] == t[i]);
            lemma_canon_fixed(s, t, i + 1, s[i] != '}');
        } else if s[i] == '{' {
            let rest = canon_from(s, i + 1, true);
            lemma_suffix_step(t, i, 1, seq![s[i]], rest);
            assert(t.subrange(i, i + 1)[0] == t[i]);
            lemma_canon_fixed(s, t, i + 1, true);
        } else if s[i] == '%' && i + 2 < s.len() {
            let rest = canon_from(s, i + 3, false);
            lemma_suffix_step(t, i, 3, seq![s[i], s[i + 1], s[i + 2]], rest);
            assert(t.subrange(i, i + 3)[0] == t[i]);
            assert(t.subrange(i, i + 3)[1] == t[i + 1]);
            assert(t.subrange(i, i + 3)[2] == t[i + 2]);
            lemma_canon_fixed(s, t, i + 3, false);
        } else {
            let rest = canon_from(s, i + 1, false);
            lemma_suffix_step(t, i, 1, seq![lower_char(s[i])], rest);
            assert(t.subrange(i, i + 1)[0] == t[i]);
            lemma_canon_fixed(s, t, i + 1, false);
        }
    }
}

/// The canonical form of a canonical form is that form.
pub proof fn lemma_canonical_idempotent(s: Seq<char>)
    ensures
        canonical(canonical(s)) == canonical(s),
{
    let t = canonical(s);
    lemma_canon_len(s, 0, false);
    assert(t.subrange(0, t.len() as int) == t);
    lemma_canon_fixed(s, t, 0, false);
}

/// Inside braces, characters other than `}` are copied.
proof fn lemma_canon_copy(s: Seq<char>, t: Seq<char>, a: int, b: int)
    requires
        0 <= a <= b <= s.len(),
        t.len() == s.len(),
        forall|k: int| a <= k < b ==> s[k] != '}',
        t.subrange(a, t.len() as int) == canon_from(s, a, true),
    ensures
        t.subrange(a, b) == s.subrange(a, b),
        t.subrange(b, t.len() as int) == canon_from(s, b, true),
    decreases b - a,
{
    if a < b {
        lemma_suffix_step(t, a, 1, seq![s[a]], canon_from(s, a + 1, true));
        lemma_canon_copy(s, t, a + 1, b);
        assert(t.subrange(a, a + 1)[0] == t[a]);
        assert(t.subrange(a, b) == seq![t[a]] + t.subrange(a + 1, b));
        assert(s.subrange(a, b) == seq![s[a]] + s.subrange(a + 1, b));
    } else {
        assert(t.subrange(a, b) == s.subrange(a, b));
    }
}

/// A name is as long in a text that agrees with this one up to behind it.
proof fn lemma_name_len_agrees(s: Seq<char>, t: Seq<char>, i: int, hi: int)
    requires
        0 <= i <= hi <= s.len(),
        t.len() == s.len(),
        t.subrange(i, hi) == s.subrange(i, hi),
        i + name_len(s, i) < hi,
    ensures
        name_len(t, i) == name_len(s, i),
    decreases hi - i,
{
    assert(t.subrange(i, hi)[0] == t[i]);
    assert(s.subrange(i, hi)[0] == s[i]);
    if is_name_char(s[i]) {
        assert(t.subrange(i + 1, hi) == t.subrange(i, hi).subrange(1, hi - i));
        assert(s.subrange(i + 1, hi) == s.subrange(i, hi).subrange(1, hi - i));
        lemma_name_len_agrees(s, t, i + 1, hi);
    }
}

/// A run of digits is as long in a text that agrees with this one up to
/// behind it.
proof fn lemma_digits_len_agrees(s: Seq<char>, t: Seq<char>, i: int, hi: int)
    requires
        0 <= i <= hi <= s.len(),
        t.len() == s.len(),
        t.subrange(i, hi) == s.subrange(i, hi),
        i + digits_len(s, i) < hi,
    ensures
        digits_len(t, i) == digits_len(s, i),
    decreases hi - i,
{
    assert(t.subrange(i, hi)[0] == t[i]);
    assert(s.subrange(i, hi)[0] == s[i]);
    if is_digit(s[i]) {
        assert(t.subrange(i + 1, hi) == t.subrange(i, hi).subrange(1, hi - i));
        assert(s.subrange(i + 1, hi) == s.subrange(i, hi).subrange(1, hi - i));
        lemma_digits_len_agrees(s, t, i + 1, hi);
    }
}

/// A token is copied into the canonical form, and is the same token there.
proof fn lemma_token_canonical(s: Seq<char>, t: Seq<char>, i: int)
    requires
        0 <= i < s.len(),
        t.len() == s.len(),
        s[i] == '{',
        token_at(s, i) is Ok,
        t.subrange(i, t.len() as int) == canon_from(s, i, false),
    ensures
        token_at(t, i) == token_at(s, i),
        t[i] == '{',
        t.subrange(token_at(s, i)->Ok_0.1, t.len() as int) == canon_from(
            s,
            token_at(s, i)->Ok_0.1,
            false,
        ),
{
    let end = token_at(s, i)->Ok_0.1;
    lemma_token_end(s, i);
    lemma_name_len_bound(s, i + 1);
    let n = i + 1 + name_len(s, i + 1);
    lemma_digits_len_bound(s, n + 1);
    // every character of the token but the last is no closing brace
    assert forall|k: int| i + 1 <= k < end - 1 implies s[k] != '}' by {
        if k < n {
            lemma_name_chars(s, i + 1, k - (i + 1));
        } else if k > n {
            lemma_digit_chars(s, n + 1, k - (n + 1));
        }
    }
    lemma_suffix_step(t, i, 1, seq![s[i]], canon_from(s, i + 1, true));
    assert(t.subrange(i, i + 1)[0] == t[i]);
    lemma_canon_copy(s, t, i + 1, end - 1);
    assert(s[end - 1] == '}');
    lemma_suffix_step(t, end - 1, 1, seq![s[end - 1]], canon_from(s, end, false));
    assert(t.subrange(end - 1, end)[0] == t[end - 1]);
    assert(t.subrange(i, end) == s.subrange(i, end)) by {
        assert(t.subrange(i, end) == seq![t[i]] + t.subrange(i + 1, end - 1) + seq![t[end - 1]]);
        assert(s.subrange(i, end) == seq![s[i]] + s.subrange(i + 1, end - 1) + seq![s[end - 1]]);
    }
    assert forall|k: int| i <= k < end implies t[k] == s[k] by {
        assert(t.subrange(i, end)[k - i] == t[k]);
        assert(s.subrange(i, end)[k - i] == s[k]);
    }
    assert(t.subrange(i + 1, end) == s.subrange(i + 1, end));
    lemma_name_len_agrees(s, t, i + 1, end);
    assert(t.subrange(i + 1, n) == s.subrange(i + 1, n));
    if s[n] == '*' {
        assert(t.subrange(n + 1, end) == s.subrange(n + 1, end));
        lemma_digits_len_agrees(s, t, n + 1, end);
        let d = n + 1 + digits_len(s, n + 1);
        assert(t.subrange(n + 1, d) == s.subrange(n + 1, d));
    }
}

/// A literal run that a slash, a token or the end of the text follows is as
/// long in the canonical form.
proof fn lemma_run_canonical(s: Seq<char>, t: Seq<char>, i: int)
    requires
        0 <= i <= s.len(),
        t.len() == s.len(),
        t.subrange(i, t.len() as int) == canon_from(s, i, false),
        i + run_len(s, i) < s.len() ==> s[i + run_len(s, i)] == '/' || s[i + run_len(s, i)]
            == '{',
    ensures
        run_len(t, i) == run_len(s, i),
        i + run_len(s, i) <= s.len(),
        t.subrange(i + run_len(s, i), t.len() as int) == canon_from(s, i + run_len(s, i), false),
        i + run_len(s, i) < s.len() ==> t[i + run_len(s, i)] == s[i + run_len(s, i)],
    decreases s.len() - i,
{
    lemma_run_len_bound(s, i);
    if i < s.len() && is_literal_char(s[i]) {
        lemma_suffix_step(t, i, 1, seq![lower_char(s[i])], canon_from(s, i + 1, false));
        assert(t.subrange(i, i + 1)[0] == t[i]);
        lemma_run_canonical(s, t, i + 1);
    } else if triplet_at(s, i) {
        lemma_suffix_step(
            t,
            i,
            3,
            seq![s[i], s[i + 1], s[i + 2]],
            canon_from(s, i + 3, false),
        );
        assert(t.subrange(i, i + 3)[0] == t[i]);
        assert(t.subrange(i, i + 3)[1] == t[i + 1]);
        assert(t.subrange(i, i + 3)[2] == t[i + 2]);
        lemma_run_canonical(s, t, i + 3);
    } else if i < s.len() {
        if s[i] == '{' {
            lemma_suffix_step(t, i, 1, seq![s[i]], canon_from(s, i + 1, true));
        } else {
            lemma_suffix_step(t, i, 1, seq![lower_char(s[i])], canon_from(s, i + 1, false));
        }
        assert(t.subrange(i, i + 1)[0] == t[i]);
    }
}

/// Where the rest of a text scans as a template, so does the rest of its
/// canonical form.
proof fn lemma_scan_canonical(
    s: Seq<char>,
    t: Seq<char>,
    i: int,
    done: Seq<Seq<Piece>>,
    cur: Seq<Piece>,
    done2: Seq<Seq<Piece>>,
    cur2: Seq<Piece>,
    seen: Seq<Seq<char>>,
)
    requires
        0 <= i <= s.len(),
        t.len() == s.len(),
        t.subrange(i, t.len() as int) == canon_from(s, i, false),
        scan_from(s, i, done, cur, seen) is Ok,
        cur.len() == cur2.len(),
        cur.len() > 0 ==> (cur.last() is Literal <==> cur2.last() is Literal),
    ensures
        scan_from(t, i, done2, cur2, seen) is Ok,
    decreases s.len() - i,
{
    if i < s.len() {
        if s[i] == '/' {
            lemma_suffix_step(t, i, 1, seq![lower_char(s[i])], canon_from(s, i + 1, false));
            assert(t.subrange(i, i + 1)[0] == t[i]);
            lemma_scan_canonical(
                s,
                t,
                i + 1,
                done.push(cur),
                Seq::empty(),
                done2.push(cur2),
                Seq::empty(),
                seen,
            );
        } else if s[i] == '{' {
            lemma_token_canonical(s, t, i);
            lemma_token_end(s, i);
            let piece = token_at(s, i)->Ok_0.0;
            let end = token_at(s, i)->Ok_0.1;
            if end < s.len() {
                lemma_suffix_peek(s, t, end);
            }
            lemma_scan_canonical(
                s,
                t,
                end,
                done,
                cur.push(piece),
                done2,
                cur2.push(piece),
                seen.push(piece.name()),
            );
        } else {
            let r = run_len(s, i);
            lemma_run_len_bound(s, i);
            lemma_run_maximal(s, i);
            let next = cur.push(Piece::Literal(s.subrange(i, i + r)));
            assert(scan_from(s, i + r, done, next, seen) is Ok);
            assert(i + r < s.len() ==> s[i + r] == '/' || s[i + r] == '{');
            lemma_run_canonical(s, t, i);
            assert(t[i] != '/' && t[i] != '{') by {
                if is_literal_char(s[i]) {
                    lemma_suffix_step(
                        t,
                        i,
                        1,
                        seq![lower_char(s[i])],
                        canon_from(s, i + 1, false),
                    );
                } else {
                    lemma_suffix_step(
                        t,
                        i,
                        3,
                        seq![s[i], s[i + 1], s[i + 2]],
                        canon_from(s, i + 3, false),
                    );
                    assert(t.subrange(i, i + 3)[0] == t[i]);
                }
                assert(t.subrange(i, i + 1)[0] == t[i]);
            }
            lemma_scan_canonical(
                s,
                t,
                i + r,
                done,
                cur.push(Piece::Literal(s.subrange(i, i + r))),
                done2,
                cur2.push(Piece::Literal(t.subrange(i, i + r))),
                seen,
            );
        }
    }
}

/// A slash or an opening brace outside braces is copied into the canonical
/// form, and nothing else becomes one.
proof fn lemma_suffix_peek(s: Seq<char>, t: Seq<char>, i: int)
    requires
        0 <= i < s.len(),
        t.len() == s.len(),
        t.subrange(i, t.len() as int) == canon_from(s, i, false),
    ensures
        (t[i] == '/') == (s[i] == '/'),
        (t[i] == '{') == (s[i] == '{'),
{
    if s[i] == '{' {
        lemma_suffix_step(t, i, 1, seq![s[i]], canon_from(s, i + 1, true));
        assert(t.subrange(i, i + 1)[0] == t[i]);
    } else if s[i] == '%' && i + 2 < s.len() {
        lemma_suffix_step(
            t,
            i,
            3,
            seq![s[i], s[i + 1], s[i + 2]],
            canon_from(s, i + 3, false),
        );
        assert(t.subrange(i, i + 3)[0] == t[i]);
    } else {
        lemma_suffix_step(t, i, 1, seq![lower_char(s[i])], canon_from(s, i + 1, false));
        assert(t.subrange(i, i + 1)[0] == t[i]);
    }
}

/// The canonical form of a template is a template.
pub proof fn lemma_canonical_is_template(s: Seq<char>)
    requires
        is_template(s),
    ensures
        is_template(canonical(s)),
{
    let t = canonical(s);
    lemma_canon_len(s, 0, false);
    assert(t.subrange(0, t.len() as int) == t);
    lemma_suffix_step(t, 0, 1, seq![lower_char(s[0])], canon_from(s, 1, false));
    assert(t.subrange(0, 1)[0] == t[0]);
    lemma_scan_canonical(
        s,
        t,
        1,
        Seq::empty(),
        Seq::empty(),
        Seq::empty(),
        Seq::empty(),
        Seq::empty(),
    );
}

/// Validation is idempotent: the validator accepts the canonical form of a
/// template and returns it unchanged.
pub proof fn lemma_validate_idempotent(s: Seq<char>)
    requires
        is_template(s),
    ensures
        validated(s) is Ok,
        validated(validated(s)->Ok_0) == validated(s),
{
    lemma_canonical_is_template(s);
    lemma_canonical_idempotent(s);
}

/// The canonical form of a text.
pub fn canonicalize(s: &Vec<char>) -> (r: Vec<char>)
    ensures
        r@ == canonical(s@),
{
    let mut out: Vec<char> = Vec::new();
    let mut i: usize = 0;
    let mut in_braces: bool = false;
    while i < s.len()
        invariant
            i <= s.len(),
            canonical(s@) == out@ + canon_from(s@, i as int, in_braces),
        decreases s.len() - i,
    {
        let c: char = s[i];
        let ghost before = out@;
        if in_braces {
            out.push(c);
            in_braces = c != '}';
            assert(out@ + canon_from(s@, i + 1, in_braces) == before + (seq![c] + canon_from(
                s@,
                i + 1,
                in_braces,
            )));
            i += 1;
        } else if c == '{' {
            out.push(c);
            in_braces = true;
            assert(out@ + canon_from(s@, i + 1, true) == before + (seq![c] + canon_from(
                s@,
                i + 1,
                true,
            )));
            i += 1;
        } else if c == '%' && s.len() - i > 2 {
            out.push(c);
            out.push(s[i + 1]);
            out.push(s[i + 2]);
            assert(out@ + canon_from(s@, i + 3, false) == before + (seq![
                c,
                s@[i + 1],
                s@[i + 2],
            ] + canon_from(s@, i + 3, false)));
            i += 3;
        } else {
            out.push(to_lower(c));
            assert(out@ + canon_from(s@, i + 1, false) == before + (seq![lower_char(c)]
                + canon_from(s@, i + 1, false)));
            i += 1;
        }
    }
    assert(out@ + Seq::<char>::empty() == out@);
    out
}

/// Checks a text against the template grammar and returns its canonical
/// form, or the position and the reason of the first fault.
pub fn validate(raw: &str) -> (r: Result<String, GrammarError>)
    ensures
        match r {
            Ok(c) => validated(raw@) == Ok::<Seq<char>, Fault>(c@),
            Err(e) => validated(raw@) == Err::<Seq<char>, Fault>(e@),
        },
{
    let chars: Vec<char> = chars_of(raw);
    match scan(&chars) {
        Err(e) => Err(e),
        Ok(_) => {
            let c: Vec<char> = canonicalize(&chars);
            Ok(string_from_chars(&c))
        },
    }
}

} // verus!

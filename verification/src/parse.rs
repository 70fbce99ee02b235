//! The scanner/parser: one left-to-right pass over the character sequence,
//! producing the instruction sequence. Digit runs become number literals,
//! quote-delimited runs become text literals, and the conditional opcode
//! collects a bracketed body that is parsed recursively. Every successful
//! top-level parse ends in an appended `Exit` instruction.

use vstd::prelude::*;
use vstd::string::StrSliceExecFns;
use crate::instruction::{Instr, InstrV, instr_model, body_model};
use crate::numfmt::{
    is_digit_ch, digit_val, digits_val, all_digits, is_space_ch, digit, space,
    lemma_digits_val_prefix, lemma_digits_val_nonneg,
};

verus! {

/// Why a parse failed.
#[derive(Debug, PartialEq, Eq, Clone, Copy)]
pub enum ParseError {
    /// A text literal was opened on this line and the input ended before the
    /// closing quote.
    UnterminatedString { line: usize },
    /// A digit run on this line names a value too large for the number type.
    NumberTooLarge { line: usize },
    /// The input ended inside a conditional: before its opening bracket or
    /// before its closing bracket.
    ConditionalUnterminated,
    /// The first non-whitespace character after the conditional opcode was
    /// not the opening bracket.
    ExpectedBody { got: char },
    /// A character that names no opcode.
    UnknownToken { token: char },
}

// ---------------------------------------------------------------------------
// Scanning helpers, as specification functions
// ---------------------------------------------------------------------------

/// The line counter never passes the largest representable line number.
pub open spec fn line_inc(l: int) -> int {
    if l < usize::MAX {
        l + 1
    } else {
        l
    }
}

/// The line counter after scanning `s`, counting its newlines.
pub open spec fn advance_line(l: int, s: Seq<char>) -> int
    decreases s.len(),
{
    if s.len() == 0 {
        l
    } else {
        let p = advance_line(l, s.drop_last());
        if s.last() == '\n' {
            line_inc(p)
        } else {
            p
        }
    }
}

/// Length of the run of digits at the front of `s`.
pub open spec fn digit_run(s: Seq<char>) -> int
    decreases s.len(),
{
    if s.len() > 0 && is_digit_ch(s[0]) {
        1 + digit_run(s.drop_first())
    } else {
        0
    }
}

/// Index of the first occurrence of `c` in `s`, or -1.
pub open spec fn find_idx(s: Seq<char>, c: char) -> int
    decreases s.len(),
{
    if s.len() == 0 {
        -1
    } else if s[0] == c {
        0
    } else {
        let r = find_idx(s.drop_first(), c);
        if r < 0 {
            -1
        } else {
            r + 1
        }
    }
}

/// Index of the first non-whitespace character of `s`, or -1.
pub open spec fn find_non_ws(s: Seq<char>) -> int
    decreases s.len(),
{
    if s.len() == 0 {
        -1
    } else if !is_space_ch(s[0]) {
        0
    } else {
        let r = find_non_ws(s.drop_first());
        if r < 0 {
            -1
        } else {
            r + 1
        }
    }
}

/// The single characters that name an instruction outright.
pub open spec fn is_simple_ch(c: char) -> bool {
    c == 'a' || c == 'A' || c == 'c' || c == 'd' || c == 'i' || c == 'n' || c == 'p' || c == 'P'
        || c == 'q' || c == 'r' || c == 'R' || c == 's' || c == 'S' || c == 't' || c == 'T'
        || c == '+' || c == '-' || c == '/' || c == '*' || c == '>' || c == '<' || c == '.'
        || c == '=' || c == '$' || c == '!'
}

pub open spec fn simple_instr(c: char) -> InstrV {
    if c == 'a' {
        InstrV::PrintStack
    } else if c == 'A' {
        InstrV::PrintStackLn
    } else if c == 'c' {
        InstrV::ClearStack
    } else if c == 'd' {
        InstrV::Pop
    } else if c == 'i' {
        InstrV::Read
    } else if c == 'n' {
        InstrV::ParseNum
    } else if c == 'p' {
        InstrV::Print
    } else if c == 'P' {
        InstrV::PrintLn
    } else if c == 'q' {
        InstrV::Exit
    } else if c == 'r' {
        InstrV::Reverse
    } else if c == 'R' {
        InstrV::FlipStack
    } else if c == 's' {
        InstrV::Sum
    } else if c == 'S' {
        InstrV::ShowStack
    } else if c == 't' {
        InstrV::Time
    } else if c == 'T' {
        InstrV::TimeFmt
    } else if c == '+' {
        InstrV::Plus
    } else if c == '-' {
        InstrV::Sub
    } else if c == '/' {
        InstrV::Div
    } else if c == '*' {
        InstrV::Mul
    } else if c == '>' {
        InstrV::GreaterThan
    } else if c == '<' {
        InstrV::LessThan
    } else if c == '.' {
        InstrV::GenRange
    } else if c == '=' {
        InstrV::Eq
    } else if c == '$' {
        InstrV::Syscall
    } else {
        InstrV::Not
    }
}

/// A letter that is recognized but names no instruction: it is skipped.
pub open spec fn is_skip_letter(c: char) -> bool {
    (97 <= (c as u32) && (c as u32) <= 122 || 65 <= (c as u32) && (c as u32) <= 90)
        && !is_simple_ch(c)
}

pub proof fn lemma_digit_run_bounds(s: Seq<char>)
    ensures
        0 <= digit_run(s) <= s.len(),
    decreases s.len(),
{
    if s.len() > 0 && is_digit_ch(s[0]) {
        lemma_digit_run_bounds(s.drop_first());
    }
}

pub proof fn lemma_find_idx_bounds(s: Seq<char>, c: char)
    ensures
        -1 <= find_idx(s, c) < s.len(),
    decreases s.len(),
{
    if s.len() > 0 && s[0] != c {
        lemma_find_idx_bounds(s.drop_first(), c);
    }
}

pub proof fn lemma_find_non_ws_bounds(s: Seq<char>)
    ensures
        -1 <= find_non_ws(s) < s.len(),
    decreases s.len(),
{
    if s.len() > 0 && is_space_ch(s[0]) {
        lemma_find_non_ws_bounds(s.drop_first());
    }
}

pub open spec fn cons_instr(i: InstrV, r: Result<Seq<InstrV>, ParseError>) -> Result<
    Seq<InstrV>,
    ParseError,
> {
    match r {
        Ok(t) => Ok(seq![i] + t),
        Err(e) => Err(e),
    }
}

// ---------------------------------------------------------------------------
// The parser, as a specification
// ---------------------------------------------------------------------------

/// One pass over `s` with the line counter at `line`, producing the
/// instruction sequence without the appended terminator.
pub open spec fn parse_rec(s: Seq<char>, line: int) -> Result<Seq<InstrV>, ParseError>
    decreases s.len(),
        via parse_rec_decreases
{
    if s.len() == 0 {
        Ok(Seq::empty())
    } else {
        let c = s[0];
        let rest = s.drop_first();
        if c == '\n' {
            parse_rec(rest, line_inc(line))
        } else if c == ',' || c == ' ' {
            parse_rec(rest, line)
        } else if is_digit_ch(c) {
            let n = 1 + digit_run(rest);
            if digits_val(s.take(n)) > i64::MAX {
                Err(ParseError::NumberTooLarge { line: line as usize })
            } else {
                cons_instr(
                    InstrV::PushNum(digits_val(s.take(n)) as i64),
                    parse_rec(s.skip(n), line),
                )
            }
        } else if c == '\'' {
            let j = find_idx(rest, '\'');
            if j < 0 {
                Err(ParseError::UnterminatedString { line: line as usize })
            } else {
                cons_instr(
                    InstrV::PushStr(rest.take(j)),
                    parse_rec(rest.skip(j + 1), advance_line(line, rest.take(j))),
                )
            }
        } else if c == '?' {
            let g = find_non_ws(rest);
            if g < 0 {
                Err(ParseError::ConditionalUnterminated)
            } else if rest[g] != '[' {
                Err(ParseError::ExpectedBody { got: rest[g] })
            } else {
                let after = rest.skip(g + 1);
                let j = find_idx(after, ']');
                if j < 0 {
                    Err(ParseError::ConditionalUnterminated)
                } else {
                    match parse_rec(after.take(j), 1) {
                        Ok(body) => cons_instr(
                            InstrV::IfStmt(body),
                            parse_rec(after.skip(j + 1), line),
                        ),
                        Err(e) => Err(e),
                    }
                }
            }
        } else if is_simple_ch(c) {
            cons_instr(simple_instr(c), parse_rec(rest, line))
        } else if is_skip_letter(c) {
            parse_rec(rest, line)
        } else {
            Err(ParseError::UnknownToken { token: c })
        }
    }
}

#[via_fn]
proof fn parse_rec_decreases(s: Seq<char>, line: int) {
    if s.len() > 0 {
        let rest = s.drop_first();
        lemma_digit_run_bounds(rest);
        lemma_find_idx_bounds(rest, '\'');
        lemma_find_non_ws_bounds(rest);
        let g = find_non_ws(rest);
        if 0 <= g < rest.len() {
            lemma_find_idx_bounds(rest.skip(g + 1), ']');
        }
    }
}

/// A whole program: the pass over `s`, then the appended terminator.
pub open spec fn spec_parse(s: Seq<char>) -> Result<Seq<InstrV>, ParseError> {
    match parse_rec(s, 1) {
        Ok(t) => Ok(t.push(InstrV::Exit)),
        Err(e) => Err(e),
    }
}

/// The executable result agrees with the modelled result.
pub open spec fn parse_result_matches(
    r: Result<Vec<Instr>, ParseError>,
    m: Result<Seq<InstrV>, ParseError>,
) -> bool {
    match (r, m) {
        (Ok(v), Ok(t)) => body_model(v@) == t,
        (Err(e), Err(f)) => e == f,
        _ => false,
    }
}

// ---------------------------------------------------------------------------
// Characterization lemmas for the scanning helpers
// ---------------------------------------------------------------------------

/// Joining a parsed head instruction to the parse of the remaining input.
pub open spec fn prepend(acc: Seq<InstrV>, r: Result<Seq<InstrV>, ParseError>) -> Result<
    Seq<InstrV>,
    ParseError,
> {
    match r {
        Ok(t) => Ok(acc + t),
        Err(e) => Err(e),
    }
}

proof fn lemma_prepend_step(acc: Seq<InstrV>, m: InstrV, r: Result<Seq<InstrV>, ParseError>)
    ensures
        prepend(acc, cons_instr(m, r)) == prepend(acc.push(m), r),
{
    match r {
        Ok(t) => {
            assert(acc + (seq![m] + t) =~= acc.push(m) + t);
        },
        Err(_) => {},
    }
}

proof fn lemma_digit_run_exact(s: Seq<char>, m: int)
    requires
        0 <= m <= s.len(),
        forall|i: int| 0 <= i < m ==> is_digit_ch(#[trigger] s[i]),
        m == s.len() || !is_digit_ch(s[m]),
    ensures
        digit_run(s) == m,
    decreases s.len(),
{
    if m == 0 {
    } else {
        assert(is_digit_ch(s[0]));
        let r = s.drop_first();
        assert(forall|i: int| 0 <= i < m - 1 ==> is_digit_ch(#[trigger] r[i])) by {
            assert(forall|i: int| 0 <= i < m - 1 ==> r[i] == #[trigger] s[i + 1]);
        }
        if m < s.len() {
            assert(r[m - 1] == s[m]);
        }
        lemma_digit_run_exact(r, m - 1);
    }
}

proof fn lemma_find_idx_hit(s: Seq<char>, c: char, m: int)
    requires
        0 <= m < s.len(),
        forall|i: int| 0 <= i < m ==> #[trigger] s[i] != c,
        s[m] == c,
    ensures
        find_idx(s, c) == m,
    decreases s.len(),
{
    if m > 0 {
        let r = s.drop_first();
        assert(forall|i: int| 0 <= i < m - 1 ==> #[trigger] r[i] != c) by {
            assert(forall|i: int| 0 <= i < m - 1 ==> r[i] == #[trigger] s[i + 1]);
        }
        assert(r[m - 1] == s[m]);
        lemma_find_idx_hit(r, c, m - 1);
    }
}

proof fn lemma_find_idx_miss(s: Seq<char>, c: char)
    requires
        forall|i: int| 0 <= i < s.len() ==> #[trigger] s[i] != c,
    ensures
        find_idx(s, c) == -1,
    decreases s.len(),
{
    if s.len() > 0 {
        let r = s.drop_first();
        assert(forall|i: int| 0 <= i < r.len() ==> #[trigger] r[i] != c) by {
            assert(forall|i: int| 0 <= i < r.len() ==> r[i] == #[trigger] s[i + 1]);
        }
        lemma_find_idx_miss(r, c);
    }
}

proof fn lemma_find_non_ws_hit(s: Seq<char>, m: int)
    requires
        0 <= m < s.len(),
        forall|i: int| 0 <= i < m ==> is_space_ch(#[trigger] s[i]),
        !is_space_ch(s[m]),
    ensures
        find_non_ws(s) == m,
    decreases s.len(),
{
    if m > 0 {
        let r = s.drop_first();
        assert(forall|i: int| 0 <= i < m - 1 ==> is_space_ch(#[trigger] r[i])) by {
            assert(forall|i: int| 0 <= i < m - 1 ==> r[i] == #[trigger] s[i + 1]);
        }
        assert(r[m - 1] == s[m]);
        lemma_find_non_ws_hit(r, m - 1);
    }
}

proof fn lemma_find_non_ws_miss(s: Seq<char>)
    requires
        forall|i: int| 0 <= i < s.len() ==> is_space_ch(#[trigger] s[i]),
    ensures
        find_non_ws(s) == -1,
    decreases s.len(),
{
    if s.len() > 0 {
        let r = s.drop_first();
        assert(forall|i: int| 0 <= i < r.len() ==> is_space_ch(#[trigger] r[i])) by {
            assert(forall|i: int| 0 <= i < r.len() ==> r[i] == #[trigger] s[i + 1]);
        }
        lemma_find_non_ws_miss(r);
    }
}

// ---------------------------------------------------------------------------
// Laws of the grammar
// ---------------------------------------------------------------------------

/// Number-literal law: a run of digits followed by any non-digit parses to a
/// single number-push of the run's value, ahead of the parse of what
/// follows. (A run whose value exceeds the number type is rejected instead.)
pub proof fn lemma_digit_run_parses(d: Seq<char>, rest: Seq<char>, line: int)
    requires
        d.len() > 0,
        all_digits(d),
        rest.len() > 0,
        !is_digit_ch(rest[0]),
        digits_val(d) <= i64::MAX,
    ensures
        parse_rec(d + rest, line) == cons_instr(
            InstrV::PushNum(digits_val(d) as i64),
            parse_rec(rest, line),
        ),
{
    let s = d + rest;
    assert(s[0] == d[0]);
    assert(is_digit_ch(s[0]));
    let tail = s.drop_first();
    assert(forall|i: int| 0 <= i < d.len() - 1 ==> tail[i] == #[trigger] d[i + 1]);
    assert(forall|i: int| 0 <= i < d.len() - 1 ==> is_digit_ch(#[trigger] tail[i]));
    assert(tail[d.len() - 1] == rest[0]);
    lemma_digit_run_exact(tail, d.len() - 1);
    let n = 1 + digit_run(tail);
    assert(n == d.len());
    assert(s.take(n) =~= d);
    assert(s.skip(n) =~= rest);
    lemma_digits_val_nonneg(d);
}

/// Text-literal law: a quoted text with no quote character inside, followed
/// by the print-line opcode, parses to exactly a text-push, a print-line,
/// and the appended terminator.
pub proof fn lemma_string_roundtrip(s: Seq<char>)
    requires
        forall|i: int| 0 <= i < s.len() ==> #[trigger] s[i] != '\'',
    ensures
        spec_parse(seq!['\''] + s + seq!['\'', 'P']) == Ok::<Seq<InstrV>, ParseError>(
            seq![InstrV::PushStr(s), InstrV::PrintLn, InstrV::Exit],
        ),
{
    let src = seq!['\''] + s + seq!['\'', 'P'];
    assert(src[0] == '\'');
    let rest = src.drop_first();
    assert(rest.len() == s.len() + 2);
    assert(forall|i: int| 0 <= i < s.len() ==> rest[i] == #[trigger] s[i]);
    assert(rest[s.len() as int] == '\'');
    lemma_find_idx_hit(rest, '\'', s.len() as int);
    let j = find_idx(rest, '\'');
    assert(j == s.len());
    assert(rest.take(j) =~= s);
    let after = rest.skip(j + 1);
    assert(after =~= seq!['P']);
    let lp = advance_line(1, rest.take(j));
    assert(parse_rec(after, lp) == Ok::<Seq<InstrV>, ParseError>(seq![InstrV::PrintLn])) by {
        reveal_with_fuel(parse_rec, 2);
        assert(after[0] == 'P');
        assert('P' != '\n' && 'P' != ',' && 'P' != ' ' && 'P' != '\'' && 'P' != '?');
        assert(!is_digit_ch('P'));
        assert(is_simple_ch('P'));
        assert(simple_instr('P') == InstrV::PrintLn);
        assert(after.drop_first().len() == 0);
        assert(seq![InstrV::PrintLn] + Seq::<InstrV>::empty() =~= seq![InstrV::PrintLn]);
    }
    assert(seq![InstrV::PushStr(s)] + seq![InstrV::PrintLn] =~= seq![
        InstrV::PushStr(s),
        InstrV::PrintLn,
    ]);
    assert(seq![InstrV::PushStr(s), InstrV::PrintLn].push(InstrV::Exit) =~= seq![
        InstrV::PushStr(s),
        InstrV::PrintLn,
        InstrV::Exit,
    ]);
}

// ---------------------------------------------------------------------------
// The executable parser
// ---------------------------------------------------------------------------

fn simple_token(c: char) -> (r: Option<Instr>)
    ensures
        match r {
            Some(i) => is_simple_ch(c) && instr_model(i) == simple_instr(c),
            None => !is_simple_ch(c),
        },
{
    match c {
        'a' => Some(Instr::PrintStack),
        'A' => Some(Instr::PrintStackLn),
        'c' => Some(Instr::ClearStack),
        'd' => Some(Instr::Pop),
        'i' => Some(Instr::Read),
        'n' => Some(Instr::ParseNum),
        'p' => Some(Instr::Print),
        'P' => Some(Instr::PrintLn),
        'q' => Some(Instr::Exit),
        'r' => Some(Instr::Reverse),
        'R' => Some(Instr::FlipStack),
        's' => Some(Instr::Sum),
        'S' => Some(Instr::ShowStack),
        't' => Some(Instr::Time),
        'T' => Some(Instr::TimeFmt),
        '+' => Some(Instr::Plus),
        '-' => Some(Instr::Sub),
        '/' => Some(Instr::Div),
        '*' => Some(Instr::Mul),
        '>' => Some(Instr::GreaterThan),
        '<' => Some(Instr::LessThan),
        '.' => Some(Instr::GenRange),
        '=' => Some(Instr::Eq),
        '$' => Some(Instr::Syscall),
        '!' => Some(Instr::Not),
        _ => None,
    }
}

fn skip_letter(c: char) -> (r: bool)
    ensures
        r == is_skip_letter(c),
{
    let u = c as u32;
    let alpha = (97 <= u && u <= 122) || (65 <= u && u <= 90);
    alpha && simple_token(c).is_none()
}

fn lex_number(chars: &Vec<char>, pos: usize, line: usize) -> (r: Result<(i64, usize), ParseError>)
    requires
        pos < chars@.len(),
        is_digit_ch(chars@[pos as int]),
    ensures
        ({
            let srem = chars@.skip(pos as int);
            let n = 1 + digit_run(srem.drop_first());
            match r {
                Ok(t) => {
                    &&& t.1 == pos + n
                    &&& pos < t.1 <= chars@.len()
                    &&& 0 <= t.0
                    &&& t.0 as int == digits_val(srem.take(n))
                    &&& digits_val(srem.take(n)) <= i64::MAX
                },
                Err(e) => {
                    &&& e == (ParseError::NumberTooLarge { line })
                    &&& digits_val(srem.take(n)) > i64::MAX
                },
            }
        }),
{
    let len = chars.len();
    let mut j: usize = pos + 1;
    while j < len && digit(chars[j])
        invariant
            pos + 1 <= j <= len,
            len == chars@.len(),
            forall|i: int| pos + 1 <= i < j ==> is_digit_ch(#[trigger] chars@[i]),
        decreases len - j,
    {
        j = j + 1;
    }
    let ghost srem = chars@.skip(pos as int);
    let ghost rest = srem.drop_first();
    proof {
        assert(rest =~= chars@.skip(pos as int + 1));
        assert(forall|i: int| 0 <= i < j - pos - 1 ==> is_digit_ch(#[trigger] rest[i])) by {
            assert(forall|i: int|
                0 <= i < j - pos - 1 ==> rest[i] == #[trigger] chars@[pos + 1 + i]);
        }
        if j < len {
            assert(rest[j - pos - 1] == chars@[j as int]);
        }
        lemma_digit_run_exact(rest, j - pos - 1);
    }
    let ghost tok = srem.take(j - pos);
    proof {
        assert(all_digits(tok)) by {
            assert(forall|i: int| 0 <= i < j - pos ==> tok[i] == #[trigger] chars@[pos + i]);
        }
        assert(tok.take(0).len() == 0);
    }
    let mut acc: u128 = 0;
    let mut k: usize = pos;
    while k < j
        invariant
            pos <= k <= j <= chars@.len(),
            srem == chars@.skip(pos as int),
            tok == srem.take(j - pos),
            tok.len() == j - pos,
            all_digits(tok),
            1 + digit_run(srem.drop_first()) == j - pos,
            acc as int == digits_val(tok.take(k - pos)),
            acc <= i64::MAX as u128,
        decreases j - k,
    {
        let c = chars[k];
        proof {
            assert(tok[k - pos] == chars@[k as int]);
        }
        let u = c as u32;
        assert(48 <= u <= 57);
        let next: u128 = acc * 10 + ((u - 48) as u128);
        proof {
            let m = (k + 1 - pos) as int;
            assert(tok.take(m).drop_last() =~= tok.take(k - pos));
            assert(tok.take(m).last() == tok[k - pos]);
            assert(digits_val(tok.take(m)) == digits_val(tok.take(k - pos)) * 10 + digit_val(c));
        }
        if next > i64::MAX as u128 {
            proof {
                lemma_digits_val_prefix(tok, k + 1 - pos);
            }
            return Err(ParseError::NumberTooLarge { line });
        }
        acc = next;
        k = k + 1;
    }
    proof {
        assert(tok.take(j - pos) =~= tok);
    }
    Ok((acc as i64, j))
}

fn lex_string(chars: &Vec<char>, pos: usize, line: usize) -> (r: Result<
    (Vec<char>, usize, usize),
    ParseError,
>)
    requires
        pos < chars@.len(),
        chars@[pos as int] == '\'',
    ensures
        ({
            let rest = chars@.skip(pos as int + 1);
            let j = find_idx(rest, '\'');
            match r {
                Ok(t) => {
                    &&& j >= 0
                    &&& t.0@ == rest.take(j)
                    &&& t.1 == pos + 2 + j
                    &&& pos < t.1 <= chars@.len()
                    &&& t.2 as int == advance_line(line as int, rest.take(j))
                },
                Err(e) => {
                    &&& j < 0
                    &&& e == (ParseError::UnterminatedString { line })
                },
            }
        }),
{
    let len = chars.len();
    let mut q: usize = pos + 1;
    while q < len && chars[q] != '\''
        invariant
            pos + 1 <= q <= len,
            len == chars@.len(),
            forall|i: int| pos + 1 <= i < q ==> #[trigger] chars@[i] != '\'',
        decreases len - q,
    {
        q = q + 1;
    }
    let ghost rest = chars@.skip(pos as int + 1);
    if q == len {
        proof {
            assert(forall|i: int| 0 <= i < rest.len() ==> #[trigger] rest[i] != '\'') by {
                assert(forall|i: int|
                    0 <= i < rest.len() ==> rest[i] == #[trigger] chars@[pos + 1 + i]);
            }
            lemma_find_idx_miss(rest, '\'');
        }
        return Err(ParseError::UnterminatedString { line });
    }
    proof {
        assert(rest[q - pos - 1] == chars@[q as int]);
        assert(forall|i: int| 0 <= i < q - pos - 1 ==> #[trigger] rest[i] != '\'') by {
            assert(forall|i: int|
                0 <= i < q - pos - 1 ==> rest[i] == #[trigger] chars@[pos + 1 + i]);
        }
        lemma_find_idx_hit(rest, '\'', q - pos - 1);
    }
    let mut content: Vec<char> = Vec::new();
    let mut nline: usize = line;
    let mut i: usize = pos + 1;
    while i < q
        invariant
            pos + 1 <= i <= q <= chars@.len(),
            q < chars@.len(),
            content@ == chars@.subrange(pos as int + 1, i as int),
            nline as int == advance_line(line as int, content@),
        decreases q - i,
    {
        let c = chars[i];
        if c == '\n' {
            if nline < usize::MAX {
                nline = nline + 1;
            }
        }
        content.push(c);
        proof {
            assert(content@.drop_last() =~= chars@.subrange(pos as int + 1, i as int));
            assert(content@ =~= chars@.subrange(pos as int + 1, i as int + 1));
            assert(content@.last() == chars@[i as int]);
        }
        i = i + 1;
    }
    proof {
        assert(content@ =~= rest.take(q - pos - 1));
    }
    Ok((content, q + 1, nline))
}

fn lex_cond(chars: &Vec<char>, pos: usize) -> (r: Result<(Vec<char>, usize), ParseError>)
    requires
        pos < chars@.len(),
        chars@[pos as int] == '?',
    ensures
        ({
            let rest = chars@.skip(pos as int + 1);
            let g = find_non_ws(rest);
            match r {
                Ok(t) => {
                    &&& g >= 0
                    &&& rest[g] == '['
                    &&& ({
                        let after = rest.skip(g + 1);
                        let j = find_idx(after, ']');
                        &&& j >= 0
                        &&& t.0@ == after.take(j)
                        &&& t.0@.len() < chars@.len()
                        &&& t.1 == pos + g + j + 3
                        &&& pos < t.1 <= chars@.len()
                    })
                },
                Err(e) => {
                    ||| (g < 0 && e == ParseError::ConditionalUnterminated)
                    ||| (g >= 0 && rest[g] != '[' && e == (ParseError::ExpectedBody {
                        got: rest[g],
                    }))
                    ||| (g >= 0 && rest[g] == '[' && find_idx(rest.skip(g + 1), ']') < 0
                        && e == ParseError::ConditionalUnterminated)
                },
            }
        }),
{
    let len = chars.len();
    let mut w: usize = pos + 1;
    while w < len && space(chars[w])
        invariant
            pos + 1 <= w <= len,
            len == chars@.len(),
            forall|i: int| pos + 1 <= i < w ==> is_space_ch(#[trigger] chars@[i]),
        decreases len - w,
    {
        w = w + 1;
    }
    let ghost rest = chars@.skip(pos as int + 1);
    if w == len {
        proof {
            assert(forall|i: int| 0 <= i < rest.len() ==> is_space_ch(#[trigger] rest[i])) by {
                assert(forall|i: int|
                    0 <= i < rest.len() ==> rest[i] == #[trigger] chars@[pos + 1 + i]);
            }
            lemma_find_non_ws_miss(rest);
        }
        return Err(ParseError::ConditionalUnterminated);
    }
    proof {
        assert(rest[w - pos - 1] == chars@[w as int]);
        assert(forall|i: int| 0 <= i < w - pos - 1 ==> is_space_ch(#[trigger] rest[i])) by {
            assert(forall|i: int|
                0 <= i < w - pos - 1 ==> rest[i] == #[trigger] chars@[pos + 1 + i]);
        }
        lemma_find_non_ws_hit(rest, w - pos - 1);
    }
    if chars[w] != '[' {
        return Err(ParseError::ExpectedBody { got: chars[w] });
    }
    let mut h: usize = w + 1;
    while h < len && chars[h] != ']'
        invariant
            w + 1 <= h <= len,
            len == chars@.len(),
            forall|i: int| w + 1 <= i < h ==> #[trigger] chars@[i] != ']',
        decreases len - h,
    {
        h = h + 1;
    }
    let ghost after = rest.skip(w - pos);
    proof {
        assert(after =~= chars@.skip(w as int + 1));
    }
    if h == len {
        proof {
            assert(forall|i: int| 0 <= i < after.len() ==> #[trigger] after[i] != ']') by {
                assert(forall|i: int|
                    0 <= i < after.len() ==> after[i] == #[trigger] chars@[w + 1 + i]);
            }
            lemma_find_idx_miss(after, ']');
        }
        return Err(ParseError::ConditionalUnterminated);
    }
    proof {
        assert(after[h - w - 1] == chars@[h as int]);
        assert(forall|i: int| 0 <= i < h - w - 1 ==> #[trigger] after[i] != ']') by {
            assert(forall|i: int|
                0 <= i < h - w - 1 ==> after[i] == #[trigger] chars@[w + 1 + i]);
        }
        lemma_find_idx_hit(after, ']', h - w - 1);
    }
    let mut body: Vec<char> = Vec::new();
    let mut i: usize = w + 1;
    while i < h
        invariant
            w + 1 <= i <= h <= chars@.len(),
            h < chars@.len(),
            body@ == chars@.subrange(w as int + 1, i as int),
        decreases h - i,
    {
        body.push(chars[i]);
        proof {
            assert(body@.drop_last() =~= chars@.subrange(w as int + 1, i as int));
            assert(body@ =~= chars@.subrange(w as int + 1, i as int + 1));
        }
        i = i + 1;
    }
    proof {
        assert(body@ =~= after.take(h - w - 1));
    }
    Ok((body, h + 1))
}

/// The recursive core: parses a whole character buffer, without the appended
/// terminator.
#[verifier::rlimit(50)]
fn parse_core(chars: &Vec<char>) -> (r: Result<Vec<Instr>, ParseError>)
    ensures
        parse_result_matches(r, parse_rec(chars@, 1)),
    decreases chars@.len(),
{
    let len = chars.len();
    let mut out: Vec<Instr> = Vec::new();
    let mut pos: usize = 0;
    let mut line: usize = 1;
    proof {
        assert(chars@.skip(0) =~= chars@);
        assert(body_model(out@) + Seq::<InstrV>::empty() =~= body_model(out@));
        match parse_rec(chars@, 1) {
            Ok(t) => {
                assert(body_model(out@) + t =~= t);
            },
            Err(_) => {},
        }
    }
    while pos < len
        invariant
            0 <= pos <= len,
            len == chars@.len(),
            parse_rec(chars@, 1) == prepend(
                body_model(out@),
                parse_rec(chars@.skip(pos as int), line as int),
            ),
        decreases len - pos,
    {
        let ghost srem = chars@.skip(pos as int);
        let ghost pre = parse_rec(srem, line as int);
        proof {
            assert(srem.len() == len - pos);
            assert(srem[0] == chars@[pos as int]);
            assert(srem.drop_first() =~= chars@.skip(pos as int + 1));
        }
        let c = chars[pos];
        if c == '\n' {
            if line < usize::MAX {
                line = line + 1;
            }
            pos = pos + 1;
        } else if c == ',' || c == ' ' {
            pos = pos + 1;
        } else if digit(c) {
            match lex_number(chars, pos, line) {
                Ok(t) => {
                    let (val, npos) = t;
                    let ghost out0 = out@;
                    proof {
                        let n = 1 + digit_run(srem.drop_first());
                        assert(val == digits_val(srem.take(n)) as i64);
                        assert(srem.skip(n) =~= chars@.skip(npos as int));
                        assert(parse_rec(srem, line as int) == cons_instr(
                            InstrV::PushNum(val),
                            parse_rec(chars@.skip(npos as int), line as int),
                        ));
                        lemma_prepend_step(
                            body_model(out@),
                            InstrV::PushNum(val),
                            parse_rec(chars@.skip(npos as int), line as int),
                        );
                        assert((out@.push(Instr::PushNum(val))).drop_last() =~= out@);
                        assert((out@.push(Instr::PushNum(val))).last() == Instr::PushNum(val));
                    }
                    out.push(Instr::PushNum(val));
                    pos = npos;
                    proof {
                        assert(out@ == out0.push(Instr::PushNum(val)));
                        assert(out@.drop_last() =~= out0);
                        assert(out@.last() == Instr::PushNum(val));
                        assert(instr_model(Instr::PushNum(val)) == InstrV::PushNum(val));
                        assert(body_model(out@) == body_model(out0).push(InstrV::PushNum(val)));
                        assert(parse_rec(chars@, 1) == prepend(body_model(out@), parse_rec(chars@.skip(pos as int), line as int)));
                    }
                },
                Err(e) => {
                    return Err(e);
                },
            }
        } else if c == '\'' {
            match lex_string(chars, pos, line) {
                Ok(t) => {
                    let (content, npos, nline) = t;
                    let ghost out0 = out@;
                    let ghost rest = srem.drop_first();
                    let ghost j = find_idx(rest, '\'');
                    proof {
                        assert(rest.skip(j + 1) =~= chars@.skip(npos as int));
                        lemma_prepend_step(
                            body_model(out@),
                            InstrV::PushStr(content@),
                            parse_rec(chars@.skip(npos as int), nline as int),
                        );
                        assert((out@.push(Instr::PushStr(content))).drop_last() =~= out@);
                        assert((out@.push(Instr::PushStr(content))).last() == Instr::PushStr(
                            content,
                        ));
                    }
                    out.push(Instr::PushStr(content));
                    pos = npos;
                    line = nline;
                    proof {
                        assert(out@.drop_last() =~= out0);
                        assert(body_model(out@) == body_model(out0).push(instr_model(out@.last())));
                        assert(parse_rec(chars@, 1) == prepend(body_model(out@), parse_rec(chars@.skip(pos as int), line as int)));
                    }
                },
                Err(e) => {
                    return Err(e);
                },
            }
        } else if c == '?' {
            match lex_cond(chars, pos) {
                Ok(t) => {
                    let (bodychars, npos) = t;
                    let ghost rest = srem.drop_first();
                    let ghost g = find_non_ws(rest);
                    let ghost after = rest.skip(g + 1);
                    let ghost j = find_idx(after, ']');
                    proof {
                        assert(bodychars@ == after.take(j));
                        assert(after =~= chars@.skip(pos + g + 2));
                        assert(after.skip(j + 1) =~= chars@.skip(npos as int));
                    }
                    match parse_core(&bodychars) {
                        Ok(parsed_body) => {
                            let ghost out0 = out@;
                            proof {
                                lemma_prepend_step(
                                    body_model(out@),
                                    InstrV::IfStmt(body_model(parsed_body@)),
                                    parse_rec(chars@.skip(npos as int), line as int),
                                );
                                assert((out@.push(Instr::IfStmt(parsed_body))).drop_last()
                                    =~= out@);
                                assert((out@.push(Instr::IfStmt(parsed_body))).last()
                                    == Instr::IfStmt(parsed_body));
                            }
                            out.push(Instr::IfStmt(parsed_body));
                            pos = npos;
                            proof {
                                assert(out@.drop_last() =~= out0);
                                assert(body_model(out@) == body_model(out0).push(
                                    instr_model(out@.last()),
                                ));
                                assert(parse_rec(chars@, 1) == prepend(
                                    body_model(out@),
                                    parse_rec(chars@.skip(pos as int), line as int),
                                ));
                            }
                        },
                        Err(e) => {
                            return Err(e);
                        },
                    }
                },
                Err(e) => {
                    return Err(e);
                },
            }
        } else {
            match simple_token(c) {
                Some(instr) => {
                    proof {
                        lemma_prepend_step(
                            body_model(out@),
                            simple_instr(c),
                            parse_rec(chars@.skip(pos as int + 1), line as int),
                        );
                        assert((out@.push(instr)).drop_last() =~= out@);
                        assert((out@.push(instr)).last() == instr);
                    }
                    out.push(instr);
                    pos = pos + 1;
                        },
                None => {
                    if skip_letter(c) {
                        pos = pos + 1;
                                } else {
                        return Err(ParseError::UnknownToken { token: c });
                    }
                },
            }
        }
    }
    proof {
        assert(chars@.skip(len as int).len() == 0);
        match parse_rec(chars@, 1) {
            Ok(t) => {
                assert(body_model(out@) + Seq::<InstrV>::empty() =~= body_model(out@));
            },
            Err(_) => {},
        }
    }
    Ok(out)
}

/// Collects the characters of a source text.
fn collect_chars(s: &str) -> (r: Vec<char>)
    ensures
        r@ == s@,
{
    let n = s.unicode_len();
    let mut out: Vec<char> = Vec::new();
    let mut i: usize = 0;
    while i < n
        invariant
            0 <= i <= n,
            n == s@.len(),
            out@ == s@.take(i as int),
        decreases n - i,
    {
        out.push(s.get_char(i));
        proof {
            assert(out@ =~= s@.take(i as int + 1));
        }
        i = i + 1;
    }
    proof {
        assert(s@.take(n as int) =~= s@);
    }
    out
}

/// Parses a source text into its instruction sequence, ending in the
/// appended `Exit` terminator; or reports the first parse error.
pub fn parse_bng(line: &str) -> (r: Result<Vec<Instr>, ParseError>)
    ensures
        parse_result_matches(r, spec_parse(line@)),
{
    let chars = collect_chars(line);
    match parse_core(&chars) {
        Ok(mut v) => {
            let ghost v0 = v@;
            v.push(Instr::Exit);
            proof {
                assert(v@.drop_last() =~= v0);
                assert(v@.last() == Instr::Exit);
                assert(body_model(v@) == body_model(v0).push(instr_model(Instr::Exit)));
            }
            Ok(v)
        },
        Err(e) => Err(e),
    }
}

} // verus!

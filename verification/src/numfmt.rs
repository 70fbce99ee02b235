//! Decimal text for numbers: the canonical rendering used by display and by
//! cross-type equality, and the parse used by the number-parsing instruction.

use vstd::prelude::*;

verus! {

// ---------------------------------------------------------------------------
// Character classes
// ---------------------------------------------------------------------------

pub open spec fn is_digit_ch(c: char) -> bool {
    48 <= (c as u32) && (c as u32) <= 57
}

pub open spec fn digit_val(c: char) -> int {
    (c as u32) - 48
}

/// The whitespace stripped around a numeric literal before parsing.
pub open spec fn is_space_ch(c: char) -> bool {
    c == ' ' || c == '\t' || c == '\n' || c == '\r' || c == '\u{b}' || c == '\u{c}'
}

pub fn digit(c: char) -> (r: bool)
    ensures
        r == is_digit_ch(c),
{
    let u = c as u32;
    48 <= u && u <= 57
}

pub fn space(c: char) -> (r: bool)
    ensures
        r == is_space_ch(c),
{
    c == ' ' || c == '\t' || c == '\n' || c == '\r' || c == '\u{b}' || c == '\u{c}'
}

// ---------------------------------------------------------------------------
// Rendering an integer as decimal text
// ---------------------------------------------------------------------------

pub open spec fn digit_char(d: int) -> char {
    if d == 0 {
        '0'
    } else if d == 1 {
        '1'
    } else if d == 2 {
        '2'
    } else if d == 3 {
        '3'
    } else if d == 4 {
        '4'
    } else if d == 5 {
        '5'
    } else if d == 6 {
        '6'
    } else if d == 7 {
        '7'
    } else if d == 8 {
        '8'
    } else {
        '9'
    }
}

/// Decimal digits of `n`, most significant first, with no leading zeros
/// (a single `'0'` for zero).
pub open spec fn spec_digits(n: nat) -> Seq<char>
    decreases n,
{
    if n < 10 {
        seq![digit_char(n as int)]
    } else {
        spec_digits(n / 10).push(digit_char((n % 10) as int))
    }
}

/// Canonical text of an integer: a minus sign for negatives, then the digits.
pub open spec fn spec_render_int(n: int) -> Seq<char> {
    if n < 0 {
        seq!['-'] + spec_digits((-n) as nat)
    } else {
        spec_digits(n as nat)
    }
}

fn digit_char_of(d: u64) -> (c: char)
    requires
        d < 10,
    ensures
        c == digit_char(d as int),
{
    if d == 0 {
        '0'
    } else if d == 1 {
        '1'
    } else if d == 2 {
        '2'
    } else if d == 3 {
        '3'
    } else if d == 4 {
        '4'
    } else if d == 5 {
        '5'
    } else if d == 6 {
        '6'
    } else if d == 7 {
        '7'
    } else if d == 8 {
        '8'
    } else {
        '9'
    }
}

fn push_digits(v: &mut Vec<char>, m: u64)
    ensures
        final(v)@ == old(v)@ + spec_digits(m as nat),
    decreases m,
{
    if m < 10 {
        v.push(digit_char_of(m));
        assert(v@ =~= old(v)@ + spec_digits(m as nat));
    } else {
        push_digits(v, m / 10);
        v.push(digit_char_of(m % 10));
        assert(v@ =~= old(v)@ + spec_digits(m as nat));
    }
}

/// The canonical decimal text of `n`.
pub fn render_i64(n: i64) -> (r: Vec<char>)
    ensures
        r@ == spec_render_int(n as int),
{
    let mut v: Vec<char> = Vec::new();
    if n < 0 {
        v.push('-');
        let m: u64 = (-(n as i128)) as u64;
        assert(m as int == -(n as int));
        push_digits(&mut v, m);
        assert(v@ =~= seq!['-'] + spec_digits(m as nat));
    } else {
        push_digits(&mut v, n as u64);
    }
    v
}

// ---------------------------------------------------------------------------
// Parsing decimal text back to an integer
// ---------------------------------------------------------------------------

pub open spec fn all_digits(s: Seq<char>) -> bool {
    forall|i: int| 0 <= i < s.len() ==> is_digit_ch(#[trigger] s[i])
}

/// Value of a run of decimal digits, most significant first.
pub open spec fn digits_val(s: Seq<char>) -> int
    decreases s.len(),
{
    if s.len() == 0 {
        0
    } else {
        digits_val(s.drop_last()) * 10 + digit_val(s.last())
    }
}

pub open spec fn trim_front(s: Seq<char>) -> Seq<char>
    decreases s.len(),
{
    if s.len() > 0 && is_space_ch(s[0]) {
        trim_front(s.drop_first())
    } else {
        s
    }
}

pub open spec fn trim_back(s: Seq<char>) -> Seq<char>
    decreases s.len(),
{
    if s.len() > 0 && is_space_ch(s.last()) {
        trim_back(s.drop_last())
    } else {
        s
    }
}

pub open spec fn spec_trim(s: Seq<char>) -> Seq<char> {
    trim_back(trim_front(s))
}

pub open spec fn parse_magnitude(ds: Seq<char>, neg: bool) -> Option<i64> {
    if ds.len() == 0 || !all_digits(ds) {
        None
    } else {
        let v = digits_val(ds);
        let sv = if neg {
            -v
        } else {
            v
        };
        if i64::MIN <= sv <= i64::MAX {
            Some(sv as i64)
        } else {
            None
        }
    }
}

/// What the number-parsing instruction accepts: optional surrounding
/// whitespace, an optional sign, then a non-empty digit run whose signed
/// value fits the number type.
pub open spec fn spec_parse_i64(s: Seq<char>) -> Option<i64> {
    let t = spec_trim(s);
    if t.len() > 0 && (t[0] == '-' || t[0] == '+') {
        parse_magnitude(t.drop_first(), t[0] == '-')
    } else {
        parse_magnitude(t, false)
    }
}

pub proof fn lemma_digits_val_nonneg(s: Seq<char>)
    requires
        all_digits(s),
    ensures
        digits_val(s) >= 0,
    decreases s.len(),
{
    if s.len() > 0 {
        assert(all_digits(s.drop_last())) by {
            assert(forall|i: int|
                0 <= i < s.len() - 1 ==> s.drop_last()[i] == #[trigger] s[i]);
        }
        lemma_digits_val_nonneg(s.drop_last());
    }
}

/// Appending further digits never shrinks the value of a digit run.
pub proof fn lemma_digits_val_prefix(s: Seq<char>, k: int)
    requires
        all_digits(s),
        0 <= k <= s.len(),
    ensures
        digits_val(s.take(k)) <= digits_val(s),
    decreases s.len() - k,
{
    if k < s.len() {
        lemma_digits_val_prefix(s, k + 1);
        let t = s.take(k + 1);
        assert(t.drop_last() =~= s.take(k));
        assert(all_digits(s.take(k))) by {
            assert(forall|i: int|
                0 <= i < k ==> s.take(k)[i] == #[trigger] s[i]);
        }
        lemma_digits_val_nonneg(s.take(k));
        assert(digits_val(t) == digits_val(s.take(k)) * 10 + digit_val(t.last()));
        assert(digits_val(s.take(k)) * 10 >= digits_val(s.take(k)));
        assert(digit_val(t.last()) >= 0);
    } else {
        assert(s.take(k) =~= s);
    }
}

/// Parses trimmed, optionally signed decimal text as an integer.
pub fn parse_chars_i64(s: &Vec<char>) -> (r: Option<i64>)
    ensures
        r == spec_parse_i64(s@),
{
    let len = s.len();
    proof {
        assert(s@.skip(0) =~= s@);
    }
    let mut start: usize = 0;
    while start < len && space(s[start])
        invariant
            0 <= start <= len,
            len == s@.len(),
            trim_front(s@) == trim_front(s@.skip(start as int)),
        decreases len - start,
    {
        proof {
            assert(s@.skip(start as int)[0] == s@[start as int]);
            assert(s@.skip(start as int).drop_first() =~= s@.skip(start as int + 1));
        }
        start = start + 1;
    }
    proof {
        if start < len {
            assert(s@.skip(start as int)[0] == s@[start as int]);
        }
        assert(trim_front(s@.skip(start as int)) == s@.skip(start as int));
        assert(s@.skip(start as int) =~= s@.subrange(start as int, len as int));
    }
    let mut end: usize = len;
    while end > start && space(s[end - 1])
        invariant
            start <= end <= len,
            len == s@.len(),
            trim_front(s@) == s@.skip(start as int),
            trim_back(s@.skip(start as int)) == trim_back(s@.subrange(start as int, end as int)),
        decreases end,
    {
        proof {
            let sub = s@.subrange(start as int, end as int);
            assert(sub.last() == s@[end as int - 1]);
            assert(sub.drop_last() =~= s@.subrange(start as int, end as int - 1));
        }
        end = end - 1;
    }
    let ghost t = s@.subrange(start as int, end as int);
    proof {
        if end > start {
            assert(t.last() == s@[end as int - 1]);
        }
        assert(trim_back(t) == t);
        assert(spec_trim(s@) == t);
    }
    let mut i: usize = start;
    let mut neg: bool = false;
    if end > start && (s[start] == '-' || s[start] == '+') {
        proof {
            assert(t[0] == s@[start as int]);
        }
        neg = s[start] == '-';
        i = start + 1;
    } else {
        proof {
            if end > start {
                assert(t[0] == s@[start as int]);
            }
        }
    }
    let ghost ds = s@.subrange(i as int, end as int);
    proof {
        if i > start {
            assert(t.drop_first() =~= ds);
        } else {
            assert(t =~= ds);
        }
    }
    if i == end {
        assert(ds.len() == 0);
        return None;
    }
    let mut acc: u128 = 0;
    proof {
        assert(ds.take(0).len() == 0);
    }
    let mut k: usize = i;
    while k < end
        invariant
            i <= k <= end,
            i < end,
            end <= s@.len(),
            ds == s@.subrange(i as int, end as int),
            spec_parse_i64(s@) == parse_magnitude(ds, neg),
            all_digits(ds.take(k - i)),
            acc as int == digits_val(ds.take(k - i)),
            acc <= 0x8000_0000_0000_0000u128,
        decreases end - k,
    {
        let c = s[k];
        proof {
            assert(ds[k - i] == s@[k as int]);
        }
        if !digit(c) {
            proof {
                assert(!is_digit_ch(ds[k - i]));
                assert(!all_digits(ds));
            }
            return None;
        }
        let u = c as u32;
        let d = u - 48;
        let next: u128 = acc * 10 + (d as u128);
        proof {
            let m = (k + 1 - i) as int;
            assert(ds.take(m).drop_last() =~= ds.take(k - i));
            assert(ds.take(m).last() == ds[k - i]);
            assert(digit_val(c) == d as int);
            assert(digits_val(ds.take(m)) == digits_val(ds.take(k - i)) * 10 + digit_val(c));
            assert(all_digits(ds.take(m))) by {
                assert(forall|j: int|
                    0 <= j < m - 1 ==> ds.take(m)[j] == #[trigger] ds.take(k - i)[j]);
            }
        }
        if next > 0x8000_0000_0000_0000u128 {
            proof {
                if all_digits(ds) {
                    lemma_digits_val_prefix(ds, k + 1 - i);
                    assert(digits_val(ds) >= next as int);
                }
            }
            return None;
        }
        acc = next;
        k = k + 1;
    }
    proof {
        assert(ds.take(end - i) =~= ds);
        assert(ds.len() > 0);
    }
    if neg {
        let sv: i128 = -(acc as i128);
        assert(i64::MIN <= sv <= i64::MAX);
        Some(sv as i64)
    } else {
        if acc > i64::MAX as u128 {
            return None;
        }
        Some(acc as i64)
    }
}

} // verus!

//! String utilities: equality, lexicographic order, and decimal parsing,
//! all stated over `Seq<char>` views.
use vstd::prelude::*;

use crate::error::Error;

verus! {

/// Character-for-character equality of two string slices.
pub fn str_eq(a: &str, b: &str) -> (r: bool)
    ensures
        r == (a@ == b@),
{
    let n = a.unicode_len();
    if n != b.unicode_len() {
        return false;
    }
    let mut i: usize = 0;
    while i < n
        invariant
            n == a@.len(),
            n == b@.len(),
            i <= n,
            forall|j: int| 0 <= j < i ==> a@[j] == b@[j],
        decreases n - i,
    {
        if a.get_char(i) != b.get_char(i) {
            return false;
        }
        i += 1;
    }
    proof {
        assert(a@ =~= b@);
    }
    true
}

/// Strict lexicographic order on character sequences, by unicode scalar
/// value, as `str`'s own ordering has it.
pub open spec fn lex_lt(a: Seq<char>, b: Seq<char>) -> bool
    decreases a.len(),
{
    if b.len() == 0 {
        false
    } else if a.len() == 0 {
        true
    } else if a[0] != b[0] {
        a[0] < b[0]
    } else {
        lex_lt(a.skip(1), b.skip(1))
    }
}

/// Decides `lex_lt` on string slices.
pub fn str_lt(a: &str, b: &str) -> (r: bool)
    ensures
        r == lex_lt(a@, b@),
    decreases a@.len(),
{
    let an = a.unicode_len();
    let bn = b.unicode_len();
    if bn == 0 {
        false
    } else if an == 0 {
        true
    } else {
        let ca = a.get_char(0);
        let cb = b.get_char(0);
        if ca != cb {
            ca < cb
        } else {
            let ar = a.substring_char(1, an);
            let br = b.substring_char(1, bn);
            proof {
                assert(ar@ =~= a@.skip(1));
                assert(br@ =~= b@.skip(1));
            }
            str_lt(ar, br)
        }
    }
}

/// No sequence is lexicographically below itself.
pub proof fn lemma_lex_lt_irrefl(a: Seq<char>)
    ensures
        !lex_lt(a, a),
    decreases a.len(),
{
    if a.len() > 0 {
        lemma_lex_lt_irrefl(a.skip(1));
    }
}

/// Lexicographic order is transitive.
pub proof fn lemma_lex_lt_trans(a: Seq<char>, b: Seq<char>, c: Seq<char>)
    requires
        lex_lt(a, b),
        lex_lt(b, c),
    ensures
        lex_lt(a, c),
    decreases a.len(),
{
    if a.len() > 0 && b.len() > 0 && c.len() > 0 && a[0] == b[0] && b[0] == c[0] {
        lemma_lex_lt_trans(a.skip(1), b.skip(1), c.skip(1));
    }
}

/// Two sequences that neither orders below the other are equal.
pub proof fn lemma_lex_lt_connected(a: Seq<char>, b: Seq<char>)
    requires
        !lex_lt(a, b),
        !lex_lt(b, a),
    ensures
        a == b,
    decreases a.len(),
{
    if a.len() == 0 && b.len() == 0 {
        assert(a =~= b);
    } else {
        assert(a.len() > 0 && b.len() > 0);
        assert(a[0] == b[0]);
        lemma_lex_lt_connected(a.skip(1), b.skip(1));
        assert(a.skip(1).len() == b.skip(1).len());
        assert(a.len() == b.len());
        assert forall|i: int| 0 <= i < a.len() implies a[i] == b[i] by {
            if i > 0 {
                assert(a[i] == a.skip(1)[i - 1]);
                assert(b[i] == b.skip(1)[i - 1]);
            }
        }
        assert(a =~= b);
    }
}

/// Decimal digit.
pub open spec fn is_digit(c: char) -> bool {
    '0' <= c && c <= '9'
}

/// Every character of the sequence is a decimal digit.
pub open spec fn all_digits(s: Seq<char>) -> bool {
    forall|i: int| 0 <= i < s.len() ==> is_digit(#[trigger] s[i])
}

/// The number a sequence of decimal digits denotes, most significant
/// digit first.
pub open spec fn digits_val(s: Seq<char>) -> int
    decreases s.len(),
{
    if s.len() == 0 {
        0
    } else {
        digits_val(s.drop_last()) * 10 + (s.last() as int - '0' as int)
    }
}

/// The sequences accepted as a `u32` written in decimal: at least one
/// digit, digits only, value in range.
pub open spec fn is_u32_digits(s: Seq<char>) -> bool {
    s.len() >= 1 && all_digits(s) && digits_val(s) <= u32::MAX
}

/// A sequence of digits denotes a non-negative number.
pub proof fn lemma_digits_val_nonneg(s: Seq<char>)
    requires
        all_digits(s),
    ensures
        digits_val(s) >= 0,
    decreases s.len(),
{
    if s.len() > 0 {
        assert(all_digits(s.drop_last()));
        lemma_digits_val_nonneg(s.drop_last());
        assert(is_digit(s[s.len() - 1]));
    }
}

/// A prefix of a digit sequence denotes no more than the whole.
pub proof fn lemma_digits_val_prefix(s: Seq<char>, k: int)
    requires
        all_digits(s),
        0 <= k <= s.len(),
    ensures
        digits_val(s.take(k)) <= digits_val(s),
    decreases s.len(),
{
    if k == s.len() {
        assert(s.take(k) =~= s);
    } else {
        assert(all_digits(s.drop_last()));
        assert(s.take(k) =~= s.drop_last().take(k));
        lemma_digits_val_prefix(s.drop_last(), k);
        lemma_digits_val_nonneg(s.drop_last());
        assert(is_digit(s[s.len() - 1]));
    }
}

/// Parses a decimal `u32`: digits only, no sign, no surrounding space.
/// Returns the denoted value exactly when the text is such a numeral
/// whose value fits; otherwise the text is surfaced as invalid.
pub fn parse_u32(s: &str) -> (r: Result<u32, Error>)
    ensures
        match r {
            Ok(v) => is_u32_digits(s@) && v == digits_val(s@),
            Err(e) => !is_u32_digits(s@) && (e matches Error::InvalidValue(t) && t@ == s@),
        },
{
    let n = s.unicode_len();
    if n == 0 {
        return Err(Error::InvalidValue(s.to_owned()));
    }
    let mut acc: u32 = 0;
    let mut i: usize = 0;
    while i < n
        invariant
            0 < n == s@.len(),
            i <= n,
            forall|j: int| 0 <= j < i ==> is_digit(#[trigger] s@[j]),
            acc == digits_val(s@.take(i as int)),
        decreases n - i,
    {
        let c = s.get_char(i);
        if c < '0' || c > '9' {
            return Err(Error::InvalidValue(s.to_owned()));
        }
        let d: u32 = (c as u32) - 48;
        proof {
            assert(s@.take(i + 1).drop_last() =~= s@.take(i as int));
            assert(s@.take(i + 1).last() == s@[i as int]);
            assert(c as int - '0' as int == d);
        }
        if acc > (u32::MAX - d) / 10 {
            // The value overflows `u32`: if the rest is all digits the
            // whole denotes even more, so the text is invalid either way.
            proof {
                assert(digits_val(s@.take(i + 1)) == acc * 10 + d);
                assert(acc * 10 + d > u32::MAX) by (nonlinear_arith)
                    requires
                        acc > (u32::MAX - d) / 10,
                        d <= 9,
                ;
                if all_digits(s@) {
                    lemma_digits_val_prefix(s@, i + 1);
                }
            }
            return Err(Error::InvalidValue(s.to_owned()));
        }
        proof {
            assert(acc * 10 + d <= u32::MAX) by (nonlinear_arith)
                requires
                    acc <= (u32::MAX - d) / 10,
                    d <= 9,
            ;
        }
        acc = acc * 10 + d;
        i += 1;
    }
    proof {
        assert(s@.take(n as int) =~= s@);
    }
    Ok(acc)
}

/// The sequences accepted as a signed offset: an explicit `+` or `-`
/// sign, then a decimal numeral, the signed value within `i32` range.
pub open spec fn is_signed_digits(s: Seq<char>) -> bool {
    s.len() >= 2 && (s[0] == '+' || s[0] == '-') && all_digits(s.skip(1)) && i32::MIN
        <= signed_val(s) <= i32::MAX
}

/// The signed value an explicitly signed numeral denotes.
pub open spec fn signed_val(s: Seq<char>) -> int {
    if s.len() > 0 && s[0] == '-' {
        -digits_val(s.skip(1))
    } else {
        digits_val(s.skip(1))
    }
}

/// Parses an explicitly signed decimal `i32` (`+12`, `-3`). Succeeds
/// exactly when the text is such a numeral whose value fits `i32`.
pub fn parse_signed(s: &str) -> (r: Result<i32, Error>)
    ensures
        match r {
            Ok(v) => is_signed_digits(s@) && v == signed_val(s@),
            Err(e) => !is_signed_digits(s@) && (e matches Error::InvalidValue(t) && t@ == s@),
        },
{
    let n = s.unicode_len();
    if n < 2 {
        return Err(Error::InvalidValue(s.to_owned()));
    }
    let sign = s.get_char(0);
    if sign != '+' && sign != '-' {
        return Err(Error::InvalidValue(s.to_owned()));
    }
    let body = s.substring_char(1, n);
    proof {
        assert(body@ =~= s@.skip(1));
    }
    let mag = match parse_u32(body) {
        Ok(v) => v,
        Err(_) => {
            proof {
                if is_signed_digits(s@) {
                    // A signed numeral in `i32` range has a magnitude
                    // that fits `u32`, so its body must have parsed.
                    lemma_digits_val_nonneg(s@.skip(1));
                    assert(is_u32_digits(body@));
                }
            }
            return Err(Error::InvalidValue(s.to_owned()));
        },
    };
    if sign == '-' {
        if mag > 2147483648u32 {
            return Err(Error::InvalidValue(s.to_owned()));
        }
        if mag == 2147483648u32 {
            Ok(i32::MIN)
        } else {
            Ok(-(mag as i32))
        }
    } else {
        if mag > 2147483647u32 {
            return Err(Error::InvalidValue(s.to_owned()));
        }
        Ok(mag as i32)
    }
}

/// ASCII whitespace, as attribute files carry it around their digits.
pub open spec fn is_space(c: char) -> bool {
    c == ' ' || c == '\t' || c == '\n' || c == '\r'
}

/// The sequence with its leading whitespace removed.
pub open spec fn trim_front(s: Seq<char>) -> Seq<char>
    decreases s.len(),
{
    if s.len() > 0 && is_space(s[0]) {
        trim_front(s.skip(1))
    } else {
        s
    }
}

/// The sequence with its trailing whitespace removed.
pub open spec fn trim_back(s: Seq<char>) -> Seq<char>
    decreases s.len(),
{
    if s.len() > 0 && is_space(s.last()) {
        trim_back(s.drop_last())
    } else {
        s
    }
}

/// The sequence with whitespace removed from both ends.
pub open spec fn trimmed(s: Seq<char>) -> Seq<char> {
    trim_back(trim_front(s))
}

fn is_space_exec(c: char) -> (r: bool)
    ensures
        r == is_space(c),
{
    c == ' ' || c == '\t' || c == '\n' || c == '\r'
}

fn trim_exec(s: &str) -> (r: &str)
    ensures
        r@ == trimmed(s@),
    decreases s@.len(),
{
    let n = s.unicode_len();
    if n > 0 && is_space_exec(s.get_char(0)) {
        let rest = s.substring_char(1, n);
        proof {
            assert(rest@ =~= s@.skip(1));
        }
        trim_exec(rest)
    } else if n > 0 && is_space_exec(s.get_char(n - 1)) {
        proof {
            assert(trim_front(s@) == s@);
        }
        let rest = s.substring_char(0, n - 1);
        proof {
            assert(rest@ =~= s@.drop_last());
            assert(trim_front(rest@) == rest@);
        }
        let r = trim_exec(rest);
        proof {
            assert(trim_back(s@) == trim_back(s@.drop_last()));
        }
        r
    } else {
        proof {
            assert(trim_front(s@) == s@);
            assert(trim_back(s@) == s@);
        }
        s
    }
}

/// Reads a device attribute's text: the decimal integer it holds,
/// surrounded by optional whitespace. Succeeds exactly when the trimmed
/// text is a decimal `u32`.
pub fn parse_attr_text(s: &str) -> (r: Result<u32, Error>)
    ensures
        match r {
            Ok(v) => is_u32_digits(trimmed(s@)) && v == digits_val(trimmed(s@)),
            Err(e) => !is_u32_digits(trimmed(s@)) && (e matches Error::InvalidValue(t) && t@
                == s@),
        },
{
    match parse_u32(trim_exec(s)) {
        Ok(v) => Ok(v),
        Err(_) => Err(Error::InvalidValue(s.to_owned())),
    }
}

} // verus!

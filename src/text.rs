//! Plain text helpers: white space and decimal numbers.
use vstd::prelude::*;

verus! {

/// Characters with the Unicode `White_Space` property.
pub open spec fn is_white_space(c: char) -> bool {
    ||| c == ' '
    ||| ('\t' <= c && c <= '\r')
    ||| c == '\u{85}'
    ||| c == '\u{A0}'
    ||| c == '\u{1680}'
    ||| ('\u{2000}' <= c && c <= '\u{200A}')
    ||| c == '\u{2028}'
    ||| c == '\u{2029}'
    ||| c == '\u{202F}'
    ||| c == '\u{205F}'
    ||| c == '\u{3000}'
}

/// `s` from position `a` to `b`, where `a` is its first character that is not white space
/// (or its end) and `b` is one past the last such character.
pub open spec fn trim_bounds(s: Seq<char>, a: int, b: int) -> bool {
    &&& 0 <= a <= b <= s.len()
    &&& forall|k: int| 0 <= k < a ==> is_white_space(#[trigger] s[k])
    &&& forall|k: int| b <= k < s.len() ==> is_white_space(#[trigger] s[k])
    &&& a < b ==> !is_white_space(s[a]) && !is_white_space(s[b - 1])
}

/// `s` without the white space at its start and end.
pub open spec fn trimmed(s: Seq<char>) -> Seq<char> {
    let (a, b) = choose|a: int, b: int| #[trigger] trim_bounds(s, a, b);
    s.subrange(a, b)
}

fn is_space_char(c: char) -> (r: bool)
    ensures
        r == is_white_space(c),
{
    c == ' ' || ('\t' <= c && c <= '\r') || c == '\u{85}' || c == '\u{A0}' || c == '\u{1680}' || (
    '\u{2000}' <= c && c <= '\u{200A}') || c == '\u{2028}' || c == '\u{2029}' || c == '\u{202F}'
        || c == '\u{205F}' || c == '\u{3000}'
}

proof fn lemma_trim_bounds_unique(s: Seq<char>, a: int, b: int, a2: int, b2: int)
    requires
        trim_bounds(s, a, b),
        trim_bounds(s, a2, b2),
    ensures
        s.subrange(a, b) == s.subrange(a2, b2),
{
    if a < b && a2 < b2 {
        if a < a2 {
            assert(is_white_space(s[a]));
        }
        if a2 < a {
            assert(is_white_space(s[a2]));
        }
        if b < b2 {
            assert(is_white_space(s[b2 - 1]));
        }
        if b2 < b {
            assert(is_white_space(s[b - 1]));
        }
    } else if a < b {
        assert(is_white_space(s[a])) by {
            if a < a2 {
            } else {
                assert(b2 <= a2);
                assert(a >= b2);
            }
        }
    } else if a2 < b2 {
        assert(is_white_space(s[a2])) by {
            if a2 < a {
            } else {
                assert(a2 >= b);
            }
        }
    } else {
        assert(s.subrange(a, b) =~= s.subrange(a2, b2));
    }
}

/// `s` without the white space at its start and end.
pub fn trim(s: &str) -> (r: String)
    ensures
        r@ == trimmed(s@),
{
    let n = s.unicode_len();
    let mut a: usize = 0;
    while a < n && is_space_char(s.get_char(a))
        invariant
            n == s@.len(),
            a <= n,
            forall|k: int| 0 <= k < a ==> is_white_space(#[trigger] s@[k]),
        decreases n - a,
    {
        a += 1;
    }
    let mut b: usize = n;
    while b > a && is_space_char(s.get_char(b - 1))
        invariant
            n == s@.len(),
            a <= b <= n,
            forall|k: int| b <= k < n ==> is_white_space(#[trigger] s@[k]),
        decreases b,
    {
        b -= 1;
    }
    assert(trim_bounds(s@, a as int, b as int));
    proof {
        let (a2, b2) = choose|a2: int, b2: int| #[trigger] trim_bounds(s@, a2, b2);
        lemma_trim_bounds_unique(s@, a as int, b as int, a2, b2);
    }
    String::from_str(s.substring_char(a, b))
}

/// `s` with each `from` replaced by `to`.
pub open spec fn replaced(s: Seq<char>, from: char, to: Seq<char>) -> Seq<char>
    decreases s.len(),
{
    if s.len() == 0 {
        Seq::empty()
    } else {
        replaced(s.drop_last(), from, to) + if s.last() == from {
            to
        } else {
            seq![s.last()]
        }
    }
}

/// Appends to `out` the text `s` with each `from` replaced by `to`.
pub fn append_replaced(out: &mut String, s: &str, from: char, to: &str)
    ensures
        final(out)@ == old(out)@ + replaced(s@, from, to@),
{
    let ghost start = out@;
    let n = s.unicode_len();
    let mut i: usize = 0;
    assert(s@.subrange(0, 0) =~= Seq::<char>::empty());
    assert(start + replaced(Seq::<char>::empty(), from, to@) =~= start);
    while i < n
        invariant
            n == s@.len(),
            i <= n,
            out@ == start + replaced(s@.subrange(0, i as int), from, to@),
        decreases n - i,
    {
        let ghost pre = s@.subrange(0, i as int + 1);
        assert(pre.drop_last() =~= s@.subrange(0, i as int));
        let c = s.get_char(i);
        if c == from {
            out.append(to);
        } else {
            out.append(s.substring_char(i, i + 1));
            assert(s@.subrange(i as int, i as int + 1) =~= seq![c]);
        }
        assert(out@ =~= start + replaced(pre, from, to@));
        i += 1;
    }
    assert(s@.subrange(0, n as int) =~= s@);
}

/// `s` with each `from` replaced by `to`.
pub fn replace_char(s: &str, from: char, to: &str) -> (r: String)
    ensures
        r@ == replaced(s@, from, to@),
{
    let mut r = String::new();
    append_replaced(&mut r, s, from, to);
    assert(r@ =~= replaced(s@, from, to@));
    r
}

/// The character of decimal digit `d`.
pub open spec fn digit_char(d: nat) -> char {
    seq!['0', '1', '2', '3', '4', '5', '6', '7', '8', '9'][d as int]
}

/// The decimal digits of `v`, most significant first, without leading zeros.
pub open spec fn decimal(v: nat) -> Seq<char>
    decreases v,
{
    if v < 10 {
        seq![digit_char(v)]
    } else {
        decimal(v / 10).push(digit_char(v % 10))
    }
}

/// The decimal form of `n`, with a leading `-` when it is negative.
pub open spec fn signed_decimal(n: int) -> Seq<char> {
    if n < 0 {
        seq!['-'] + decimal((-n) as nat)
    } else {
        decimal(n as nat)
    }
}

/// Appends the decimal digits of `v` to `out`.
pub fn append_decimal(out: &mut String, v: u64)
    ensures
        final(out)@ == old(out)@ + decimal(v as nat),
    decreases v,
{
    if v >= 10 {
        append_decimal(out, v / 10);
    }
    let digits = "0123456789";
    proof {
        reveal_strlit("0123456789");
        assert(digits@ =~= seq!['0', '1', '2', '3', '4', '5', '6', '7', '8', '9']);
    }
    let d = (v % 10) as usize;
    let ghost mid = out@;
    out.append(digits.substring_char(d, d + 1));
    assert(digits@.subrange(d as int, d as int + 1) =~= seq![digit_char(d as nat)]);
    assert(out@ =~= old(out)@ + decimal(v as nat)) by {
        if v >= 10 {
            assert(mid == old(out)@ + decimal((v / 10) as nat));
        } else {
            assert(mid == old(out)@);
        }
    }
}

/// Appends the decimal form of `n` to `out`.
pub fn append_signed_decimal(out: &mut String, n: i64)
    ensures
        final(out)@ == old(out)@ + signed_decimal(n as int),
{
    if n < 0 {
        let minus = "-";
        proof {
            reveal_strlit("-");
        }
        out.append(minus);
        let m: i128 = 0 - (n as i128);
        let ghost mid = out@;
        append_decimal(out, m as u64);
        assert(out@ =~= old(out)@ + signed_decimal(n as int));
    } else {
        append_decimal(out, n as u64);
    }
}

/// The decimal form of `n`.
pub fn decimal_text(n: i64) -> (r: String)
    ensures
        r@ == signed_decimal(n as int),
{
    let mut r = String::new();
    append_signed_decimal(&mut r, n);
    assert(r@ =~= signed_decimal(n as int));
    r
}

} // verus!

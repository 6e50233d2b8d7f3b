//! Framing of the JSON object that a free-text answer carries.
use vstd::prelude::*;
use crate::error::DecodeError;

verus! {

/// `i` is the position of the first `c` in `s`.
pub open spec fn is_first(s: Seq<char>, c: char, i: int) -> bool {
    &&& 0 <= i < s.len()
    &&& s[i] == c
    &&& forall|k: int| 0 <= k < i ==> s[k] != c
}

/// `j` is the position of the last `c` in `s`.
pub open spec fn is_last(s: Seq<char>, c: char, j: int) -> bool {
    &&& 0 <= j < s.len()
    &&& s[j] == c
    &&& forall|k: int| j < k < s.len() ==> s[k] != c
}

/// `s` holds an opening brace with a closing brace at or after it.
pub open spec fn has_braced_span(s: Seq<char>) -> bool {
    exists|i: int, j: int| 0 <= i <= j < s.len() && s[i] == '{' && s[j] == '}'
}

/// `p` is the text from the first `{` of `s` to its last `}`, both included.
pub open spec fn is_payload_of(s: Seq<char>, p: Seq<char>) -> bool {
    exists|i: int, j: int|
        is_first(s, '{', i) && is_last(s, '}', j) && i <= j && p == s.subrange(i, j + 1)
}

/// Cuts from `text` the span from its first `{` to its last `}`, the JSON object that a
/// model's answer embeds in prose.
pub fn extract_json_payload(text: &str) -> (r: Result<String, DecodeError>)
    ensures
        match r {
            Ok(p) => is_payload_of(text@, p@),
            Err(e) => e == DecodeError::NoJsonObject && !has_braced_span(text@),
        },
{
    let n = text.unicode_len();
    let mut i: usize = 0;
    while i < n && text.get_char(i) != '{'
        invariant
            n == text@.len(),
            i <= n,
            forall|k: int| 0 <= k < i ==> text@[k] != '{',
        decreases n - i,
    {
        i += 1;
    }
    if i == n {
        return Err(DecodeError::NoJsonObject);
    }
    let mut j: usize = n;
    while j > i && text.get_char(j - 1) != '}'
        invariant
            n == text@.len(),
            i < n,
            i <= j <= n,
            forall|k: int| j <= k < n ==> text@[k] != '}',
        decreases j,
    {
        j -= 1;
    }
    if j == i {
        assert forall|a: int, b: int|
            0 <= a <= b < text@.len() && text@[a] == '{' implies text@[b] != '}' by {
            assert(a >= i);
        }
        return Err(DecodeError::NoJsonObject);
    }
    let p = String::from_str(text.substring_char(i, j));
    assert(is_first(text@, '{', i as int) && is_last(text@, '}', j - 1));
    Ok(p)
}

} // verus!

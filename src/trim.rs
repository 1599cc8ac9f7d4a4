//! Trimming of a single string and of an optional string.

use trim_in_place::TrimInPlace;
use vstd::prelude::*;

verus! {

/// The characters with the Unicode `White_Space` property, which is what
/// `char::is_whitespace` tests.
pub open spec fn is_whitespace(c: char) -> bool {
    let n = c as u32;
    (0x09 <= n && n <= 0x0d) || n == 0x20 || n == 0x85 || n == 0xa0 || n == 0x1680
        || (0x2000 <= n && n <= 0x200a) || n == 0x2028 || n == 0x2029 || n == 0x202f
        || n == 0x205f || n == 0x3000
}

/// `s` without its leading run of whitespace.
pub open spec fn trim_start(s: Seq<char>) -> Seq<char>
    decreases s.len(),
{
    if s.len() > 0 && is_whitespace(s[0]) {
        trim_start(s.drop_first())
    } else {
        s
    }
}

/// `s` without its trailing run of whitespace.
pub open spec fn trim_end(s: Seq<char>) -> Seq<char>
    decreases s.len(),
{
    if s.len() > 0 && is_whitespace(s.last()) {
        trim_end(s.drop_last())
    } else {
        s
    }
}

/// `s` without leading and trailing whitespace.
pub open spec fn trimmed(s: Seq<char>) -> Seq<char> {
    trim_end(trim_start(s))
}

/// Neither the first nor the last character of `s` is whitespace.
pub open spec fn is_trimmed(s: Seq<char>) -> bool {
    s.len() > 0 ==> !is_whitespace(s[0]) && !is_whitespace(s.last())
}

/// A present string is trimmed, and stays present only if something is left.
pub open spec fn trim_optional(s: Option<Seq<char>>) -> Option<Seq<char>> {
    match s {
        None => None,
        Some(x) => if trimmed(x).len() == 0 {
            None
        } else {
            Some(trimmed(x))
        },
    }
}

/// The characters of an optional string.
pub open spec fn optional_view(s: Option<String>) -> Option<Seq<char>> {
    match s {
        None => None,
        Some(x) => Some(x@),
    }
}

/// Relies on `trim_in_place::TrimInPlace::trim_in_place`, which replaces the
/// string's contents by `str::trim` of them, in its own buffer.
#[verifier::external_body]
fn trim_owned(s: &mut String)
    ensures
        final(s)@ == trimmed(old(s)@),
{
    s.trim_in_place();
}

/// Trims leading and trailing whitespace off a string; an all-blank string
/// becomes empty.
pub fn string_trim(s: String) -> (r: String)
    ensures
        r@ == trimmed(s@),
{
    let mut s = s;
    trim_owned(&mut s);
    s
}

/// Trims a present string, and turns it into `None` where nothing is left.
pub fn option_string_trim(s: Option<String>) -> (r: Option<String>)
    ensures
        optional_view(r) == trim_optional(optional_view(s)),
{
    match s {
        None => None,
        Some(x) => {
            let t = string_trim(x);
            if t.as_str().is_empty() {
                None
            } else {
                Some(t)
            }
        },
    }
}

proof fn lemma_trim_start(s: Seq<char>) -> (i: int)
    ensures
        0 <= i <= s.len(),
        trim_start(s) == s.subrange(i, s.len() as int),
        forall|k: int| 0 <= k < i ==> is_whitespace(s[k]),
        i < s.len() ==> !is_whitespace(s[i]),
    decreases s.len(),
{
    if s.len() > 0 && is_whitespace(s[0]) {
        let j = lemma_trim_start(s.drop_first());
        assert(s.drop_first().subrange(j, s.len() - 1) =~= s.subrange(j + 1, s.len() as int));
        assert forall|k: int| 0 <= k < j + 1 implies is_whitespace(s[k]) by {
            if k > 0 {
                assert(s[k] == s.drop_first()[k - 1]);
            }
        }
        j + 1
    } else {
        assert(s.subrange(0, s.len() as int) =~= s);
        0
    }
}

proof fn lemma_trim_end(s: Seq<char>) -> (j: int)
    ensures
        0 <= j <= s.len(),
        trim_end(s) == s.subrange(0, j),
        forall|k: int| j <= k < s.len() ==> is_whitespace(s[k]),
        j > 0 ==> !is_whitespace(s[j - 1]),
    decreases s.len(),
{
    if s.len() > 0 && is_whitespace(s.last()) {
        let j = lemma_trim_end(s.drop_last());
        assert(s.drop_last().subrange(0, j) =~= s.subrange(0, j));
        assert forall|k: int| j <= k < s.len() implies is_whitespace(s[k]) by {
            if k < s.len() - 1 {
                assert(s[k] == s.drop_last()[k]);
            }
        }
        j
    } else {
        assert(s.subrange(0, s.len() as int) =~= s);
        s.len() as int
    }
}

/// Trimming leaves no whitespace at either end, and takes off nothing but
/// whitespace: the result is the part of `s` between a blank prefix and a
/// blank suffix.
pub proof fn lemma_trimmed_shape(s: Seq<char>)
    ensures
        is_trimmed(trimmed(s)),
        exists|i: int, j: int|
            0 <= i <= j <= s.len() && trimmed(s) == #[trigger] s.subrange(i, j) && (forall|k: int|
                0 <= k < i ==> is_whitespace(s[k])) && (forall|k: int|
                j <= k < s.len() ==> is_whitespace(s[k])),
{
    let i = lemma_trim_start(s);
    let t = trim_start(s);
    let j = lemma_trim_end(t);
    assert(t.subrange(0, j) =~= s.subrange(i, i + j));
    assert forall|k: int| i + j <= k < s.len() implies is_whitespace(s[k]) by {
        assert(s[k] == t[k - i]);
    }
    if j > 0 {
        assert(trimmed(s)[0] == t[0]);
    }
}

/// A string that starts and ends with other characters than whitespace is
/// left as it is.
pub proof fn lemma_trimmed_fixed(s: Seq<char>)
    requires
        is_trimmed(s),
    ensures
        trimmed(s) == s,
{
    assert(trim_start(s) == s);
    assert(trim_end(s) == s);
}

/// Trimming twice is trimming once.
pub proof fn lemma_trimmed_idempotent(s: Seq<char>)
    ensures
        trimmed(trimmed(s)) == trimmed(s),
{
    lemma_trimmed_shape(s);
    lemma_trimmed_fixed(trimmed(s));
}

/// Normalising an optional string twice is normalising it once.
pub proof fn lemma_trim_optional_idempotent(s: Option<Seq<char>>)
    ensures
        trim_optional(trim_optional(s)) == trim_optional(s),
{
    if let Some(x) = s {
        lemma_trimmed_idempotent(x);
    }
}

} // verus!

//! Plain-text operations used by the extraction: trimming, splitting a marker
//! line at its first colon, and case folding.

use vstd::prelude::*;
use vstd::string::{StrSliceExecFns, StringExecFns};

verus! {

/// The lower-case form of a text, as Rust's Unicode case mapping gives it.
pub uninterp spec fn lower_of(s: Seq<char>) -> Seq<char>;

/// Whether a character has the Unicode `White_Space` property, which is what
/// `char::is_whitespace` and `str::trim` go by: these 25 code points.
pub open spec fn white_space(c: char) -> bool {
    let u = c as u32;
    (0x9 <= u <= 0xD) || u == 0x20 || u == 0x85 || u == 0xA0 || u == 0x1680 || (0x2000 <= u
        <= 0x200A) || u == 0x2028 || u == 0x2029 || u == 0x202F || u == 0x205F || u == 0x3000
}

/// Relies on `str::to_lowercase`: the lower-case mapping of every character,
/// which depends on the text alone.
#[verifier::external_body]
pub(crate) fn lowercase(s: &str) -> (r: String)
    ensures
        r@ == lower_of(s@),
        s@.len() == 0 ==> r@.len() == 0,
{
    s.to_lowercase()
}

/// Whether a character has the Unicode `White_Space` property.
fn is_white_space(c: char) -> (r: bool)
    ensures
        r == white_space(c),
{
    let u = c as u32;
    (0x9 <= u && u <= 0xD) || u == 0x20 || u == 0x85 || u == 0xA0 || u == 0x1680 || (0x2000 <= u
        && u <= 0x200A) || u == 0x2028 || u == 0x2029 || u == 0x202F || u == 0x205F || u == 0x3000
}

/// `s` without its leading white space.
pub open spec fn trim_start(s: Seq<char>) -> Seq<char>
    decreases s.len(),
{
    if s.len() > 0 && white_space(s[0]) {
        trim_start(s.drop_first())
    } else {
        s
    }
}

/// `s` without its trailing white space.
pub open spec fn trim_end(s: Seq<char>) -> Seq<char>
    decreases s.len(),
{
    if s.len() > 0 && white_space(s.last()) {
        trim_end(s.drop_last())
    } else {
        s
    }
}

/// `s` without leading and trailing white space.
pub open spec fn trimmed(s: Seq<char>) -> Seq<char> {
    trim_end(trim_start(s))
}

/// `s` without the colons at its end.
pub open spec fn strip_colons(s: Seq<char>) -> Seq<char>
    decreases s.len(),
{
    if s.len() > 0 && s.last() == ':' {
        strip_colons(s.drop_last())
    } else {
        s
    }
}

/// The index of the first colon of `s`, or its length if it has none.
pub open spec fn colon_at(s: Seq<char>) -> nat
    decreases s.len(),
{
    if s.len() == 0 || s[0] == ':' {
        0
    } else {
        1 + colon_at(s.drop_first())
    }
}

/// The text of `s` before its first colon (all of it if there is none).
pub open spec fn before_colon(s: Seq<char>) -> Seq<char> {
    s.take(colon_at(s) as int)
}

/// The text of `s` after its first colon (nothing if there is none).
pub open spec fn after_colon(s: Seq<char>) -> Seq<char> {
    if colon_at(s) < s.len() {
        s.skip(colon_at(s) + 1 as int)
    } else {
        Seq::empty()
    }
}

proof fn lemma_colon_at_found(s: Seq<char>, i: int)
    requires
        0 <= i <= s.len(),
        forall|j: int| 0 <= j < i ==> s[j] != ':',
        i == s.len() || s[i] == ':',
    ensures
        colon_at(s) == i,
    decreases i,
{
    if i > 0 {
        assert forall|j: int| 0 <= j < i - 1 implies s.drop_first()[j] != ':' by {
            assert(s.drop_first()[j] == s[j + 1]);
        }
        lemma_colon_at_found(s.drop_first(), i - 1);
    }
}

/// Removes the leading and trailing white space of `s`.
pub fn trim(s: &str) -> (r: String)
    ensures
        r@ == trimmed(s@),
{
    let n = s.unicode_len();
    let mut i: usize = 0;
    assert(s@.subrange(0, n as int) =~= s@);
    while i < n && is_white_space(s.get_char(i))
        invariant
            n == s@.len(),
            i <= n,
            trim_start(s@) == trim_start(s@.subrange(i as int, n as int)),
        decreases n - i,
    {
        assert(s@.subrange(i as int, n as int).drop_first() =~= s@.subrange(i + 1, n as int));
        i = i + 1;
    }
    assert(trim_start(s@) == s@.subrange(i as int, n as int));
    let mut j: usize = n;
    while j > i && is_white_space(s.get_char(j - 1))
        invariant
            n == s@.len(),
            i <= j <= n,
            trim_end(s@.subrange(i as int, n as int)) == trim_end(s@.subrange(i as int, j as int)),
        decreases j,
    {
        assert(s@.subrange(i as int, j as int).drop_last() =~= s@.subrange(i as int, j - 1));
        j = j - 1;
    }
    String::from_str(s.substring_char(i, j))
}

/// Removes the colons at the end of `s`.
pub fn strip_trailing_colons(s: &str) -> (r: String)
    ensures
        r@ == strip_colons(s@),
{
    let n = s.unicode_len();
    let mut j: usize = n;
    assert(s@.subrange(0, n as int) =~= s@);
    while j > 0 && s.get_char(j - 1) == ':'
        invariant
            n == s@.len(),
            j <= n,
            strip_colons(s@) == strip_colons(s@.subrange(0, j as int)),
        decreases j,
    {
        assert(s@.subrange(0, j as int).drop_last() =~= s@.subrange(0, j - 1));
        j = j - 1;
    }
    String::from_str(s.substring_char(0, j))
}

/// Splits `s` at its first colon into the text before and the text after it.
pub fn split_at_colon(s: &str) -> (r: (String, String))
    ensures
        r.0@ == before_colon(s@),
        r.1@ == after_colon(s@),
{
    let n = s.unicode_len();
    let mut i: usize = 0;
    while i < n && s.get_char(i) != ':'
        invariant
            n == s@.len(),
            i <= n,
            forall|j: int| 0 <= j < i ==> s@[j] != ':',
        decreases n - i,
    {
        i = i + 1;
    }
    proof {
        lemma_colon_at_found(s@, i as int);
    }
    let before = String::from_str(s.substring_char(0, i));
    if i < n {
        (before, String::from_str(s.substring_char(i + 1, n)))
    } else {
        (before, String::new())
    }
}

/// Whether `s` spells the word `w`.
pub fn is_word(s: &str, w: &Vec<char>) -> (r: bool)
    ensures
        r == (s@ == w@),
{
    let n = s.unicode_len();
    if n != w.len() {
        return false;
    }
    let mut i: usize = 0;
    while i < n
        invariant
            n == s@.len(),
            n == w@.len(),
            i <= n,
            forall|j: int| 0 <= j < i ==> s@[j] == w@[j],
        decreases n - i,
    {
        if s.get_char(i) != w[i] {
            return false;
        }
        i = i + 1;
    }
    assert(s@ =~= w@);
    true
}

} // verus!

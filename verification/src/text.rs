//! Text: the pieces of `str` and `String` that messages and keys are made of.

use vstd::prelude::*;
use vstd::string::StringExecFns;
use vstd::utf8::{decode_utf8, valid_utf8};

verus! {

/// `std::string::FromUtf8Error`, the error of `String::from_utf8`.
#[verifier::external_type_specification]
#[verifier::external_body]
pub struct ExFromUtf8Error(std::string::FromUtf8Error);

/// What the debug form of a string shows: the text in double quotes, escaped.
pub uninterp spec fn quoted(s: Seq<char>) -> Seq<char>;

/// What `str::to_uppercase` returns.
pub uninterp spec fn uppercased(s: Seq<char>) -> Seq<char>;

/// The error of `String::from_utf8` on bytes that are not UTF-8.
pub uninterp spec fn utf8_error(bytes: Seq<u8>) -> std::string::FromUtf8Error;

/// What a `FromUtf8Error` displays.
pub uninterp spec fn utf8_error_message(e: std::string::FromUtf8Error) -> Seq<char>;

/// The debug form of a `str`, as `format!` writes it for `{:?}`. The contract gives the text a
/// name and says nothing of how characters are escaped.
#[verifier::external_body]
pub(crate) fn debug_text(s: &str) -> (r: String)
    ensures
        r@ == quoted(s@),
{
    format!("{:?}", s)
}

/// An ASCII letter in upper case; another character as it is.
pub open spec fn ascii_upper(c: char) -> char {
    if 'a' <= c <= 'z' {
        (c as u8 - 32) as char
    } else {
        c
    }
}

/// A text with its ASCII letters in upper case.
pub open spec fn ascii_raised(s: Seq<char>) -> Seq<char> {
    Seq::new(s.len(), |i: int| ascii_upper(s[i]))
}

/// A text of ASCII characters only.
pub open spec fn ascii_only(s: Seq<char>) -> bool {
    forall|i: int| 0 <= i < s.len() ==> (#[trigger] s[i]) <= '\x7f'
}

/// `str::to_uppercase`. The contract gives the upper-cased text a name, and says that in ASCII
/// text the letters, and nothing else, are raised.
#[verifier::external_body]
pub(crate) fn to_upper(s: &str) -> (r: String)
    ensures
        r@ == uppercased(s@),
        ascii_only(s@) ==> r@ == ascii_raised(s@),
{
    s.to_uppercase()
}

/// `String::from_utf8`: the bytes as text where they are valid UTF-8, and an error where they
/// are not. The contract names the error.
#[verifier::external_body]
pub(crate) fn text_from_bytes(bytes: Vec<u8>) -> (r: Result<String, std::string::FromUtf8Error>)
    ensures
        r is Ok <==> valid_utf8(bytes@),
        r matches Ok(s) ==> s@ == decode_utf8(bytes@),
        r matches Err(e) ==> e == utf8_error(bytes@),
{
    String::from_utf8(bytes)
}

/// The display form of a `FromUtf8Error`, by `ToString::to_string`. The contract names the text.
#[verifier::external_body]
pub(crate) fn utf8_error_text(e: &std::string::FromUtf8Error) -> (r: String)
    ensures
        r@ == utf8_error_message(*e),
{
    e.to_string()
}

/// The decimal notation of `n`, without leading zeros.
pub open spec fn decimal(n: nat) -> Seq<char>
    decreases n,
{
    let last = (48 + n % 10) as u8 as char;
    if n < 10 {
        seq![last]
    } else {
        decimal(n / 10).push(last)
    }
}

/// The decimal notation of a number.
pub(crate) fn decimal_text(n: u64) -> (r: String)
    ensures
        r@ == decimal(n as nat),
    decreases n,
{
    let digit: u8 = 48 + (n % 10) as u8;
    let mut r = if n < 10 {
        String::new()
    } else {
        decimal_text(n / 10)
    };
    push_char(&mut r, digit as char);
    r
}

/// `String::push`: one character more at the end.
#[verifier::external_body]
pub(crate) fn push_char(s: &mut String, c: char)
    ensures
        final(s)@ == old(s)@.push(c),
{
    s.push(c)
}

/// The characters of an optional text.
pub open spec fn opt_view(s: Option<String>) -> Option<Seq<char>> {
    match s {
        None => None,
        Some(text) => Some(text@),
    }
}

/// The characters of a text.
pub(crate) fn chars_of(s: &str) -> (r: Vec<char>)
    ensures
        r@ == s@,
{
    let mut r: Vec<char> = Vec::new();
    for c in it: s.chars()
        invariant
            it.seq() == s@,
            r@ == it.seq().take(it.index()),
    {
        r.push(c);
    }
    r
}

/// Tells whether two texts have the same characters.
pub(crate) fn same_text(a: &str, b: &str) -> (r: bool)
    ensures
        r == (a@ == b@),
{
    let a = a.to_owned();
    let b = b.to_owned();
    a == b
}

/// A copy of an optional text.
pub(crate) fn opt_clone(s: &Option<String>) -> (r: Option<String>)
    ensures
        opt_view(r) == opt_view(*s),
{
    match s {
        None => None,
        Some(text) => Some(text.clone()),
    }
}

/// `a` followed by `b`.
pub(crate) fn joined(a: &str, b: &str) -> (r: String)
    ensures
        r@ == a@ + b@,
{
    let mut r = a.to_owned();
    r.append(b);
    r
}

/// The number that a text of digits stands for.
pub open spec fn digits_value(s: Seq<char>) -> int
    decreases s.len(),
{
    if s.len() == 0 {
        0
    } else {
        10 * digits_value(s.drop_last()) + (s.last() as u32 - '0' as u32)
    }
}

/// The decimal notation of a number holds digits only, begins with no zero but that of 0 itself,
/// and reads back as the number.
pub proof fn law_decimal_reads_back(n: nat)
    ensures
        decimal(n).len() > 0,
        forall|i: int| 0 <= i < decimal(n).len() ==> '0' <= #[trigger] decimal(n)[i] <= '9',
        n > 0 ==> decimal(n)[0] != '0',
        digits_value(decimal(n)) == n,
    decreases n,
{
    let last = (48 + n % 10) as u8 as char;
    assert('0' <= last <= '9');
    assert(last as u32 - '0' as u32 == n % 10);
    if n >= 10 {
        law_decimal_reads_back(n / 10);
        assert(decimal(n).drop_last() == decimal(n / 10));
    } else {
        assert(seq![last].drop_last().len() == 0);
        assert(digits_value(seq![last].drop_last()) == 0);
    }
}

/// Raising ASCII text changes its small letters, each to its capital, and nothing else.
pub proof fn law_only_small_letters_are_raised(s: Seq<char>, i: int)
    requires
        0 <= i < s.len(),
    ensures
        ascii_raised(s).len() == s.len(),
        'a' <= s[i] <= 'z' ==> ascii_raised(s)[i] as u32 == s[i] as u32 - 32,
        !('a' <= s[i] <= 'z') ==> ascii_raised(s)[i] == s[i],
{
}

} // verus!

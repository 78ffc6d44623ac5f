//! The referrer of a server function call, freed of the error that an
//! earlier call of the same function left in its query.

use vstd::prelude::*;
use vstd::string::*;

verus! {

/// The error that `Url::parse` of `url` returns.
#[verifier::external_type_specification]
#[verifier::external_body]
pub struct ExParseError(url::ParseError);

/// What becomes of `haystack` when the leftmost match of the regular
/// expression `pattern` in it is replaced by `replacement`; `None` where
/// `pattern` does not compile.
pub uninterp spec fn regex_replaced(pattern: Seq<char>, haystack: Seq<char>, replacement: Seq<char>) -> Option<
    Seq<char>,
>;

/// The serialization of the absolute URL that `input` parses to; `None`
/// where it does not parse to one.
pub uninterp spec fn url_normalized(input: Seq<char>) -> Option<Seq<char>>;

/// `Regex::new` and `Regex::replace` of `regex`: compiles `pattern` and
/// replaces its leftmost match in `haystack` by `replacement`. The result is
/// `None` exactly where `pattern` is refused; otherwise it is the text that
/// `replace` returns, the haystack itself where nothing matches.
#[verifier::external_body]
fn replace_first(pattern: &str, haystack: &str, replacement: &str) -> (res: Option<String>)
    ensures
        match res {
            Some(text) => regex_replaced(pattern@, haystack@, replacement@) == Some(text@),
            None => regex_replaced(pattern@, haystack@, replacement@).is_none(),
        },
{
    match regex::Regex::new(pattern) {
        Ok(re) => Some(re.replace(haystack, replacement).into_owned()),
        Err(_) => None,
    }
}

/// `Url::parse` of `url`: parses `input` as an absolute URL and returns its
/// serialization, or the error with which the parser refused it.
#[verifier::external_body]
fn parse_url(input: &str) -> (res: Result<String, url::ParseError>)
    ensures
        match res {
            Ok(text) => url_normalized(input@) == Some(text@),
            Err(_) => url_normalized(input@).is_none(),
        },
{
    match url::Url::parse(input) {
        Ok(parsed) => Ok(String::from(parsed)),
        Err(e) => Err(e),
    }
}

/// The name of the query parameter that carries the error of the server
/// function `fn_name`.
pub open spec fn error_key(fn_name: Seq<char>) -> Seq<char> {
    "server_fn_error_"@ + fn_name
}

/// The regular expression for that parameter in a query, with the `?` or
/// `&` before it, if there is one, and its value.
pub open spec fn error_pattern(fn_name: Seq<char>) -> Seq<char> {
    "(?:\\?|&)?"@ + error_key(fn_name) + "=[^&]+"@
}

/// The referrer without the first such parameter, as a URL; `None` where
/// the expression does not compile or what is left is no absolute URL.
pub open spec fn referrer_url(referer: Seq<char>, fn_name: Seq<char>) -> Option<Seq<char>> {
    match regex_replaced(error_pattern(fn_name), referer, ""@) {
        Some(stripped) => url_normalized(stripped),
        None => None,
    }
}

/// Why a referrer could not be turned into a URL.
#[derive(Clone, Copy, Debug, PartialEq, Eq, Structural)]
pub enum ReferrerError {
    /// With this function name the regular expression does not compile.
    BadPattern,
    /// What is left of the referrer is not an absolute URL.
    BadUrl,
}

/// The name of the query parameter that carries the error of the server
/// function `fn_name`.
pub fn server_fn_error_key(fn_name: &str) -> (key: String)
    ensures
        key@ == error_key(fn_name@),
{
    String::from_str("server_fn_error_").concat(fn_name)
}

/// The regular expression that finds that parameter in a query.
pub fn server_fn_error_pattern(fn_name: &str) -> (pattern: String)
    ensures
        pattern@ == error_pattern(fn_name@),
{
    let key = server_fn_error_key(fn_name);
    String::from_str("(?:\\?|&)?").concat(key.as_str()).concat("=[^&]+")
}

/// The URL of `referer` without the error that a call of the server
/// function `fn_name` left in its query.
pub fn referrer_to_url(referer: &str, fn_name: &str) -> (url: String)
    requires
        referrer_url(referer@, fn_name@).is_some(),
    ensures
        Some(url@) == referrer_url(referer@, fn_name@),
{
    let pattern = server_fn_error_pattern(fn_name);
    let stripped = replace_first(pattern.as_str(), referer, "").unwrap();
    match parse_url(stripped.as_str()) {
        Ok(url) => url,
        Err(_) => unreached(),
    }
}

/// As [`referrer_to_url`], for any referrer and any function name: the
/// error says what stood in the way.
pub fn try_referrer_to_url(referer: &str, fn_name: &str) -> (res: Result<String, ReferrerError>)
    ensures
        match res {
            Ok(url) => Some(url@) == referrer_url(referer@, fn_name@),
            Err(ReferrerError::BadPattern) => regex_replaced(error_pattern(fn_name@), referer@, ""@).is_none(),
            Err(ReferrerError::BadUrl) => regex_replaced(error_pattern(fn_name@), referer@, ""@) matches Some(
                stripped,
            ) && url_normalized(stripped).is_none(),
        },
{
    let pattern = server_fn_error_pattern(fn_name);
    match replace_first(pattern.as_str(), referer, "") {
        Some(stripped) => match parse_url(stripped.as_str()) {
            Ok(_) => Ok(referrer_to_url(referer, fn_name)),
            Err(_) => Err(ReferrerError::BadUrl),
        },
        None => Err(ReferrerError::BadPattern),
    }
}

} // verus!

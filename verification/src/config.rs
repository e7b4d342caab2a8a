//! Per-post configuration: the fields every post has, the ones passed
//! through, and the validation of the date's shape.
use vstd::prelude::*;
use crate::json::JsonValue;

verus! {

/// `regex::Error`, the error of a pattern that does not compile.
#[verifier::external_type_specification]
#[verifier::external_body]
pub struct ExRegexError(regex::Error);

/// Whether the Rust regular expression `pattern` matches somewhere in `haystack`.
pub uninterp spec fn regex_matches(pattern: Seq<char>, haystack: Seq<char>) -> bool;

/// The shape a post's date must have.
pub open spec fn date_pattern() -> Seq<char> {
    "^\\d{4}-\\d{2}-\\d{2}$"@
}

pub open spec fn is_ascii_digit(c: char) -> bool {
    '0' <= c && c <= '9'
}

/// `YYYY-MM-DD` written with ASCII digits.
pub open spec fn ascii_date_shape(s: Seq<char>) -> bool {
    &&& s.len() == 10
    &&& s[4] == '-'
    &&& s[7] == '-'
    &&& forall|i: int| 0 <= i < 10 && i != 4 && i != 7 ==> is_ascii_digit(#[trigger] s[i])
}

/// Compiles `pattern` with `regex::Regex::new` and asks `Regex::is_match`
/// whether it matches `haystack`; a pattern that does not compile gives the
/// compile error. Beyond naming the answer, the contract states what the
/// regex crate documents of the date pattern: it compiles; `\d` is the
/// Unicode decimal-digit class, one character wide and without `-`, so a
/// match has ten characters with dashes at 4 and 7, and every ASCII
/// `YYYY-MM-DD` matches.
#[verifier::external_body]
fn regex_is_match(pattern: &str, haystack: &str) -> (r: Result<bool, regex::Error>)
    ensures
        r matches Ok(b) ==> b == regex_matches(pattern@, haystack@),
        pattern@ == date_pattern() ==> r is Ok,
        pattern@ == date_pattern() && (r matches Ok(true)) ==> haystack@.len() == 10 && haystack@[4]
            == '-' && haystack@[7] == '-',
        pattern@ == date_pattern() && ascii_date_shape(haystack@) ==> (r matches Ok(true)),
{
    match regex::Regex::new(pattern) {
        Ok(re) => Ok(re.is_match(haystack)),
        Err(e) => Err(e),
    }
}

/// A post's configuration: the three required fields and every other field,
/// passed through unchanged.
pub struct PostConfig {
    pub slug: String,
    pub title: String,
    pub date: String,
    pub extra: Vec<(String, JsonValue)>,
}

/// Why a post's configuration was refused. Paths and errors are held as their text.
#[derive(Debug)]
pub enum PostConfigError {
    ReadFailed(String, String),
    ParseFailed(String, String),
    InvalidDate(String),
}

/// The text a `PostConfigError` is shown as.
pub open spec fn config_error_text(e: PostConfigError) -> Seq<char> {
    match e {
        PostConfigError::ReadFailed(path, err) => "failed to read config file "@ + path@ + ": "@ + err@,
        PostConfigError::ParseFailed(path, err) => "failed to parse config file "@ + path@ + ": "@ + err@,
        PostConfigError::InvalidDate(date) => "date must be YYYY-MM-DD format, got: "@ + date@,
    }
}

impl PostConfigError {
    /// The error as text, for people.
    pub fn message(&self) -> (r: String)
        ensures
            r@ == config_error_text(*self),
    {
        match self {
            PostConfigError::ReadFailed(path, err) => {
                let mut r = String::from_str("failed to read config file ");
                r.append(path.as_str());
                r.append(": ");
                r.append(err.as_str());
                r
            },
            PostConfigError::ParseFailed(path, err) => {
                let mut r = String::from_str("failed to parse config file ");
                r.append(path.as_str());
                r.append(": ");
                r.append(err.as_str());
                r
            },
            PostConfigError::InvalidDate(date) => {
                let mut r = String::from_str("date must be YYYY-MM-DD format, got: ");
                r.append(date.as_str());
                r
            },
        }
    }
}

/// What the date check concludes from whether the date pattern matched.
pub fn date_verdict(date: &String, matched: bool) -> (r: Result<(), PostConfigError>)
    ensures
        matched ==> r is Ok,
        !matched ==> (r matches Err(PostConfigError::InvalidDate(d)) && d@ == date@),
{
    if matched {
        Ok(())
    } else {
        Err(PostConfigError::InvalidDate(date.clone()))
    }
}

impl PostConfig {
    /// Checks what the JSON parser cannot: the date has the shape
    /// `^\d{4}-\d{2}-\d{2}$`; otherwise `InvalidDate` with the date.
    pub fn validate(&self) -> (r: Result<(), PostConfigError>)
        ensures
            r is Ok <==> regex_matches(date_pattern(), self.date@),
            r matches Err(e) ==> (e matches PostConfigError::InvalidDate(d) && d@ == self.date@),
            ascii_date_shape(self.date@) ==> r is Ok,
            r is Ok ==> self.date@.len() == 10 && self.date@[4] == '-' && self.date@[7] == '-',
    {
        match regex_is_match("^\\d{4}-\\d{2}-\\d{2}$", self.date.as_str()) {
            Ok(matched) => date_verdict(&self.date, matched),
            Err(_) => {
                proof {
                    assert(false);
                }
                Err(PostConfigError::InvalidDate(self.date.clone()))
            },
        }
    }
}

} // verus!

//! Regular expressions, matched by the `regex` crate.
//!
//! A compiled expression is kept together with its source text, which is its view. Nothing
//! but the compilation in this module makes one, so the two always belong together.
use vstd::prelude::*;

verus! {

/// A compiled expression over text.
#[verifier::external_type_specification]
#[verifier::external_body]
pub struct ExRegex(regex::Regex);

/// A compiled expression over bytes.
#[verifier::external_type_specification]
#[verifier::external_body]
pub struct ExBytesRegex(regex::bytes::Regex);

/// Whether `regex::Regex::new` accepts an expression.
pub uninterp spec fn regex_compiles(source: Seq<char>) -> bool;

/// What `regex::Regex::captures` finds: the text of each group of the first match, the
/// whole match first.
pub uninterp spec fn regex_captures(source: Seq<char>, text: Seq<char>) -> Option<
    Seq<Option<Seq<char>>>,
>;

/// What `regex::Regex::is_match` answers.
pub uninterp spec fn regex_is_match(source: Seq<char>, text: Seq<char>) -> bool;

/// Whether `regex::bytes::Regex::new` accepts an expression.
pub uninterp spec fn bytes_regex_compiles(source: Seq<char>) -> bool;

/// What `regex::bytes::Regex::captures` finds: the bytes of each group of the first match,
/// the whole match first.
pub uninterp spec fn bytes_regex_captures(source: Seq<char>, bytes: Seq<u8>) -> Option<
    Seq<Option<Seq<u8>>>,
>;

/// What `regex::bytes::Regex::captures_iter` yields: the groups of each match in turn.
pub uninterp spec fn bytes_regex_captures_all(source: Seq<char>, bytes: Seq<u8>) -> Seq<
    Seq<Option<Seq<u8>>>,
>;

/// An expression over text.
pub struct Pattern {
    source: String,
    compiled: regex::Regex,
}

/// An expression over bytes.
pub struct BytesPattern {
    source: String,
    compiled: regex::bytes::Regex,
}

impl View for Pattern {
    type V = Seq<char>;

    closed spec fn view(&self) -> Seq<char> {
        self.source@
    }
}

impl View for BytesPattern {
    type V = Seq<char>;

    closed spec fn view(&self) -> Seq<char> {
        self.source@
    }
}

/// Calls `regex::Regex::new` and keeps the source beside what it returns. Whether it
/// accepts the source is named, not described.
#[verifier::external_body]
fn compile(source: &str) -> (r: Option<Pattern>)
    ensures
        r is Some == regex_compiles(source@),
        r matches Some(p) ==> p@ == source@,
{
    match regex::Regex::new(source) {
        Ok(compiled) => Some(Pattern { source: source.to_string(), compiled }),
        Err(_) => None,
    }
}

/// Calls `regex::Regex::captures` and copies the text of each group. What it finds is
/// named, not described.
#[verifier::external_body]
fn captured(p: &Pattern, text: &str) -> (r: Option<Vec<Option<String>>>)
    ensures
        r.deep_view() == regex_captures(p@, text@),
{
    p.compiled.captures(text).map(
        |c| c.iter().map(|m| m.map(|m| m.as_str().to_string())).collect(),
    )
}

/// Calls `regex::Regex::is_match`. What it answers is named, not described.
#[verifier::external_body]
fn matched(p: &Pattern, text: &str) -> (r: bool)
    ensures
        r == regex_is_match(p@, text@),
{
    p.compiled.is_match(text)
}

/// Calls `regex::bytes::Regex::new` and keeps the source beside what it returns. Whether it
/// accepts the source is named, not described.
#[verifier::external_body]
fn compile_bytes(source: &str) -> (r: Option<BytesPattern>)
    ensures
        r is Some == bytes_regex_compiles(source@),
        r matches Some(p) ==> p@ == source@,
{
    match regex::bytes::Regex::new(source) {
        Ok(compiled) => Some(BytesPattern { source: source.to_string(), compiled }),
        Err(_) => None,
    }
}

/// Calls `regex::bytes::Regex::captures` and copies the bytes of each group. What it finds
/// is named, not described.
#[verifier::external_body]
fn captured_bytes(p: &BytesPattern, bytes: &[u8]) -> (r: Option<Vec<Option<Vec<u8>>>>)
    ensures
        r.deep_view() == bytes_regex_captures(p@, bytes@),
{
    p.compiled.captures(bytes).map(
        |c| c.iter().map(|m| m.map(|m| m.as_bytes().to_vec())).collect(),
    )
}

/// Calls `regex::bytes::Regex::captures_iter` and copies the bytes of each group of each
/// match. What it yields is named, not described.
#[verifier::external_body]
fn captured_all(p: &BytesPattern, bytes: &[u8]) -> (r: Vec<Vec<Option<Vec<u8>>>>)
    ensures
        r.deep_view() == bytes_regex_captures_all(p@, bytes@),
{
    p.compiled.captures_iter(bytes).map(
        |c| c.iter().map(|m| m.map(|m| m.as_bytes().to_vec())).collect(),
    ).collect()
}

impl Pattern {
    /// Compiles an expression.
    pub fn new(source: &str) -> (r: Option<Pattern>)
        ensures
            r is Some == regex_compiles(source@),
            r matches Some(p) ==> p@ == source@,
    {
        compile(source)
    }

    /// The groups of the first match.
    pub fn captures(&self, text: &str) -> (r: Option<Vec<Option<String>>>)
        ensures
            r.deep_view() == regex_captures(self@, text@),
    {
        captured(self, text)
    }

    /// Whether there is a match.
    pub fn is_match(&self, text: &str) -> (r: bool)
        ensures
            r == regex_is_match(self@, text@),
    {
        matched(self, text)
    }
}

impl BytesPattern {
    /// Compiles an expression.
    pub fn new(source: &str) -> (r: Option<BytesPattern>)
        ensures
            r is Some == bytes_regex_compiles(source@),
            r matches Some(p) ==> p@ == source@,
    {
        compile_bytes(source)
    }

    /// The groups of the first match.
    pub fn captures(&self, bytes: &[u8]) -> (r: Option<Vec<Option<Vec<u8>>>>)
        ensures
            r.deep_view() == bytes_regex_captures(self@, bytes@),
    {
        captured_bytes(self, bytes)
    }

    /// The groups of every match in turn.
    pub fn captures_all(&self, bytes: &[u8]) -> (r: Vec<Vec<Option<Vec<u8>>>>)
        ensures
            r.deep_view() == bytes_regex_captures_all(self@, bytes@),
    {
        captured_all(self, bytes)
    }
}

} // verus!

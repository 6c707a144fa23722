//! Regular expressions and path globs, compiled by the `regex` and
//! `globset` crates.
use vstd::prelude::*;
use vstd::string::StringSliceAdditionalSpecFns;

verus! {

#[verifier::external_type_specification]
#[verifier::external_body]
pub struct ExRegex(regex::Regex);

#[verifier::external_type_specification]
#[verifier::external_body]
pub struct ExGlobMatcher(globset::GlobMatcher);

/// Whether the regular expression `pattern` matches somewhere in `text`.
pub uninterp spec fn regex_accepts(pattern: Seq<char>, text: Seq<char>) -> bool;

/// Whether `pattern` compiles with the default limits.
pub uninterp spec fn regex_valid(pattern: Seq<char>) -> bool;

/// Whether `pattern` compiles within a compiled-size limit of `limit` bytes.
pub uninterp spec fn regex_valid_within(pattern: Seq<char>, limit: nat) -> bool;

/// A character with a meaning of its own in a regular expression.
pub open spec fn is_meta(c: char) -> bool {
    c == '\\' || c == '.' || c == '+' || c == '*' || c == '?' || c == '(' || c == ')' || c == '|'
        || c == '[' || c == ']' || c == '{' || c == '}' || c == '^' || c == '$' || c == '#' || c
        == '&' || c == '-' || c == '~'
}

/// The pattern that matches `s` literally: each meta character with a
/// backslash before it.
pub open spec fn regex_literal(s: Seq<char>) -> Seq<char>
    decreases s.len(),
{
    if s.len() == 0 {
        seq![]
    } else {
        regex_literal(s.drop_last()) + if is_meta(s.last()) {
            seq!['\\', s.last()]
        } else {
            seq![s.last()]
        }
    }
}

/// Whether `s` occurs in `t`.
pub open spec fn occurs(t: Seq<char>, s: Seq<char>) -> bool {
    exists|i: int| 0 <= i && i + s.len() <= t.len() && #[trigger] t.subrange(i, i + s.len()) == s
}

/// Whether the glob `pattern` is well formed.
pub uninterp spec fn glob_valid(pattern: Seq<char>) -> bool;

/// Whether the glob `pattern` matches the whole of `path`.
pub uninterp spec fn glob_accepts(pattern: Seq<char>, path: Seq<char>) -> bool;

/// `regex::Regex::new`: a regex for `pattern`, or `None` when it does not
/// compile. Which patterns compile stays named, not stated.
#[verifier::external_body]
fn regex_new(pattern: &str) -> (res: Option<regex::Regex>)
    ensures
        res is Some == regex_valid(pattern@),
{
    regex::Regex::new(pattern).ok()
}

/// `regex::RegexBuilder::new(pattern).size_limit(limit).build()`: a regex
/// for `pattern`, or `None` when it does not compile within the limit.
#[verifier::external_body]
fn regex_build(pattern: &str, limit: usize) -> (res: Option<regex::Regex>)
    ensures
        res is Some == regex_valid_within(pattern@, limit as nat),
{
    regex::RegexBuilder::new(pattern).size_limit(limit).build().ok()
}

/// `regex::escape`: the crate's source puts a backslash before each of its
/// meta characters, and its documentation says the result may be used as
/// a literal in a regular expression, so the pattern matches exactly the
/// texts in which `s` occurs.
#[verifier::external_body]
fn regex_escape(s: &str) -> (res: String)
    ensures
        res@ == regex_literal(s@),
        forall|t: Seq<char>| #[trigger] regex_accepts(res@, t) == occurs(t, s@),
{
    regex::escape(s)
}

/// A compiled regular expression with the pattern it was compiled from.
pub struct Matcher {
    re: regex::Regex,
    pattern: Ghost<Seq<char>>,
}

impl Matcher {
    /// The pattern this matcher was compiled from.
    pub closed spec fn pattern(&self) -> Seq<char> {
        self.pattern@
    }

    /// Compiles `pattern` with the default limits.
    pub fn regex(pattern: &str) -> (res: Option<Matcher>)
        ensures
            res is Some == regex_valid(pattern@),
            res matches Some(m) ==> m.pattern() == pattern@,
    {
        match regex_new(pattern) {
            Some(re) => Some(Matcher { re, pattern: Ghost(pattern@) }),
            None => None,
        }
    }

    /// Compiles `pattern` within a compiled-size limit of `limit` bytes.
    pub fn limited(pattern: &str, limit: usize) -> (res: Option<Matcher>)
        ensures
            res is Some == regex_valid_within(pattern@, limit as nat),
            res matches Some(m) ==> m.pattern() == pattern@,
    {
        match regex_build(pattern, limit) {
            Some(re) => Some(Matcher { re, pattern: Ghost(pattern@) }),
            None => None,
        }
    }

    /// Whether the pattern matches somewhere in `text`.
    pub fn is_match(&self, text: &str) -> (res: bool)
        ensures
            res == regex_accepts(self.pattern(), text@),
    {
        regex_is_match(self, text)
    }
}

/// `regex::Regex::is_match` on the regex a matcher holds, which was
/// compiled from the matcher's pattern: whether it matches somewhere in
/// `text`. Which texts match stays named, not stated.
#[verifier::external_body]
fn regex_is_match(m: &Matcher, text: &str) -> (res: bool)
    ensures
        res == regex_accepts(m.pattern(), text@),
{
    m.re.is_match(text)
}

/// The longest pattern or glob a client may give.
pub const PATTERN_LIMIT: usize = 4096;

/// The compiled-size limit of a search pattern.
pub const REGEX_SIZE_LIMIT: usize = 2097152;

/// The pattern a search compiles: the client's pattern as a regular
/// expression, or the pattern that matches it literally.
pub open spec fn search_pattern(pattern: Seq<char>, is_regex: bool) -> Seq<char> {
    if is_regex {
        pattern
    } else {
        regex_literal(pattern)
    }
}

/// Compiles a search pattern: a regular expression, or literal text.
pub fn matcher(pattern: &str, is_regex: bool) -> (res: Result<Matcher, crate::error::Error>)
    ensures
        pattern.spec_bytes().len() > PATTERN_LIMIT ==> res == Err::<Matcher, crate::error::Error>(
            crate::error::Error::PatternTooLong,
        ),
        pattern.spec_bytes().len() <= PATTERN_LIMIT ==> match res {
            Ok(m) => m.pattern() == search_pattern(pattern@, is_regex) && regex_valid_within(
                search_pattern(pattern@, is_regex),
                REGEX_SIZE_LIMIT as nat,
            ) && (!is_regex ==> forall|t: Seq<char>| #[trigger] regex_accepts(m.pattern(), t) == occurs(t, pattern@)),
            Err(e) => e == crate::error::Error::InvalidPattern && !regex_valid_within(
                search_pattern(pattern@, is_regex),
                REGEX_SIZE_LIMIT as nat,
            ),
        },
{
    if pattern.as_bytes().len() > PATTERN_LIMIT {
        return Err(crate::error::Error::PatternTooLong);
    }
    let m = if is_regex {
        Matcher::limited(pattern, REGEX_SIZE_LIMIT)
    } else {
        let escaped = regex_escape(pattern);
        Matcher::limited(escaped.as_str(), REGEX_SIZE_LIMIT)
    };
    match m {
        Some(m) => Ok(m),
        None => Err(crate::error::Error::InvalidPattern),
    }
}

/// A compiled path glob with the pattern it was compiled from.
pub struct PathGlob {
    m: globset::GlobMatcher,
    pattern: Ghost<Seq<char>>,
}

/// `globset::Glob::new(pattern)` followed by `compile_matcher`: a matcher
/// for the glob, or `None` when the glob is malformed.
#[verifier::external_body]
fn glob_compile(pattern: &str) -> (res: Option<globset::GlobMatcher>)
    ensures
        res is Some == glob_valid(pattern@),
{
    match globset::Glob::new(pattern) {
        Ok(g) => Some(g.compile_matcher()),
        Err(_) => None,
    }
}

/// `globset::GlobMatcher::is_match` on the matcher a `PathGlob` holds, which
/// was compiled from its pattern.
#[verifier::external_body]
fn glob_is_match(g: &PathGlob, path: &str) -> (res: bool)
    ensures
        res == glob_accepts(g.pattern(), path@),
{
    g.m.is_match(path)
}

impl PathGlob {
    /// The glob this matcher was compiled from.
    pub closed spec fn pattern(&self) -> Seq<char> {
        self.pattern@
    }

    /// Whether the glob matches `path`.
    pub fn is_match(&self, path: &str) -> (res: bool)
        ensures
            res == glob_accepts(self.pattern(), path@),
    {
        glob_is_match(self, path)
    }
}

/// Compiles an optional path filter.
pub fn glob(pattern: &Option<String>) -> (res: Result<Option<PathGlob>, crate::error::Error>)
    ensures
        match pattern {
            None => res matches Ok(None),
            Some(p) => if encode_len(p@) > PATTERN_LIMIT {
                res == Err::<Option<PathGlob>, crate::error::Error>(
                    crate::error::Error::GlobTooLong,
                )
            } else if glob_valid(p@) {
                res matches Ok(Some(g)) && g.pattern() == p@
            } else {
                res == Err::<Option<PathGlob>, crate::error::Error>(
                    crate::error::Error::InvalidGlob,
                )
            },
        },
{
    match pattern {
        None => Ok(None),
        Some(p) => {
            let s = p.as_str();
            if s.as_bytes().len() > PATTERN_LIMIT {
                return Err(crate::error::Error::GlobTooLong);
            }
            match glob_compile(s) {
                Some(m) => Ok(Some(PathGlob { m, pattern: Ghost(s@) })),
                None => Err(crate::error::Error::InvalidGlob),
            }
        },
    }
}

/// The length of the UTF-8 encoding of some characters.
pub open spec fn encode_len(s: Seq<char>) -> nat {
    vstd::utf8::encode_utf8(s).len()
}

} // verus!

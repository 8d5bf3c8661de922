//! Glob filtering.
//!
//! Candidate paths are tested against a glob pattern under configurable
//! matching options. The pattern language and its semantics are those of the
//! `glob` crate; the library names the crate's results and proves its own
//! filtering against those names.

use vstd::prelude::*;

verus! {

/// The matching options a scan runs under, mirroring the three flags the
/// `glob` crate accepts.
#[derive(Debug, Clone, Copy, PartialEq, Eq, Structural)]
pub struct MatchConfig {
    pub case_sensitive: bool,
    pub require_literal_leading_dot: bool,
    pub require_literal_separator: bool,
}

/// Whether a pattern is well-formed, as `glob::Pattern::new` decides it.
/// It depends on the pattern text alone.
pub uninterp spec fn glob_valid(pattern: Seq<char>) -> bool;

/// Whether a well-formed pattern matches a path under the given options, as
/// `glob::Pattern::matches_with` decides it. It depends on the pattern text,
/// the path text and the three flags alone.
pub uninterp spec fn glob_match_of(
    pattern: Seq<char>,
    path: Seq<char>,
    case_sensitive: bool,
    require_literal_leading_dot: bool,
    require_literal_separator: bool,
) -> bool;

/// The matcher text, if any.
pub open spec fn spec_matcher_text(matcher: Option<&str>) -> Option<Seq<char>> {
    match matcher {
        Option::None => None,
        Option::Some(m) => Some(m@),
    }
}

/// Whether an optional matcher admits a path: no matcher admits everything.
pub open spec fn matcher_admits(
    matcher: Option<Seq<char>>,
    path: Seq<char>,
    cfg: MatchConfig,
) -> bool {
    match matcher {
        Option::None => true,
        Option::Some(m) => glob_match_of(
            m,
            path,
            cfg.case_sensitive,
            cfg.require_literal_leading_dot,
            cfg.require_literal_separator,
        ),
    }
}

/// Relies on `glob::Pattern::new`: it returns `Ok` exactly on well-formed
/// patterns, deciding by the pattern text alone; on malformed ones the error
/// carries a description.
#[verifier::external_body]
pub fn glob_compile_error(pattern: &str) -> (r: Option<String>)
    ensures
        r is None <==> glob_valid(pattern@),
{
    match glob::Pattern::new(pattern) {
        Ok(_) => None,
        Err(e) => Some(format!("{}", e)),
    }
}

/// Relies on `glob::Pattern::new` and `glob::Pattern::matches_with`: both
/// decide by the pattern text, the path text and the options alone, `new`
/// succeeding exactly on well-formed patterns.
#[verifier::external_body]
pub fn glob_match(
    pattern: &str,
    path: &str,
    case_sensitive: bool,
    require_literal_leading_dot: bool,
    require_literal_separator: bool,
) -> (r: Option<bool>)
    ensures
        r is Some <==> glob_valid(pattern@),
        r matches Some(b) ==> b == glob_match_of(
            pattern@,
            path@,
            case_sensitive,
            require_literal_leading_dot,
            require_literal_separator,
        ),
{
    match glob::Pattern::new(pattern) {
        Ok(p) => {
            let options = glob::MatchOptions {
                case_sensitive,
                require_literal_separator,
                require_literal_leading_dot,
            };
            Some(p.matches_with(path, options))
        },
        Err(_) => None,
    }
}

/// Tests one path against an optional, already validated matcher.
pub fn path_admitted(matcher: Option<&str>, path: &str, cfg: MatchConfig) -> (r: bool)
    requires
        matcher matches Some(m) ==> glob_valid(m@),
    ensures
        r == matcher_admits(
            match matcher {
                Option::None => None::<Seq<char>>,
                Option::Some(m) => Some(m@),
            },
            path@,
            cfg,
        ),
{
    match matcher {
        None => true,
        Some(m) => {
            let res = glob_match(
                m,
                path,
                cfg.case_sensitive,
                cfg.require_literal_leading_dot,
                cfg.require_literal_separator,
            );
            match res {
                Some(b) => b,
                None => false,
            }
        },
    }
}

} // verus!

//! The directory listing façade.
//!
//! A `DirList` holds the `(path, size)` pairs a scan works on, already
//! filtered by the optional glob matcher. The raw pairs come from one of
//! three backends — the USN enumerator, an external indexer, or a WizTree
//! CSV — all of which reduce to plain values before they reach the library.

use crate::error::AppError;
use crate::globmatch::{
    glob_compile_error, glob_valid, matcher_admits, path_admitted, spec_matcher_text, MatchConfig,
};
use crate::groups::lemma_filter_push;
use crate::text::{min_str_exec, min_str_of, str_eq_exec};
use crate::wiztree::{bytes_of_entries, wiztree_entries, wiztree_header_ok, wiztree_raw};
use vstd::prelude::*;
use vstd::string::StrSliceExecFns;

verus! {

/// Where the raw `(path, size)` pairs come from.
#[derive(Debug, Clone, Copy, PartialEq, Eq, Structural)]
pub enum Backend {
    Everything,
    USN,
    WizTree,
}

/// The backend a scan actually uses: the external indexer is preferred only
/// while it is reachable and returned at least one entry; otherwise the scan
/// falls back to the USN enumerator.
pub open spec fn spec_effective_backend(
    requested: Backend,
    indexer_ok: bool,
    indexer_count: u64,
) -> Backend {
    if requested is Everything && !(indexer_ok && indexer_count > 0) {
        Backend::USN
    } else {
        requested
    }
}

/// Decides the fallback from the indexer to the USN enumerator.
pub fn effective_backend(requested: Backend, indexer_ok: bool, indexer_count: u64) -> (r: Backend)
    ensures
        r == spec_effective_backend(requested, indexer_ok, indexer_count),
{
    match requested {
        Backend::Everything => {
            if indexer_ok && indexer_count > 0 {
                Backend::Everything
            } else {
                Backend::USN
            }
        },
        Backend::USN => Backend::USN,
        Backend::WizTree => Backend::WizTree,
    }
}

/// The raw pairs an optional matcher admits, in input order.
pub open spec fn admitted_entries(
    raw: Seq<(String, u64)>,
    m: Option<Seq<char>>,
    cfg: MatchConfig,
) -> Seq<(String, u64)> {
    raw.filter(|e: (String, u64)| matcher_admits(m, e.0@, cfg))
}

/// A filtered directory listing: the entries that reach the pipeline.
pub struct DirList {
    entries: Vec<(String, u64)>,
}

impl View for DirList {
    type V = Seq<(String, u64)>;

    closed spec fn view(&self) -> Seq<(String, u64)> {
        self.entries@
    }
}

impl DirList {
    /// Filters raw `(path, size)` pairs by the optional glob matcher.
    ///
    /// Fails exactly when a matcher is given and is malformed, with the
    /// `Glob` error; otherwise keeps exactly the admitted pairs, in order.
    pub fn new(raw: Vec<(String, u64)>, matcher: Option<&str>, cfg: MatchConfig) -> (r: Result<
        DirList,
        AppError,
    >)
        ensures
            r is Ok <==> (matcher matches Some(m) ==> glob_valid(m@)),
            r is Err ==> r matches Err(AppError::Glob { .. }),
            r matches Ok(dl) ==> dl@ == admitted_entries(raw@, spec_matcher_text(matcher), cfg),
            r matches Ok(dl) ==> forall|i: int|
                0 <= i < dl@.len() ==> matcher_admits(
                    spec_matcher_text(matcher),
                    (#[trigger] dl@[i]).0@,
                    cfg,
                ),
    {
        let ghost m = spec_matcher_text(matcher);
        match matcher {
            Some(mtext) => {
                match glob_compile_error(mtext) {
                    Some(msg) => {
                        return Err(AppError::Glob { message: msg });
                    },
                    None => {},
                }
            },
            None => {},
        }
        let ghost admit_pred = |e: (String, u64)| matcher_admits(m, e.0@, cfg);
        let mut entries: Vec<(String, u64)> = Vec::new();
        let mut i: usize = 0;
        while i < raw.len()
            invariant
                i <= raw@.len(),
                matcher matches Some(mt) ==> glob_valid(mt@),
                m == spec_matcher_text(matcher),
                admit_pred == (|e: (String, u64)| matcher_admits(m, e.0@, cfg)),
                entries@ == admitted_entries(raw@.take(i as int), m, cfg),
            decreases raw@.len() - i,
        {
            let e = &raw[i];
            let admitted = path_admitted(matcher, e.0.as_str(), cfg);
            proof {
                assert(raw@.take(i + 1) =~= raw@.take(i as int).push(raw@[i as int]));
                lemma_filter_push(raw@.take(i as int), admit_pred, raw@[i as int]);
            }
            if admitted {
                let p = e.0.clone();
                let sz = e.1;
                entries.push((p, sz));
                proof {
                    assert(entries@ == admitted_entries(raw@.take(i as int), m, cfg).push(
                        raw@[i as int],
                    ));
                }
            }
            i = i + 1;
        }
        proof {
            assert(raw@.take(raw@.len() as int) =~= raw@);
            broadcast use vstd::seq_lib::group_filter_ensures;

        }
        Ok(DirList { entries })
    }

    /// Reads the `(path, size)` pairs out of a WizTree CSV export and
    /// filters them by the optional glob matcher.
    ///
    /// A malformed matcher fails first, with the `Glob` error; a CSV
    /// without the required header fails with the header error; otherwise
    /// the listing holds exactly the admitted pairs of the CSV, in record
    /// order.
    pub fn from_wiztree_csv(csv: &[u8], matcher: Option<&str>, cfg: MatchConfig) -> (r: Result<
        DirList,
        AppError,
    >)
        ensures
            r is Ok <==> ((matcher matches Some(m) ==> glob_valid(m@)) && wiztree_header_ok(
                csv@,
            )),
            (matcher matches Some(m) && !glob_valid(m@)) ==> r matches Err(
                AppError::Glob { .. },
            ),
            ((matcher matches Some(m) ==> glob_valid(m@)) && !wiztree_header_ok(csv@))
                ==> r matches Err(AppError::Other { .. }),
            r matches Ok(dl) ==> exists|raw: Seq<(String, u64)>|
                #![trigger admitted_entries(raw, spec_matcher_text(matcher), cfg)]
                bytes_of_entries(raw) == wiztree_raw(csv@) && dl@ == admitted_entries(
                    raw,
                    spec_matcher_text(matcher),
                    cfg,
                ),
    {
        match matcher {
            Some(mtext) => {
                match glob_compile_error(mtext) {
                    Some(msg) => {
                        return Err(AppError::Glob { message: msg });
                    },
                    None => {},
                }
            },
            None => {},
        }
        let raw = match wiztree_entries(csv) {
            Ok(raw) => raw,
            Err(e) => {
                return Err(e);
            },
        };
        let ghost rawview = raw@;
        match DirList::new(raw, matcher, cfg) {
            Ok(dl) => {
                proof {
                    assert(bytes_of_entries(rawview) == wiztree_raw(csv@) && dl@
                        == admitted_entries(rawview, spec_matcher_text(matcher), cfg));
                }
                Ok(dl)
            },
            Err(e) => Err(e),
        }
    }

    /// The admitted entries, in order.
    pub fn iter(&self) -> (r: &Vec<(String, u64)>)
        ensures
            r@ == self@,
    {
        &self.entries
    }
}

/// Whether a path is the canonical name of its inode: the lexicographically
/// least of the inode's sibling names, so that an already-linked family of
/// names enters the pipeline exactly once.
pub open spec fn spec_hardlink_leader(path: Seq<char>, siblings: Seq<String>) -> bool {
    siblings.len() == 0 || path == min_str_of(siblings)
}

/// Decides whether `path` (already stripped of its drive prefix) is the
/// canonical sibling of its inode.
pub fn hardlink_leader(path: &str, siblings: &Vec<String>) -> (r: bool)
    ensures
        r == spec_hardlink_leader(path@, siblings@),
{
    if siblings.len() == 0 {
        return true;
    }
    let m = min_str_exec(siblings);
    str_eq_exec(path, m.as_str())
}

/// Strips a leading `X:` drive prefix, if the path carries one, so that
/// sibling names (which the indexer reports without a drive) compare
/// against the same form.
pub fn strip_drive<'a>(path: &'a str) -> (r: &'a str)
    ensures
        r@ == (if path@.len() >= 2 && path@[1] == ':' {
            path@.skip(2)
        } else {
            path@
        }),
{
    let len: usize = path.unicode_len();
    if len >= 2 {
        let c = path.get_char(1);
        if c == ':' {
            let r = path.substring_char(2, len);
            proof {
                assert(r@ =~= path@.skip(2));
            }
            return r;
        }
    }
    path
}

} // verus!

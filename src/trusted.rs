//! The calls into outside crates, each with the contract this library relies on.

use reqwest::Url;
use std::cmp::Ordering;
use vstd::prelude::*;

verus! {

/// A filesystem path, carried through unread.
#[verifier::external_type_specification]
#[verifier::external_body]
pub struct ExPathBuf(std::path::PathBuf);

/// The text of `rel` resolved against the absolute URL `base`, as
/// `reqwest::Url::parse(base)` followed by `Url::join(rel)` gives it; `None`
/// where either does not parse.
pub uninterp spec fn url_join_of(base: Seq<char>, rel: Seq<char>) -> Option<Seq<char>>;

/// Relies on `url::Url::parse` and `url::Url::join`, reached through
/// `reqwest::Url`: their result depends on the two texts alone.
#[verifier::external_body]
pub(crate) fn join_url_text(base: &str, rel: &str) -> (r: Option<String>)
    ensures
        match r {
            Some(u) => url_join_of(base@, rel@) == Some(u@),
            None => url_join_of(base@, rel@) is None,
        },
{
    match Url::parse(base) {
        Ok(b) => b.join(rel).ok().map(String::from),
        Err(_) => None,
    }
}

/// The `/`-separated segments of the path of the URL `url`, as
/// `reqwest::Url::parse(url)` followed by `Url::path_segments` gives them;
/// `None` where the text does not parse or the URL cannot be a base.
pub uninterp spec fn path_segments_of(url: Seq<char>) -> Option<Seq<Seq<char>>>;

/// Relies on `url::Url::parse` and `url::Url::path_segments`, reached through
/// `reqwest::Url`: the segments depend on the text alone, and `Some` holds at
/// least one segment, possibly empty, as `path_segments`' documentation says.
#[verifier::external_body]
pub(crate) fn url_path_segments(url: &str) -> (r: Option<Vec<String>>)
    ensures
        match r {
            Some(v) => path_segments_of(url@) matches Some(s) && s.len() > 0 && s.len()
                == v@.len() && forall|i: int| 0 <= i < s.len() ==> #[trigger] s[i] == v@[i]@,
            None => path_segments_of(url@) is None,
        },
{
    match Url::parse(url) {
        Ok(u) => u.path_segments().map(|segments| segments.map(String::from).collect()),
        Err(_) => None,
    }
}

/// How `alphanumeric_sort::compare_str` orders two strings.
pub uninterp spec fn alphanumeric_order(a: Seq<char>, b: Seq<char>) -> Ordering;

/// Relies on `alphanumeric_sort::compare_str`: its answer depends on the two
/// strings alone.
#[verifier::external_body]
pub(crate) fn compare_alphanumeric(a: &str, b: &str) -> (r: Ordering)
    ensures
        r == alphanumeric_order(a@, b@),
{
    alphanumeric_sort::compare_str(a, b)
}

} // verus!

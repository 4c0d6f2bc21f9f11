//! Derivation of the address under which a repository publishes the
//! manifest of its own dependencies at a given version.

use crate::text::{replace_all, replaced, strip_suffix, without_suffix};
use vstd::prelude::*;

verus! {

/// The address of the dependency manifest of the repository at `url`, as of
/// `version`: the repository suffix `.git` is dropped where `url` ends with
/// it, then the web host `github` gives way to the raw-content host
/// `raw.githubusercontent`, and the version and the manifest's file name
/// follow as two further path segments.
pub open spec fn raw_url_of(url: Seq<char>, version: Seq<char>) -> Seq<char> {
    replaced(without_suffix(url, ".git"@), "github"@, "raw.githubusercontent"@) + "/"@ + version
        + "/build_depends.repos"@
}

/// Derives the raw-content address of a repository's dependency manifest.
///
/// The function is total: an address that names no repository yields an
/// address at which nothing will be found.
pub fn to_raw_url(url: &str, ver: &str) -> (raw: String)
    ensures
        raw@ == raw_url_of(url@, ver@),
{
    let bare = strip_suffix(url, ".git");
    let mut raw = replace_all(bare.as_str(), "github", "raw.githubusercontent");
    raw.append("/");
    raw.append(ver);
    raw.append("/build_depends.repos");
    raw
}

/// Two versions of one repository never share a manifest address.
pub proof fn lemma_versions_have_distinct_raw_urls(
    url: Seq<char>,
    version1: Seq<char>,
    version2: Seq<char>,
)
    requires
        version1 != version2,
    ensures
        raw_url_of(url, version1) != raw_url_of(url, version2),
{
    let head = replaced(without_suffix(url, ".git"@), "github"@, "raw.githubusercontent"@) + "/"@;
    let tail = "/build_depends.repos"@;
    let r1 = head + version1 + tail;
    let r2 = head + version2 + tail;
    if r1 == r2 {
        assert(r1.len() == r2.len());
        assert(version1.len() == version2.len());
        assert(r1.subrange(head.len() as int, (head.len() + version1.len()) as int) =~= version1);
        assert(r2.subrange(head.len() as int, (head.len() + version2.len()) as int) =~= version2);
        assert(false);
    }
}

} // verus!

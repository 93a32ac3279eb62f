//! Which Wayland clients may use the privileged protocols: those whose
//! executable (the canonical `/proc/<pid>/exe` of the connecting process)
//! lies under the compositor's own `bin` directory, or is listed in the
//! extra allowlist.

use vstd::prelude::*;

verus! {

/// What `std::path::Path::starts_with` answers for these two paths: whether
/// `base`'s components are a prefix of `path`'s.
pub uninterp spec fn path_starts_with_spec(path: Seq<char>, base: Seq<char>) -> bool;

/// What `==` on `std::path::Path` answers for these two paths: whether
/// their components are equal.
pub uninterp spec fn path_eq_spec(a: Seq<char>, b: Seq<char>) -> bool;

/// Whether `path` starts with the directory `base`, component by
/// component. Trusted: it calls std's `Path::starts_with`, whose answer
/// depends on these two paths alone; the contract names that answer and
/// says nothing more of it.
#[verifier::external_body]
fn path_starts_with(path: &str, base: &str) -> (r: bool)
    ensures
        r == path_starts_with_spec(path@, base@),
{
    std::path::Path::new(path).starts_with(base)
}

/// Whether two paths are equal, component by component. Trusted: it
/// compares with `==` on std's `Path`, whose answer depends on these two
/// paths alone; the contract names that answer and says nothing more of it.
#[verifier::external_body]
fn path_eq(a: &str, b: &str) -> (r: bool)
    ensures
        r == path_eq_spec(a@, b@),
{
    std::path::Path::new(a) == std::path::Path::new(b)
}

/// Whether `exe` is one of the allowlisted paths.
pub open spec fn allowlisted(exe: Seq<char>, allowlist: Seq<String>) -> bool {
    exists|i: int| 0 <= i < allowlist.len() && path_eq_spec((#[trigger] allowlist[i])@, exe)
}

/// The trust rule: under the `bin` directory (when there is one), or on
/// the allowlist.
pub open spec fn spec_exe_is_trusted(exe: Seq<char>, bin: Option<&str>, allowlist: Seq<String>) -> bool {
    (bin matches Some(b) && path_starts_with_spec(exe, b@)) || allowlisted(exe, allowlist)
}

/// Whether a client whose executable is `exe` is trusted (see
/// [`spec_exe_is_trusted`]); without a `bin` directory only the
/// allowlist counts.
pub fn exe_is_trusted(exe: &str, bin: Option<&str>, allowlist: &Vec<String>) -> (r: bool)
    ensures
        r == spec_exe_is_trusted(exe@, bin, allowlist@),
{
    if let Some(b) = bin {
        if path_starts_with(exe, b) {
            return true;
        }
    }
    let mut i: usize = 0;
    while i < allowlist.len()
        invariant
            i <= allowlist@.len(),
            forall|j: int| 0 <= j < i ==> !path_eq_spec((#[trigger] allowlist@[j])@, exe@),
        decreases allowlist@.len() - i,
    {
        if path_eq(allowlist[i].as_str(), exe) {
            return true;
        }
        i += 1;
    }
    false
}

} // verus!

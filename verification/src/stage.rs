//! Reading a patch text into the diff object that git applies to the index.
use vstd::prelude::*;

verus! {

/// git's parsed diff (`git2::Diff`), carried through opaquely.
#[verifier::external_type_specification]
#[verifier::external_body]
pub struct ExDiff<'repo>(git2::Diff<'repo>);

/// git's error (`git2::Error`), carried through opaquely.
#[verifier::external_type_specification]
#[verifier::external_body]
pub struct ExGitError(git2::Error);

/// Whether libgit2 accepts `patch` as the text of a patch.
pub uninterp spec fn patch_parses(patch: Seq<char>) -> bool;

/// Calls `git2::Diff::from_buffer` on the bytes of `patch`. Trusted: the
/// parse is a function of the text alone, so whether it succeeds is named
/// `patch_parses`; what the parsed diff holds is not stated.
#[verifier::external_body]
fn diff_from_buffer(patch: &str) -> (r: Result<git2::Diff<'static>, git2::Error>)
    ensures
        r is Ok <==> patch_parses(patch@),
{
    git2::Diff::from_buffer(patch.as_bytes())
}

/// Why a patch could not be read.
pub enum PatchError {
    /// libgit2 rejected the text; its error says why.
    Unparsable(git2::Error),
}

/// Parses the text of a patch into the diff that `Repository::apply`
/// takes; fails exactly where libgit2 does not accept the text.
pub fn parse_patch(patch: &str) -> (r: Result<git2::Diff<'static>, PatchError>)
    ensures
        r is Ok <==> patch_parses(patch@),
{
    match diff_from_buffer(patch) {
        Ok(diff) => Ok(diff),
        Err(e) => Err(PatchError::Unparsable(e)),
    }
}

} // verus!

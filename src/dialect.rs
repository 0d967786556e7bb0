use vstd::prelude::*;

verus! {

/// Whether oxc recognises the path's file name and extension as naming a
/// JavaScript or TypeScript dialect.
pub uninterp spec fn oxc_dialect_known(path: Seq<char>) -> bool;

#[verifier::external_type_specification]
#[verifier::external_body]
pub struct ExSourceType(oxc::span::SourceType);

#[verifier::external_type_specification]
#[verifier::external_body]
pub struct ExUnknownExtension(oxc::span::UnknownExtension);

/// Relies on oxc::span::SourceType::from_path: it succeeds exactly when the
/// file name and its extension are recognised, which depends on the path alone.
#[verifier::external_body]
fn source_type_from_path(path: &str) -> (r: Result<oxc::span::SourceType, oxc::span::UnknownExtension>)
    ensures
        r is Ok <==> oxc_dialect_known(path@),
{
    oxc::span::SourceType::from_path(path)
}

/// Why no dialect could be chosen for a file.
#[derive(PartialEq, Eq, Structural, Clone, Copy, Debug)]
pub enum DialectError {
    /// The path does not name a JavaScript or TypeScript file.
    UnsupportedDialect,
}

/// The dialect under which the file at `path` is parsed, chosen from its
/// extension.
pub fn source_type_for(path: &str) -> (r: Result<oxc::span::SourceType, DialectError>)
    ensures
        r is Ok <==> oxc_dialect_known(path@),
        r is Err ==> r == Err::<oxc::span::SourceType, DialectError>(DialectError::UnsupportedDialect),
{
    match source_type_from_path(path) {
        Ok(t) => Ok(t),
        Err(_) => Err(DialectError::UnsupportedDialect),
    }
}

} // verus!

use vstd::prelude::*;

verus! {

/// Errors that `ls-tree` can end in.
#[derive(Debug, Clone, Copy, PartialEq, Eq, Structural)]
pub enum LsTreeError {
    /// `--name-only` was not given; no other output is supported.
    NameOnlyRequired,
}

/// Runs `ls-tree`: only `--name-only` is supported.
pub fn invoke(name_only: bool) -> (r: Result<(), LsTreeError>)
    ensures
        r == if name_only { Ok::<(), LsTreeError>(()) } else { Err(LsTreeError::NameOnlyRequired) },
{
    if name_only {
        Ok(())
    } else {
        Err(LsTreeError::NameOnlyRequired)
    }
}

} // verus!

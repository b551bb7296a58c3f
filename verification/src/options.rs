use vstd::prelude::*;

verus! {

/// The command-line surface: a project directory, a dry-run flag, and an
/// optional script name (absent means: run every pipeline entry).
#[derive(Debug)]
pub struct HastyOptions {
    pub dir: Option<String>,
    pub dry_run: bool,
    pub script: Option<String>,
}

} // verus!

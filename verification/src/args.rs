use vstd::prelude::*;

verus! {

/// Options that the generator takes from its parameter string.
#[derive(Debug)]
pub struct Args {
    /// The base name of the output file for files that declare no package.
    pub default_package_name: Option<String>,
}

} // verus!

use vstd::prelude::*;

pub mod args;
pub mod fsmodel;
pub mod ident;
pub mod retry;
pub mod version;
pub mod lifecycle;
pub mod orchestrator;
pub mod paths;

verus! {

/// Kinds of build target handled by the build driver.
#[derive(Clone, Copy, PartialEq, Eq, Structural, Debug)]
pub enum BuildType {
    Package,
    Kit,
    Variant,
    Repack,
}

} // verus!

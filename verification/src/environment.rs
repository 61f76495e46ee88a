use vstd::prelude::*;
use crate::error::CarbonError;
use crate::footprint::{Footprint, spec_current_env};
use crate::strings::{replace_all, spec_replace};

verus! {

/// The placeholder that stands for the project root inside descriptor
/// files.
pub open spec fn root_placeholder() -> Seq<char> {
    "${ROOT}"@
}

/// Replace every occurrence of the project-root placeholder found within
/// the service configuration text with the given root value.
pub fn parse_variables(contents: &str, root: &str) -> (r: String)
    ensures
        r@ == spec_replace(contents@, root_placeholder(), root@),
{
    proof {
        reveal_strlit("${ROOT}");
    }
    replace_all(contents, "${ROOT}", root)
}

/// The path of the dotenv file that is currently in use: the active row
/// of the footprint, or the no-active-environment error when no row is
/// active.
pub fn current_env_path(config: &Footprint) -> (r: Result<String, CarbonError>)
    ensures
        r is Ok <==> spec_current_env(config@) is Some,
        r matches Ok(p) ==> Some(p@) == spec_current_env(config@),
        r matches Err(e) ==> e matches CarbonError::NoActiveEnv,
{
    match config.get_current_env() {
        Some(p) => Ok(p),
        None => Err(CarbonError::NoActiveEnv),
    }
}

} // verus!

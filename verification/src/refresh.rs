//! What a run does with the upstream dataset: whether it fetches it again,
//! and whether it builds the index again.

use vstd::prelude::*;
use vstd::string::*;

verus! {

/// The switches of the command line.
#[derive(Clone, Copy, Debug, PartialEq, Eq, Structural)]
pub struct Flags {
    /// Build the index even if the dataset is unchanged.
    pub force_gen: bool,
    /// Fetch the dataset even if the cached validation tag matches.
    pub force_download: bool,
    /// Fetch nothing and build from the cached dataset.
    pub skip_download: bool,
}

/// What a run is to do.
#[derive(Clone, Copy, Debug, PartialEq, Eq, Structural)]
pub struct RefreshPlan {
    /// Fetch the dataset and store its validation tag.
    pub download: bool,
    /// Build and publish the index.
    pub generate: bool,
}

/// Whether the cached dataset is the one upstream has: nothing is skipped or
/// forced, and the cached validation tag is the upstream one.
pub open spec fn up_to_date(flags: Flags, cached_tag: Option<String>, remote_tag: Seq<char>) -> bool {
    &&& !flags.skip_download
    &&& !flags.force_download
    &&& cached_tag matches Some(tag) && tag@ == remote_tag
}

/// The plan of a run: the dataset is fetched unless fetching is skipped or
/// the cached one is up to date, and the index is built unless the cached
/// dataset is up to date and building is not forced.
pub open spec fn refresh_plan(
    flags: Flags,
    cached_tag: Option<String>,
    remote_tag: Seq<char>,
) -> RefreshPlan {
    RefreshPlan {
        download: !flags.skip_download && !up_to_date(flags, cached_tag, remote_tag),
        generate: flags.force_gen || !up_to_date(flags, cached_tag, remote_tag),
    }
}

/// Plans a run from the switches, the validation tag stored with the cached
/// dataset, if there is one, and the tag that upstream reports now.
pub fn plan_refresh(flags: Flags, cached_tag: &Option<String>, remote_tag: &String) -> (plan:
    RefreshPlan)
    ensures
        plan == refresh_plan(flags, *cached_tag, remote_tag@),
        flags.skip_download ==> !plan.download && plan.generate,
        plan.download ==> plan.generate,
{
    let same = match cached_tag {
        Some(tag) => *tag == *remote_tag,
        None => false,
    };
    let fresh = !flags.skip_download && !flags.force_download && same;
    RefreshPlan { download: !flags.skip_download && !fresh, generate: flags.force_gen || !fresh }
}

} // verus!

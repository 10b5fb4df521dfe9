use leaderboard_index::refresh::{plan_refresh, Flags, RefreshPlan};
use leaderboard_index::skins::{decide_skin, Pass, SkinAction, SKIN_GRACE_MINUTES};

fn flags(force_gen: bool, force_download: bool, skip_download: bool) -> Flags {
    Flags { force_gen, force_download, skip_download }
}

#[test]
fn unchanged_dataset_is_neither_fetched_nor_built() {
    let plan = plan_refresh(flags(false, false, false), &Some("v1".to_string()), &"v1".to_string());
    assert_eq!(plan, RefreshPlan { download: false, generate: false });
}

#[test]
fn changed_or_unknown_tag_fetches_and_builds() {
    let plan = plan_refresh(flags(false, false, false), &Some("v1".to_string()), &"v2".to_string());
    assert_eq!(plan, RefreshPlan { download: true, generate: true });
    let plan = plan_refresh(flags(false, false, false), &None, &"v2".to_string());
    assert_eq!(plan, RefreshPlan { download: true, generate: true });
}

#[test]
fn forcing_overrides_a_matching_tag() {
    let same = Some("v1".to_string());
    let remote = "v1".to_string();
    assert_eq!(
        plan_refresh(flags(true, false, false), &same, &remote),
        RefreshPlan { download: false, generate: true }
    );
    assert_eq!(
        plan_refresh(flags(false, true, false), &same, &remote),
        RefreshPlan { download: true, generate: true }
    );
}

#[test]
fn skipping_the_download_implies_building() {
    for force_gen in [false, true] {
        for force_download in [false, true] {
            let plan = plan_refresh(
                flags(force_gen, force_download, true),
                &Some("v1".to_string()),
                &"v1".to_string(),
            );
            assert_eq!(plan, RefreshPlan { download: false, generate: true });
        }
    }
}

#[test]
fn first_pass_renews_the_time_of_a_skin_still_worn() {
    let a = "{\"n\":\"default\"}".to_string();
    let b = "{\"n\":\"pinky\"}".to_string();
    assert_eq!(decide_skin(Pass::Renew, &a, 100, &a, 200), SkinAction::RenewTime);
    assert_eq!(decide_skin(Pass::Renew, &a, 100, &b, 200), SkinAction::Leave);
}

#[test]
fn second_pass_replaces_a_skin_not_seen_for_over_thirty_minutes() {
    let a = "{\"n\":\"default\"}".to_string();
    let b = "{\"n\":\"pinky\"}".to_string();
    assert_eq!(SKIN_GRACE_MINUTES, 30);
    assert_eq!(decide_skin(Pass::Replace, &a, 100, &b, 131), SkinAction::Replace);
    assert_eq!(decide_skin(Pass::Replace, &a, 100, &b, 130), SkinAction::Leave);
    assert_eq!(decide_skin(Pass::Replace, &a, 100, &a, 500), SkinAction::Leave);
    assert_eq!(decide_skin(Pass::Replace, &a, i64::MAX - 29, &b, i64::MAX), SkinAction::Leave);
    assert_eq!(decide_skin(Pass::Replace, &a, i64::MIN, &b, i64::MIN + 31), SkinAction::Replace);
}

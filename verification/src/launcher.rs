//! What the user interface is answered: the listing of the registry, the
//! result of a search, and the message for a launch that failed. Records
//! that stand for shortcuts are left out of both lists.

use vstd::prelude::*;
use vstd::string::StringExecFns;

use crate::app_discovery::{AppInfo, AppInfoView};
use crate::search::{
    candidate_score, found_in, is_hit, is_ranking, lemma_ranking_descends, ranked_places, ranking,
    records_at, scores_of, search_result,
};
use crate::text::{
    chars_of, contains, ends_with, has_substring, has_suffix, lowercase, to_lowercase,
};

verus! {

/// A path in lower case stands for a shortcut: it lies below a start menu
/// directory, or it is a shortcut file, wherever it lies.
pub open spec fn is_menu_shortcut_lowered(path: Seq<char>) -> bool {
    ||| has_substring(path, "\\start menu\\"@)
    ||| has_substring(path, "\\startmenu\\"@)
    ||| has_suffix(path, ".lnk"@)
}

/// A path stands for a shortcut, whatever the case of its letters. Such
/// records are never shown, whether or not the registry holds an executable
/// for the same application.
pub open spec fn is_menu_shortcut(path: Seq<char>) -> bool {
    is_menu_shortcut_lowered(lowercase(path))
}

/// The rule for what is shown: every record but the shortcuts.
pub open spec fn shown() -> spec_fn(AppInfoView) -> bool {
    |app: AppInfoView| !is_menu_shortcut(app.path)
}

/// A record with the icon that was resolved for it, where one was.
pub open spec fn with_icon(app: AppInfoView, icon: Option<Seq<char>>) -> AppInfoView {
    match icon {
        Some(data) => AppInfoView { icon_path: Some(data), ..app },
        None => app,
    }
}

/// The records of a registry, each with the icon at its place in `icons`;
/// a record without a place there keeps what it has.
pub open spec fn with_icons(apps: Seq<AppInfoView>, icons: Seq<Option<Seq<char>>>) -> Seq<
    AppInfoView,
> {
    Seq::new(
        apps.len(),
        |i: int|
            with_icon(
                apps[i],
                if i < icons.len() {
                    icons[i]
                } else {
                    None
                },
            ),
    )
}

/// The message for an application that could not be started.
pub open spec fn launch_failure_of(reason: Seq<char>) -> Seq<char> {
    "Failed to launch application: "@ + reason
}

/// Whether a path, given in lower case, stands for a shortcut.
pub fn names_menu_shortcut(lowered_path: &str) -> (noise: bool)
    ensures
        noise == is_menu_shortcut_lowered(lowered_path@),
{
    let path = chars_of(lowered_path);
    if contains(&path, &chars_of("\\start menu\\")) {
        return true;
    }
    if contains(&path, &chars_of("\\startmenu\\")) {
        return true;
    }
    ends_with(&path, &chars_of(".lnk"))
}

/// Whether a record is shown in listings and search results.
pub fn is_shown(app: &AppInfo) -> (visible: bool)
    ensures
        visible == shown()(app@),
{
    let lowered = to_lowercase(app.path.as_str());
    !names_menu_shortcut(lowered.as_str())
}

/// The full listing: every record that is shown, with its icon. `icons`
/// holds, place for place, what the icon cache answered for each record of
/// `apps`.
pub fn get_installed_apps(apps: &[AppInfo], icons: &Vec<Option<String>>) -> (listing: Vec<AppInfo>)
    ensures
        listing.deep_view() == with_icons(apps.deep_view(), icons.deep_view()).filter(shown()),
{
    let ghost all = with_icons(apps.deep_view(), icons.deep_view());
    let mut listing: Vec<AppInfo> = Vec::new();
    proof {
        reveal(Seq::filter);
        assert(listing.deep_view() =~= all.take(0).filter(shown()));
    }
    for i in 0..apps.len()
        invariant
            all == with_icons(apps.deep_view(), icons.deep_view()),
            listing.deep_view() == all.take(i as int).filter(shown()),
    {
        let ghost so_far = listing.deep_view();
        proof {
            reveal(Seq::filter);
            assert(all.take(i + 1).drop_last() =~= all.take(i as int));
        }
        if is_shown(&apps[i]) {
            let mut app = apps[i].clone();
            if i < icons.len() {
                if let Some(data) = &icons[i] {
                    app.icon_path = Some(data.clone());
                }
            }
            listing.push(app);
            assert(listing.deep_view() =~= so_far.push(app@));
        }
    }
    assert(all.take(apps.len() as int) =~= all);
    listing
}

/// A search as the user interface sees it: the records that match `query`,
/// best first, without the shortcuts. The empty query finds
/// nothing.
pub fn search_applications(apps: &[AppInfo], query: &str) -> (found: Vec<AppInfo>)
    ensures
        found.deep_view() == search_result(apps.deep_view(), query@).filter(shown()),
        query@.len() == 0 ==> found@.len() == 0,
        query@.len() > 0 ==> is_ranking(
            ranking(scores_of(apps.deep_view(), query@)),
            scores_of(apps.deep_view(), query@),
        ),
        query@.len() > 0 ==> forall|i: int|
            0 <= i < apps.len() ==> (is_hit(#[trigger] apps.deep_view()[i], query@) && shown()(
                apps.deep_view()[i],
            ) <==> found.deep_view().contains(apps.deep_view()[i])),
        forall|j: int|
            0 <= j < found.len() ==> found_in(#[trigger] found.deep_view()[j].name, query@)
                || found_in(found.deep_view()[j].path, query@),
        forall|a: int, b: int|
            0 <= a <= b < found.len() ==> candidate_score(
                #[trigger] found.deep_view()[a],
                query@,
            )->0 >= candidate_score(#[trigger] found.deep_view()[b], query@)->0,
{
    let order = ranked_places(apps, query);
    let ghost mut origin: Seq<int> = Seq::empty();
    let ghost all = records_at(apps.deep_view(), order@);
    let mut found: Vec<AppInfo> = Vec::new();
    proof {
        reveal(Seq::filter);
        assert(found.deep_view() =~= all.take(0).filter(shown()));
        if query@.len() == 0 {
            assert(all =~= Seq::<AppInfoView>::empty());
        }
    }
    for k in 0..order.len()
        invariant
            all == records_at(apps.deep_view(), order@),
            forall|j: int| 0 <= j < order.len() ==> #[trigger] order[j] < apps.len(),
            found.deep_view() == all.take(k as int).filter(shown()),
            query@.len() > 0 ==> is_ranking(order@, scores_of(apps.deep_view(), query@)),
            query@.len() == 0 ==> order@.len() == 0,
            query@.len() > 0 ==> forall|i: int|
                0 <= i < apps.len() ==> (#[trigger] scores_of(apps.deep_view(), query@)[i] is Some
                    <==> is_hit(apps.deep_view()[i], query@)),
            forall|j: int|
                0 <= j < found.len() ==> found_in(#[trigger] found.deep_view()[j].name, query@)
                    || found_in(found.deep_view()[j].path, query@),
            origin.len() == found.len(),
            forall|j: int|
                0 <= j < origin.len() ==> 0 <= #[trigger] origin[j] < k && found.deep_view()[j]
                    == all[origin[j]],
            forall|i: int, j: int| 0 <= i < j < origin.len() ==> origin[i] < origin[j],
    {
        let ghost so_far = found.deep_view();
        proof {
            reveal(Seq::filter);
            assert(all.take(k + 1).drop_last() =~= all.take(k as int));
        }
        if is_shown(&apps[order[k]]) {
            let app = apps[order[k]].clone();
            assert(scores_of(apps.deep_view(), query@)[order@[k as int] as int] is Some);
            found.push(app);
            assert(found.deep_view() =~= so_far.push(app@));
            proof {
                origin = origin.push(k as int);
            }
        }
    }
    assert(all.take(order.len() as int) =~= all);
    assert forall|a: int, b: int| 0 <= a <= b < found.len() implies candidate_score(
        #[trigger] found.deep_view()[a],
        query@,
    )->0 >= candidate_score(#[trigger] found.deep_view()[b], query@)->0 by {
        let scores = scores_of(apps.deep_view(), query@);
        assert(origin[a] <= origin[b]);
        lemma_ranking_descends(order@, scores, origin[a], origin[b]);
        assert(scores[order@[origin[a]] as int] == candidate_score(all[origin[a]], query@));
        assert(scores[order@[origin[b]] as int] == candidate_score(all[origin[b]], query@));
    }
    assert forall|i: int| 0 <= i < apps.len() && query@.len() > 0 implies (is_hit(
        #[trigger] apps.deep_view()[i],
        query@,
    ) && shown()(apps.deep_view()[i]) <==> found.deep_view().contains(apps.deep_view()[i])) by {
        let record = apps.deep_view()[i];
        let scores = scores_of(apps.deep_view(), query@);
        if is_hit(record, query@) && shown()(record) {
            assert(scores[i] is Some);
            let k = choose|k: int| 0 <= k < order@.len() && order@[k] == i;
            assert(all[k] == record);
            all.lemma_filter_contains(shown(), k);
        }
        if found.deep_view().contains(record) {
            let j = choose|j: int|
                0 <= j < found.deep_view().len() && found.deep_view()[j] == record;
            all.lemma_filter_pred(shown(), j);
            all.lemma_filter_contains_rev(shown(), record);
            let k = choose|k: int| 0 <= k < all.len() && all[k] == record;
            assert(scores[order@[k] as int] is Some);
        }
    }
    found
}

/// The message for an application that could not be started, from the
/// system's reason.
pub fn launch_failure(reason: &str) -> (message: String)
    ensures
        message@ == launch_failure_of(reason@),
{
    let mut message = "Failed to launch application: ".to_owned();
    message.append(reason);
    message
}

} // verus!

//! Looking an artifact up in every log, and comparing what was found.

use vstd::prelude::*;
use crate::compare::{find_mismatched, findings, views_of, MismatchSets};
use crate::index::LogIndex;
use crate::record::{ActionContext, ActionView};

verus! {

/// What the logs hold, seen as maps from output path to action: one map for
/// each log.
pub type Logs = Seq<Map<Seq<char>, ActionView>>;

/// The maps of a list of indexes, in order.
pub open spec fn index_views(maps: Seq<LogIndex>) -> Logs {
    Seq::new(maps.len(), |i: int| maps[i]@)
}

/// Whether every index of the list is well-formed.
pub open spec fn all_wf(maps: Seq<LogIndex>) -> bool {
    forall|i: int| 0 <= i < maps.len() ==> (#[trigger] maps[i]).wf()
}

/// Whether every log has an action for `artifact`.
pub open spec fn found_in_all(logs: Logs, artifact: Seq<char>) -> bool {
    forall|i: int| 0 <= i < logs.len() ==> (#[trigger] logs[i]).contains_key(artifact)
}

/// The actions of `artifact`, one from each log, in the order of the logs.
pub open spec fn records_of(logs: Logs, artifact: Seq<char>) -> Seq<ActionView> {
    Seq::new(logs.len(), |i: int| logs[i][artifact])
}

/// The actions of the artifact named `path`, one from each log; `None` where
/// a log has none.
pub fn get_named<'a>(maps: &'a Vec<LogIndex>, path: &String) -> (found: Option<
    Vec<&'a ActionContext>,
>)
    requires
        all_wf(maps@),
    ensures
        found is Some <==> found_in_all(index_views(maps@), path@),
        found matches Some(actions) ==> views_of(actions@) == records_of(
            index_views(maps@),
            path@,
        ),
{
    let ghost logs = index_views(maps@);
    let mut actions: Vec<&ActionContext> = Vec::new();
    let mut i: usize = 0;
    while i < maps.len()
        invariant
            i <= maps.len(),
            all_wf(maps@),
            logs == index_views(maps@),
            actions@.len() == i,
            forall|k: int| 0 <= k < i ==> (#[trigger] logs[k]).contains_key(path@),
            forall|k: int| 0 <= k < i ==> (#[trigger] actions@[k])@ == logs[k][path@],
        decreases maps.len() - i,
    {
        assert(maps@[i as int].wf());
        match maps[i].get(path) {
            Some(action) => {
                actions.push(action);
            },
            None => {
                assert(!logs[i as int].contains_key(path@));
                return None;
            },
        }
        i += 1;
    }
    assert(views_of(actions@) =~= records_of(logs, path@));
    Some(actions)
}

/// The actions of the artifact `path`, one from each log, in the order of
/// the logs; `None` where the artifact is missing from a log.
pub fn get<'a>(maps: &'a Vec<LogIndex>, path: &str) -> (found: Option<Vec<&'a ActionContext>>)
    requires
        all_wf(maps@),
    ensures
        found is Some <==> found_in_all(index_views(maps@), path@),
        found matches Some(actions) ==> views_of(actions@) == records_of(
            index_views(maps@),
            path@,
        ),
{
    let name = path.to_owned();
    get_named(maps, &name)
}

/// Compares the actions of `artifact` across the logs; `None`, and nothing
/// compared, where the artifact is missing from a log.
pub fn compare(maps: &Vec<LogIndex>, artifact: &str) -> (found: Option<MismatchSets>)
    requires
        all_wf(maps@),
    ensures
        found is Some <==> found_in_all(index_views(maps@), artifact@),
        found matches Some(sets) ==> sets@ == findings(
            artifact@,
            records_of(index_views(maps@), artifact@),
        ),
{
    match get(maps, artifact) {
        Some(actions) => Some(find_mismatched(artifact, &actions)),
        None => None,
    }
}

/// Whether the given actions are all the same.
pub fn all_same(actions: &Vec<&ActionContext>) -> (same: bool)
    ensures
        same == forall|i: int| 0 <= i < actions@.len() ==> (#[trigger] actions@[i])@ == actions@[0]@,
{
    let mut i: usize = 1;
    while i < actions.len()
        invariant
            1 <= i,
            forall|k: int| 0 <= k < i && k < actions@.len() ==> (#[trigger] actions@[k])@
                == actions@[0]@,
        decreases actions.len() - i,
    {
        if *actions[i] != *actions[0] {
            return false;
        }
        i += 1;
    }
    true
}

} // verus!

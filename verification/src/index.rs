//! The index of one log: for every output path that an action of the log
//! declares, the action that declares it.

use vstd::prelude::*;
use crate::names::NameTable;
use crate::record::{ActionContext, ActionView, strings_view};

verus! {

/// What one action declares: each of its listed outputs leads to it.
pub open spec fn declares(a: ActionView) -> Map<Seq<char>, ActionView> {
    Map::new(|path: Seq<char>| a.listed_outputs.contains(path), |path: Seq<char>| a)
}

/// The index of a log: every declared output path leads to the last action
/// of the log that declares it.
pub open spec fn index_of_log(actions: Seq<ActionView>) -> Map<Seq<char>, ActionView>
    decreases actions.len(),
{
    if actions.len() == 0 {
        Map::empty()
    } else {
        index_of_log(actions.drop_last()).union_prefer_right(declares(actions.last()))
    }
}

/// The output paths that the actions of a log declare, action after action.
pub open spec fn all_outputs(actions: Seq<ActionView>) -> Seq<Seq<char>>
    decreases actions.len(),
{
    if actions.len() == 0 {
        Seq::empty()
    } else {
        all_outputs(actions.drop_last()) + actions.last().listed_outputs
    }
}

/// The paths that occur more than once in `paths`, each once, in the order
/// in which they first occur again.
pub open spec fn repeated(paths: Seq<Seq<char>>) -> Seq<Seq<char>>
    decreases paths.len(),
{
    if paths.len() == 0 {
        Seq::empty()
    } else {
        let rest = repeated(paths.drop_last());
        if paths.drop_last().contains(paths.last()) && !rest.contains(paths.last()) {
            rest.push(paths.last())
        } else {
            rest
        }
    }
}

/// The values of a list of actions, in order.
pub open spec fn action_views(actions: Seq<ActionContext>) -> Seq<ActionView> {
    Seq::new(actions.len(), |i: int| actions[i]@)
}

/// The position of `name` in `names`.
pub open spec fn slot_of(names: Seq<Seq<char>>, name: Seq<char>) -> int {
    choose|i: int| 0 <= i < names.len() && names[i] == name
}

/// The map that leads from each of `names` to the action at the position
/// that `owner` gives for it.
pub open spec fn owned(actions: Seq<ActionView>, names: Seq<Seq<char>>, owner: Seq<usize>) -> Map<
    Seq<char>,
    ActionView,
> {
    Map::new(
        |path: Seq<char>| names.contains(path),
        |path: Seq<char>| actions[owner[slot_of(names, path)] as int],
    )
}

/// A path is indexed exactly if an action declares it, and the action it
/// leads to is one that declares it.
pub proof fn lemma_index_of_log(actions: Seq<ActionView>)
    ensures
        forall|path: Seq<char>| #[trigger]
            index_of_log(actions).contains_key(path) <==> all_outputs(actions).contains(path),
        forall|path: Seq<char>| #[trigger]
            index_of_log(actions).contains_key(path) ==> index_of_log(
                actions,
            )[path].listed_outputs.contains(path) && actions.contains(index_of_log(actions)[path]),
    decreases actions.len(),
{
    if actions.len() > 0 {
        let rest = actions.drop_last();
        let a = actions.last();
        lemma_index_of_log(rest);
        assert forall|path: Seq<char>| #[trigger]
            index_of_log(actions).contains_key(path) <==> all_outputs(actions).contains(
                path,
            ) by {
            let flat = all_outputs(rest);
            let both = all_outputs(actions);
            if both.contains(path) {
                let i = choose|i: int| 0 <= i < both.len() && both[i] == path;
                if i < flat.len() {
                    assert(flat[i] == path);
                    assert(flat.contains(path));
                    assert(index_of_log(rest).contains_key(path));
                } else {
                    assert(a.listed_outputs[i - flat.len()] == path);
                }
            }
            if index_of_log(rest).contains_key(path) {
                assert(flat.contains(path));
                let i = choose|i: int| 0 <= i < flat.len() && flat[i] == path;
                assert(both[i] == path);
            }
            if a.listed_outputs.contains(path) {
                let i = choose|i: int|
                    0 <= i < a.listed_outputs.len() && a.listed_outputs[i] == path;
                assert(both[flat.len() + i] == path);
            }
        }
        assert forall|path: Seq<char>| #[trigger]
            index_of_log(actions).contains_key(path) implies index_of_log(
            actions,
        )[path].listed_outputs.contains(path) && actions.contains(index_of_log(actions)[path]) by {
            if a.listed_outputs.contains(path) {
                assert(actions[actions.len() - 1] == a);
            } else {
                assert(index_of_log(rest).contains_key(path));
                let found = index_of_log(rest)[path];
                assert(rest.contains(found));
                let i = choose|i: int| 0 <= i < rest.len() && rest[i] == found;
                assert(actions[i] == found);
            }
        }
    }
}

/// An indexed path leads to the last action that declares it.
pub proof fn lemma_index_leads_to_last(actions: Seq<ActionView>, path: Seq<char>)
    requires
        index_of_log(actions).contains_key(path),
    ensures
        exists|i: int|
            0 <= i < actions.len() && index_of_log(actions)[path] == #[trigger] actions[i]
                && actions[i].listed_outputs.contains(path) && forall|j: int|
                i < j < actions.len() ==> !(#[trigger] actions[j]).listed_outputs.contains(path),
    decreases actions.len(),
{
    if actions.len() > 0 {
        let rest = actions.drop_last();
        let last = actions.last();
        if last.listed_outputs.contains(path) {
            let i = actions.len() - 1;
            assert(index_of_log(actions)[path] == actions[i]);
        } else {
            lemma_index_leads_to_last(rest, path);
            let i = choose|i: int|
                0 <= i < rest.len() && index_of_log(rest)[path] == #[trigger] rest[i]
                    && rest[i].listed_outputs.contains(path) && forall|j: int|
                    i < j < rest.len() ==> !(#[trigger] rest[j]).listed_outputs.contains(path);
            assert(actions[i] == rest[i]);
            assert forall|j: int| i < j < actions.len() implies !(
            #[trigger] actions[j]).listed_outputs.contains(path) by {
                if j < rest.len() {
                    assert(actions[j] == rest[j]);
                }
            }
        }
    }
}

/// A path is among the repeated ones exactly if it occurs at two places, and
/// no path is among them twice.
pub proof fn lemma_repeated(paths: Seq<Seq<char>>)
    ensures
        repeated(paths).no_duplicates(),
        forall|path: Seq<char>| #[trigger]
            repeated(paths).contains(path) <==> exists|i: int, j: int|
                0 <= i < j < paths.len() && #[trigger] paths[i] == path && #[trigger] paths[j]
                    == path,
    decreases paths.len(),
{
    if paths.len() > 0 {
        let rest = paths.drop_last();
        let last = paths.last();
        lemma_repeated(rest);
        assert forall|path: Seq<char>| #[trigger]
            repeated(paths).contains(path) <==> exists|i: int, j: int|
                0 <= i < j < paths.len() && #[trigger] paths[i] == path && #[trigger] paths[j]
                    == path by {
            let twice_before = exists|i: int, j: int|
                0 <= i < j < rest.len() && #[trigger] rest[i] == path && #[trigger] rest[j] == path;
            let twice = exists|i: int, j: int|
                0 <= i < j < paths.len() && #[trigger] paths[i] == path && #[trigger] paths[j]
                    == path;
            assert(repeated(rest).contains(path) <==> twice_before);
            if twice_before {
                let (i, j) = choose|i: int, j: int|
                    0 <= i < j < rest.len() && #[trigger] rest[i] == path && #[trigger] rest[j]
                        == path;
                assert(paths[i] == path && paths[j] == path);
            }
            if repeated(rest).contains(path) {
                let k = choose|k: int| 0 <= k < repeated(rest).len() && repeated(rest)[k] == path;
                assert(repeated(paths)[k] == path);
            }
            if twice {
                let (i, j) = choose|i: int, j: int|
                    0 <= i < j < paths.len() && #[trigger] paths[i] == path && #[trigger] paths[j]
                        == path;
                if j < rest.len() {
                    assert(rest[i] == path && rest[j] == path);
                } else {
                    assert(rest[i] == path);
                    assert(rest.contains(path));
                    assert(last == path);
                    if !repeated(rest).contains(path) {
                        assert(repeated(paths)[repeated(rest).len() as int] == path);
                    }
                }
            }
            if repeated(paths).contains(path) && !repeated(rest).contains(path) {
                let k = choose|k: int| 0 <= k < repeated(paths).len() && repeated(paths)[k] == path;
                if k < repeated(rest).len() {
                    assert(repeated(rest)[k] == path);
                }
                assert(last == path);
                assert(rest.contains(path));
                let i = choose|i: int| 0 <= i < rest.len() && rest[i] == path;
                assert(paths[i] == path && paths[paths.len() - 1] == path);
            }
        }
    }
}

/// The index of one log.
pub struct LogIndex {
    actions: Vec<ActionContext>,
    paths: NameTable,
    owner: Vec<usize>,
}

impl View for LogIndex {
    type V = Map<Seq<char>, ActionView>;

    closed spec fn view(&self) -> Map<Seq<char>, ActionView> {
        owned(action_views(self.actions@), self.paths@, self.owner@)
    }
}

impl LogIndex {
    /// The actions of the log, in the order of the log.
    pub closed spec fn actions(&self) -> Seq<ActionView> {
        action_views(self.actions@)
    }

    /// The indexed paths, in the order in which the log first declares them.
    pub closed spec fn paths(&self) -> Seq<Seq<char>> {
        self.paths@
    }

    /// The invariant of an index: it is the index of its actions.
    pub closed spec fn wf(&self) -> bool {
        &&& self.paths.wf()
        &&& self.owner@.len() == self.paths@.len()
        &&& forall|slot: int|
            0 <= slot < self.owner@.len() ==> (#[trigger] self.owner@[slot]) < self.actions@.len()
        &&& self@ == index_of_log(self.actions())
    }

    /// An index leads from exactly the paths it lists, of which there are
    /// finitely many and none twice, to the last action that declares the
    /// path.
    pub proof fn lemma_wf(&self)
        requires
            self.wf(),
        ensures
            self@ == index_of_log(self.actions()),
            self.paths().no_duplicates(),
            self@.dom() == self.paths().to_set(),
            self@.dom().finite(),
            self@.dom().len() == self.paths().len(),
            forall|path: Seq<char>| #[trigger]
                self@.contains_key(path) ==> self@[path].listed_outputs.contains(path),
    {
        self.paths.lemma_distinct();
        assert(self@.dom() =~= self.paths().to_set());
        self.paths().unique_seq_to_set();
        vstd::seq_lib::seq_to_set_is_finite(self.paths());
        lemma_index_of_log(self.actions());
    }

    /// The number of indexed paths.
    pub fn path_count(&self) -> (n: usize)
        ensures
            n == self.paths().len(),
    {
        self.paths.len()
    }

    /// The `i`-th indexed path.
    pub fn path(&self, i: usize) -> (path: &String)
        requires
            i < self.paths().len(),
        ensures
            path@ == self.paths()[i as int],
    {
        self.paths.name(i)
    }

    /// The action that the index gives for `path`.
    pub fn get(&self, path: &String) -> (found: Option<&ActionContext>)
        requires
            self.wf(),
        ensures
            match found {
                Some(action) => self@.contains_key(path@) && action@ == self@[path@],
                None => !self@.contains_key(path@),
            },
    {
        match self.paths.find(path) {
            Some(slot) => {
                proof {
                    self.paths.lemma_distinct();
                    assert(self.paths@.contains(path@));
                    assert(slot_of(self.paths@, path@) == slot);
                }
                Some(&self.actions[self.owner[slot]])
            },
            None => None,
        }
    }

    /// Indexes the actions of one log. Where several actions declare a path,
    /// or one declares it twice, the path leads to the last of them; such
    /// paths are returned beside the index.
    pub fn build(actions: Vec<ActionContext>) -> (built: (LogIndex, Vec<String>))
        ensures
            built.0.wf(),
            built.0.actions() == action_views(actions@),
            built.0@ == index_of_log(action_views(actions@)),
            strings_view(built.1@) == repeated(all_outputs(action_views(actions@))),
    {
        let ghost views = action_views(actions@);
        let mut paths = NameTable::new();
        let mut owner: Vec<usize> = Vec::new();
        let mut again = NameTable::new();
        let mut ambiguous: Vec<String> = Vec::new();
        let ghost mut flat: Seq<Seq<char>> = Seq::empty();
        let n = actions.len();
        let mut r: usize = 0;
        proof {
            assert(views.take(0) =~= Seq::<ActionView>::empty());
            assert(owned(views, paths@, owner@) =~= index_of_log(views.take(0)));
            assert(strings_view(ambiguous@) =~= again@);
        }
        while r < n
            invariant
                n == actions@.len(),
                views == action_views(actions@),
                r <= n,
                paths.wf(),
                again.wf(),
                owner@.len() == paths@.len(),
                forall|slot: int| 0 <= slot < owner@.len() ==> (#[trigger] owner@[slot]) < n,
                flat == all_outputs(views.take(r as int)),
                forall|path: Seq<char>| #[trigger] paths@.contains(path) <==> flat.contains(path),
                owned(views, paths@, owner@) == index_of_log(views.take(r as int)),
                again@ == repeated(flat),
                strings_view(ambiguous@) == again@,
            decreases n - r,
        {
            let action = &actions[r];
            let len = action.listed_outputs.len();
            let ghost outs = views[r as int].listed_outputs;
            let ghost base = index_of_log(views.take(r as int));
            let ghost before = flat;
            let mut j: usize = 0;
            proof {
                assert(outs.take(0) =~= Seq::<Seq<char>>::empty());
                assert(before + outs.take(0) =~= before);
                assert(base.union_prefer_right(
                    Map::new(
                        |path: Seq<char>| outs.take(0).contains(path),
                        |path: Seq<char>| views[r as int],
                    ),
                ) =~= base);
            }
            while j < len
                invariant
                    n == actions@.len(),
                    views == action_views(actions@),
                    r < n,
                    *action == actions@[r as int],
                    outs == views[r as int].listed_outputs,
                    len == outs.len(),
                    j <= len,
                    paths.wf(),
                    again.wf(),
                    owner@.len() == paths@.len(),
                    forall|slot: int| 0 <= slot < owner@.len() ==> (#[trigger] owner@[slot]) < n,
                    before == all_outputs(views.take(r as int)),
                    base == index_of_log(views.take(r as int)),
                    flat == before + outs.take(j as int),
                    forall|path: Seq<char>| #[trigger]
                        paths@.contains(path) <==> flat.contains(path),
                    owned(views, paths@, owner@) == base.union_prefer_right(
                        Map::new(
                            |path: Seq<char>| outs.take(j as int).contains(path),
                            |path: Seq<char>| views[r as int],
                        ),
                    ),
                    again@ == repeated(flat),
                    strings_view(ambiguous@) == again@,
                decreases len - j,
            {
                let path = &action.listed_outputs[j];
                let ghost key = path@;
                let ghost names = paths@;
                let ghost owner0 = owner@;
                let ghost flat2 = flat.push(key);
                let ghost before_step = flat;
                proof {
                    assert(key == outs[j as int]);
                    assert(outs.take(j + 1) =~= outs.take(j as int).push(key));
                    assert(before + outs.take(j + 1) =~= flat2);
                    assert(flat2.drop_last() =~= flat);
                    assert(flat2.last() == key);
                    paths.lemma_distinct();
                    assert forall|p: Seq<char>| flat2.contains(p) <==> (flat.contains(p) || p
                        == key) by {
                        if flat.contains(p) {
                            let i = choose|i: int| 0 <= i < flat.len() && flat[i] == p;
                            assert(flat2[i] == p);
                        }
                        if p == key {
                            assert(flat2[flat.len() as int] == p);
                        }
                        if flat2.contains(p) {
                            let i = choose|i: int| 0 <= i < flat2.len() && flat2[i] == p;
                            if i < flat.len() {
                                assert(flat[i] == p);
                            }
                        }
                    }
                    assert forall|p: Seq<char>| outs.take(j + 1).contains(p) <==> (outs.take(
                        j as int,
                    ).contains(p) || p == key) by {
                        let a = outs.take(j as int);
                        let b = outs.take(j + 1);
                        if a.contains(p) {
                            let i = choose|i: int| 0 <= i < a.len() && a[i] == p;
                            assert(b[i] == p);
                        }
                        if p == key {
                            assert(b[j as int] == p);
                        }
                        if b.contains(p) {
                            let i = choose|i: int| 0 <= i < b.len() && b[i] == p;
                            if i < j {
                                assert(a[i] == p);
                            }
                        }
                    }
                }
                match paths.find(path) {
                    Some(slot) => {
                        owner.set(slot, r);
                        proof {
                            assert(names.contains(key));
                            assert(flat.contains(key));
                            assert forall|p: Seq<char>| names.contains(p) implies owned(
                                views,
                                names,
                                owner@,
                            )[p] == (if p == key {
                                views[r as int]
                            } else {
                                owned(views, names, owner0)[p]
                            }) by {
                                let i = slot_of(names, p);
                                if p == key {
                                    assert(i == slot);
                                } else {
                                    assert(i != slot);
                                }
                            }
                        }
                        assert forall|p: Seq<char>| paths@.contains(p) <==> (names.contains(p)
                            || p == key) by {}
                        if again.find(path).is_none() {
                            again.push(path.clone());
                            ambiguous.push(path.clone());
                            assert(strings_view(ambiguous@) =~= again@);
                        }
                    },
                    None => {
                        paths.push(path.clone());
                        owner.push(r);
                        proof {
                            assert(!flat.contains(key));
                            paths.lemma_distinct();
                            assert forall|p: Seq<char>| paths@.contains(p) <==> (names.contains(
                                p,
                            ) || p == key) by {
                                if names.contains(p) {
                                    let i = choose|i: int| 0 <= i < names.len() && names[i] == p;
                                    assert(paths@[i] == p);
                                }
                                if p == key {
                                    assert(paths@[names.len() as int] == p);
                                }
                                if paths@.contains(p) {
                                    let i = choose|i: int| 0 <= i < paths@.len() && paths@[i] == p;
                                    if i < names.len() {
                                        assert(names[i] == p);
                                    }
                                }
                            }
                            assert forall|p: Seq<char>| paths@.contains(p) implies owned(
                                views,
                                paths@,
                                owner@,
                            )[p] == (if p == key {
                                views[r as int]
                            } else {
                                owned(views, names, owner0)[p]
                            }) by {
                                let i = slot_of(paths@, p);
                                if p == key {
                                    assert(paths@[names.len() as int] == key);
                                    assert(i == names.len());
                                } else {
                                    assert(names.contains(p));
                                    let i0 = slot_of(names, p);
                                    assert(paths@[i0] == p);
                                    assert(i == i0);
                                }
                            }
                        }
                    },
                }
                proof {
                    flat = flat2;
                    let old_map = owned(views, names, owner0);
                    let new_map = owned(views, paths@, owner@);
                    let target = base.union_prefer_right(
                        Map::new(
                            |path: Seq<char>| outs.take(j + 1).contains(path),
                            |path: Seq<char>| views[r as int],
                        ),
                    );
                    assert forall|p: Seq<char>| #[trigger]
                        paths@.contains(p) <==> flat2.contains(p) by {
                        assert(paths@.contains(p) <==> (names.contains(p) || p == key));
                        assert(flat2.contains(p) <==> (before_step.contains(p) || p == key));
                        assert(names.contains(p) <==> before_step.contains(p));
                    }
                    assert forall|p: Seq<char>| new_map.dom().contains(p) <==> target.dom().contains(
                        p,
                    ) by {
                        assert(paths@.contains(p) <==> (names.contains(p) || p == key));
                        assert(old_map.dom().contains(p) <==> names.contains(p));
                        assert(outs.take(j + 1).contains(p) <==> (outs.take(j as int).contains(p)
                            || p == key));
                    }
                    assert forall|p: Seq<char>| new_map.dom().contains(p) implies new_map[p]
                        == target[p] by {
                        assert(paths@.contains(p));
                        assert(new_map[p] == (if p == key {
                            views[r as int]
                        } else {
                            old_map[p]
                        }));
                        assert(outs.take(j + 1).contains(p) <==> (outs.take(j as int).contains(p)
                            || p == key));
                        if p != key {
                            assert(names.contains(p));
                            assert(old_map.dom().contains(p));
                        }
                    }
                    assert(new_map =~= target);
                }
                j += 1;
            }
            proof {
                assert(outs.take(len as int) =~= outs);
                let upto = views.take(r + 1);
                assert(upto.drop_last() =~= views.take(r as int));
                assert(upto.last() == views[r as int]);
                assert(Map::new(
                    |path: Seq<char>| outs.contains(path),
                    |path: Seq<char>| views[r as int],
                ) =~= declares(views[r as int]));
            }
            r += 1;
        }
        assert(views.take(n as int) =~= views);
        let index = LogIndex { actions, paths, owner };
        (index, ambiguous)
    }
}

} // verus!

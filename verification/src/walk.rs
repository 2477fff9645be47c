//! The walk from one artifact along mismatched inputs: an artifact whose
//! outputs differ between the logs may differ because one of its inputs
//! does, so every mismatched input is compared in turn.

use vstd::prelude::*;
use crate::compare::{
    find_mismatched,
    labelled,
    mismatch_views,
    mismatched,
    Field,
    Mismatch,
    MismatchSets,
    MismatchSetsView,
    MismatchView,
};
use crate::index::LogIndex;
use crate::names::NameTable;
use crate::query::{all_wf, found_in_all, get_named, index_views, records_of, Logs};
use crate::record::strings_view;

verus! {

/// The keys of one part that mismatch for `artifact` across the logs.
pub open spec fn mismatched_at(field: Field, logs: Logs, artifact: Seq<char>) -> Seq<Seq<char>> {
    mismatched(field, records_of(logs, artifact))
}

/// Whether the walk goes on from `a` to `b`: every log has `a`, and `b` is a
/// mismatched input of `a`.
pub open spec fn feeds(logs: Logs, a: Seq<char>, b: Seq<char>) -> bool {
    found_in_all(logs, a) && mismatched_at(Field::Inputs, logs, a).contains(b)
}

/// Whether `trail` is a way that the walk from `root` can take.
pub open spec fn is_trail(logs: Logs, root: Seq<char>, trail: Seq<Seq<char>>) -> bool {
    &&& trail.len() > 0
    &&& trail[0] == root
    &&& forall|i: int| 0 <= i < trail.len() - 1 ==> feeds(logs, #[trigger] trail[i], trail[i + 1])
}

/// Whether the walk from `root` comes to `artifact`.
pub open spec fn leads_to(logs: Logs, root: Seq<char>, artifact: Seq<char>) -> bool {
    exists|trail: Seq<Seq<char>>| #[trigger] is_trail(logs, root, trail) && trail.last() == artifact
}

/// Whether the walk from `root` compares `artifact`: it comes to it, and
/// every log has it.
pub open spec fn reached(logs: Logs, root: Seq<char>, artifact: Seq<char>) -> bool {
    found_in_all(logs, artifact) && leads_to(logs, root, artifact)
}

/// Whether one of the findings reports `key`.
pub open spec fn key_reported(found: Seq<MismatchView>, key: Seq<char>) -> bool {
    exists|i: int| 0 <= i < found.len() && (#[trigger] found[i]).key == key
}

/// Whether `found` is what the walk from `root` reports for one part: every
/// finding is a mismatch of an artifact that the walk compares, every such
/// mismatch is reported, and no key is reported twice.
pub open spec fn reports(field: Field, logs: Logs, root: Seq<char>, found: Seq<MismatchView>) -> bool {
    &&& forall|i: int|
        0 <= i < found.len() ==> reached(logs, root, (#[trigger] found[i]).artifact)
            && mismatched_at(field, logs, found[i].artifact).contains(found[i].key)
    &&& forall|i: int, j: int|
        0 <= i < j < found.len() ==> (#[trigger] found[i]).key != (#[trigger] found[j]).key
    &&& forall|artifact: Seq<char>, key: Seq<char>|
        reached(logs, root, artifact) && #[trigger] mismatched_at(field, logs, artifact).contains(
            key,
        ) ==> key_reported(found, key)
}

/// Whether `sets` is what the walk from `root` reports.
pub open spec fn is_closure(logs: Logs, root: Seq<char>, sets: MismatchSetsView) -> bool {
    &&& reports(Field::Environment, logs, root, sets.env_vars)
    &&& reports(Field::Inputs, logs, root, sets.inputs)
    &&& reports(Field::Outputs, logs, root, sets.outputs)
}

/// The keys of a list of findings, in order.
pub open spec fn finding_keys(found: Seq<MismatchView>) -> Seq<Seq<char>> {
    Seq::new(found.len(), |i: int| found[i].key)
}

/// What has been gathered for one part while `visited` have been compared:
/// all their mismatches and nothing else.
spec fn gathers(field: Field, logs: Logs, visited: Seq<Seq<char>>, found: Seq<MismatchView>) -> bool {
    &&& forall|i: int|
        0 <= i < found.len() ==> visited.contains((#[trigger] found[i]).artifact)
            && mismatched_at(field, logs, found[i].artifact).contains(found[i].key)
    &&& forall|artifact: Seq<char>, key: Seq<char>|
        visited.contains(artifact) && #[trigger] mismatched_at(field, logs, artifact).contains(
            key,
        ) ==> key_reported(found, key)
}

/// Where the walk stands: what has been compared was to be compared, what
/// waits is on a way from the root, and whatever a compared artifact feeds
/// has been compared, waits, or is missing from a log.
spec fn on_the_way(
    logs: Logs,
    root: Seq<char>,
    visited: Seq<Seq<char>>,
    waiting: Seq<Seq<char>>,
) -> bool {
    &&& forall|a: Seq<char>| #[trigger] visited.contains(a) ==> reached(logs, root, a)
    &&& forall|i: int| 0 <= i < waiting.len() ==> leads_to(logs, root, #[trigger] waiting[i])
    &&& forall|a: Seq<char>, b: Seq<char>|
        visited.contains(a) && #[trigger] feeds(logs, a, b) ==> visited.contains(b)
            || waiting.contains(b) || !found_in_all(logs, b)
    &&& visited.contains(root) || waiting.contains(root) || !found_in_all(logs, root)
}

/// Once nothing waits, everything that the walk was to compare has been
/// compared.
proof fn lemma_walk_complete(
    logs: Logs,
    root: Seq<char>,
    visited: Seq<Seq<char>>,
    trail: Seq<Seq<char>>,
    i: int,
)
    requires
        on_the_way(logs, root, visited, Seq::empty()),
        is_trail(logs, root, trail),
        0 <= i < trail.len(),
        found_in_all(logs, trail[i]),
    ensures
        visited.contains(trail[i]),
    decreases i,
{
    let none = Seq::<Seq<char>>::empty();
    if i > 0 {
        assert(feeds(logs, trail[i - 1], trail[i - 1 + 1]));
        lemma_walk_complete(logs, root, visited, trail, i - 1);
        assert(!none.contains(trail[i]));
    } else {
        assert(!none.contains(root));
    }
}

/// With no logs there is nothing to compare.
proof fn lemma_no_logs(field: Field, logs: Logs, artifact: Seq<char>)
    requires
        logs.len() == 0,
    ensures
        mismatched_at(field, logs, artifact) == Seq::<Seq<char>>::empty(),
{
    reveal(Seq::filter);
    assert(records_of(logs, artifact) =~= Seq::empty());
}

/// No more artifacts can have been compared than the first log has paths.
proof fn lemma_bounded(logs: Logs, visited: Seq<Seq<char>>)
    requires
        logs.len() > 0,
        logs[0].dom().finite(),
        visited.no_duplicates(),
        forall|a: Seq<char>| #[trigger] visited.contains(a) ==> found_in_all(logs, a),
    ensures
        visited.len() <= logs[0].dom().len(),
{
    visited.unique_seq_to_set();
    assert forall|a: Seq<char>| visited.to_set().contains(a) implies logs[0].dom().contains(a) by {
        assert(visited.contains(a));
        assert(found_in_all(logs, a));
        assert(logs[0].contains_key(a));
    }
    vstd::set_lib::lemma_len_subset(visited.to_set(), logs[0].dom());
}

/// The findings gathered for one part, and their keys for finding a key
/// again.
struct Gathered {
    keys: NameTable,
    found: Vec<Mismatch>,
}

impl Gathered {
    spec fn wf(&self) -> bool {
        self.keys.wf() && self.keys@ == finding_keys(mismatch_views(self.found@))
    }

    fn new() -> (g: Gathered)
        ensures
            g.wf(),
            g.found@.len() == 0,
    {
        let g = Gathered { keys: NameTable::new(), found: Vec::new() };
        assert(g.keys@ =~= finding_keys(mismatch_views(g.found@)));
        g
    }

    /// Adds the findings of `more` whose key has not been reported yet.
    fn merge(&mut self, more: &Vec<Mismatch>)
        requires
            old(self).wf(),
        ensures
            final(self).wf(),
            extends(
                mismatch_views(old(self).found@),
                mismatch_views(final(self).found@),
                mismatch_views(more@),
            ),
    {
        let ghost start = mismatch_views(self.found@);
        let ghost extra = mismatch_views(more@);
        let mut j: usize = 0;
        while j < more.len()
            invariant
                j <= more.len(),
                self.wf(),
                extra == mismatch_views(more@),
                mismatch_views(self.found@).len() >= start.len(),
                forall|i: int|
                    0 <= i < start.len() ==> (#[trigger] mismatch_views(self.found@)[i])
                        == start[i],
                forall|i: int|
                    start.len() <= i < mismatch_views(self.found@).len() ==> extra.contains(
                        #[trigger] mismatch_views(self.found@)[i],
                    ),
                forall|k: int|
                    0 <= k < j ==> key_reported(
                        mismatch_views(self.found@),
                        (#[trigger] extra[k]).key,
                    ),
            decreases more.len() - j,
        {
            let ghost before = mismatch_views(self.found@);
            let item = &more[j];
            assert(extra[j as int] == item@);
            match self.keys.find(&item.key) {
                Some(at) => {
                    assert(before[at as int].key == item@.key);
                },
                None => {
                    let copy = Mismatch { artifact: item.artifact.clone(), key: item.key.clone() };
                    assert(copy@ == item@);
                    self.keys.push(item.key.clone());
                    self.found.push(copy);
                    proof {
                        let after = mismatch_views(self.found@);
                        assert(after =~= before.push(item@));
                        assert(self.keys@ =~= finding_keys(after));
                        assert(after[before.len() as int].key == item@.key);
                        assert forall|k: int| 0 <= k < j implies key_reported(
                            after,
                            (#[trigger] extra[k]).key,
                        ) by {
                            assert(key_reported(before, extra[k].key));
                            let i = choose|i: int|
                                0 <= i < before.len() && (#[trigger] before[i]).key == extra[k].key;
                            assert(after[i].key == extra[k].key);
                        }
                    }
                },
            }
            j += 1;
        }
    }
}

/// Whether `after` is `before` with findings of `more` behind it, so that
/// every key of `more` is reported.
spec fn extends(before: Seq<MismatchView>, after: Seq<MismatchView>, more: Seq<MismatchView>) -> bool {
    &&& after.len() >= before.len()
    &&& forall|i: int| 0 <= i < before.len() ==> (#[trigger] after[i]) == before[i]
    &&& forall|i: int| before.len() <= i < after.len() ==> more.contains(#[trigger] after[i])
    &&& forall|j: int| 0 <= j < more.len() ==> key_reported(after, (#[trigger] more[j]).key)
}

/// What a step of the walk keeps of what has been gathered: after
/// `artifact` has been compared and its findings merged, all mismatches of
/// what has been compared are gathered.
proof fn lemma_gathers_more(
    field: Field,
    logs: Logs,
    visited: Seq<Seq<char>>,
    artifact: Seq<char>,
    before: Seq<MismatchView>,
    after: Seq<MismatchView>,
    more: Seq<MismatchView>,
)
    requires
        gathers(field, logs, visited, before),
        more == labelled(artifact, mismatched_at(field, logs, artifact)),
        extends(before, after, more),
    ensures
        gathers(field, logs, visited.push(artifact), after),
{
    let seen = visited.push(artifact);
    let keys = mismatched_at(field, logs, artifact);
    assert(seen[visited.len() as int] == artifact);
    assert forall|i: int| 0 <= i < after.len() implies seen.contains((#[trigger] after[i]).artifact)
        && mismatched_at(field, logs, after[i].artifact).contains(after[i].key) by {
        if i < before.len() {
            assert(after[i] == before[i]);
            assert(visited.contains(before[i].artifact));
            let k = choose|k: int| 0 <= k < visited.len() && visited[k] == before[i].artifact;
            assert(seen[k] == before[i].artifact);
        } else {
            assert(more.contains(after[i]));
            let j = choose|j: int| 0 <= j < more.len() && more[j] == after[i];
            assert(more[j].artifact == artifact);
            assert(keys[j] == more[j].key);
        }
    }
    assert forall|a: Seq<char>, key: Seq<char>|
        seen.contains(a) && #[trigger] mismatched_at(field, logs, a).contains(
            key,
        ) implies key_reported(after, key) by {
        if a == artifact {
            let j = choose|j: int| 0 <= j < keys.len() && keys[j] == key;
            assert(more[j].key == key);
            assert(key_reported(after, more[j].key));
        } else {
            let k = choose|k: int| 0 <= k < seen.len() && seen[k] == a;
            assert(visited[k] == a);
            assert(visited.contains(a));
            assert(key_reported(before, key));
            let i = choose|i: int| 0 <= i < before.len() && (#[trigger] before[i]).key == key;
            assert(after[i].key == key);
        }
    }
}

/// A step of the walk that compares nothing: the artifact has been compared
/// before, or a log does not have it.
proof fn lemma_step_skip(
    logs: Logs,
    root: Seq<char>,
    visited: Seq<Seq<char>>,
    rest: Seq<Seq<char>>,
    a: Seq<char>,
)
    requires
        on_the_way(logs, root, visited, rest.push(a)),
        visited.contains(a) || !found_in_all(logs, a),
    ensures
        on_the_way(logs, root, visited, rest),
{
    let waiting = rest.push(a);
    assert forall|i: int| 0 <= i < rest.len() implies leads_to(logs, root, #[trigger] rest[i]) by {
        assert(waiting[i] == rest[i]);
    }
    assert forall|b: Seq<char>| waiting.contains(b) implies rest.contains(b) || b == a by {
        let i = choose|i: int| 0 <= i < waiting.len() && waiting[i] == b;
        if i < rest.len() {
            assert(rest[i] == b);
        }
    }
}

/// A step of the walk that compares `a`: what `a` feeds waits from now on.
proof fn lemma_step_visit(
    logs: Logs,
    root: Seq<char>,
    visited: Seq<Seq<char>>,
    rest: Seq<Seq<char>>,
    a: Seq<char>,
)
    requires
        on_the_way(logs, root, visited, rest.push(a)),
        found_in_all(logs, a),
    ensures
        on_the_way(
            logs,
            root,
            visited.push(a),
            rest + mismatched_at(Field::Inputs, logs, a),
        ),
{
    let waiting = rest.push(a);
    let next = mismatched_at(Field::Inputs, logs, a);
    let seen = visited.push(a);
    let queue = rest + next;
    assert(waiting[rest.len() as int] == a);
    assert(leads_to(logs, root, a));
    assert(seen[visited.len() as int] == a);
    assert forall|x: Seq<char>| seen.contains(x) implies visited.contains(x) || x == a by {
        let i = choose|i: int| 0 <= i < seen.len() && seen[i] == x;
        if i < visited.len() {
            assert(visited[i] == x);
        }
    }
    assert forall|x: Seq<char>| visited.contains(x) implies seen.contains(x) by {
        let i = choose|i: int| 0 <= i < visited.len() && visited[i] == x;
        assert(seen[i] == x);
    }
    assert forall|b: Seq<char>| waiting.contains(b) implies queue.contains(b) || b == a by {
        let i = choose|i: int| 0 <= i < waiting.len() && waiting[i] == b;
        if i < rest.len() {
            assert(queue[i] == b);
        }
    }
    assert forall|b: Seq<char>| next.contains(b) implies queue.contains(b) by {
        let i = choose|i: int| 0 <= i < next.len() && next[i] == b;
        assert(queue[rest.len() + i] == b);
    }
    assert forall|i: int| 0 <= i < queue.len() implies leads_to(logs, root, #[trigger] queue[i]) by {
        if i < rest.len() {
            assert(waiting[i] == queue[i]);
        } else {
            let b = queue[i];
            assert(next[i - rest.len()] == b);
            assert(feeds(logs, a, b));
            let trail = choose|trail: Seq<Seq<char>>| #[trigger]
                is_trail(logs, root, trail) && trail.last() == a;
            let longer = trail.push(b);
            assert forall|k: int| 0 <= k < longer.len() - 1 implies feeds(
                logs,
                #[trigger] longer[k],
                longer[k + 1],
            ) by {
                if k < trail.len() - 1 {
                    assert(feeds(logs, trail[k], trail[k + 1]));
                }
            }
            assert(is_trail(logs, root, longer));
            assert(longer.last() == b);
        }
    }
    assert forall|x: Seq<char>, b: Seq<char>|
        seen.contains(x) && #[trigger] feeds(logs, x, b) implies seen.contains(b) || queue.contains(
        b,
    ) || !found_in_all(logs, b) by {
        if x != a {
            assert(visited.contains(x));
        }
    }
}

/// What has been gathered once nothing waits is what the walk reports.
proof fn lemma_reports(
    field: Field,
    logs: Logs,
    root: Seq<char>,
    visited: Seq<Seq<char>>,
    found: Seq<MismatchView>,
)
    requires
        on_the_way(logs, root, visited, Seq::empty()),
        gathers(field, logs, visited, found),
        finding_keys(found).no_duplicates(),
    ensures
        reports(field, logs, root, found),
{
    assert forall|i: int, j: int| 0 <= i < j < found.len() implies (#[trigger] found[i]).key != (
    #[trigger] found[j]).key by {
        assert(finding_keys(found)[i] == found[i].key);
        assert(finding_keys(found)[j] == found[j].key);
    }
    assert forall|artifact: Seq<char>, key: Seq<char>|
        reached(logs, root, artifact) && #[trigger] mismatched_at(field, logs, artifact).contains(
            key,
        ) implies key_reported(found, key) by {
        let trail = choose|trail: Seq<Seq<char>>| #[trigger]
            is_trail(logs, root, trail) && trail.last() == artifact;
        lemma_walk_complete(logs, root, visited, trail, trail.len() - 1);
    }
}

/// Walks from `root` and gathers what the comparisons on the way report.
fn walk(root: &String, maps: &Vec<LogIndex>) -> (sets: MismatchSets)
    requires
        all_wf(maps@),
    ensures
        is_closure(index_views(maps@), root@, sets@),
{
    let ghost logs = index_views(maps@);
    let mut env = Gathered::new();
    let mut inputs = Gathered::new();
    let mut outputs = Gathered::new();
    if maps.len() == 0 {
        proof {
            assert forall|field: Field, artifact: Seq<char>, key: Seq<char>|
                !(#[trigger] mismatched_at(field, logs, artifact).contains(key)) by {
                lemma_no_logs(field, logs, artifact);
            }
        }
        return MismatchSets { env_vars: env.found, inputs: inputs.found, outputs: outputs.found };
    }
    let mut visited = NameTable::new();
    let mut waiting: Vec<String> = Vec::new();
    waiting.push(root.clone());
    proof {
        assert(maps@[0].wf());
        maps@[0].lemma_wf();
        assert(logs[0] == maps@[0]@);
        let start = seq![root@];
        assert(is_trail(logs, root@, start));
        assert(start.last() == root@);
        assert(strings_view(waiting@) =~= start);
        assert(start[0] == root@);
    }
    while waiting.len() > 0
        invariant
            all_wf(maps@),
            logs == index_views(maps@),
            logs.len() > 0,
            logs[0].dom().finite(),
            visited.wf(),
            visited@.len() <= logs[0].dom().len(),
            on_the_way(logs, root@, visited@, strings_view(waiting@)),
            env.wf(),
            inputs.wf(),
            outputs.wf(),
            gathers(Field::Environment, logs, visited@, mismatch_views(env.found@)),
            gathers(Field::Inputs, logs, visited@, mismatch_views(inputs.found@)),
            gathers(Field::Outputs, logs, visited@, mismatch_views(outputs.found@)),
        decreases logs[0].dom().len() - visited@.len(), waiting@.len(),
    {
        let ghost queue = strings_view(waiting@);
        let ghost seen = visited@;
        let artifact = waiting.pop().unwrap();
        let ghost rest = strings_view(waiting@);
        assert(queue =~= rest.push(artifact@));
        let known = visited.find(&artifact).is_some();
        let actions = if known {
            None
        } else {
            get_named(maps, &artifact)
        };
        match actions {
            Some(actions) => {
                let found = find_mismatched(artifact.as_str(), &actions);
                let ghost next = mismatched_at(Field::Inputs, logs, artifact@);
                let mut i: usize = 0;
                assert(next.take(0) =~= Seq::<Seq<char>>::empty());
                assert(strings_view(waiting@) =~= rest + next.take(0));
                assert(mismatch_views(found.inputs@).len() == found.inputs@.len());
                assert(labelled(artifact@, next).len() == next.len());
                while i < found.inputs.len()
                    invariant
                        i <= found.inputs@.len(),
                        next.len() == found.inputs@.len(),
                        mismatch_views(found.inputs@) == labelled(artifact@, next),
                        strings_view(waiting@) == rest + next.take(i as int),
                    decreases found.inputs.len() - i,
                {
                    let ghost before = strings_view(waiting@);
                    assert(mismatch_views(found.inputs@)[i as int] == labelled(
                        artifact@,
                        next,
                    )[i as int]);
                    assert(found.inputs@[i as int]@.key == next[i as int]);
                    waiting.push(found.inputs[i].key.clone());
                    assert(strings_view(waiting@) =~= before.push(next[i as int]));
                    assert(rest + next.take(i + 1) =~= (rest + next.take(i as int)).push(
                        next[i as int],
                    ));
                    i += 1;
                }
                assert(mismatch_views(found.inputs@).len() == next.len());
                assert(next.take(i as int) =~= next);
                let ghost env0 = mismatch_views(env.found@);
                let ghost inputs0 = mismatch_views(inputs.found@);
                let ghost outputs0 = mismatch_views(outputs.found@);
                env.merge(&found.env_vars);
                inputs.merge(&found.inputs);
                outputs.merge(&found.outputs);
                proof {
                    lemma_step_visit(logs, root@, seen, rest, artifact@);
                    lemma_gathers_more(
                        Field::Environment,
                        logs,
                        seen,
                        artifact@,
                        env0,
                        mismatch_views(env.found@),
                        mismatch_views(found.env_vars@),
                    );
                    lemma_gathers_more(
                        Field::Inputs,
                        logs,
                        seen,
                        artifact@,
                        inputs0,
                        mismatch_views(inputs.found@),
                        mismatch_views(found.inputs@),
                    );
                    lemma_gathers_more(
                        Field::Outputs,
                        logs,
                        seen,
                        artifact@,
                        outputs0,
                        mismatch_views(outputs.found@),
                        mismatch_views(found.outputs@),
                    );
                }
                visited.push(artifact);
                proof {
                    visited.lemma_distinct();
                    lemma_bounded(logs, visited@);
                }
            },
            None => {
                proof {
                    lemma_step_skip(logs, root@, seen, rest, artifact@);
                }
            },
        }
    }
    proof {
        assert(strings_view(waiting@) =~= Seq::<Seq<char>>::empty());
        env.keys.lemma_distinct();
        inputs.keys.lemma_distinct();
        outputs.keys.lemma_distinct();
        lemma_reports(Field::Environment, logs, root@, visited@, mismatch_views(env.found@));
        lemma_reports(Field::Inputs, logs, root@, visited@, mismatch_views(inputs.found@));
        lemma_reports(Field::Outputs, logs, root@, visited@, mismatch_views(outputs.found@));
    }
    MismatchSets { env_vars: env.found, inputs: inputs.found, outputs: outputs.found }
}

/// Compares `root` and everything that the comparisons lead to: whenever an
/// artifact that every log has shows mismatched inputs, those inputs are
/// compared in turn. An artifact that is missing from a log is passed over.
/// Each mismatched key is reported once, for one of the artifacts that
/// show it.
pub fn transitive_cmp(root: &str, maps: &Vec<LogIndex>) -> (sets: MismatchSets)
    requires
        all_wf(maps@),
    ensures
        is_closure(index_views(maps@), root@, sets@),
        !found_in_all(index_views(maps@), root@) ==> sets.env_vars@.len() == 0
            && sets.inputs@.len() == 0 && sets.outputs@.len() == 0,
{
    let name = root.to_owned();
    let sets = walk(&name, maps);
    proof {
        let logs = index_views(maps@);
        if !found_in_all(logs, root@) {
            lemma_missing_root(Field::Environment, logs, root@, sets@.env_vars);
            lemma_missing_root(Field::Inputs, logs, root@, sets@.inputs);
            lemma_missing_root(Field::Outputs, logs, root@, sets@.outputs);
        }
    }
    sets
}

/// The test of a finding whose key none of `others` reports.
pub open spec fn not_among(others: Seq<MismatchView>) -> spec_fn(MismatchView) -> bool {
    |m: MismatchView| !key_reported(others, m.key)
}

/// What is left of what the walk reports when every path is taken out that
/// is both a mismatched input and a mismatched output: such a path lies in
/// the middle of the way, not at its end.
pub open spec fn frontier(sets: MismatchSetsView) -> MismatchSetsView {
    MismatchSetsView {
        env_vars: sets.env_vars,
        inputs: sets.inputs.filter(not_among(sets.outputs)),
        outputs: sets.outputs.filter(not_among(sets.inputs)),
    }
}

/// The keys of `found`, for finding a key again.
fn key_table(found: &Vec<Mismatch>) -> (keys: NameTable)
    ensures
        keys.wf(),
        forall|key: Seq<char>| #[trigger]
            keys@.contains(key) <==> key_reported(mismatch_views(found@), key),
{
    let mut keys = NameTable::new();
    let ghost all = mismatch_views(found@);
    let mut i: usize = 0;
    while i < found.len()
        invariant
            i <= found.len(),
            keys.wf(),
            all == mismatch_views(found@),
            forall|key: Seq<char>| #[trigger]
                keys@.contains(key) <==> key_reported(all.take(i as int), key),
        decreases found.len() - i,
    {
        let ghost before = keys@;
        let ghost key = found@[i as int]@.key;
        if keys.find(&found[i].key).is_none() {
            keys.push(found[i].key.clone());
        }
        proof {
            let a = all.take(i as int);
            let b = all.take(i + 1);
            assert(b[i as int].key == key);
            assert forall|k: Seq<char>| #[trigger]
                keys@.contains(k) <==> key_reported(b, k) by {
                assert(before.contains(k) <==> key_reported(a, k));
                if key_reported(a, k) {
                    let j = choose|j: int| 0 <= j < a.len() && (#[trigger] a[j]).key == k;
                    assert(b[j].key == k);
                }
                if key_reported(b, k) && k != key {
                    let j = choose|j: int| 0 <= j < b.len() && (#[trigger] b[j]).key == k;
                    assert(a[j].key == k);
                }
                if before.contains(k) {
                    let j = choose|j: int| 0 <= j < before.len() && before[j] == k;
                    assert(keys@[j] == k);
                }
                if keys@.contains(k) && k != key {
                    let j = choose|j: int| 0 <= j < keys@.len() && keys@[j] == k;
                    assert(before[j] == k);
                }
                if k == key && !before.contains(k) {
                    assert(keys@[before.len() as int] == k);
                }
            }
        }
        i += 1;
    }
    assert(all.take(i as int) =~= all);
    keys
}

/// The findings of `found` whose key none of `others` reports.
fn without(found: &Vec<Mismatch>, others: &Vec<Mismatch>) -> (kept: Vec<Mismatch>)
    ensures
        mismatch_views(kept@) == mismatch_views(found@).filter(
            not_among(mismatch_views(others@)),
        ),
{
    let keys = key_table(others);
    let ghost all = mismatch_views(found@);
    let ghost test = not_among(mismatch_views(others@));
    let mut kept: Vec<Mismatch> = Vec::new();
    let mut i: usize = 0;
    proof {
        reveal(Seq::filter);
        assert(all.take(0) =~= Seq::<MismatchView>::empty());
        assert(mismatch_views(kept@) =~= all.take(0).filter(test));
    }
    while i < found.len()
        invariant
            i <= found.len(),
            keys.wf(),
            all == mismatch_views(found@),
            test == not_among(mismatch_views(others@)),
            forall|key: Seq<char>| #[trigger]
                keys@.contains(key) <==> key_reported(mismatch_views(others@), key),
            mismatch_views(kept@) == all.take(i as int).filter(test),
        decreases found.len() - i,
    {
        let ghost before = mismatch_views(kept@);
        let item = &found[i];
        let listed = keys.find(&item.key).is_some();
        proof {
            if listed {
                assert(keys@.contains(item@.key));
            }
            assert(listed == !test(item@));
        }
        if !listed {
            let copy = Mismatch { artifact: item.artifact.clone(), key: item.key.clone() };
            assert(copy@ == item@);
            kept.push(copy);
            assert(mismatch_views(kept@) =~= before.push(item@));
        }
        proof {
            reveal(Seq::filter);
            let upto = all.take(i + 1);
            assert(upto.drop_last() =~= all.take(i as int));
            assert(upto.last() == item@);
        }
        i += 1;
    }
    assert(all.take(i as int) =~= all);
    kept
}

/// Takes out of what a walk reports the paths that are both a mismatched
/// input and a mismatched output. What is left estimates where the logs
/// first diverge; it is no proven least cut.
pub fn edges_of(sets: MismatchSets) -> (ends: MismatchSets)
    ensures
        ends@ == frontier(sets@),
{
    let inputs = without(&sets.inputs, &sets.outputs);
    let outputs = without(&sets.outputs, &sets.inputs);
    MismatchSets { env_vars: sets.env_vars, inputs, outputs }
}

/// Walks from `root` and reports the ends of the way: the mismatched
/// environment variables, the mismatched inputs that are no mismatched
/// output, and the mismatched outputs that are no mismatched input.
pub fn edges(root: &str, maps: &Vec<LogIndex>) -> (ends: MismatchSets)
    requires
        all_wf(maps@),
    ensures
        exists|all: MismatchSetsView| #[trigger]
            is_closure(index_views(maps@), root@, all) && ends@ == frontier(all),
{
    let all = transitive_cmp(root, maps);
    let ghost reported = all@;
    let ends = edges_of(all);
    assert(is_closure(index_views(maps@), root@, reported) && ends@ == frontier(reported));
    ends
}

/// Two reports of the walk from one root over the same logs name the same
/// keys in every part, however the walk went.
pub proof fn lemma_reports_agree(
    field: Field,
    logs: Logs,
    root: Seq<char>,
    x: Seq<MismatchView>,
    y: Seq<MismatchView>,
)
    requires
        reports(field, logs, root, x),
        reports(field, logs, root, y),
    ensures
        finding_keys(x).to_set() == finding_keys(y).to_set(),
        finding_keys(x).no_duplicates(),
        x.len() == y.len(),
{
    lemma_keys_within(field, logs, root, x, y);
    lemma_keys_within(field, logs, root, y, x);
    assert(finding_keys(x).to_set() =~= finding_keys(y).to_set());
    finding_keys(x).unique_seq_to_set();
    finding_keys(y).unique_seq_to_set();
}

proof fn lemma_keys_within(
    field: Field,
    logs: Logs,
    root: Seq<char>,
    x: Seq<MismatchView>,
    y: Seq<MismatchView>,
)
    requires
        reports(field, logs, root, x),
        reports(field, logs, root, y),
    ensures
        finding_keys(x).no_duplicates(),
        forall|key: Seq<char>|
            finding_keys(x).to_set().contains(key) ==> finding_keys(y).to_set().contains(key),
{
    assert forall|i: int, j: int|
        0 <= i < finding_keys(x).len() && 0 <= j < finding_keys(x).len() && i != j implies finding_keys(
        x,
    )[i] != finding_keys(x)[j] by {
        if i < j {
            assert(x[i].key != x[j].key);
        } else {
            assert(x[j].key != x[i].key);
        }
    }
    assert forall|key: Seq<char>| finding_keys(x).to_set().contains(key) implies finding_keys(
        y,
    ).to_set().contains(key) by {
        assert(finding_keys(x).contains(key));
        let i = choose|i: int| 0 <= i < x.len() && finding_keys(x)[i] == key;
        assert(x[i].key == key);
        assert(mismatched_at(field, logs, x[i].artifact).contains(key));
        assert(key_reported(y, key));
        let j = choose|j: int| 0 <= j < y.len() && (#[trigger] y[j]).key == key;
        assert(finding_keys(y)[j] == key);
        assert(finding_keys(y).contains(key));
    }
}

/// Where a log does not have the root, the walk compares nothing and
/// reports nothing.
pub proof fn lemma_missing_root(field: Field, logs: Logs, root: Seq<char>, found: Seq<MismatchView>)
    requires
        reports(field, logs, root, found),
        !found_in_all(logs, root),
    ensures
        found.len() == 0,
        forall|artifact: Seq<char>| !reached(logs, root, artifact),
{
    assert forall|artifact: Seq<char>| !reached(logs, root, artifact) by {
        if reached(logs, root, artifact) {
            let trail = choose|trail: Seq<Seq<char>>| #[trigger]
                is_trail(logs, root, trail) && trail.last() == artifact;
            if trail.len() > 1 {
                assert(feeds(logs, trail[0], trail[0int + 1]));
            }
        }
    }
    if found.len() > 0 {
        assert(reached(logs, root, found[0].artifact));
    }
}

} // verus!

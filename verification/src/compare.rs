//! The comparison of one artifact's action across several logs: which
//! environment variables, inputs and outputs are not the same in all of them.

use vstd::prelude::*;
use crate::names::NameTable;
use crate::record::{ActionContext, ActionView, DigestView};

verus! {

/// The three parts of an action that are compared.
#[derive(Debug, Clone, Copy, PartialEq, Eq, Structural)]
pub enum Field {
    /// The environment variables, keyed by name.
    Environment,
    /// The inputs, keyed by path.
    Inputs,
    /// The outputs that were written, keyed by path.
    Outputs,
}

/// What a key is bound to: the text of a variable, or the digest of a file.
pub enum FieldValue {
    Text(Seq<char>),
    Content(DigestView),
}

/// One binding of a key in one action.
pub struct Entry {
    pub key: Seq<char>,
    pub value: FieldValue,
}

/// The bindings of one part of an action, as the action lists them.
pub open spec fn raw_entries(field: Field, a: ActionView) -> Seq<Entry> {
    match field {
        Field::Environment => Seq::new(
            a.environment_variables.len(),
            |i: int|
                Entry {
                    key: a.environment_variables[i].name,
                    value: FieldValue::Text(a.environment_variables[i].value),
                },
        ),
        Field::Inputs => Seq::new(
            a.inputs.len(),
            |i: int| Entry { key: a.inputs[i].path, value: FieldValue::Content(a.inputs[i].digest) },
        ),
        Field::Outputs => Seq::new(
            a.actual_outputs.len(),
            |i: int|
                Entry {
                    key: a.actual_outputs[i].path,
                    value: FieldValue::Content(a.actual_outputs[i].digest),
                },
        ),
    }
}

/// The keys of a list of bindings, in order.
pub open spec fn keys_of(s: Seq<Entry>) -> Seq<Seq<char>> {
    Seq::new(s.len(), |i: int| s[i].key)
}

/// The bindings of `s` that count: a key that an action binds more than once
/// counts once for that action, with the value of its first binding.
pub open spec fn first_per_key(s: Seq<Entry>) -> Seq<Entry>
    decreases s.len(),
{
    if s.len() == 0 {
        Seq::empty()
    } else {
        let rest = first_per_key(s.drop_last());
        if keys_of(s.drop_last()).contains(s.last().key) {
            rest
        } else {
            rest.push(s.last())
        }
    }
}

/// The bindings that count of one part of all the actions, action after
/// action.
pub open spec fn all_entries(field: Field, actions: Seq<ActionView>) -> Seq<Entry>
    decreases actions.len(),
{
    if actions.len() == 0 {
        Seq::empty()
    } else {
        all_entries(field, actions.drop_last()) + first_per_key(
            raw_entries(field, actions.last()),
        )
    }
}

/// The value of the first binding of `key` in `s`; `None` where `s` does not
/// bind `key`.
pub open spec fn first_value(s: Seq<Entry>, key: Seq<char>) -> Option<FieldValue>
    decreases s.len(),
{
    if s.len() == 0 {
        None
    } else {
        match first_value(s.drop_last(), key) {
            Some(v) => Some(v),
            None => if s.last().key == key {
                Some(s.last().value)
            } else {
                None
            },
        }
    }
}

/// The number of bindings of `key` to `value` in `s`.
pub open spec fn count_of(s: Seq<Entry>, key: Seq<char>, value: FieldValue) -> nat
    decreases s.len(),
{
    if s.len() == 0 {
        0
    } else {
        count_of(s.drop_last(), key, value) + if s.last().key == key && s.last().value == value {
            1nat
        } else {
            0nat
        }
    }
}

/// The number of bindings of `key` in `s` that agree with the first one.
/// Among the bindings of all the actions, where each action binds a key at
/// most once, this is the number of actions that agree with the first.
pub open spec fn agreeing(s: Seq<Entry>, key: Seq<char>) -> nat {
    match first_value(s, key) {
        Some(v) => count_of(s, key, v),
        None => 0,
    }
}

/// The keys that `s` binds, each once, in the order in which they first
/// occur.
pub open spec fn distinct_keys(s: Seq<Entry>) -> Seq<Seq<char>>
    decreases s.len(),
{
    if s.len() == 0 {
        Seq::empty()
    } else {
        let rest = distinct_keys(s.drop_last());
        if rest.contains(s.last().key) {
            rest
        } else {
            rest.push(s.last().key)
        }
    }
}

/// The test of a mismatch: the bindings that agree with the first are not
/// `n` in number.
pub open spec fn off_count(s: Seq<Entry>, n: nat) -> spec_fn(Seq<char>) -> bool {
    |key: Seq<char>| agreeing(s, key) != n
}

/// The keys of `s` that mismatch among `n` actions, in the order in which
/// they first occur.
pub open spec fn mismatched_keys(s: Seq<Entry>, n: nat) -> Seq<Seq<char>> {
    distinct_keys(s).filter(off_count(s, n))
}

/// The mismatched keys of one part of the given actions.
pub open spec fn mismatched(field: Field, actions: Seq<ActionView>) -> Seq<Seq<char>> {
    mismatched_keys(all_entries(field, actions), actions.len())
}

/// A key is among the distinct keys exactly if some binding has it.
pub proof fn lemma_distinct_keys(s: Seq<Entry>)
    ensures
        distinct_keys(s).no_duplicates(),
        forall|key: Seq<char>| #[trigger] distinct_keys(s).contains(key) <==> keys_of(s).contains(key),
    decreases s.len(),
{
    if s.len() > 0 {
        let t = s.drop_last();
        let e = s.last();
        lemma_distinct_keys(t);
        assert forall|key: Seq<char>| #[trigger]
            distinct_keys(s).contains(key) <==> keys_of(s).contains(key) by {
            if keys_of(s).contains(key) {
                let i = choose|i: int| 0 <= i < s.len() && keys_of(s)[i] == key;
                if i < t.len() {
                    assert(keys_of(t)[i] == key);
                    assert(distinct_keys(t).contains(key));
                } else {
                    assert(e.key == key);
                }
                if distinct_keys(t).contains(key) {
                    let j = choose|j: int| 0 <= j < distinct_keys(t).len() && distinct_keys(t)[j] == key;
                    assert(distinct_keys(s)[j] == key);
                } else {
                    assert(distinct_keys(s)[distinct_keys(t).len() as int] == key);
                }
            }
            if distinct_keys(s).contains(key) {
                let j = choose|j: int| 0 <= j < distinct_keys(s).len() && distinct_keys(s)[j] == key;
                if j < distinct_keys(t).len() {
                    assert(distinct_keys(t)[j] == key);
                    assert(distinct_keys(t).contains(key));
                    assert(keys_of(t).contains(key));
                    let i = choose|i: int| 0 <= i < t.len() && keys_of(t)[i] == key;
                    assert(keys_of(s)[i] == key);
                } else {
                    assert(keys_of(s)[s.len() - 1] == key);
                }
            }
        }
    }
}

/// The first value of a key is that of the first binding with the key.
pub proof fn lemma_first_value(s: Seq<Entry>, key: Seq<char>)
    ensures
        first_value(s, key) is Some <==> keys_of(s).contains(key),
        first_value(s, key) matches Some(v) ==> exists|i: int|
            0 <= i < s.len() && (#[trigger] s[i]).key == key && s[i].value == v && forall|j: int|
                0 <= j < i ==> (#[trigger] s[j]).key != key,
    decreases s.len(),
{
    if s.len() > 0 {
        let t = s.drop_last();
        lemma_first_value(t, key);
        match first_value(t, key) {
            Some(v) => {
                let i = choose|i: int|
                    0 <= i < t.len() && (#[trigger] t[i]).key == key && t[i].value == v
                        && forall|j: int| 0 <= j < i ==> (#[trigger] t[j]).key != key;
                assert(s[i] == t[i]);
                assert(keys_of(s)[i] == key);
                assert forall|j: int| 0 <= j < i implies (#[trigger] s[j]).key != key by {
                    assert(s[j] == t[j]);
                }
            },
            None => {
                assert forall|j: int| 0 <= j < t.len() implies (#[trigger] s[j]).key != key by {
                    assert(keys_of(t)[j] == s[j].key);
                }
                if s.last().key == key {
                    assert(keys_of(s)[s.len() - 1] == key);
                    assert(s[s.len() - 1] == s.last());
                } else {
                    if keys_of(s).contains(key) {
                        let i = choose|i: int| 0 <= i < s.len() && keys_of(s)[i] == key;
                        assert(s[i].key == key);
                    }
                }
            },
        }
    }
}

/// No more bindings agree than there are bindings, and none where the key
/// is not bound.
pub proof fn lemma_count_of(s: Seq<Entry>, key: Seq<char>, value: FieldValue)
    ensures
        count_of(s, key, value) <= s.len(),
        !keys_of(s).contains(key) ==> count_of(s, key, value) == 0,
    decreases s.len(),
{
    if s.len() > 0 {
        let t = s.drop_last();
        lemma_count_of(t, key, value);
        if !keys_of(s).contains(key) {
            assert(keys_of(s)[s.len() - 1] != key);
            if keys_of(t).contains(key) {
                let i = choose|i: int| 0 <= i < t.len() && keys_of(t)[i] == key;
                assert(keys_of(s)[i] == key);
            }
        }
    }
}

/// One finding: a key that mismatches, and the artifact whose action it
/// belongs to.
#[derive(Debug, Clone)]
pub struct Mismatch {
    pub artifact: String,
    pub key: String,
}

/// The mismatches of an artifact, part by part. No key occurs twice in a
/// part.
#[derive(Debug, Clone)]
pub struct MismatchSets {
    pub env_vars: Vec<Mismatch>,
    pub inputs: Vec<Mismatch>,
    pub outputs: Vec<Mismatch>,
}

/// The mathematical value of a `Mismatch`.
pub struct MismatchView {
    pub artifact: Seq<char>,
    pub key: Seq<char>,
}

/// The mathematical value of a `MismatchSets`.
pub struct MismatchSetsView {
    pub env_vars: Seq<MismatchView>,
    pub inputs: Seq<MismatchView>,
    pub outputs: Seq<MismatchView>,
}

impl View for Mismatch {
    type V = MismatchView;

    open spec fn view(&self) -> MismatchView {
        MismatchView { artifact: self.artifact@, key: self.key@ }
    }
}

/// The values of a list of findings, in order.
pub open spec fn mismatch_views(v: Seq<Mismatch>) -> Seq<MismatchView> {
    Seq::new(v.len(), |i: int| v[i]@)
}

impl View for MismatchSets {
    type V = MismatchSetsView;

    open spec fn view(&self) -> MismatchSetsView {
        MismatchSetsView {
            env_vars: mismatch_views(self.env_vars@),
            inputs: mismatch_views(self.inputs@),
            outputs: mismatch_views(self.outputs@),
        }
    }
}

/// The findings that report `keys` for `artifact`.
pub open spec fn labelled(artifact: Seq<char>, keys: Seq<Seq<char>>) -> Seq<MismatchView> {
    Seq::new(keys.len(), |i: int| MismatchView { artifact: artifact, key: keys[i] })
}

/// The values of a list of actions, in order.
pub open spec fn views_of(actions: Seq<&ActionContext>) -> Seq<ActionView> {
    Seq::new(actions.len(), |i: int| actions[i]@)
}

/// What comparing the given actions of `artifact` reports.
pub open spec fn findings(artifact: Seq<char>, actions: Seq<ActionView>) -> MismatchSetsView {
    MismatchSetsView {
        env_vars: labelled(artifact, mismatched(Field::Environment, actions)),
        inputs: labelled(artifact, mismatched(Field::Inputs, actions)),
        outputs: labelled(artifact, mismatched(Field::Outputs, actions)),
    }
}

/// The number of bindings that an action lists in one part.
pub fn field_len(field: Field, action: &ActionContext) -> (n: usize)
    ensures
        n == raw_entries(field, action@).len(),
{
    match field {
        Field::Environment => action.environment_variables.len(),
        Field::Inputs => action.inputs.len(),
        Field::Outputs => action.actual_outputs.len(),
    }
}

/// The key of the `i`-th binding that an action lists in one part.
pub fn field_key(field: Field, action: &ActionContext, i: usize) -> (key: &String)
    requires
        i < raw_entries(field, action@).len(),
    ensures
        key@ == raw_entries(field, action@)[i as int].key,
{
    match field {
        Field::Environment => &action.environment_variables[i].name,
        Field::Inputs => &action.inputs[i].path,
        Field::Outputs => &action.actual_outputs[i].path,
    }
}

/// Whether the `i`-th binding of `a` and the `j`-th binding of `b`, in the
/// same part, have the same value.
pub fn same_value(field: Field, a: &ActionContext, i: usize, b: &ActionContext, j: usize) -> (same:
    bool)
    requires
        i < raw_entries(field, a@).len(),
        j < raw_entries(field, b@).len(),
    ensures
        same == (raw_entries(field, a@)[i as int].value == raw_entries(field, b@)[j as int].value),
{
    match field {
        Field::Environment => a.environment_variables[i].value == b.environment_variables[j].value,
        Field::Inputs => a.inputs[i].digest == b.inputs[j].digest,
        Field::Outputs => a.actual_outputs[i].digest == b.actual_outputs[j].digest,
    }
}

/// Where the counting stands after the bindings `done`: one slot for each
/// distinct key, with the place of its first binding and the number of
/// bindings that agree with it.
spec fn tallied(
    field: Field,
    views: Seq<ActionView>,
    names: Seq<Seq<char>>,
    first: Seq<(usize, usize)>,
    count: Seq<u128>,
    done: Seq<Entry>,
) -> bool {
    &&& names == distinct_keys(done)
    &&& first.len() == names.len()
    &&& count.len() == names.len()
    &&& forall|slot: int|
        #![trigger names[slot]]
        #![trigger first[slot]]
        #![trigger count[slot]]
        0 <= slot < names.len() ==> {
            &&& first[slot].0 < views.len()
            &&& first[slot].1 < raw_entries(field, views[first[slot].0 as int]).len()
            &&& first_value(done, names[slot]) == Some(
                raw_entries(field, views[first[slot].0 as int])[first[slot].1 as int].value,
            )
            &&& count[slot] == agreeing(done, names[slot])
        }
}

proof fn lemma_tally_new(
    field: Field,
    views: Seq<ActionView>,
    names: Seq<Seq<char>>,
    first: Seq<(usize, usize)>,
    count: Seq<u128>,
    done: Seq<Entry>,
    e: Entry,
    r: usize,
    j: usize,
)
    requires
        tallied(field, views, names, first, count, done),
        !names.contains(e.key),
        r < views.len(),
        j < raw_entries(field, views[r as int]).len(),
        raw_entries(field, views[r as int])[j as int] == e,
    ensures
        tallied(field, views, names.push(e.key), first.push((r, j)), count.push(1), done.push(e)),
{
    let done2 = done.push(e);
    let names2 = names.push(e.key);
    assert(done2.drop_last() =~= done);
    assert(done2.last() == e);
    lemma_distinct_keys(done);
    lemma_first_value(done, e.key);
    lemma_count_of(done, e.key, e.value);
    assert(first_value(done, e.key) is None);
    assert forall|slot: int|
        #![trigger names2[slot]]
        #![trigger first.push((r, j))[slot]]
        #![trigger count.push(1)[slot]]
        0 <= slot < names2.len() implies {
        &&& first.push((r, j))[slot].0 < views.len()
        &&& first.push((r, j))[slot].1 < raw_entries(
            field,
            views[first.push((r, j))[slot].0 as int],
        ).len()
        &&& first_value(done2, names2[slot]) == Some(
            raw_entries(field, views[first.push((r, j))[slot].0 as int])[first.push(
                (r, j),
            )[slot].1 as int].value,
        )
        &&& count.push(1)[slot] == agreeing(done2, names2[slot])
    } by {
        if slot < names.len() {
            assert(names2[slot] == names[slot]);
            assert(names.contains(names[slot]));
            assert(first.push((r, j))[slot] == first[slot]);
            assert(count.push(1)[slot] == count[slot]);
            assert(first_value(done, names[slot]) is Some);
        } else {
            assert(names2[slot] == e.key);
        }
    }
}

proof fn lemma_tally_old(
    field: Field,
    views: Seq<ActionView>,
    names: Seq<Seq<char>>,
    first: Seq<(usize, usize)>,
    count: Seq<u128>,
    done: Seq<Entry>,
    e: Entry,
    at: int,
    c: u128,
)
    requires
        tallied(field, views, names, first, count, done),
        0 <= at < names.len(),
        names[at] == e.key,
        c == count[at] + if e.value == raw_entries(
            field,
            views[first[at].0 as int],
        )[first[at].1 as int].value {
            1int
        } else {
            0int
        },
    ensures
        tallied(field, views, names, first, count.update(at, c), done.push(e)),
{
    let done2 = done.push(e);
    assert(done2.drop_last() =~= done);
    assert(done2.last() == e);
    lemma_distinct_keys(done);
    assert(names.contains(e.key));
    assert forall|slot: int|
        #![trigger names[slot]]
        #![trigger first[slot]]
        #![trigger count.update(at, c)[slot]]
        0 <= slot < names.len() implies {
        &&& first[slot].0 < views.len()
        &&& first[slot].1 < raw_entries(field, views[first[slot].0 as int]).len()
        &&& first_value(done2, names[slot]) == Some(
            raw_entries(field, views[first[slot].0 as int])[first[slot].1 as int].value,
        )
        &&& count.update(at, c)[slot] == agreeing(done2, names[slot])
    } by {
        assert(first_value(done, names[slot]) is Some);
        if slot != at {
            assert(names[slot] != names[at]);
        }
    }
}

/// Every binding takes part in at most one count.
proof fn lemma_agreeing_bound(s: Seq<Entry>, key: Seq<char>)
    ensures
        agreeing(s, key) <= s.len(),
{
    match first_value(s, key) {
        Some(v) => {
            lemma_count_of(s, key, v);
        },
        None => {},
    }
}

/// The keys of one part that mismatch among the given actions, each reported
/// for `artifact`.
pub fn mismatched_in(field: Field, artifact: &String, actions: &Vec<&ActionContext>) -> (found: Vec<
    Mismatch,
>)
    ensures
        mismatch_views(found@) == labelled(artifact@, mismatched(field, views_of(actions@))),
{
    let n = actions.len();
    let mut table = NameTable::new();
    let mut first: Vec<(usize, usize)> = Vec::new();
    let mut count: Vec<u128> = Vec::new();
    let mut seen: Vec<usize> = Vec::new();
    let ghost views = views_of(actions@);
    let ghost mut done: Seq<Entry> = Seq::empty();
    let mut r: usize = 0;
    assert(views.take(0) =~= Seq::<ActionView>::empty());
    while r < n
        invariant
            n == actions@.len(),
            views == views_of(actions@),
            r <= n,
            table.wf(),
            done == all_entries(field, views.take(r as int)),
            tallied(field, views, table@, first@, count@, done),
            seen@.len() == table@.len(),
            forall|slot: int| 0 <= slot < seen@.len() ==> (#[trigger] seen@[slot]) <= r,
            done.len() <= r * 0x1_0000_0000_0000_0000,
        decreases n - r,
    {
        let action = actions[r];
        let len = field_len(field, action);
        let ghost raw = raw_entries(field, views[r as int]);
        let ghost base = done;
        let mut j: usize = 0;
        assert(raw.take(0) =~= Seq::<Entry>::empty());
        assert(base + first_per_key(raw.take(0)) =~= base);
        while j < len
            invariant
                n == actions@.len(),
                views == views_of(actions@),
                r < n,
                *action == *actions@[r as int],
                raw == raw_entries(field, views[r as int]),
                len == raw.len(),
                j <= len,
                table.wf(),
                base == all_entries(field, views.take(r as int)),
                done == base + first_per_key(raw.take(j as int)),
                tallied(field, views, table@, first@, count@, done),
                seen@.len() == table@.len(),
                forall|slot: int| 0 <= slot < seen@.len() ==> (#[trigger] seen@[slot]) <= r + 1,
                forall|slot: int|
                    0 <= slot < seen@.len() ==> ((#[trigger] seen@[slot]) == r + 1 <==> keys_of(
                        raw.take(j as int),
                    ).contains(table@[slot])),
                forall|i: int| 0 <= i < j ==> table@.contains((#[trigger] raw[i]).key),
                done.len() <= r * 0x1_0000_0000_0000_0000 + j,
            decreases len - j,
        {
            let key = field_key(field, action, j);
            let ghost e = raw[j as int];
            let ghost part = raw.take(j as int);
            let ghost part2 = raw.take(j + 1);
            let ghost names = table@;
            proof {
                assert(part2.drop_last() =~= part);
                assert(part2.last() == e);
                assert(keys_of(part2) =~= keys_of(part).push(e.key));
                assert forall|k: Seq<char>| keys_of(part2).contains(k) <==> (keys_of(
                    part,
                ).contains(k) || k == e.key) by {
                    if keys_of(part).contains(k) {
                        let i = choose|i: int| 0 <= i < part.len() && keys_of(part)[i] == k;
                        assert(keys_of(part2)[i] == k);
                    }
                    if k == e.key {
                        assert(keys_of(part2)[j as int] == k);
                    }
                    if keys_of(part2).contains(k) {
                        let i = choose|i: int| 0 <= i < part2.len() && keys_of(part2)[i] == k;
                        if i < j {
                            assert(keys_of(part)[i] == k);
                        }
                    }
                }
                table.lemma_distinct();
                lemma_agreeing_bound(done, e.key);
            }
            let ghost at: int;
            match table.find(key) {
                Some(slot) => {
                    proof {
                        at = slot as int;
                    }
                    let repeated = seen[slot] == r + 1;
                    if repeated {
                        assert(first_per_key(part2) == first_per_key(part));
                    } else {
                        let (fr, fj) = first[slot];
                        let same = same_value(field, actions[fr], fj, action, j);
                        let c: u128 = if same {
                            count[slot] + 1
                        } else {
                            count[slot]
                        };
                        proof {
                            lemma_tally_old(field, views, names, first@, count@, done, e, slot as int, c);
                            assert(first_per_key(part2) == first_per_key(part).push(e));
                            assert(base + first_per_key(part).push(e) =~= (base + first_per_key(
                            part,
                        )).push(e));
                            done = done.push(e);
                        }
                        count.set(slot, c);
                        seen.set(slot, r + 1);
                    }
                },
                None => {
                    proof {
                        at = names.len() as int;
                        if keys_of(part).contains(e.key) {
                            let i = choose|i: int| 0 <= i < part.len() && keys_of(part)[i] == e.key;
                            assert(raw[i].key == e.key);
                        }
                        lemma_tally_new(field, views, names, first@, count@, done, e, r, j);
                        assert(first_per_key(part2) == first_per_key(part).push(e));
                        assert(base + first_per_key(part).push(e) =~= (base + first_per_key(
                            part,
                        )).push(e));
                        done = done.push(e);
                    }
                    table.push(key.clone());
                    first.push((r, j));
                    count.push(1);
                    seen.push(r + 1);
                },
            }
            proof {
                assert forall|i: int| 0 <= i < j + 1 implies table@.contains((#[trigger] raw[i]).key) by {
                    if i < j {
                        assert(names.contains(raw[i].key));
                        let k = choose|k: int| 0 <= k < names.len() && names[k] == raw[i].key;
                        assert(table@[k] == raw[i].key);
                    } else {
                        assert(table@[at] == raw[i].key);
                    }
                }
            }
            j += 1;
        }
        proof {
            assert(raw.take(len as int) =~= raw);
            let upto = views.take(r + 1);
            assert(upto.drop_last() =~= views.take(r as int));
            assert(upto.last() == views[r as int]);
        }
        r += 1;
    }
    assert(views.take(n as int) =~= views);
    let ghost test = off_count(done, n as nat);
    let mut found: Vec<Mismatch> = Vec::new();
    let mut slot: usize = 0;
    proof {
        reveal(Seq::filter);
        assert(table@.take(0) =~= Seq::<Seq<char>>::empty());
        assert(mismatch_views(found@) =~= labelled(artifact@, table@.take(0).filter(test)));
    }
    while slot < table.len()
        invariant
            slot <= table@.len(),
            test == off_count(done, n as nat),
            tallied(field, views, table@, first@, count@, done),
            mismatch_views(found@) == labelled(artifact@, table@.take(slot as int).filter(test)),
        decreases table@.len() - slot,
    {
        let ghost before = found@;
        assert(mismatch_views(before) == labelled(
            artifact@,
            table@.take(slot as int).filter(test),
        ));
        if count[slot] != n as u128 {
            let finding = Mismatch { artifact: artifact.clone(), key: table.name(slot).clone() };
            assert(finding@ == MismatchView { artifact: artifact@, key: table@[slot as int] });
            found.push(finding);
            assert(found@ == before.push(finding));
        }
        proof {
            reveal(Seq::filter);
            let key = table@[slot as int];
            let upto = table@.take(slot + 1);
            let kept = table@.take(slot as int).filter(test);
            assert(upto.drop_last() =~= table@.take(slot as int));
            assert(upto.last() == key);
            assert(test(key) == (agreeing(done, key) != n));
            assert(count@[slot as int] == agreeing(done, key));
            if test(key) {
                assert(upto.filter(test) == kept.push(key));
                assert(found@.len() == before.len() + 1);
                assert(mismatch_views(before).len() == before.len());
                assert(labelled(artifact@, kept).len() == kept.len());
                assert(kept.len() == before.len());
                assert forall|i: int| 0 <= i < found@.len() implies mismatch_views(found@)[i]
                    == labelled(artifact@, kept.push(key))[i] by {
                    if i < before.len() {
                        assert(found@[i] == before[i]);
                        assert(mismatch_views(before)[i] == labelled(artifact@, kept)[i]);
                    }
                }
                assert(mismatch_views(found@) =~= labelled(artifact@, kept.push(key)));
            } else {
                assert(upto.filter(test) == kept);
            }
        }
        slot += 1;
    }
    assert(table@.take(slot as int) =~= table@);
    found
}

/// Compares the actions of `artifact`, one from each log: the environment
/// variables, input paths and output paths that are not bound to one and
/// the same value in every action. Where an action binds a key more than
/// once, its first binding counts; an action that does not bind a key does
/// not agree on it.
pub fn find_mismatched(artifact: &str, actions: &Vec<&ActionContext>) -> (found: MismatchSets)
    ensures
        found@ == findings(artifact@, views_of(actions@)),
{
    let name = artifact.to_owned();
    MismatchSets {
        env_vars: mismatched_in(Field::Environment, &name, actions),
        inputs: mismatched_in(Field::Inputs, &name, actions),
        outputs: mismatched_in(Field::Outputs, &name, actions),
    }
}

} // verus!

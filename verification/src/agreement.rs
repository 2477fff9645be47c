//! What holds of every comparison: identical actions never mismatch, what
//! an action repeats does not matter, and neither does the order of the logs.

use vstd::prelude::*;
use crate::compare::{
    agreeing,
    all_entries,
    count_of,
    distinct_keys,
    findings,
    first_per_key,
    first_value,
    keys_of,
    labelled,
    lemma_count_of,
    lemma_distinct_keys,
    lemma_first_value,
    mismatched,
    mismatched_keys,
    off_count,
    raw_entries,
    Entry,
    Field,
    FieldValue,
    MismatchSetsView,
    MismatchView,
};
use crate::record::ActionView;

verus! {

/// Filtering keys of which none occurs twice keeps exactly those that pass
/// the test, and none of them twice.
pub proof fn lemma_filtered_keys(keys: Seq<Seq<char>>, test: spec_fn(Seq<char>) -> bool)
    requires
        keys.no_duplicates(),
    ensures
        keys.filter(test).no_duplicates(),
        forall|key: Seq<char>| #[trigger]
            keys.filter(test).contains(key) <==> keys.contains(key) && test(key),
    decreases keys.len(),
{
    reveal(Seq::filter);
    if keys.len() > 0 {
        let rest = keys.drop_last();
        let last = keys.last();
        lemma_filtered_keys(rest, test);
        let kept = rest.filter(test);
        let all = keys.filter(test);
        assert(!rest.contains(last)) by {
            if rest.contains(last) {
                let i = choose|i: int| 0 <= i < rest.len() && rest[i] == last;
                assert(keys[i] == keys[keys.len() - 1]);
            }
        }
        assert forall|key: Seq<char>| #[trigger]
            all.contains(key) <==> keys.contains(key) && test(key) by {
            if keys.contains(key) {
                let i = choose|i: int| 0 <= i < keys.len() && keys[i] == key;
                if i < rest.len() {
                    assert(rest[i] == key);
                    assert(rest.contains(key));
                }
            }
            if rest.contains(key) {
                let i = choose|i: int| 0 <= i < rest.len() && rest[i] == key;
                assert(keys[i] == key);
            }
            if kept.contains(key) {
                let i = choose|i: int| 0 <= i < kept.len() && kept[i] == key;
                assert(all[i] == key);
            }
            if all.contains(key) {
                let i = choose|i: int| 0 <= i < all.len() && all[i] == key;
                if i < kept.len() {
                    assert(kept[i] == key);
                    assert(kept.contains(key));
                } else {
                    assert(key == last);
                    assert(keys[keys.len() - 1] == key);
                }
            }
            if key == last && test(key) {
                assert(all[kept.len() as int] == key);
                assert(keys[keys.len() - 1] == key);
            }
        }
        if test(last) {
            assert(!kept.contains(last));
        }
    }
}

/// A key mismatches exactly if some action binds it and the bindings that
/// agree with the first are not as many as the actions; no key is reported
/// twice.
pub proof fn lemma_mismatched_keys(s: Seq<Entry>, n: nat)
    ensures
        mismatched_keys(s, n).no_duplicates(),
        forall|key: Seq<char>| #[trigger]
            mismatched_keys(s, n).contains(key) <==> keys_of(s).contains(key) && agreeing(s, key)
                != n,
{
    lemma_distinct_keys(s);
    lemma_filtered_keys(distinct_keys(s), off_count(s, n));
    assert forall|key: Seq<char>| #[trigger]
        mismatched_keys(s, n).contains(key) <==> keys_of(s).contains(key) && agreeing(s, key)
            != n by {
        assert(distinct_keys(s).contains(key) <==> keys_of(s).contains(key));
    }
}

/// The keys, first values and counts of two lists of bindings one behind the
/// other.
pub proof fn lemma_entries_joined(a: Seq<Entry>, b: Seq<Entry>, key: Seq<char>, value: FieldValue)
    ensures
        keys_of(a + b).contains(key) <==> keys_of(a).contains(key) || keys_of(b).contains(key),
        first_value(a + b, key) == match first_value(a, key) {
            Some(v) => Some(v),
            None => first_value(b, key),
        },
        count_of(a + b, key, value) == count_of(a, key, value) + count_of(b, key, value),
    decreases b.len(),
{
    if b.len() == 0 {
        assert(a + b =~= a);
        assert(!keys_of(b).contains(key));
    } else {
        let shorter = b.drop_last();
        lemma_entries_joined(a, shorter, key, value);
        assert((a + b).drop_last() =~= a + shorter);
        assert((a + b).last() == b.last());
        lemma_first_value(a + b, key);
        lemma_first_value(a + shorter, key);
        lemma_first_value(a, key);
        lemma_first_value(b, key);
        lemma_first_value(shorter, key);
    }
}

/// Whether every key of `s` is bound once to its first value: no later
/// binding of a key repeats the value of the first.
pub open spec fn binds_once(s: Seq<Entry>) -> bool {
    forall|key: Seq<char>| #[trigger] keys_of(s).contains(key) ==> agreeing(s, key) == 1
}

/// What is left of a list of bindings when only the first of each key is
/// kept binds every key once, to the value that the list binds it to first;
/// keeping the first of each key once more changes nothing.
pub proof fn lemma_first_per_key(s: Seq<Entry>)
    ensures
        keys_of(first_per_key(s)).no_duplicates(),
        forall|key: Seq<char>| #[trigger]
            keys_of(first_per_key(s)).contains(key) <==> keys_of(s).contains(key),
        forall|key: Seq<char>| #[trigger] first_value(first_per_key(s), key) == first_value(s, key),
        binds_once(first_per_key(s)),
        first_per_key(first_per_key(s)) == first_per_key(s),
    decreases s.len(),
{
    if s.len() > 0 {
        let t = s.drop_last();
        let e = s.last();
        let kept = first_per_key(t);
        let all = first_per_key(s);
        lemma_first_per_key(t);
        assert forall|key: Seq<char>| keys_of(s).contains(key) <==> keys_of(t).contains(key) || key
            == e.key by {
            if keys_of(t).contains(key) {
                let i = choose|i: int| 0 <= i < t.len() && keys_of(t)[i] == key;
                assert(keys_of(s)[i] == key);
            }
            if key == e.key {
                assert(keys_of(s)[s.len() - 1] == key);
            }
            if keys_of(s).contains(key) {
                let i = choose|i: int| 0 <= i < s.len() && keys_of(s)[i] == key;
                if i < t.len() {
                    assert(keys_of(t)[i] == key);
                }
            }
        }
        if keys_of(t).contains(e.key) {
            assert(all == kept);
            assert forall|key: Seq<char>| #[trigger]
                first_value(all, key) == first_value(s, key) by {
                assert(first_value(kept, key) == first_value(t, key));
                lemma_first_value(t, key);
            }
        } else {
            assert(all == kept.push(e));
            assert(all.drop_last() =~= kept);
            assert(all.last() == e);
            assert(keys_of(all) =~= keys_of(kept).push(e.key));
            assert(!keys_of(kept).contains(e.key));
            assert forall|key: Seq<char>| #[trigger]
                keys_of(all).contains(key) <==> keys_of(s).contains(key) by {
                if keys_of(kept).contains(key) {
                    let i = choose|i: int| 0 <= i < kept.len() && keys_of(kept)[i] == key;
                    assert(keys_of(all)[i] == key);
                }
                if key == e.key {
                    assert(keys_of(all)[kept.len() as int] == key);
                }
                if keys_of(all).contains(key) {
                    let i = choose|i: int| 0 <= i < all.len() && keys_of(all)[i] == key;
                    if i < kept.len() {
                        assert(keys_of(kept)[i] == key);
                    }
                }
            }
            assert forall|key: Seq<char>| #[trigger]
                first_value(all, key) == first_value(s, key) by {
                assert(first_value(kept, key) == first_value(t, key));
            }
            assert forall|key: Seq<char>| #[trigger]
                keys_of(all).contains(key) implies agreeing(all, key) == 1 by {
                lemma_first_value(kept, key);
                if key == e.key {
                    lemma_count_of(kept, key, e.value);
                } else {
                    assert(keys_of(kept).contains(key));
                    assert(agreeing(kept, key) == 1);
                }
            }
            assert(first_per_key(all) == first_per_key(kept).push(e));
        }
    }
}

/// The bindings of the same action taken `n` times.
proof fn lemma_repeated_action(
    field: Field,
    actions: Seq<ActionView>,
    key: Seq<char>,
    value: FieldValue,
)
    requires
        forall|i: int| 0 <= i < actions.len() ==> #[trigger] actions[i] == actions[0],
    ensures
        actions.len() > 0 ==> (keys_of(all_entries(field, actions)).contains(key) <==> keys_of(
            first_per_key(raw_entries(field, actions[0])),
        ).contains(key)),
        actions.len() > 0 ==> first_value(all_entries(field, actions), key) == first_value(
            first_per_key(raw_entries(field, actions[0])),
            key,
        ),
        count_of(all_entries(field, actions), key, value) == actions.len() * count_of(
            first_per_key(raw_entries(field, actions[0])),
            key,
            value,
        ),
    decreases actions.len(),
{
    let one = first_per_key(raw_entries(field, actions[0]));
    if actions.len() > 0 {
        let rest = actions.drop_last();
        assert(actions.last() == actions[0]);
        assert forall|i: int| 0 <= i < rest.len() implies #[trigger] rest[i] == rest[0] by {
            assert(rest[i] == actions[i]);
            assert(rest[0] == actions[0]);
        }
        if rest.len() > 0 {
            assert(rest[0] == actions[0]);
        }
        lemma_repeated_action(field, rest, key, value);
        lemma_entries_joined(all_entries(field, rest), one, key, value);
        lemma_first_value(all_entries(field, rest), key);
        lemma_first_value(one, key);
        if rest.len() == 0 {
            assert(all_entries(field, rest) =~= Seq::<Entry>::empty());
        }
        assert(actions.len() * count_of(one, key, value) == rest.len() * count_of(one, key, value)
            + count_of(one, key, value)) by (nonlinear_arith)
            requires
                actions.len() == rest.len() + 1,
        ;
    } else {
        assert(0 * count_of(one, key, value) == 0) by (nonlinear_arith);
    }
}

/// Where the logs have one and the same action for an artifact, nothing
/// mismatches in any one part.
pub proof fn lemma_identical_actions(field: Field, actions: Seq<ActionView>)
    requires
        forall|i: int| 0 <= i < actions.len() ==> #[trigger] actions[i] == actions[0],
    ensures
        mismatched(field, actions) == Seq::<Seq<char>>::empty(),
{
    lemma_first_per_key(raw_entries(field, actions[0]));
    let all = all_entries(field, actions);
    let one = first_per_key(raw_entries(field, actions[0]));
    let n = actions.len();
    lemma_mismatched_keys(all, n);
    let found = mismatched_keys(all, n);
    if found.len() > 0 {
        let key = found[0];
        assert(found.contains(key));
        assert(keys_of(all).contains(key) && agreeing(all, key) != n);
        lemma_first_value(all, key);
        let v = first_value(all, key)->0;
        lemma_repeated_action(field, actions, key, v);
        if n == 0 {
            assert(all =~= Seq::<Entry>::empty());
        } else {
            assert(keys_of(one).contains(key));
            assert(agreeing(one, key) == 1);
            assert(count_of(one, key, v) == 1);
            assert(n * 1 == n) by (nonlinear_arith);
        }
    }
    assert(found =~= Seq::<Seq<char>>::empty());
}

/// Where the logs have one and the same action for an artifact, comparing
/// them reports nothing: no variable, no input and no output.
pub proof fn lemma_identical_findings(artifact: Seq<char>, actions: Seq<ActionView>)
    requires
        forall|i: int| 0 <= i < actions.len() ==> #[trigger] actions[i] == actions[0],
    ensures
        findings(artifact, actions) == (MismatchSetsView {
            env_vars: Seq::empty(),
            inputs: Seq::empty(),
            outputs: Seq::empty(),
        }),
{
    lemma_identical_actions(Field::Environment, actions);
    lemma_identical_actions(Field::Inputs, actions);
    lemma_identical_actions(Field::Outputs, actions);
    let none = Seq::<Seq<char>>::empty();
    assert(labelled(artifact, none) =~= Seq::<MismatchView>::empty());
}

/// What an action repeats does not matter: two lists of actions whose
/// bindings are the same once only the first of each key is kept report the
/// same mismatches.
pub proof fn lemma_repeated_bindings(field: Field, a: Seq<ActionView>, b: Seq<ActionView>)
    requires
        a.len() == b.len(),
        forall|i: int|
            0 <= i < a.len() ==> first_per_key(raw_entries(field, #[trigger] a[i]))
                == first_per_key(raw_entries(field, b[i])),
    ensures
        all_entries(field, a) == all_entries(field, b),
        mismatched(field, a) == mismatched(field, b),
    decreases a.len(),
{
    if a.len() > 0 {
        assert(a.drop_last().len() == b.drop_last().len());
        assert forall|i: int| 0 <= i < a.drop_last().len() implies first_per_key(
            raw_entries(field, #[trigger] a.drop_last()[i]),
        ) == first_per_key(raw_entries(field, b.drop_last()[i])) by {
            assert(a.drop_last()[i] == a[i]);
            assert(b.drop_last()[i] == b[i]);
        }
        lemma_repeated_bindings(field, a.drop_last(), b.drop_last());
        assert(a.last() == a[a.len() - 1]);
        assert(b.last() == b[b.len() - 1]);
    }
}

/// The bindings of one part of an action that count.
pub open spec fn bindings(field: Field, action: ActionView) -> Seq<Entry> {
    first_per_key(raw_entries(field, action))
}

/// Whether the bindings of an action that count hold no key twice.
spec fn binds_keys_once(field: Field, action: ActionView) -> bool {
    keys_of(bindings(field, action)).no_duplicates()
}

/// Whether that is so of each of the actions.
spec fn all_bind_keys_once(field: Field, actions: Seq<ActionView>) -> bool {
    forall|i: int| 0 <= i < actions.len() ==> binds_keys_once(field, #[trigger] actions[i])
}

/// Whether an action binds `key` to `value`.
pub open spec fn binds(field: Field, action: ActionView, key: Seq<char>, value: FieldValue) -> bool {
    bindings(field, action).contains(Entry { key, value })
}

/// Whether one of the actions binds `key`.
pub open spec fn bound_somewhere(field: Field, actions: Seq<ActionView>, key: Seq<char>) -> bool {
    exists|i: int|
        0 <= i < actions.len() && keys_of(bindings(field, #[trigger] actions[i])).contains(key)
}

/// Whether all the actions bind `key` to `value`.
pub open spec fn all_bind(
    field: Field,
    actions: Seq<ActionView>,
    key: Seq<char>,
    value: FieldValue,
) -> bool {
    forall|i: int| 0 <= i < actions.len() ==> binds(field, #[trigger] actions[i], key, value)
}

/// Whether all the actions bind `key` to one and the same value.
pub open spec fn agreed(field: Field, actions: Seq<ActionView>, key: Seq<char>) -> bool {
    exists|value: FieldValue| all_bind(field, actions, key, value)
}

/// The bindings of an action that count hold no key twice.
proof fn lemma_all_bind_keys_once(field: Field, actions: Seq<ActionView>)
    ensures
        all_bind_keys_once(field, actions),
{
    assert forall|i: int| 0 <= i < actions.len() implies binds_keys_once(
        field,
        #[trigger] actions[i],
    ) by {
        lemma_first_per_key(raw_entries(field, actions[i]));
    }
}

/// Among bindings with distinct keys, a key is bound to a value once or not
/// at all, and to no other value than its first.
proof fn lemma_one_binding(s: Seq<Entry>, key: Seq<char>, value: FieldValue)
    requires
        keys_of(s).no_duplicates(),
    ensures
        count_of(s, key, value) == if s.contains(Entry { key, value }) {
            1nat
        } else {
            0nat
        },
        s.contains(Entry { key, value }) ==> first_value(s, key) == Some(value),
    decreases s.len(),
{
    let e = Entry { key, value };
    if s.len() > 0 {
        let t = s.drop_last();
        let last = s.last();
        assert forall|i: int, j: int|
            0 <= i < keys_of(t).len() && 0 <= j < keys_of(t).len() && i != j implies keys_of(t)[i]
            != keys_of(t)[j] by {
            assert(keys_of(s)[i] == keys_of(t)[i]);
            assert(keys_of(s)[j] == keys_of(t)[j]);
        }
        lemma_one_binding(t, key, value);
        lemma_count_of(t, key, value);
        lemma_first_value(t, key);
        if t.contains(e) {
            let i = choose|i: int| 0 <= i < t.len() && t[i] == e;
            assert(s[i] == e);
            assert(keys_of(s)[i] == key);
            assert(keys_of(s)[s.len() - 1] == last.key);
            assert(last.key != key);
        }
        if last.key == key {
            assert(!keys_of(t).contains(key)) by {
                if keys_of(t).contains(key) {
                    let i = choose|i: int| 0 <= i < t.len() && keys_of(t)[i] == key;
                    assert(keys_of(s)[i] == key);
                    assert(keys_of(s)[s.len() - 1] == key);
                }
            }
        }
        if last == e {
            assert(s[s.len() - 1] == e);
        }
        if s.contains(e) && !t.contains(e) {
            let i = choose|i: int| 0 <= i < s.len() && s[i] == e;
            if i < t.len() {
                assert(t[i] == e);
            }
            assert(last == e);
        }
    }
}

/// Where no action binds a key twice, as many bindings of a key have a
/// value as there are actions that bind the key to it.
proof fn lemma_count_in_all(
    field: Field,
    actions: Seq<ActionView>,
    key: Seq<char>,
    value: FieldValue,
)
    requires
        all_bind_keys_once(field, actions),
    ensures
        count_of(all_entries(field, actions), key, value) <= actions.len(),
        count_of(all_entries(field, actions), key, value) == actions.len() <==> all_bind(
            field,
            actions,
            key,
            value,
        ),
        keys_of(all_entries(field, actions)).contains(key) <==> bound_somewhere(field, actions, key),
        actions.len() > 0 && binds(field, actions[0], key, value) ==> first_value(
            all_entries(field, actions),
            key,
        ) == Some(value),
    decreases actions.len(),
{
    if actions.len() > 0 {
        let rest = actions.drop_last();
        let last = actions.last();
        assert forall|i: int| 0 <= i < rest.len() implies binds_keys_once(
            field,
            #[trigger] rest[i],
        ) by {
            assert(rest[i] == actions[i]);
        }
        assert(last == actions[actions.len() - 1]);
        lemma_count_in_all(field, rest, key, value);
        lemma_one_binding(bindings(field, last), key, value);
        lemma_entries_joined(all_entries(field, rest), bindings(field, last), key, value);
        if all_bind(field, actions, key, value) {
            assert forall|i: int| 0 <= i < rest.len() implies binds(
                field,
                #[trigger] rest[i],
                key,
                value,
            ) by {
                assert(rest[i] == actions[i]);
            }
            assert(binds(field, actions[actions.len() - 1], key, value));
        }
        if all_bind(field, rest, key, value) && binds(field, last, key, value) {
            assert forall|i: int| 0 <= i < actions.len() implies binds(
                field,
                #[trigger] actions[i],
                key,
                value,
            ) by {
                if i < rest.len() {
                    assert(rest[i] == actions[i]);
                }
            }
        }
        if bound_somewhere(field, rest, key) {
            let i = choose|i: int|
                0 <= i < rest.len() && keys_of(bindings(field, #[trigger] rest[i])).contains(key);
            assert(rest[i] == actions[i]);
        }
        if bound_somewhere(field, actions, key) {
            let i = choose|i: int|
                0 <= i < actions.len() && keys_of(bindings(field, #[trigger] actions[i])).contains(
                    key,
                );
            if i < rest.len() {
                assert(rest[i] == actions[i]);
            }
        }
        if rest.len() > 0 {
            assert(rest[0] == actions[0]);
        } else {
            assert(all_entries(field, rest) =~= Seq::<Entry>::empty());
            assert(last == actions[0]);
        }
    } else {
        assert(!keys_of(all_entries(field, actions)).contains(key));
    }
}

/// A key mismatches exactly if some action binds it and the actions do not
/// all bind it to one value. An action that does not bind the key at all
/// does not agree with the others.
pub proof fn lemma_mismatch_is_disagreement(field: Field, actions: Seq<ActionView>, key: Seq<char>)
    ensures
        mismatched(field, actions).contains(key) <==> bound_somewhere(field, actions, key)
            && !agreed(field, actions, key),
{
    let all = all_entries(field, actions);
    let n = actions.len();
    lemma_all_bind_keys_once(field, actions);
    lemma_mismatched_keys(all, n);
    lemma_first_value(all, key);
    assert(mismatched(field, actions).contains(key) <==> keys_of(all).contains(key) && agreeing(
        all,
        key,
    ) != n);
    match first_value(all, key) {
        Some(first) => {
            lemma_count_in_all(field, actions, key, first);
            if agreed(field, actions, key) {
                let value = choose|value: FieldValue| all_bind(field, actions, key, value);
                lemma_count_in_all(field, actions, key, value);
                if n > 0 {
                    assert(binds(field, actions[0], key, value));
                    assert(first == value);
                }
            }
        },
        None => {
            lemma_count_in_all(field, actions, key, FieldValue::Text(Seq::empty()));
        },
    }
}

/// The actions of an artifact in another order report the same keys, and as
/// many.
pub proof fn lemma_order_does_not_matter(field: Field, a: Seq<ActionView>, b: Seq<ActionView>)
    requires
        a.to_multiset() == b.to_multiset(),
    ensures
        mismatched(field, a).to_set() == mismatched(field, b).to_set(),
        mismatched(field, a).len() == mismatched(field, b).len(),
{
    assert forall|key: Seq<char>|
        mismatched(field, a).to_set().contains(key) <==> mismatched(field, b).to_set().contains(
            key,
        ) by {
        lemma_order_at_key(field, a, b, key);
    }
    lemma_order_at_key(field, a, b, Seq::empty());
    assert(mismatched(field, a).to_set() =~= mismatched(field, b).to_set());
    a.to_multiset_ensures();
    b.to_multiset_ensures();
    lemma_mismatched_keys(all_entries(field, a), a.len());
    lemma_mismatched_keys(all_entries(field, b), b.len());
    mismatched(field, a).unique_seq_to_set();
    mismatched(field, b).unique_seq_to_set();
}

proof fn lemma_order_at_key(field: Field, a: Seq<ActionView>, b: Seq<ActionView>, key: Seq<char>)
    requires
        a.to_multiset() == b.to_multiset(),
    ensures
        mismatched(field, a).contains(key) <==> mismatched(field, b).contains(key),
{
    a.to_multiset_ensures();
    b.to_multiset_ensures();
    assert forall|x: ActionView| a.contains(x) <==> b.contains(x) by {
        assert(a.contains(x) <==> a.to_multiset().count(x) > 0);
        assert(b.contains(x) <==> b.to_multiset().count(x) > 0);
    }
    lemma_same_actions(field, a, b, key);
    lemma_same_actions(field, b, a, key);
    lemma_mismatch_is_disagreement(field, a, key);
    lemma_mismatch_is_disagreement(field, b, key);
}

proof fn lemma_same_actions(field: Field, a: Seq<ActionView>, b: Seq<ActionView>, key: Seq<char>)
    requires
        forall|x: ActionView| a.contains(x) <==> b.contains(x),
    ensures
        bound_somewhere(field, a, key) ==> bound_somewhere(field, b, key),
        agreed(field, a, key) ==> agreed(field, b, key),
{
    if bound_somewhere(field, a, key) {
        let i = choose|i: int|
            0 <= i < a.len() && keys_of(bindings(field, #[trigger] a[i])).contains(key);
        assert(a.contains(a[i]));
        assert(b.contains(a[i]));
        let j = choose|j: int| 0 <= j < b.len() && b[j] == a[i];
        assert(keys_of(bindings(field, b[j])).contains(key));
    }
    if agreed(field, a, key) {
        let value = choose|value: FieldValue| all_bind(field, a, key, value);
        assert forall|j: int| 0 <= j < b.len() implies binds(field, #[trigger] b[j], key, value) by {
            assert(b.contains(b[j]));
            assert(a.contains(b[j]));
            let i = choose|i: int| 0 <= i < a.len() && a[i] == b[j];
            assert(binds(field, a[i], key, value));
        }
        assert(all_bind(field, b, key, value));
    }
}

} // verus!

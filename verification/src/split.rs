//! Framing of a log: a log is a run of JSON objects written one behind the
//! other with nothing between them, so one document ends and the next begins
//! wherever a closing brace is followed by an opening one.
//!
//! A string inside a document that holds `}{` is split as well; telling the
//! two apart would take reading the documents, which this framing does not.

use vstd::prelude::*;

verus! {

/// Whether a document ends at `i` and the next begins at `i + 1`: the byte
/// at `i` is `}` and the byte behind it is `{`.
pub open spec fn is_boundary(log: Seq<u8>, i: int) -> bool {
    0 <= i && i + 1 < log.len() && log[i] == 125 && log[i + 1] == 123
}

/// The documents of a log: the log cut behind every boundary.
pub open spec fn documents(log: Seq<u8>) -> Seq<Seq<u8>>
    decreases log.len(),
{
    if log.len() == 0 {
        seq![Seq::empty()]
    } else {
        let before = documents(log.drop_last());
        if is_boundary(log, log.len() - 2) {
            before.push(seq![log.last()])
        } else {
            before.drop_last().push(before.last().push(log.last()))
        }
    }
}

/// The pieces of `log` that `ranges` give, each from its first bound up to,
/// not including, its second.
pub open spec fn pieces(log: Seq<u8>, ranges: Seq<(usize, usize)>) -> Seq<Seq<u8>> {
    Seq::new(ranges.len(), |k: int| log.subrange(ranges[k].0 as int, ranges[k].1 as int))
}

/// Whether `ranges` cut `log` behind every boundary and nowhere else: they
/// follow one another from the start of the log to its end, and one range
/// ends and the next begins exactly at each boundary.
pub open spec fn is_split(log: Seq<u8>, ranges: Seq<(usize, usize)>) -> bool {
    &&& ranges.len() >= 1
    &&& ranges[0].0 == 0
    &&& ranges.last().1 == log.len()
    &&& forall|k: int| 0 <= k < ranges.len() ==> (#[trigger] ranges[k]).0 <= ranges[k].1
    &&& forall|k: int|
        0 <= k < ranges.len() - 1 ==> (#[trigger] ranges[k]).1 == ranges[k + 1].0 && is_boundary(
            log,
            ranges[k].1 - 1,
        )
    &&& forall|i: int|
        is_boundary(log, i) ==> exists|k: int|
            0 <= k < ranges.len() - 1 && (#[trigger] ranges[k]).1 == i + 1
}

/// Where the search for boundaries stands: the bytes up to `curr` have been
/// read, `ranges` are the documents that have ended, and the open document
/// began at `prev`.
spec fn scanning(log: Seq<u8>, ranges: Seq<(usize, usize)>, prev: usize, curr: usize) -> bool {
    &&& prev <= curr < log.len()
    &&& ranges.len() == 0 ==> prev == 0
    &&& ranges.len() > 0 ==> ranges[0].0 == 0 && ranges.last().1 == prev
    &&& forall|k: int|
        0 <= k < ranges.len() ==> (#[trigger] ranges[k]).0 < ranges[k].1 && is_boundary(
            log,
            ranges[k].1 - 1,
        )
    &&& forall|k: int| 0 <= k < ranges.len() - 1 ==> (#[trigger] ranges[k]).1 == ranges[k + 1].0
    &&& forall|i: int|
        0 <= i < curr && is_boundary(log, i) ==> exists|k: int|
            0 <= k < ranges.len() && (#[trigger] ranges[k]).1 == i + 1
    &&& pieces(log, ranges).push(log.subrange(prev as int, curr + 1)) == documents(
        log.take(curr + 1),
    )
}

proof fn lemma_scan_start(log: Seq<u8>)
    requires
        log.len() > 0,
    ensures
        scanning(log, Seq::empty(), 0, 0),
{
    let one = log.take(1);
    let none = Seq::<u8>::empty();
    assert(one.drop_last() =~= none);
    assert(documents(none) == seq![none]);
    assert(seq![none].last().push(one.last()) =~= one);
    assert(seq![none].drop_last().push(one) =~= seq![one]);
    assert(documents(one) == seq![one]);
    assert(log.subrange(0, 1) =~= one);
    assert(pieces(log, Seq::empty()).push(log.subrange(0, 1)) =~= seq![one]);
}

proof fn lemma_documents_step(log: Seq<u8>, curr: usize)
    requires
        curr + 1 < log.len(),
    ensures
        documents(log.take(curr + 2)) == if is_boundary(log, curr as int) {
            documents(log.take(curr + 1)).push(seq![log[curr + 1]])
        } else {
            documents(log.take(curr + 1)).drop_last().push(
                documents(log.take(curr + 1)).last().push(log[curr + 1]),
            )
        },
{
    let shorter = log.take(curr + 1);
    let longer = log.take(curr + 2);
    assert(longer.drop_last() =~= shorter);
    assert(longer.last() == log[curr + 1]);
    assert(is_boundary(longer, longer.len() - 2) == is_boundary(log, curr as int));
}

proof fn lemma_scan_cut(log: Seq<u8>, ranges: Seq<(usize, usize)>, prev: usize, curr: usize)
    requires
        scanning(log, ranges, prev, curr),
        curr + 1 < log.len(),
        curr + 1 <= usize::MAX,
        is_boundary(log, curr as int),
    ensures
        scanning(
            log,
            ranges.push((prev, (curr + 1) as usize)),
            (curr + 1) as usize,
            (curr + 1) as usize,
        ),
{
    let next = (curr + 1) as usize;
    let more = ranges.push((prev, next));
    lemma_documents_step(log, curr);
    assert(pieces(log, more) =~= pieces(log, ranges).push(log.subrange(prev as int, curr + 1)));
    assert(log.subrange(curr + 1, curr + 2) =~= seq![log[curr + 1]]);
    assert forall|i: int| 0 <= i < next && is_boundary(log, i) implies exists|k: int|
        0 <= k < more.len() && (#[trigger] more[k]).1 == i + 1 by {
        if i < curr {
            let k = choose|k: int| 0 <= k < ranges.len() && (#[trigger] ranges[k]).1 == i + 1;
            assert(more[k].1 == i + 1);
        } else {
            assert(more[ranges.len() as int].1 == i + 1);
        }
    }
    assert forall|k: int| 0 <= k < more.len() - 1 implies (#[trigger] more[k]).1 == more[k + 1].0 by {
        assert(more[k] == ranges[k]);
        if k + 1 < ranges.len() {
            assert(more[k + 1] == ranges[k + 1]);
        }
    }
}

proof fn lemma_scan_on(log: Seq<u8>, ranges: Seq<(usize, usize)>, prev: usize, curr: usize)
    requires
        scanning(log, ranges, prev, curr),
        curr + 1 < log.len(),
        curr + 1 <= usize::MAX,
        !is_boundary(log, curr as int),
    ensures
        scanning(log, ranges, prev, (curr + 1) as usize),
{
    lemma_documents_step(log, curr);
    let open = log.subrange(prev as int, curr + 1);
    assert(pieces(log, ranges).push(open).drop_last() =~= pieces(log, ranges));
    assert(log.subrange(prev as int, curr + 2) =~= open.push(log[curr + 1]));
}

proof fn lemma_scan_end(log: Seq<u8>, ranges: Seq<(usize, usize)>, prev: usize, curr: usize)
    requires
        scanning(log, ranges, prev, curr),
        curr + 1 == log.len(),
        log.len() <= usize::MAX,
    ensures
        is_split(log, ranges.push((prev, log.len() as usize))),
        pieces(log, ranges.push((prev, log.len() as usize))) == documents(log),
{
    let all = ranges.push((prev, log.len() as usize));
    assert(log.take(log.len() as int) =~= log);
    assert(pieces(log, all) =~= pieces(log, ranges).push(
        log.subrange(prev as int, log.len() as int),
    ));
    assert forall|i: int| is_boundary(log, i) implies exists|k: int|
        0 <= k < all.len() - 1 && (#[trigger] all[k]).1 == i + 1 by {
        let k = choose|k: int| 0 <= k < ranges.len() && (#[trigger] ranges[k]).1 == i + 1;
        assert(all[k].1 == i + 1);
    }
    assert forall|k: int| 0 <= k < all.len() - 1 implies (#[trigger] all[k]).1 == all[k + 1].0
        && is_boundary(log, all[k].1 - 1) by {
        assert(all[k] == ranges[k]);
        if k + 1 < ranges.len() {
            assert(all[k + 1] == ranges[k + 1]);
        }
    }
    assert forall|k: int| 0 <= k < all.len() implies (#[trigger] all[k]).0 <= all[k].1 by {
        if k < ranges.len() {
            assert(all[k] == ranges[k]);
        }
    }
}

/// Finds the documents of a log.
pub fn split_documents(log: &[u8]) -> (ranges: Vec<(usize, usize)>)
    ensures
        is_split(log@, ranges@),
        pieces(log@, ranges@) == documents(log@),
{
    let mut ranges: Vec<(usize, usize)> = Vec::new();
    let len = log.len();
    if len == 0 {
        ranges.push((0, 0));
        proof {
            assert(log@.subrange(0, 0) =~= Seq::<u8>::empty());
            assert(pieces(log@, ranges@) =~= documents(log@));
        }
        return ranges;
    }
    let mut prev: usize = 0;
    let mut curr: usize = 0;
    proof {
        lemma_scan_start(log@);
    }
    while curr < len - 1
        invariant
            len == log@.len(),
            scanning(log@, ranges@, prev, curr),
        decreases len - curr,
    {
        if log[curr] == 125 && log[curr + 1] == 123 {
            proof {
                lemma_scan_cut(log@, ranges@, prev, curr);
            }
            ranges.push((prev, curr + 1));
            prev = curr + 1;
        } else {
            proof {
                lemma_scan_on(log@, ranges@, prev, curr);
            }
        }
        curr += 1;
    }
    proof {
        lemma_scan_end(log@, ranges@, prev, curr);
    }
    ranges.push((prev, len));
    ranges
}

} // verus!

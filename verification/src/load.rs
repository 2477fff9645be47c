//! Loading a log: from its bytes to the index of its actions.

use vstd::prelude::*;
use vstd::slice::slice_subrange;
use crate::decode::{action_of, decode_action};
use crate::index::{action_views, all_outputs, index_of_log, repeated, LogIndex};
use crate::json::{json_text, parse_json};
use crate::record::{strings_view, ActionContext, ActionView};
use crate::split::{documents, is_boundary, is_split, pieces, split_documents};

verus! {

/// Why a document is no action.
#[derive(Debug, Clone, Copy, PartialEq, Eq, Structural)]
pub enum Fault {
    /// The document is no JSON text.
    Syntax,
    /// The document is JSON, but does not have the shape of an action.
    Shape,
}

/// The failure to load a log: a document of it is no action. One such
/// document spoils the whole log.
#[derive(Debug, Clone, Copy, PartialEq, Eq, Structural)]
pub struct ParseError {
    /// The number of the first document that is no action, counted from 0.
    pub document: usize,
    /// What is wrong with it.
    pub fault: Fault,
}

/// What reading one document gives.
pub open spec fn document_outcome(bytes: Seq<u8>) -> Result<ActionView, Fault> {
    match json_text(bytes) {
        None => Err(Fault::Syntax),
        Some(json) => match action_of(json) {
            Some(action) => Ok(action),
            None => Err(Fault::Shape),
        },
    }
}

/// What reading the documents of a log gives: their actions in order, or
/// the first failure.
pub open spec fn parse_outcome(docs: Seq<Seq<u8>>) -> Result<Seq<ActionView>, ParseError>
    decreases docs.len(),
{
    if docs.len() == 0 {
        Ok(Seq::empty())
    } else {
        match parse_outcome(docs.drop_last()) {
            Err(e) => Err(e),
            Ok(actions) => match document_outcome(docs.last()) {
                Ok(action) => Ok(actions.push(action)),
                Err(fault) => Err(ParseError { document: (docs.len() - 1) as usize, fault }),
            },
        }
    }
}

/// The first failure among the documents is the failure of them all.
pub proof fn lemma_failure_stays(docs: Seq<Seq<u8>>, upto: int)
    requires
        0 <= upto <= docs.len(),
        parse_outcome(docs.take(upto)) is Err,
    ensures
        parse_outcome(docs) == parse_outcome(docs.take(upto)),
    decreases docs.len() - upto,
{
    if upto < docs.len() {
        let next = docs.take(upto + 1);
        assert(next.drop_last() =~= docs.take(upto));
        lemma_failure_stays(docs, upto + 1);
    } else {
        assert(docs.take(upto) =~= docs);
    }
}

/// Reads one document.
pub fn parse_document(bytes: &[u8]) -> (outcome: Result<ActionContext, Fault>)
    ensures
        match outcome {
            Ok(action) => document_outcome(bytes@) == Ok::<ActionView, Fault>(action@),
            Err(fault) => document_outcome(bytes@) == Err::<ActionView, Fault>(fault),
        },
        bytes@.len() == 0 ==> outcome == Err::<ActionContext, Fault>(Fault::Syntax),
{
    match parse_json(bytes) {
        None => Err(Fault::Syntax),
        Some(json) => match decode_action(&json) {
            Some(action) => Ok(action),
            None => Err(Fault::Shape),
        },
    }
}

/// Reads the actions of a log: splits it into its documents and reads each.
/// The first document that is no action fails the whole log.
pub fn parse_log(log: &[u8]) -> (outcome: Result<Vec<ActionContext>, ParseError>)
    ensures
        match outcome {
            Ok(actions) => parse_outcome(documents(log@)) == Ok::<Seq<ActionView>, ParseError>(
                action_views(actions@),
            ),
            Err(e) => parse_outcome(documents(log@)) == Err::<Seq<ActionView>, ParseError>(e),
        },
        log@.len() == 0 ==> outcome is Err,
{
    let ranges = split_documents(log);
    let ghost docs = documents(log@);
    let mut actions: Vec<ActionContext> = Vec::new();
    let mut k: usize = 0;
    proof {
        assert(docs.take(0) =~= Seq::<Seq<u8>>::empty());
        assert(action_views(actions@) =~= Seq::<ActionView>::empty());
    }
    while k < ranges.len()
        invariant
            k <= ranges@.len(),
            is_split(log@, ranges@),
            docs == documents(log@),
            docs == pieces(log@, ranges@),
            parse_outcome(docs.take(k as int)) == Ok::<Seq<ActionView>, ParseError>(
                action_views(actions@),
            ),
            log@.len() == 0 ==> k == 0,
        decreases ranges@.len() - k,
    {
        let (start, end) = ranges[k];
        proof {
            assert(ranges@[k as int].0 <= ranges@[k as int].1);
            if k < ranges@.len() - 1 {
                assert(is_boundary(log@, ranges@[k as int].1 - 1));
            }
            let upto = docs.take(k + 1);
            assert(upto.drop_last() =~= docs.take(k as int));
            assert(upto.last() == log@.subrange(start as int, end as int));
        }
        let ghost before = action_views(actions@);
        match parse_document(slice_subrange(log, start, end)) {
            Ok(action) => {
                actions.push(action);
                assert(action_views(actions@) =~= before.push(action@));
            },
            Err(fault) => {
                proof {
                    lemma_failure_stays(docs, k + 1);
                }
                return Err(ParseError { document: k, fault });
            },
        }
        k += 1;
    }
    assert(docs.take(k as int) =~= docs);
    Ok(actions)
}

/// Loads a log: reads its actions and indexes them by the output paths they
/// declare. Beside the index it returns the paths that more than one action
/// declares; the index leads from such a path to the last of them.
pub fn exec_log_to_hashmap(log: &[u8]) -> (outcome: Result<(LogIndex, Vec<String>), ParseError>)
    ensures
        match outcome {
            Ok(loaded) => {
                &&& parse_outcome(documents(log@)) == Ok::<Seq<ActionView>, ParseError>(
                    loaded.0.actions(),
                )
                &&& loaded.0.wf()
                &&& loaded.0@ == index_of_log(loaded.0.actions())
                &&& strings_view(loaded.1@) == repeated(all_outputs(loaded.0.actions()))
            },
            Err(e) => parse_outcome(documents(log@)) == Err::<Seq<ActionView>, ParseError>(e),
        },
        log@.len() == 0 ==> outcome is Err,
{
    match parse_log(log) {
        Ok(actions) => Ok(LogIndex::build(actions)),
        Err(e) => Err(e),
    }
}

/// A log that is loaded some documents at a time, so that whoever loads it
/// can tell how far the loading has come.
pub struct Loading<'a> {
    log: &'a [u8],
    ranges: Vec<(usize, usize)>,
    actions: Vec<ActionContext>,
}

impl<'a> Loading<'a> {
    /// The bytes of the log.
    pub closed spec fn log(&self) -> Seq<u8> {
        self.log@
    }

    /// The number of documents that have been read.
    pub closed spec fn read(&self) -> nat {
        self.actions@.len()
    }

    /// The place in the log behind the last document that has been read.
    pub closed spec fn offset(&self) -> nat {
        if self.actions@.len() == 0 {
            0
        } else {
            self.ranges@[self.actions@.len() - 1].1 as nat
        }
    }

    /// Whether every document has been read.
    pub open spec fn done(&self) -> bool {
        self.read() == documents(self.log()).len()
    }

    /// The invariant: the documents that have been read are actions.
    pub closed spec fn wf(&self) -> bool {
        &&& is_split(self.log@, self.ranges@)
        &&& pieces(self.log@, self.ranges@) == documents(self.log@)
        &&& self.actions@.len() <= self.ranges@.len()
        &&& parse_outcome(documents(self.log@).take(self.actions@.len() as int)) == Ok::<
            Seq<ActionView>,
            ParseError,
        >(action_views(self.actions@))
    }

    /// Once every document has been read, the place reached is the end of
    /// the log.
    pub proof fn lemma_done(&self)
        requires
            self.wf(),
            self.done(),
        ensures
            self.offset() == self.log().len(),
            self.offset() <= self.log().len(),
    {
        assert(pieces(self.log@, self.ranges@).len() == self.ranges@.len());
    }

    /// Begins to load a log: finds its documents and reads none yet.
    pub fn begin(log: &'a [u8]) -> (loading: Loading<'a>)
        ensures
            loading.wf(),
            loading.log() == log@,
            loading.read() == 0,
    {
        let ranges = split_documents(log);
        let loading = Loading { log, ranges, actions: Vec::new() };
        proof {
            assert(documents(log@).take(0) =~= Seq::<Seq<u8>>::empty());
            assert(action_views(loading.actions@) =~= Seq::<ActionView>::empty());
        }
        loading
    }

    /// Whether every document has been read.
    pub fn is_done(&self) -> (done: bool)
        requires
            self.wf(),
        ensures
            done == self.done(),
    {
        assert(pieces(self.log@, self.ranges@).len() == self.ranges@.len());
        self.actions.len() == self.ranges.len()
    }

    /// Reads up to `most` documents more and tells the place in the log
    /// that has been reached. The first document that is no action fails
    /// the whole log.
    pub fn advance(&mut self, most: usize) -> (outcome: Result<usize, ParseError>)
        requires
            old(self).wf(),
        ensures
            final(self).log() == old(self).log(),
            match outcome {
                Ok(at) => {
                    &&& final(self).wf()
                    &&& at == final(self).offset()
                    &&& final(self).read() == if old(self).read() + most <= documents(
                        old(self).log(),
                    ).len() {
                        old(self).read() + most
                    } else {
                        documents(old(self).log()).len() as int
                    }
                },
                Err(e) => parse_outcome(documents(old(self).log())) == Err::<
                    Seq<ActionView>,
                    ParseError,
                >(e),
            },
    {
        let ghost docs = documents(self.log@);
        let ghost start = self.actions@.len();
        let mut left = most;
        assert(pieces(self.log@, self.ranges@).len() == self.ranges@.len());
        while left > 0 && self.actions.len() < self.ranges.len()
            invariant
                self.wf(),
                self.log@ == old(self).log@,
                docs == documents(self.log@),
                docs.len() == self.ranges@.len(),
                left <= most,
                self.actions@.len() == start + (most - left),
            decreases left,
        {
            let k = self.actions.len();
            let (from, to) = self.ranges[k];
            proof {
                assert(self.ranges@[k as int].0 <= self.ranges@[k as int].1);
                if k < self.ranges@.len() - 1 {
                    assert(is_boundary(self.log@, self.ranges@[k as int].1 - 1));
                }
                let upto = docs.take(k + 1);
                assert(upto.drop_last() =~= docs.take(k as int));
                assert(upto.last() == self.log@.subrange(from as int, to as int));
            }
            let ghost before = action_views(self.actions@);
            match parse_document(slice_subrange(self.log, from, to)) {
                Ok(action) => {
                    self.actions.push(action);
                    assert(action_views(self.actions@) =~= before.push(action@));
                },
                Err(fault) => {
                    proof {
                        lemma_failure_stays(docs, k + 1);
                    }
                    return Err(ParseError { document: k, fault });
                },
            }
            left -= 1;
        }
        let read = self.actions.len();
        if read == 0 {
            Ok(0)
        } else {
            Ok(self.ranges[read - 1].1)
        }
    }

    /// Indexes the actions of the log once all its documents have been
    /// read.
    pub fn finish(self) -> (loaded: (LogIndex, Vec<String>))
        requires
            self.wf(),
            self.done(),
        ensures
            parse_outcome(documents(self.log())) == Ok::<Seq<ActionView>, ParseError>(
                loaded.0.actions(),
            ),
            loaded.0.wf(),
            loaded.0@ == index_of_log(loaded.0.actions()),
            strings_view(loaded.1@) == repeated(all_outputs(loaded.0.actions())),
    {
        proof {
            let docs = documents(self.log@);
            assert(docs.take(docs.len() as int) =~= docs);
        }
        LogIndex::build(self.actions)
    }
}

} // verus!

//! Startup: loading the persisted model or building it from a corpus.
//!
//! The decision logic works on plain values — the snapshot text read
//! from the persistence path (if any), whether a file stands at that
//! path, and the corpus text (if already read) — and says exactly
//! which outcome each combination yields.  Reading and writing the
//! files themselves is the caller's business; a caller that loads a
//! valid snapshot never needs the corpus at all.

use vstd::prelude::*;

use crate::chain::{build_chain, built_model, Chain};
use crate::codec::{
    decode_chain, encode_chain, lemma_snapshot_round_trip, spec_decode, spec_encode, DEPTH_CAP,
};

verus! {

/// Why startup cannot proceed.
#[derive(Debug, PartialEq, Eq)]
pub enum StartupError {
    /// The snapshot was absent or invalid and no corpus was supplied.
    CorpusNeeded,
    /// The corpus held no token at all: the model would be empty.
    CorpusEmpty,
    /// A file already stands at the persistence path and the model
    /// was not loaded from it: never silently overwrite.
    PersistCollision,
}

/// Loads the model from a snapshot, or builds it from the corpus.
///
/// `persisted` is the text found at the persistence path (`None` if
/// absent or unreadable), `persist_exists` says whether any file
/// stands there, and `corpus` is the corpus text if the caller has
/// read it.  On a valid snapshot the chain is returned as loaded and
/// nothing is to be written — the corpus is never needed.  Otherwise
/// an existing file at the persistence path is a fatal collision;
/// else the chain is built from the corpus and the snapshot text to
/// persist is returned beside it.
pub fn init_chain(
    persisted: Option<&str>,
    persist_exists: bool,
    corpus: Option<&str>,
    depth: usize,
) -> (r: Result<(Chain, Option<String>), StartupError>)
    requires
        1 <= depth <= DEPTH_CAP,
    ensures
        (match persisted {
            Some(p) => spec_decode(p@) is Some,
            None => false,
        }) ==> {
            &&& r is Ok
            &&& r->Ok_0.1 is None
            &&& Some((r->Ok_0.0.depth as nat, r->Ok_0.0.model())) == spec_decode(
                persisted->Some_0@,
            )
        },
        (match persisted {
            Some(p) => spec_decode(p@) is None,
            None => true,
        }) ==> match r {
            Ok(p) => {
                &&& !persist_exists
                &&& corpus is Some
                &&& p.0.depth == depth
                &&& p.0.model() == built_model(corpus->Some_0@, depth as nat)
                &&& p.1 is Some
                &&& p.1->Some_0@ == spec_encode(depth as nat, p.0.model())
                &&& spec_decode(p.1->Some_0@) == Some((depth as nat, p.0.model()))
            },
            Err(e) => {
                &&& e == StartupError::PersistCollision <==> persist_exists
                &&& !persist_exists ==> (e == StartupError::CorpusNeeded <==> corpus is None)
                &&& (!persist_exists && corpus is Some) ==> (e == StartupError::CorpusEmpty
                    && built_model(corpus->Some_0@, depth as nat).len() == 0)
            },
        },
        r is Ok ==> r->Ok_0.0.wf() && r->Ok_0.0.productive(),
{
    match persisted {
        Some(ptext) => {
            match decode_chain(ptext) {
                Some(c) => {
                    return Ok((c, None));
                },
                None => {},
            }
        },
        None => {},
    }
    if persist_exists {
        return Err(StartupError::PersistCollision);
    }
    match corpus {
        None => Err(StartupError::CorpusNeeded),
        Some(text) => {
            match build_chain(text, depth) {
                None => Err(StartupError::CorpusEmpty),
                Some(c) => {
                    let snap: String = encode_chain(&c);
                    proof {
                        lemma_snapshot_round_trip(depth as nat, c.model());
                    }
                    Ok((c, Some(snap)))
                },
            }
        },
    }
}

} // verus!

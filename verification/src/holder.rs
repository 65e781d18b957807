//! The refresh coordinator: the current index lives behind an atomically
//! swappable, reader-shared reference. Readers clone a cheap handle and
//! work against an immutable snapshot; the refresher builds a candidate
//! off to the side and publishes it in one step, or keeps the old index
//! on any failure.

use crate::index::ASNs;
use crate::index::accepted;
use crate::index::build_ok;
use crate::index::lines_of;
use crate::index::lines_ok;
use crate::index::no_overlap;
use crate::record::BuildFailed;
use crate::record::spec_parse_line;
use std::sync::Arc;
use vstd::prelude::*;
use vstd::rwlock::RwLock;
use vstd::rwlock::RwLockPredicate;

verus! {

/// The lock invariant: only a complete, well-formed index is ever stored.
pub struct WfPred {}

impl RwLockPredicate<Arc<ASNs>> for WfPred {
    open spec fn inv(self, v: Arc<ASNs>) -> bool {
        (*v).wf()
    }
}

/// Owns the reference to the current index. The coordinator is the sole
/// writer; any number of readers fetch handles concurrently.
pub struct AsnsHolder {
    lock: RwLock<Arc<ASNs>, WfPred>,
}

/// Relies on Arc::clone: the clone is a handle to the same immutable value.
#[verifier::external_body]
fn clone_arc(a: &Arc<ASNs>) -> (r: Arc<ASNs>)
    ensures
        r == *a,
{
    a.clone()
}

impl AsnsHolder {
    pub closed spec fn wf(self) -> bool {
        self.lock.pred() == (WfPred {  })
    }

    /// Start from a first successfully built index.
    pub fn new(initial: ASNs) -> (s: Self)
        requires
            initial.wf(),
        ensures
            s.wf(),
    {
        AsnsHolder { lock: RwLock::new(Arc::new(initial), Ghost(WfPred {  })) }
    }

    /// The currently published index: always a complete, well-formed one,
    /// never a partially built candidate.
    pub fn current(&self) -> (r: Arc<ASNs>)
        requires
            self.wf(),
        ensures
            (*r).wf(),
    {
        let handle = self.lock.acquire_read();
        let r = clone_arc(handle.borrow());
        handle.release_read();
        r
    }

    /// Atomically replace the published index with a freshly built one.
    pub fn publish(&self, a: Arc<ASNs>)
        requires
            self.wf(),
            (*a).wf(),
    {
        let (_old, write_handle) = self.lock.acquire_write();
        write_handle.release_write(a);
    }
}

/// Build an index from the bytes of a fetched dataset. Fetching the bytes
/// is the network collaborator's task; this is the computation on them.
pub fn get_asns(data: &[u8]) -> (r: Result<ASNs, BuildFailed>)
    ensures
        r is Ok <==> build_ok(data@),
        match r {
            Ok(a) => {
                let ls = lines_of(data@);
                &&& a.wf()
                &&& a@.v4.to_multiset() == accepted(ls, true).to_multiset()
                &&& a@.v6.to_multiset() == accepted(ls, false).to_multiset()
            },
            Err(e) => {
                let ls = lines_of(data@);
                match e {
                    BuildFailed::MalformedRecord(l) => exists|i: int|
                        0 <= i < ls.len() && spec_parse_line(#[trigger] ls[i]) is None && l@
                            == ls[i] && (forall|j: int|
                            0 <= j < i ==> spec_parse_line(#[trigger] ls[j]) is Some),
                    BuildFailed::OverlapDetected => lines_ok(ls) && !(no_overlap(
                        accepted(ls, true),
                    ) && no_overlap(accepted(ls, false))),
                    BuildFailed::FetchFailed => false,
                }
            },
        },
{
    ASNs::new(data)
}

/// One refresh cycle: build from what the fetch returned and publish only
/// on success. Any failure leaves the published index untouched; the error
/// says exactly why the cycle was abandoned.
pub fn update_asns(holder: &AsnsHolder, fetched: Option<Vec<u8>>) -> (r: Result<(), BuildFailed>)
    requires
        holder.wf(),
    ensures
        r is Ok <==> (fetched matches Some(d) && build_ok(d@)),
        fetched is None ==> (r matches Err(e) && e is FetchFailed),
        match fetched {
            Some(d) => match r {
                Ok(_) => build_ok(d@),
                Err(e) => {
                    let ls = lines_of(d@);
                    match e {
                        BuildFailed::MalformedRecord(l) => exists|i: int|
                            0 <= i < ls.len() && spec_parse_line(#[trigger] ls[i]) is None && l@
                                == ls[i] && (forall|j: int|
                                0 <= j < i ==> spec_parse_line(#[trigger] ls[j]) is Some),
                        BuildFailed::OverlapDetected => lines_ok(ls) && !(no_overlap(
                            accepted(ls, true),
                        ) && no_overlap(accepted(ls, false))),
                        BuildFailed::FetchFailed => false,
                    }
                },
            },
            None => true,
        },
{
    match fetched {
        None => Err(BuildFailed::FetchFailed),
        Some(d) => match get_asns(d.as_slice()) {
            Ok(a) => {
                holder.publish(Arc::new(a));
                Ok(())
            },
            Err(e) => Err(e),
        },
    }
}

} // verus!

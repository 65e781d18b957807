//! The request-facing lookup: read the address text, consult whichever
//! index is currently published, and shape the reply fields.

use crate::holder::AsnsHolder;
use crate::index::ASNs;
use crate::index::ip_in_record;
use crate::index::lemma_lookup_in_record;
use crate::ip::Ip;
use crate::ip::parse_ip;
use crate::ip::spec_parse_ip;
use crate::record::AsnRecord;
use std::sync::Arc;
use vstd::prelude::*;

verus! {

/// The address text did not parse as an address of either family.
#[derive(Debug)]
pub struct InvalidAddress {}

/// The outcome of one lookup.
pub enum LookupResult {
    Unannounced,
    Announced(AsnRecord),
}

/// The fields a reply carries: the echoed address and the outcome, with
/// the announcing record's data when there is one.
pub struct IpLookupReply {
    pub ip: Ip,
    pub result: LookupResult,
}

/// The outcome agrees with what index `a` holds for the address.
pub open spec fn lookup_matches(a: ASNs, ip: Ip, res: LookupResult) -> bool {
    match res {
        LookupResult::Announced(rec) => a.spec_lookup(ip) == Some(rec@),
        LookupResult::Unannounced => a.spec_lookup(ip) is None,
    }
}

/// The reply reflects one complete, well-formed index.
pub open spec fn reply_consistent(rep: IpLookupReply) -> bool {
    exists|a: ASNs| a.wf() && lookup_matches(a, rep.ip, rep.result)
}

/// The service handler: shares the coordinator with the background
/// refresher and answers address queries.
pub struct VercelAsnHandler {
    pub asns_arc: Arc<AsnsHolder>,
}

impl VercelAsnHandler {
    pub open spec fn wf(self) -> bool {
        (*self.asns_arc).wf()
    }

    /// Answer one address query against the currently published index.
    ///
    /// Invalid address text is the only error; a covered address yields
    /// the unique record enclosing it in the index that was current, any
    /// other address yields `Unannounced`.
    pub fn ip_lookup(&self, ip_str: &[u8]) -> (r: Result<IpLookupReply, InvalidAddress>)
        requires
            self.wf(),
        ensures
            r is Err <==> spec_parse_ip(ip_str@) is None,
            r matches Ok(rep) ==> spec_parse_ip(ip_str@) == Some(rep.ip) && reply_consistent(rep),
            match r {
                Ok(rep) => match rep.result {
                    LookupResult::Announced(rec) => ip_in_record(rec@, rep.ip),
                    LookupResult::Unannounced => true,
                },
                Err(_) => true,
            },
    {
        let ip = match parse_ip(ip_str) {
            Some(ip) => ip,
            None => {
                return Err(InvalidAddress {  });
            },
        };
        let asns = self.asns_arc.current();
        let aref: &ASNs = &asns;
        let result = match aref.lookup_by_ip(ip) {
            Some(rec) => {
                proof {
                    lemma_lookup_in_record(aref.family_of(ip), ip);
                }
                LookupResult::Announced(rec.duplicate())
            },
            None => LookupResult::Unannounced,
        };
        let rep = IpLookupReply { ip, result };
        proof {
            assert(aref.wf() && lookup_matches(*aref, rep.ip, rep.result));
        }
        Ok(rep)
    }
}

} // verus!

//! One dataset line, parsed into a validated range record or rejected.
//!
//! A line carries five tab-separated fields: first address, last address,
//! AS number, country code, and description. Both addresses must parse,
//! belong to the same family, and be ordered; the AS number must be a
//! decimal integer. AS number zero marks an unrouted block: such a line
//! is recognized but excluded from the index.

use crate::ip::Ip;
use crate::ip::spec_parse_ip;
use crate::ip::parse_ip;
use crate::text::copy_bytes;
use crate::text::spec_parse_u32;
use crate::text::parse_u32;
use crate::text::spec_split;
use crate::text::split_bytes;
use crate::text::views_of;
use vstd::prelude::*;

verus! {

/// One contiguous block of address space announced by a single AS.
pub struct AsnRecord {
    pub first_ip: Ip,
    pub last_ip: Ip,
    pub number: u32,
    pub country: Vec<u8>,
    pub description: Vec<u8>,
}

impl AsnRecord {
    /// An owned copy of the record.
    pub fn duplicate(&self) -> (c: AsnRecord)
        ensures
            c@ == self@,
    {
        AsnRecord {
            first_ip: self.first_ip,
            last_ip: self.last_ip,
            number: self.number,
            country: copy_bytes(self.country.as_slice()),
            description: copy_bytes(self.description.as_slice()),
        }
    }
}

/// The mathematical shadow of a record.
pub struct SpecRecord {
    pub first_ip: Ip,
    pub last_ip: Ip,
    pub number: u32,
    pub country: Seq<u8>,
    pub description: Seq<u8>,
}

impl View for AsnRecord {
    type V = SpecRecord;

    open spec fn view(&self) -> SpecRecord {
        SpecRecord {
            first_ip: self.first_ip,
            last_ip: self.last_ip,
            number: self.number,
            country: self.country@,
            description: self.description@,
        }
    }
}

/// A record the index may hold: an ordered range within one family,
/// announced by a nonzero AS.
pub open spec fn rec_wf(r: SpecRecord) -> bool {
    &&& r.first_ip.same_family(r.last_ip)
    &&& r.first_ip.num() <= r.last_ip.num()
    &&& r.number != 0
}

/// Why a build was abandoned.
#[derive(Debug)]
pub enum BuildFailed {
    /// The dataset could not be fetched at all.
    FetchFailed,
    /// A line failed field-level validation; the offending line is carried.
    MalformedRecord(Vec<u8>),
    /// Two accepted ranges of one family overlap.
    OverlapDetected,
}

/// What one line means: nothing when malformed, an excluded marker for
/// an unrouted block, or a record.
pub open spec fn spec_parse_line(line: Seq<u8>) -> Option<Option<SpecRecord>> {
    let fs = spec_split(line, 9);
    if fs.len() == 5 {
        match (spec_parse_ip(fs[0]), spec_parse_ip(fs[1]), spec_parse_u32(fs[2])) {
            (Some(first), Some(last), Some(number)) => {
                if first.same_family(last) && first.num() <= last.num() {
                    if number == 0 {
                        Some(None)
                    } else {
                        Some(
                            Some(
                                SpecRecord {
                                    first_ip: first,
                                    last_ip: last,
                                    number,
                                    country: fs[3],
                                    description: fs[4],
                                },
                            ),
                        )
                    }
                } else {
                    None
                }
            },
            _ => None,
        }
    } else {
        None
    }
}

/// Parse one dataset line.
pub fn parse_record(line: &[u8]) -> (r: Result<Option<AsnRecord>, BuildFailed>)
    ensures
        match spec_parse_line(line@) {
            Some(Some(sr)) => r matches Ok(Some(rec)) && rec@ == sr,
            Some(None) => r matches Ok(None),
            None => r matches Err(e) && e matches BuildFailed::MalformedRecord(l) && l@ == line@,
        },
{
    let mut fs = split_bytes(line, 9);
    let ghost vs = views_of(fs@);
    proof {
        assert(vs.len() == fs@.len());
        assert(forall|i: int| 0 <= i < fs@.len() ==> vs[i] == #[trigger] fs@[i]@);
    }
    if fs.len() != 5 {
        return Err(BuildFailed::MalformedRecord(copy_bytes(line)));
    }
    let first = match parse_ip(fs[0].as_slice()) {
        Some(x) => x,
        None => {
            return Err(BuildFailed::MalformedRecord(copy_bytes(line)));
        },
    };
    let last = match parse_ip(fs[1].as_slice()) {
        Some(x) => x,
        None => {
            return Err(BuildFailed::MalformedRecord(copy_bytes(line)));
        },
    };
    let number = match parse_u32(fs[2].as_slice()) {
        Some(x) => x,
        None => {
            return Err(BuildFailed::MalformedRecord(copy_bytes(line)));
        },
    };
    if first.family_is_v4() != last.family_is_v4() {
        return Err(BuildFailed::MalformedRecord(copy_bytes(line)));
    }
    if !first.le(&last) {
        return Err(BuildFailed::MalformedRecord(copy_bytes(line)));
    }
    if number == 0 {
        return Ok(None);
    }
    let description = fs.remove(4);
    let country = fs.remove(3);
    Ok(Some(AsnRecord { first_ip: first, last_ip: last, number, country, description }))
}

} // verus!

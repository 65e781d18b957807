//! The range index: per-family sorted, immutable record sequences, an
//! all-or-nothing builder, and a binary-search lookup.

use crate::ip::Ip;
use crate::record::AsnRecord;
use crate::record::BuildFailed;
use crate::record::SpecRecord;
use crate::record::parse_record;
use crate::record::rec_wf;
use crate::record::spec_parse_line;
use crate::text::spec_split;
use crate::text::split_bytes;
use crate::text::views_of;
use vstd::prelude::*;

verus! {

broadcast use vstd::seq_lib::group_to_multiset_ensures;

/// Whether address `a` falls inside record `r`'s range.
pub open spec fn ip_in_record(r: SpecRecord, a: Ip) -> bool {
    &&& r.first_ip.same_family(a)
    &&& r.first_ip.num() <= a.num()
    &&& a.num() <= r.last_ip.num()
}

/// Ranges that can never answer for the same address.
pub open spec fn ranges_disjoint(a: SpecRecord, b: SpecRecord) -> bool {
    ||| !a.first_ip.same_family(b.first_ip)
    ||| a.last_ip.num() < b.first_ip.num()
    ||| b.last_ip.num() < a.first_ip.num()
}

/// No two records of the sequence cover a common address.
pub open spec fn no_overlap(s: Seq<SpecRecord>) -> bool {
    forall|i: int, j: int|
        0 <= i < j < s.len() ==> ranges_disjoint(#[trigger] s[i], #[trigger] s[j])
}

/// Adjacent records are strictly separated: each ends before the next begins.
pub open spec fn sorted_gaps(s: Seq<SpecRecord>) -> bool {
    forall|i: int|
        0 <= i && i + 1 < s.len() ==> (#[trigger] s[i]).last_ip.num() < s[i + 1].first_ip.num()
}

/// A well-formed family sequence: valid records of one family, sorted
/// ascending by first address, no overlaps or duplicates.
pub open spec fn fam_wf(s: Seq<SpecRecord>, v4: bool) -> bool {
    &&& forall|i: int|
        0 <= i < s.len() ==> rec_wf(#[trigger] s[i]) && s[i].first_ip.is_v4() == v4
    &&& sorted_gaps(s)
}

/// The views of a vector of records.
pub open spec fn rec_views(s: Seq<AsnRecord>) -> Seq<SpecRecord> {
    s.map_values(|r: AsnRecord| r@)
}

/// Any two records of a well-formed sequence keep their order at a distance:
/// an earlier record ends strictly before a later one begins.
pub proof fn lemma_sorted_gap(s: Seq<SpecRecord>, i: int, j: int)
    requires
        forall|k: int| 0 <= k < s.len() ==> rec_wf(#[trigger] s[k]),
        sorted_gaps(s),
        0 <= i < j < s.len(),
    ensures
        s[i].last_ip.num() < s[j].first_ip.num(),
    decreases j - i,
{
    if j > i + 1 {
        lemma_sorted_gap(s, i, j - 1);
    }
}

/// The linear scan the binary search is held to: the first record whose
/// range contains the address, if any.
pub open spec fn spec_lookup_seq(s: Seq<SpecRecord>, a: Ip) -> Option<SpecRecord>
    decreases s.len(),
{
    if s.len() == 0 {
        None
    } else if ip_in_record(s[0], a) {
        Some(s[0])
    } else {
        spec_lookup_seq(s.drop_first(), a)
    }
}

proof fn lemma_lookup_none(s: Seq<SpecRecord>, a: Ip)
    requires
        forall|i: int| 0 <= i < s.len() ==> !ip_in_record(#[trigger] s[i], a),
    ensures
        spec_lookup_seq(s, a) is None,
    decreases s.len(),
{
    if s.len() > 0 {
        lemma_lookup_none(s.drop_first(), a);
    }
}

proof fn lemma_lookup_some(s: Seq<SpecRecord>, a: Ip, i: int)
    requires
        0 <= i < s.len(),
        ip_in_record(s[i], a),
        forall|j: int| 0 <= j < s.len() && j != i ==> !ip_in_record(#[trigger] s[j], a),
    ensures
        spec_lookup_seq(s, a) == Some(s[i]),
    decreases s.len(),
{
    if i > 0 {
        lemma_lookup_some(s.drop_first(), a, i - 1);
    }
}

/// Whatever the linear scan returns contains the address it was asked for.
pub proof fn lemma_lookup_in_record(s: Seq<SpecRecord>, a: Ip)
    ensures
        spec_lookup_seq(s, a) matches Some(r) ==> ip_in_record(r, a),
    decreases s.len(),
{
    if s.len() > 0 && !ip_in_record(s[0], a) {
        lemma_lookup_in_record(s.drop_first(), a);
    }
}

/// The immutable range index: one sorted record sequence per family.
pub struct ASNs {
    v4: Vec<AsnRecord>,
    v6: Vec<AsnRecord>,
}

/// The mathematical shadow of an index.
pub struct SpecASNs {
    pub v4: Seq<SpecRecord>,
    pub v6: Seq<SpecRecord>,
}

impl View for ASNs {
    type V = SpecASNs;

    closed spec fn view(&self) -> SpecASNs {
        SpecASNs { v4: rec_views(self.v4@), v6: rec_views(self.v6@) }
    }
}

/// The dataset's lines: split on newlines, a trailing newline tolerated.
pub open spec fn lines_of(data: Seq<u8>) -> Seq<Seq<u8>> {
    let ls = spec_split(data, 10);
    if ls.len() > 0 && ls.last().len() == 0 {
        ls.drop_last()
    } else {
        ls
    }
}

pub open spec fn lines_ok(ls: Seq<Seq<u8>>) -> bool {
    forall|i: int| 0 <= i < ls.len() ==> spec_parse_line(#[trigger] ls[i]) is Some
}

/// The records of one family that the dataset accepts, in dataset order.
pub open spec fn accepted(ls: Seq<Seq<u8>>, v4: bool) -> Seq<SpecRecord>
    decreases ls.len(),
{
    if ls.len() == 0 {
        Seq::empty()
    } else {
        let rest = accepted(ls.drop_last(), v4);
        match spec_parse_line(ls.last()) {
            Some(Some(r)) => {
                if r.first_ip.is_v4() == v4 {
                    rest.push(r)
                } else {
                    rest
                }
            },
            _ => rest,
        }
    }
}

/// When a build succeeds: every line parses and neither family's accepted
/// records overlap.
pub open spec fn build_ok(data: Seq<u8>) -> bool {
    let ls = lines_of(data);
    &&& lines_ok(ls)
    &&& no_overlap(accepted(ls, true))
    &&& no_overlap(accepted(ls, false))
}

proof fn lemma_accepted_wf(ls: Seq<Seq<u8>>, v4: bool)
    ensures
        forall|k: int|
            0 <= k < accepted(ls, v4).len() ==> rec_wf(#[trigger] accepted(ls, v4)[k]) && accepted(
                ls,
                v4,
            )[k].first_ip.is_v4() == v4,
    decreases ls.len(),
{
    if ls.len() > 0 {
        lemma_accepted_wf(ls.drop_last(), v4);
    }
}

/// Inserting into a sequence inserts into its multiset.
proof fn lemma_to_multiset_insert(s: Seq<SpecRecord>, p: int, x: SpecRecord)
    requires
        0 <= p <= s.len(),
    ensures
        s.insert(p, x).to_multiset() =~= s.to_multiset().insert(x),
{
    let t = s.insert(p, x);
    assert(t.remove(p) =~= s);
    assert(t[p] == x);
    assert(t.remove(p).to_multiset() =~= t.to_multiset().remove(x));
    assert(t.contains(x));
    assert(t.to_multiset().count(x) > 0);
    assert(t.to_multiset() =~= s.to_multiset().insert(x));
}

/// A record overlapping one already placed convicts the whole input.
proof fn lemma_overlap_found(sout: Seq<SpecRecord>, input: Seq<SpecRecord>, i: int, x: SpecRecord)
    requires
        0 <= i < input.len(),
        sout.to_multiset() == input.take(i).to_multiset(),
        sout.contains(x),
        !ranges_disjoint(x, input[i]),
    ensures
        !no_overlap(input),
{
    assert(sout.to_multiset().count(x) > 0);
    assert(input.take(i).to_multiset().count(x) > 0);
    assert(input.take(i).contains(x));
    let j = choose|j: int| 0 <= j < i && input.take(i)[j] == x;
    assert(input[j] == x);
    assert(!ranges_disjoint(input[j], input[i]));
}

/// Inserting a record between its neighbours keeps the output well formed
/// and the accepted prefix overlap-free.
#[verifier::rlimit(80)]
proof fn lemma_insert_ok(
    sout: Seq<SpecRecord>,
    input: Seq<SpecRecord>,
    i: int,
    p: int,
    x: SpecRecord,
    v4: bool,
)
    requires
        fam_wf(sout, v4),
        rec_wf(x),
        x.first_ip.is_v4() == v4,
        0 <= i < input.len(),
        input[i] == x,
        0 <= p <= sout.len(),
        sout.to_multiset() == input.take(i).to_multiset(),
        no_overlap(input.take(i)),
        p > 0 ==> sout[p - 1].last_ip.num() < x.first_ip.num(),
        p < sout.len() ==> x.last_ip.num() < sout[p].first_ip.num(),
    ensures
        fam_wf(sout.insert(p, x), v4),
        sout.insert(p, x).to_multiset() == input.take(i + 1).to_multiset(),
        no_overlap(input.take(i + 1)),
{
    let snew = sout.insert(p, x);
    assert(sorted_gaps(snew)) by {
        assert forall|t: int| 0 <= t && t + 1 < snew.len() implies (
        #[trigger] snew[t]).last_ip.num() < snew[t + 1].first_ip.num() by {
            if t + 1 < p {
                assert(snew[t] == sout[t] && snew[t + 1] == sout[t + 1]);
            } else if t + 1 == p {
                assert(snew[t] == sout[t] && snew[t + 1] == x);
                if t < p - 1 {
                    lemma_sorted_gap(sout, t, p - 1);
                }
            } else if t == p {
                assert(snew[t] == x && snew[t + 1] == sout[t]);
                if t < sout.len() - 1 {
                }
            } else {
                assert(snew[t] == sout[t - 1] && snew[t + 1] == sout[t]);
            }
        }
    }
    assert(fam_wf(snew, v4)) by {
        assert(forall|k: int|
            0 <= k < snew.len() ==> #[trigger] snew[k] == if k < p {
                sout[k]
            } else if k == p {
                x
            } else {
                sout[k - 1]
            });
    }
    lemma_to_multiset_insert(sout, p, x);
    assert(input.take(i + 1) =~= input.take(i).push(input[i]));
    assert(snew.to_multiset() =~= input.take(i + 1).to_multiset());
    // `x` is disjoint from everything already placed
    assert forall|k: int| 0 <= k < sout.len() implies ranges_disjoint(
        #[trigger] sout[k],
        x,
    ) by {
        if k < p - 1 {
            lemma_sorted_gap(sout, k, p - 1);
        } else if k > p {
            lemma_sorted_gap(sout, p, k);
        }
    }
    assert(no_overlap(input.take(i + 1))) by {
        assert forall|a: int, b: int| 0 <= a < b < i + 1 implies ranges_disjoint(
            #[trigger] input.take(i + 1)[a],
            #[trigger] input.take(i + 1)[b],
        ) by {
            if b < i {
                assert(input.take(i)[a] == input.take(i + 1)[a]);
                assert(input.take(i)[b] == input.take(i + 1)[b]);
                assert(no_overlap(input.take(i)));
            } else {
                let y = input[a];
                assert(input.take(i)[a] == y);
                assert(input.take(i).contains(y));
                assert(input.take(i).to_multiset().count(y) > 0);
                assert(sout.to_multiset().count(y) > 0);
                assert(sout.contains(y));
                let k = choose|k: int| 0 <= k < sout.len() && sout[k] == y;
                assert(ranges_disjoint(sout[k], x));
                assert(ranges_disjoint(y, input[b]));
            }
        }
    }
}

/// Insert records one at a time into a sorted vector, refusing any range
/// that overlaps one already present.
#[verifier::rlimit(80)]
fn sort_check(recs: Vec<AsnRecord>, Ghost(v4): Ghost<bool>) -> (r: Result<
    Vec<AsnRecord>,
    BuildFailed,
>)
    requires
        forall|k: int|
            0 <= k < recs@.len() ==> rec_wf(#[trigger] rec_views(recs@)[k]) && rec_views(
                recs@,
            )[k].first_ip.is_v4() == v4,
    ensures
        match r {
            Ok(s) => fam_wf(rec_views(s@), v4) && rec_views(s@).to_multiset() == rec_views(
                recs@,
            ).to_multiset() && no_overlap(rec_views(recs@)),
            Err(e) => e is OverlapDetected && !no_overlap(rec_views(recs@)),
        },
{
    let ghost input = rec_views(recs@);
    proof {
        assert(forall|k: int| 0 <= k < recs@.len() ==> input[k] == #[trigger] recs@[k]@);
    }
    let mut out: Vec<AsnRecord> = Vec::new();
    let mut i: usize = 0;
    let n = recs.len();
    let mut work = recs;
    while i < n
        invariant
            0 <= i <= n,
            n == input.len(),
            input == rec_views(recs@),
            rec_views(work@) =~= input.skip(i as int),
            forall|k: int|
                0 <= k < input.len() ==> rec_wf(#[trigger] input[k]) && input[k].first_ip.is_v4()
                    == v4,
            fam_wf(rec_views(out@), v4),
            rec_views(out@).to_multiset() == input.take(i as int).to_multiset(),
            no_overlap(input.take(i as int)),
        decreases n - i,
    {
        proof {
            assert(rec_views(work@).len() == work@.len());
            assert(work@.len() == n - i);
            assert(rec_views(work@)[0] == work@[0]@);
            assert(input.skip(i as int)[0] == input[i as int]);
        }
        let ghost wk_old = work@;
        let rec = work.remove(0);
        proof {
            assert(rec@ == input[i as int]);
            assert(work@ == wk_old.remove(0));
            assert(rec_views(work@) =~= input.skip(i + 1)) by {
                assert(forall|k: int|
                    0 <= k < work@.len() ==> rec_views(work@)[k] == #[trigger] work@[k]@);
                assert(forall|k: int|
                    0 <= k < wk_old.len() ==> rec_views(wk_old)[k] == #[trigger] wk_old[k]@);
                assert(rec_views(wk_old) =~= input.skip(i as int));
                assert(forall|k: int| 0 <= k < work@.len() ==> work@[k] == wk_old[k + 1]);
            }
        }
        let ghost sout = rec_views(out@);
        proof {
            assert(forall|k: int| 0 <= k < out@.len() ==> sout[k] == #[trigger] out@[k]@);
        }
        // find the insertion point: everything from `p` on starts after `rec`
        let mut p = out.len();
        while p > 0 && rec.first_ip.lt(&out[p - 1].first_ip)
            invariant
                0 <= p <= out@.len(),
                sout == rec_views(out@),
                sout.len() == out@.len(),
                forall|k: int| 0 <= k < out@.len() ==> sout[k] == #[trigger] out@[k]@,
                fam_wf(sout, v4),
                rec@.first_ip.is_v4() == v4,
                rec_wf(rec@),
                forall|k: int|
                    p <= k < sout.len() ==> (#[trigger] sout[k]).first_ip.num()
                        > rec@.first_ip.num(),
            decreases p,
        {
            proof {
                assert(sout[p - 1] == out@[p - 1]@);
            }
            p = p - 1;
        }
        proof {
            if p > 0 {
                assert(sout[p - 1] == out@[p - 1]@);
                assert(sout[p - 1].first_ip.num() <= rec@.first_ip.num());
            }
        }
        // the left neighbour must end before `rec` begins
        if p > 0 && !out[p - 1].last_ip.lt(&rec.first_ip) {
            proof {
                let x = sout[p - 1];
                assert(!ranges_disjoint(x, rec@));
                lemma_overlap_found(sout, input, i as int, x);
            }
            return Err(BuildFailed::OverlapDetected);
        }
        // `rec` must end before the right neighbour begins
        if p < out.len() && !rec.last_ip.lt(&out[p].first_ip) {
            proof {
                assert(sout[p as int] == out@[p as int]@);
                let x = sout[p as int];
                assert(!ranges_disjoint(x, rec@));
                lemma_overlap_found(sout, input, i as int, x);
            }
            return Err(BuildFailed::OverlapDetected);
        }
        let ghost out_old = out@;
        out.insert(p, rec);
        proof {
            lemma_insert_ok(sout, input, i as int, p as int, rec@, v4);
            assert(out@ == out_old.insert(p as int, rec));
            assert(rec_views(out@) =~= sout.insert(p as int, rec@)) by {
                assert(forall|k: int|
                    0 <= k < out@.len() ==> rec_views(out@)[k] == #[trigger] out@[k]@);
            }
        }
        i = i + 1;
    }
    proof {
        assert(input.take(i as int) =~= input);
    }
    Ok(out)
}

impl ASNs {
    /// The index is well-formed: both family sequences are.
    pub open spec fn wf(self) -> bool {
        fam_wf(self@.v4, true) && fam_wf(self@.v6, false)
    }

    /// The family sequence an address is looked up in.
    pub open spec fn family_of(self, a: Ip) -> Seq<SpecRecord> {
        if a.is_v4() {
            self@.v4
        } else {
            self@.v6
        }
    }

    /// What a lookup returns: the linear scan over the address's family.
    pub open spec fn spec_lookup(self, a: Ip) -> Option<SpecRecord> {
        spec_lookup_seq(self.family_of(a), a)
    }

    /// Build an index from a whole dataset, or fail without one.
    ///
    /// Every line must parse; the accepted records of each family must be
    /// pairwise disjoint. On success the index holds exactly the accepted
    /// records, sorted; otherwise the first malformed line or the overlap
    /// is reported and no index exists.
    #[verifier::rlimit(80)]
    pub fn new(data: &[u8]) -> (r: Result<ASNs, BuildFailed>)
        ensures
            r is Ok <==> build_ok(data@),
            match r {
                Ok(a) => {
                    let ls = lines_of(data@);
                    &&& a.wf()
                    &&& a@.v4.to_multiset() == accepted(ls, true).to_multiset()
                    &&& a@.v6.to_multiset() == accepted(ls, false).to_multiset()
                },
                Err(e) => {
                    let ls = lines_of(data@);
                    match e {
                        BuildFailed::MalformedRecord(l) => exists|i: int|
                            0 <= i < ls.len() && spec_parse_line(#[trigger] ls[i]) is None && l@
                                == ls[i] && (forall|j: int|
                                0 <= j < i ==> spec_parse_line(#[trigger] ls[j]) is Some),
                        BuildFailed::OverlapDetected => lines_ok(ls) && !(no_overlap(
                            accepted(ls, true),
                        ) && no_overlap(accepted(ls, false))),
                        BuildFailed::FetchFailed => false,
                    }
                },
            },
    {
        let mut lines = split_bytes(data, 10);
        if lines.len() > 0 && lines[lines.len() - 1].len() == 0 {
            proof {
                assert(views_of(lines@).last() == lines@.last()@);
            }
            lines.pop();
        }
        let ghost ls = views_of(lines@);
        proof {
            assert(ls =~~= lines_of(data@)) by {
                let full = spec_split(data@, 10);
                if full.len() > 0 && full.last().len() == 0 {
                    assert(ls =~~= full.drop_last());
                }
            }
            assert(forall|k: int| 0 <= k < lines@.len() ==> ls[k] == #[trigger] lines@[k]@);
        }
        let mut acc4: Vec<AsnRecord> = Vec::new();
        let mut acc6: Vec<AsnRecord> = Vec::new();
        let mut i: usize = 0;
        let n = lines.len();
        while i < n
            invariant
                0 <= i <= n,
                n == lines@.len(),
                ls == views_of(lines@),
                ls == lines_of(data@),
                forall|k: int| 0 <= k < lines@.len() ==> ls[k] == #[trigger] lines@[k]@,
                forall|j: int| 0 <= j < i ==> spec_parse_line(#[trigger] ls[j]) is Some,
                rec_views(acc4@) =~= accepted(ls.take(i as int), true),
                rec_views(acc6@) =~= accepted(ls.take(i as int), false),
            decreases n - i,
        {
            proof {
                assert(ls.take(i + 1).drop_last() =~= ls.take(i as int));
                assert(ls.take(i + 1).last() == ls[i as int]);
            }
            match parse_record(lines[i].as_slice()) {
                Err(e) => {
                    proof {
                        assert(spec_parse_line(ls[i as int]) is None);
                        assert(!lines_ok(ls));
                        assert(!build_ok(data@));
                    }
                    return Err(e);
                },
                Ok(None) => {
                    proof {
                        assert(accepted(ls.take(i + 1), true) =~= accepted(
                            ls.take(i as int),
                            true,
                        ));
                        assert(accepted(ls.take(i + 1), false) =~= accepted(
                            ls.take(i as int),
                            false,
                        ));
                    }
                },
                Ok(Some(rec)) => {
                    let ghost old4 = rec_views(acc4@);
                    let ghost old6 = rec_views(acc6@);
                    if rec.first_ip.family_is_v4() {
                        acc4.push(rec);
                        proof {
                            assert(rec_views(acc4@) =~= old4.push(rec@)) by {
                                assert(forall|k: int|
                                    0 <= k < acc4@.len() ==> rec_views(acc4@)[k]
                                        == #[trigger] acc4@[k]@);
                            }
                        }
                    } else {
                        acc6.push(rec);
                        proof {
                            assert(rec_views(acc6@) =~= old6.push(rec@)) by {
                                assert(forall|k: int|
                                    0 <= k < acc6@.len() ==> rec_views(acc6@)[k]
                                        == #[trigger] acc6@[k]@);
                            }
                        }
                    }
                },
            }
            i = i + 1;
        }
        proof {
            assert(ls.take(i as int) =~= ls);
            lemma_accepted_wf(ls, true);
            lemma_accepted_wf(ls, false);
        }
        let v4 = match sort_check(acc4, Ghost(true)) {
            Ok(v) => v,
            Err(e) => {
                return Err(e);
            },
        };
        let v6 = match sort_check(acc6, Ghost(false)) {
            Ok(v) => v,
            Err(e) => {
                return Err(e);
            },
        };
        Ok(ASNs { v4, v6 })
    }

    /// Find the record whose range contains the address, by binary search
    /// over the address's family.
    #[verifier::rlimit(80)]
    pub fn lookup_by_ip(&self, ip: Ip) -> (r: Option<&AsnRecord>)
        requires
            self.wf(),
        ensures
            match r {
                Some(rec) => self.spec_lookup(ip) == Some(rec@) && ip_in_record(rec@, ip),
                None => self.spec_lookup(ip) is None,
            },
    {
        let fam: &Vec<AsnRecord> = if ip.family_is_v4() {
            &self.v4
        } else {
            &self.v6
        };
        let ghost s = rec_views(fam@);
        proof {
            assert(s == self.family_of(ip));
            assert(forall|k: int| 0 <= k < fam@.len() ==> s[k] == #[trigger] fam@[k]@);
        }
        let mut lo: usize = 0;
        let mut hi: usize = fam.len();
        while lo < hi
            invariant
                0 <= lo <= hi <= fam@.len(),
                s == rec_views(fam@),
                s.len() == fam@.len(),
                fam_wf(s, ip.is_v4()),
                forall|k: int| 0 <= k < lo ==> (#[trigger] s[k]).first_ip.num() <= ip.num(),
                forall|k: int| hi <= k < s.len() ==> (#[trigger] s[k]).first_ip.num() > ip.num(),
            decreases hi - lo,
        {
            let mid = lo + (hi - lo) / 2;
            proof {
                assert(s[mid as int] == fam@[mid as int]@);
            }
            if fam[mid].first_ip.le(&ip) {
                proof {
                    assert forall|k: int| 0 <= k < mid + 1 implies (
                    #[trigger] s[k]).first_ip.num() <= ip.num() by {
                        if k < mid {
                            lemma_sorted_gap(s, k, mid as int);
                        }
                    }
                }
                lo = mid + 1;
            } else {
                proof {
                    assert forall|k: int| mid <= k < s.len() implies (
                    #[trigger] s[k]).first_ip.num() > ip.num() by {
                        if k > mid {
                            lemma_sorted_gap(s, mid as int, k);
                        }
                    }
                }
                hi = mid;
            }
        }
        if lo == 0 {
            proof {
                lemma_lookup_none(s, ip);
            }
            return None;
        }
        let cand = &fam[lo - 1];
        proof {
            assert(cand@ == s[lo - 1]);
        }
        if ip.le(&cand.last_ip) {
            proof {
                assert(ip_in_record(s[lo - 1], ip));
                assert forall|j: int| 0 <= j < s.len() && j != lo - 1 implies !ip_in_record(
                    #[trigger] s[j],
                    ip,
                ) by {
                    if j < lo - 1 {
                        lemma_sorted_gap(s, j, lo - 1);
                    }
                }
                lemma_lookup_some(s, ip, lo - 1);
            }
            Some(cand)
        } else {
            proof {
                assert forall|j: int| 0 <= j < s.len() implies !ip_in_record(
                    #[trigger] s[j],
                    ip,
                ) by {
                    if j < lo - 1 {
                        lemma_sorted_gap(s, j, lo - 1);
                    }
                }
                lemma_lookup_none(s, ip);
            }
            None
        }
    }
}

/// Containment: an address inside a record of a well-formed index is
/// answered with exactly that record.
pub proof fn lemma_containment(asns: ASNs, a: Ip, i: int)
    requires
        asns.wf(),
        0 <= i < asns.family_of(a).len(),
        ip_in_record(asns.family_of(a)[i], a),
    ensures
        asns.spec_lookup(a) == Some(asns.family_of(a)[i]),
{
    let s = asns.family_of(a);
    assert forall|j: int| 0 <= j < s.len() && j != i implies !ip_in_record(#[trigger] s[j], a) by {
        if j < i {
            lemma_sorted_gap(s, j, i);
        } else {
            lemma_sorted_gap(s, i, j);
        }
    }
    lemma_lookup_some(s, a, i);
}

/// Miss correctness: an address inside no record of a well-formed index is
/// answered with nothing.
pub proof fn lemma_miss(asns: ASNs, a: Ip)
    requires
        asns.wf(),
        forall|i: int|
            0 <= i < asns.family_of(a).len() ==> !ip_in_record(
                #[trigger] asns.family_of(a)[i],
                a,
            ),
    ensures
        asns.spec_lookup(a) is None,
{
    lemma_lookup_none(asns.family_of(a), a);
}

/// Sortedness and non-overlap: in a well-formed index every record of a
/// family ends strictly before the next one begins.
pub proof fn lemma_sorted_nonoverlap(asns: ASNs)
    requires
        asns.wf(),
    ensures
        sorted_gaps(asns@.v4),
        sorted_gaps(asns@.v6),
        no_overlap(asns@.v4),
        no_overlap(asns@.v6),
{
    assert forall|i: int, j: int| 0 <= i < j < asns@.v4.len() implies ranges_disjoint(
        #[trigger] asns@.v4[i],
        #[trigger] asns@.v4[j],
    ) by {
        lemma_sorted_gap(asns@.v4, i, j);
    }
    assert forall|i: int, j: int| 0 <= i < j < asns@.v6.len() implies ranges_disjoint(
        #[trigger] asns@.v6[i],
        #[trigger] asns@.v6[j],
    ) by {
        lemma_sorted_gap(asns@.v6, i, j);
    }
}

/// Build atomicity: one malformed line anywhere denies the whole build.
pub proof fn lemma_build_atomicity(data: Seq<u8>, i: int)
    requires
        0 <= i < lines_of(data).len(),
        spec_parse_line(lines_of(data)[i]) is None,
    ensures
        !build_ok(data),
{
}

} // verus!

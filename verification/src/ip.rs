//! IP addresses as plain numeric values, one variant per address family,
//! and the textual grammar that reads them.

use crate::text::digits_ok;
use crate::text::dec_val;
use crate::text::hexs_ok;
use crate::text::hex_val;
use crate::text::is_digit;
use crate::text::is_hex;
use crate::text::lemma_dec_val_nonneg;
use crate::text::lemma_hex_val_bound;
use crate::text::spec_split;
use crate::text::split_bytes;
use crate::text::views_of;
use vstd::prelude::*;

verus! {

/// An IP address: a 32-bit value for the v4 family, a 128-bit value for v6.
/// Addresses of different families are never compared numerically.
#[derive(Clone, Copy, PartialEq, Eq, Structural, Debug)]
pub enum Ip {
    V4(u32),
    V6(u128),
}

impl Ip {
    /// Whether this address belongs to the 32-bit family.
    pub open spec fn is_v4(self) -> bool {
        self is V4
    }

    /// The numeric value of the address within its own family's order.
    pub open spec fn num(self) -> int {
        match self {
            Ip::V4(x) => x as int,
            Ip::V6(x) => x as int,
        }
    }

    /// Whether the two addresses belong to the same family.
    pub open spec fn same_family(self, other: Ip) -> bool {
        self.is_v4() == other.is_v4()
    }

    /// Family test, executable form.
    pub fn family_is_v4(&self) -> (r: bool)
        ensures
            r == self.is_v4(),
    {
        match self {
            Ip::V4(_) => true,
            Ip::V6(_) => false,
        }
    }

    /// Numeric `<=`; meaningful within one family, false across families.
    pub fn le(&self, other: &Ip) -> (r: bool)
        ensures
            self.same_family(*other) ==> r == (self.num() <= other.num()),
    {
        match (self, other) {
            (Ip::V4(a), Ip::V4(b)) => a <= b,
            (Ip::V6(a), Ip::V6(b)) => a <= b,
            _ => false,
        }
    }

    /// Numeric `<`; meaningful within one family, false across families.
    pub fn lt(&self, other: &Ip) -> (r: bool)
        ensures
            self.same_family(*other) ==> r == (self.num() < other.num()),
    {
        match (self, other) {
            (Ip::V4(a), Ip::V4(b)) => a < b,
            (Ip::V6(a), Ip::V6(b)) => a < b,
            _ => false,
        }
    }
}

/// A dotted-quad octet: one to three digits, no leading zero, at most 255.
pub open spec fn spec_octet(p: Seq<u8>) -> Option<int> {
    if 1 <= p.len() && p.len() <= 3 && digits_ok(p) && (p.len() > 1 ==> p[0] != 48) && dec_val(p)
        <= 255 {
        Some(dec_val(p))
    } else {
        None
    }
}

/// The v4 textual form: four octets joined by dots.
pub open spec fn spec_parse_ipv4(s: Seq<u8>) -> Option<u32> {
    let ps = spec_split(s, 46);
    if ps.len() == 4 {
        match (spec_octet(ps[0]), spec_octet(ps[1]), spec_octet(ps[2]), spec_octet(ps[3])) {
            (Some(a), Some(b), Some(c), Some(d)) => Some(
                (a * 16777216 + b * 65536 + c * 256 + d) as u32,
            ),
            _ => None,
        }
    } else {
        None
    }
}

fn parse_octet(p: &[u8]) -> (r: Option<u8>)
    ensures
        match spec_octet(p@) {
            Some(v) => r == Some(v as u8),
            None => r is None,
        },
{
    if p.len() < 1 || p.len() > 3 {
        return None;
    }
    if p.len() > 1 && p[0] == 48 {
        return None;
    }
    let mut acc: u16 = 0;
    let mut i: usize = 0;
    while i < p.len()
        invariant
            0 <= i <= p@.len(),
            p@.len() <= 3,
            digits_ok(p@.take(i as int)),
            acc == dec_val(p@.take(i as int)),
            acc < 1000,
        decreases p@.len() - i,
    {
        let c = p[i];
        if c < 48 || c > 57 {
            assert(!is_digit(p@[i as int]));
            return None;
        }
        proof {
            assert(p@.take(i + 1).drop_last() =~= p@.take(i as int));
            crate::text::lemma_dec_val_small(p@.take(i + 1));
        }
        acc = acc * 10 + (c - 48) as u16;
        i = i + 1;
    }
    proof {
        assert(p@.take(i as int) =~= p@);
    }
    if acc > 255 {
        return None;
    }
    Some(acc as u8)
}

/// Read a v4 address from its dotted-quad text.
pub fn parse_ipv4(s: &[u8]) -> (r: Option<u32>)
    ensures
        r == spec_parse_ipv4(s@),
{
    let ps = split_bytes(s, 46);
    let ghost vs = views_of(ps@);
    proof {
        assert(vs.len() == ps@.len());
        assert(forall|i: int| 0 <= i < ps@.len() ==> vs[i] == #[trigger] ps@[i]@);
    }
    if ps.len() != 4 {
        return None;
    }
    let a = match parse_octet(ps[0].as_slice()) {
        Some(x) => x,
        None => {
            return None;
        },
    };
    let b = match parse_octet(ps[1].as_slice()) {
        Some(x) => x,
        None => {
            return None;
        },
    };
    let c = match parse_octet(ps[2].as_slice()) {
        Some(x) => x,
        None => {
            return None;
        },
    };
    let d = match parse_octet(ps[3].as_slice()) {
        Some(x) => x,
        None => {
            return None;
        },
    };
    proof {
        if spec_octet(vs[0]) is Some {
            lemma_dec_val_nonneg(vs[0]);
        }
        if spec_octet(vs[1]) is Some {
            lemma_dec_val_nonneg(vs[1]);
        }
        if spec_octet(vs[2]) is Some {
            lemma_dec_val_nonneg(vs[2]);
        }
        if spec_octet(vs[3]) is Some {
            lemma_dec_val_nonneg(vs[3]);
        }
        assert(spec_octet(vs[0]) == Some(a as int));
        assert(spec_octet(vs[1]) == Some(b as int));
        assert(spec_octet(vs[2]) == Some(c as int));
        assert(spec_octet(vs[3]) == Some(d as int));
        assert(0 <= a as int * 16777216 + b as int * 65536 + c as int * 256 + d as int
            <= 0xffffffff);
    }
    Some((a as u32) * 16777216 + (b as u32) * 65536 + (c as u32) * 256 + (d as u32))
}

/// A v6 group: one to four hexadecimal digits.
pub open spec fn is_group(p: Seq<u8>) -> bool {
    1 <= p.len() && p.len() <= 4 && hexs_ok(p)
}

pub open spec fn groups_ok(ps: Seq<Seq<u8>>, lo: int, hi: int) -> bool {
    forall|i: int| lo <= i < hi ==> is_group(#[trigger] ps[i])
}

/// The value of the groups `ps[lo..hi]`, most significant first.
pub open spec fn gv(ps: Seq<Seq<u8>>, lo: int, hi: int) -> int
    decreases hi - lo,
{
    if lo >= hi {
        0
    } else {
        gv(ps, lo, hi - 1) * 65536 + hex_val(ps[hi - 1])
    }
}

/// `65536 ^ k`: the weight of `k` trailing v6 groups.
pub open spec fn shift16(k: int) -> int
    decreases k,
{
    if k <= 0 {
        1
    } else {
        65536 * shift16(k - 1)
    }
}

/// Index of the first empty piece, or the length if none is empty.
pub open spec fn first_empty(ps: Seq<Seq<u8>>) -> int
    decreases ps.len(),
{
    if ps.len() == 0 {
        0
    } else if ps[0].len() == 0 {
        0
    } else {
        1 + first_empty(ps.drop_first())
    }
}

proof fn lemma_first_empty(ps: Seq<Seq<u8>>)
    ensures
        0 <= first_empty(ps) <= ps.len(),
        forall|i: int| 0 <= i < first_empty(ps) ==> #[trigger] ps[i].len() != 0,
        first_empty(ps) < ps.len() ==> ps[first_empty(ps)].len() == 0,
    decreases ps.len(),
{
    if ps.len() > 0 && ps[0].len() != 0 {
        lemma_first_empty(ps.drop_first());
        assert(forall|i: int|
            0 <= i < first_empty(ps) ==> (#[trigger] ps[i]) == if i == 0 {
                ps[0]
            } else {
                ps.drop_first()[i - 1]
            });
    }
}

proof fn lemma_shift16_pos(k: int)
    ensures
        shift16(k) >= 1,
    decreases (if k > 0 { k } else { 0 }),
{
    if k > 0 {
        lemma_shift16_pos(k - 1);
    }
}

proof fn lemma_shift16_mono(a: int, b: int)
    requires
        a <= b,
    ensures
        shift16(a) <= shift16(b),
    decreases b - a,
{
    if a < b {
        lemma_shift16_mono(a, b - 1);
        lemma_shift16_pos(b - 1);
    }
}

proof fn lemma_shift16_adds(a: int, b: int)
    requires
        a >= 0,
        b >= 0,
    ensures
        shift16(a + b) == shift16(a) * shift16(b),
    decreases a,
{
    if a == 0 {
        assert(shift16(b) == 1 * shift16(b));
    } else {
        lemma_shift16_adds(a - 1, b);
        assert(65536 * (shift16(a - 1) * shift16(b)) == (65536 * shift16(a - 1)) * shift16(b))
            by (nonlinear_arith);
    }
}

proof fn lemma_gv_bound(ps: Seq<Seq<u8>>, lo: int, hi: int)
    requires
        lo <= hi,
        groups_ok(ps, lo, hi),
    ensures
        0 <= gv(ps, lo, hi) < shift16(hi - lo),
    decreases hi - lo,
{
    if lo < hi {
        lemma_gv_bound(ps, lo, hi - 1);
        lemma_hex_val_bound(ps[hi - 1]);
    }
}

/// The value of `l` leading groups shifted past `8 - l` others, plus `r`
/// trailing groups, stays within the sixteen-byte address space.
proof fn lemma_v6_fits(l: int, r: int, a: int, b: int)
    requires
        0 <= l,
        0 <= r,
        l + r <= 8,
        0 <= a < shift16(l),
        0 <= b < shift16(r),
    ensures
        0 <= a * shift16(8 - l) + b < shift16(8),
{
    let s = shift16(8 - l);
    lemma_shift16_pos(8 - l);
    assert(a * s <= (shift16(l) - 1) * s) by (nonlinear_arith)
        requires
            a <= shift16(l) - 1,
            s >= 0,
    ;
    assert((shift16(l) - 1) * s == shift16(l) * s - s) by (nonlinear_arith);
    lemma_shift16_adds(l, 8 - l);
    lemma_shift16_mono(r, 8 - l);
    assert(a * s >= 0) by (nonlinear_arith)
        requires
            a >= 0,
            s >= 0,
    ;
}

proof fn lemma_shift16_vals()
    ensures
        shift16(1) == 0x10000,
        shift16(2) == 0x100000000,
        shift16(3) == 0x1000000000000,
        shift16(4) == 0x10000000000000000,
        shift16(5) == 0x100000000000000000000,
        shift16(6) == 0x1000000000000000000000000,
        shift16(7) == 0x10000000000000000000000000000,
        shift16(8) == 0x100000000000000000000000000000000,
{
    reveal_with_fuel(shift16, 9);
}

fn shift16_exec(k: usize) -> (r: u128)
    requires
        1 <= k <= 7,
    ensures
        r as int == shift16(k as int),
{
    proof {
        lemma_shift16_vals();
    }
    if k == 1 {
        0x10000
    } else if k == 2 {
        0x100000000
    } else if k == 3 {
        0x1000000000000
    } else if k == 4 {
        0x10000000000000000
    } else if k == 5 {
        0x100000000000000000000
    } else if k == 6 {
        0x1000000000000000000000000
    } else {
        0x10000000000000000000000000000
    }
}

fn group_val_exec(p: &[u8]) -> (r: Option<u32>)
    ensures
        match r {
            Some(v) => is_group(p@) && v as int == hex_val(p@) && v < 65536,
            None => !is_group(p@),
        },
{
    if p.len() < 1 || p.len() > 4 {
        return None;
    }
    let mut acc: u32 = 0;
    let mut i: usize = 0;
    while i < p.len()
        invariant
            0 <= i <= p@.len(),
            p@.len() <= 4,
            hexs_ok(p@.take(i as int)),
            acc as int == hex_val(p@.take(i as int)),
            acc < 65536,
        decreases p@.len() - i,
    {
        let c = p[i];
        let d: u32 = if 48 <= c && c <= 57 {
            (c - 48) as u32
        } else if 97 <= c && c <= 102 {
            (c - 87) as u32
        } else if 65 <= c && c <= 70 {
            (c - 55) as u32
        } else {
            assert(!is_hex(p@[i as int]));
            return None;
        };
        proof {
            assert(p@.take(i + 1).drop_last() =~= p@.take(i as int));
            lemma_hex_val_bound(p@.take(i + 1));
        }
        acc = acc * 16 + d;
        i = i + 1;
    }
    proof {
        assert(p@.take(i as int) =~= p@);
    }
    Some(acc)
}

/// The value of the group run `ps[lo..hi]`, or nothing when a piece
/// there is not a group.
fn gv_exec(ps: &Vec<Vec<u8>>, lo: usize, hi: usize) -> (r: Option<u128>)
    requires
        lo <= hi && hi <= ps@.len(),
        hi - lo <= 8,
    ensures
        match r {
            Some(v) => groups_ok(views_of(ps@), lo as int, hi as int) && v as int == gv(
                views_of(ps@),
                lo as int,
                hi as int,
            ),
            None => !groups_ok(views_of(ps@), lo as int, hi as int),
        },
{
    let ghost vs = views_of(ps@);
    let mut acc: u128 = 0;
    let mut i: usize = lo;
    while i < hi
        invariant
            lo <= i <= hi,
            hi <= ps@.len(),
            hi - lo <= 8,
            vs == views_of(ps@),
            groups_ok(vs, lo as int, i as int),
            acc as int == gv(vs, lo as int, i as int),
        decreases hi - i,
    {
        let g = match group_val_exec(ps[i].as_slice()) {
            Some(g) => g,
            None => {
                assert(vs[i as int] == ps@[i as int]@);
                assert(!is_group(vs[i as int]));
                return None;
            },
        };
        proof {
            assert(vs[i as int] == ps@[i as int]@);
            lemma_gv_bound(vs, lo as int, i as int);
            lemma_shift16_mono(i - lo, 7);
            lemma_shift16_vals();
        }
        acc = acc * 65536 + g as u128;
        i = i + 1;
    }
    Some(acc)
}

fn find_first_empty(ps: &Vec<Vec<u8>>) -> (k: usize)
    ensures
        k as int == first_empty(views_of(ps@)),
{
    let ghost vs = views_of(ps@);
    let mut k: usize = 0;
    while k < ps.len() && ps[k].len() > 0
        invariant
            0 <= k <= ps@.len(),
            vs == views_of(ps@),
            forall|j: int| 0 <= j < k ==> #[trigger] vs[j].len() != 0,
        decreases ps@.len() - k,
    {
        assert(vs[k as int] == ps@[k as int]@);
        k = k + 1;
    }
    proof {
        if k < ps@.len() {
            assert(vs[k as int] == ps@[k as int]@);
        }
        lemma_first_empty(vs);
        let fe = first_empty(vs);
        if (k as int) < fe {
            assert(vs[k as int].len() != 0);
            assert(false);
        }
        if fe < k as int {
            assert(vs[fe].len() != 0);
            assert(false);
        }
    }
    k
}

/// The v6 textual form: colon-separated groups, at most one `::` run.
pub open spec fn spec_parse_ipv6_parts(ps: Seq<Seq<u8>>) -> Option<u128> {
    let n = ps.len() as int;
    let k = first_empty(ps);
    if n == 8 && groups_ok(ps, 0, 8) {
        Some(gv(ps, 0, 8) as u128)
    } else if n == 3 && ps[0].len() == 0 && ps[1].len() == 0 && ps[2].len() == 0 {
        Some(0)
    } else if 3 <= n && n <= 9 && ps[0].len() == 0 && ps[1].len() == 0 && groups_ok(ps, 2, n) {
        Some(gv(ps, 2, n) as u128)
    } else if 3 <= n && n <= 9 && ps[n - 1].len() == 0 && ps[n - 2].len() == 0 && groups_ok(
        ps,
        0,
        n - 2,
    ) {
        Some((gv(ps, 0, n - 2) * shift16(8 - (n - 2))) as u128)
    } else if 3 <= n && n <= 8 && 1 <= k && k <= n - 2 && groups_ok(ps, 0, k) && groups_ok(
        ps,
        k + 1,
        n,
    ) {
        Some((gv(ps, 0, k) * shift16(8 - k) + gv(ps, k + 1, n)) as u128)
    } else {
        None
    }
}

pub open spec fn spec_parse_ipv6(s: Seq<u8>) -> Option<u128> {
    spec_parse_ipv6_parts(spec_split(s, 58))
}

/// Read a v6 address from its colon-separated text.
pub fn parse_ipv6(s: &[u8]) -> (r: Option<u128>)
    ensures
        r == spec_parse_ipv6(s@),
{
    let ps = split_bytes(s, 58);
    let ghost vs = views_of(ps@);
    let n = ps.len();
    let k = find_first_empty(&ps);
    proof {
        lemma_first_empty(vs);
    }
    if n == 8 && k == 8 {
        // no empty piece: only the eight-group form can apply
        match gv_exec(&ps, 0, 8) {
            Some(v) => {
                proof {
                    lemma_gv_bound(vs, 0, 8);
                    lemma_shift16_vals();
                }
                return Some(v);
            },
            None => {
                return None;
            },
        }
    }
    if k == n {
        // no empty piece and not eight groups
        return None;
    }
    assert(vs[k as int].len() == 0);
    if n == 3 && k == 0 {
        let second = ps[1].len();
        let third = ps[2].len();
        if second == 0 && third == 0 {
            assert(vs[1] == ps@[1]@);
            assert(vs[2] == ps@[2]@);
            return Some(0);
        }
    }
    if k == 0 {
        // a leading empty piece must open a `::` run
        if n < 3 || n > 9 {
            return None;
        }
        assert(vs[1] == ps@[1]@);
        if ps[1].len() != 0 {
            // branch for `::` at the very start failed; the trailing and
            // interior forms need a group at position 0
            assert(!is_group(vs[0]));
            return None;
        }
        match gv_exec(&ps, 2, n) {
            Some(v) => {
                proof {
                    lemma_gv_bound(vs, 2, n as int);
                    lemma_shift16_mono(n - 2, 7);
                    lemma_shift16_vals();
                }
                return Some(v);
            },
            None => {
                assert(!is_group(vs[0]));
                return None;
            },
        }
    }
    // from here on ps[0] is nonempty, so k >= 1
    assert(vs[0] == ps@[0]@);
    assert(vs[0].len() != 0);
    assert(!(3 <= n as int && ps@.len() as int <= 9 && vs[0].len() == 0));
    let last = ps[n - 1].len();
    assert(vs[n - 1] == ps@[n - 1]@);
    if last == 0 {
        // a trailing empty piece must close a `::` run
        if n < 3 || n > 9 {
            return None;
        }
        assert(vs[n - 2] == ps@[n - 2]@);
        if ps[n - 2].len() != 0 {
            // interior form needs every piece after the gap to be a group
            assert(k as int <= n - 2 ==> !is_group(vs[n - 1]));
            return None;
        }
        if k == n - 2 {
            match gv_exec(&ps, 0, n - 2) {
                Some(v) => {
                    proof {
                        lemma_gv_bound(vs, 0, n - 2);
                        lemma_v6_fits(n - 2, 0, v as int, 0);
                        lemma_shift16_vals();
                    }
                    let sh = shift16_exec(8 - (n - 2));
                    return Some(v * sh);
                },
                None => {
                    assert(!groups_ok(vs, 0, n - 2));
                    assert(k as int <= n - 2 ==> !groups_ok(vs, 0, k as int) || !groups_ok(
                        vs,
                        k as int + 1,
                        n as int,
                    ));
                    return None;
                },
            }
        } else {
            // the first empty piece sits before the trailing `::`
            assert((k as int) < n - 2);
            assert(!is_group(vs[k as int]));
            assert(!groups_ok(vs, 0, n - 2));
            assert(!groups_ok(vs, k as int + 1, n as int) || !(k as int <= n - 2)) by {
                assert(vs[n - 1].len() == 0);
                assert(!is_group(vs[n - 1]));
            };
            return None;
        }
    }
    // interior form: ps[0] and ps[n-1] are nonempty, the gap is at k
    if n < 3 || n > 8 {
        return None;
    }
    if k + 2 > n {
        // the empty piece is last; but the last piece is nonempty
        assert(false);
        return None;
    }
    let left = match gv_exec(&ps, 0, k) {
        Some(v) => v,
        None => {
            return None;
        },
    };
    let right = match gv_exec(&ps, k + 1, n) {
        Some(v) => v,
        None => {
            return None;
        },
    };
    proof {
        lemma_gv_bound(vs, 0, k as int);
        lemma_gv_bound(vs, k as int + 1, n as int);
        lemma_shift16_mono(n - 1 - k, 8 - k as int);
        lemma_v6_fits(k as int, n - 1 - k as int, left as int, right as int);
        lemma_shift16_vals();
        lemma_shift16_pos(8 - k as int);
    }
    let sh = shift16_exec(8 - k);
    Some(left * sh + right)
}

/// Read an address of either family from its text.
pub open spec fn spec_parse_ip(s: Seq<u8>) -> Option<Ip> {
    match spec_parse_ipv4(s) {
        Some(v) => Some(Ip::V4(v)),
        None => match spec_parse_ipv6(s) {
            Some(v) => Some(Ip::V6(v)),
            None => None,
        },
    }
}

pub fn parse_ip(s: &[u8]) -> (r: Option<Ip>)
    ensures
        r == spec_parse_ip(s@),
{
    match parse_ipv4(s) {
        Some(v) => Some(Ip::V4(v)),
        None => match parse_ipv6(s) {
            Some(v) => Some(Ip::V6(v)),
            None => None,
        },
    }
}

} // verus!

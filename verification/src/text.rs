//! Byte-level text utilities: splitting on a separator and reading
//! decimal and hexadecimal numbers, each against an exact specification.

use vstd::prelude::*;

verus! {

/// Splitting a byte sequence on a separator, defined from the front:
/// the result always has one piece more than there are separators.
pub open spec fn spec_split(s: Seq<u8>, sep: u8) -> Seq<Seq<u8>>
    decreases s.len(),
{
    if s.len() == 0 {
        seq![Seq::<u8>::empty()]
    } else if s[0] == sep {
        seq![Seq::<u8>::empty()] + spec_split(s.drop_first(), sep)
    } else {
        let r = spec_split(s.drop_first(), sep);
        r.update(0, seq![s[0]] + r[0])
    }
}

proof fn lemma_split_len(s: Seq<u8>, sep: u8)
    ensures
        spec_split(s, sep).len() >= 1,
    decreases s.len(),
{
    if s.len() == 0 {
    } else {
        lemma_split_len(s.drop_first(), sep);
    }
}

/// A sequence without the separator splits into itself alone.
proof fn lemma_split_no_sep(s: Seq<u8>, sep: u8)
    requires
        forall|i: int| 0 <= i < s.len() ==> s[i] != sep,
    ensures
        spec_split(s, sep) =~~= seq![s],
    decreases s.len(),
{
    if s.len() == 0 {
    } else {
        lemma_split_no_sep(s.drop_first(), sep);
        assert(spec_split(s, sep)[0] =~= seq![s[0]] + s.drop_first());
        assert(seq![s[0]] + s.drop_first() =~= s);
    }
}

/// Splitting at the first separator peels off the separator-free prefix.
proof fn lemma_split_append(a: Seq<u8>, b: Seq<u8>, sep: u8)
    requires
        forall|i: int| 0 <= i < a.len() ==> a[i] != sep,
    ensures
        spec_split(a + seq![sep] + b, sep) =~~= seq![a] + spec_split(b, sep),
    decreases a.len(),
{
    let s = a + seq![sep] + b;
    if a.len() == 0 {
        assert(s =~= seq![sep] + b);
        assert(s[0] == sep);
        assert(s.drop_first() =~= b);
    } else {
        lemma_split_append(a.drop_first(), b, sep);
        assert(s[0] == a[0]);
        assert(s[0] != sep);
        assert(s.drop_first() =~= a.drop_first() + seq![sep] + b);
        let r = spec_split(s.drop_first(), sep);
        assert(r =~~= seq![a.drop_first()] + spec_split(b, sep));
        assert(r[0] =~= a.drop_first());
        assert(spec_split(s, sep) =~~= r.update(0, seq![s[0]] + r[0]));
        assert(seq![s[0]] + a.drop_first() =~= a);
        assert(r.update(0, a) =~~= seq![a] + spec_split(b, sep));
    }
}

/// The views of a vector of byte vectors.
pub open spec fn views_of(r: Seq<Vec<u8>>) -> Seq<Seq<u8>> {
    r.map_values(|p: Vec<u8>| p@)
}

/// Split a byte slice on a separator.
pub fn split_bytes(s: &[u8], sep: u8) -> (r: Vec<Vec<u8>>)
    ensures
        views_of(r@) =~~= spec_split(s@, sep),
{
    let ghost whole = s@;
    let mut r: Vec<Vec<u8>> = Vec::new();
    let mut cur: Vec<u8> = Vec::new();
    let mut i: usize = 0;
    proof {
        assert(cur@ + whole.subrange(0, whole.len() as int) =~= whole);
    }
    while i < s.len()
        invariant
            0 <= i <= s@.len(),
            s@ == whole,
            forall|k: int| 0 <= k < cur@.len() ==> cur@[k] != sep,
            spec_split(whole, sep) =~~= views_of(r@) + spec_split(
                cur@ + whole.subrange(i as int, whole.len() as int),
                sep,
            ),
        decreases s@.len() - i,
    {
        let c = s[i];
        let ghost rest_before = cur@ + whole.subrange(i as int, whole.len() as int);
        if c == sep {
            proof {
                assert(rest_before =~= cur@ + seq![sep] + whole.subrange(
                    i + 1,
                    whole.len() as int,
                ));
                lemma_split_append(cur@, whole.subrange(i + 1, whole.len() as int), sep);
            }
            let done = cur;
            cur = Vec::new();
            let ghost r_old = r@;
            r.push(done);
            proof {
                assert(views_of(r@) =~~= views_of(r_old) + seq![done@]);
                assert(cur@ + whole.subrange(i + 1, whole.len() as int) =~= whole.subrange(
                    i + 1,
                    whole.len() as int,
                ));
            }
        } else {
            let ghost cur_old = cur@;
            cur.push(c);
            proof {
                assert(cur@ + whole.subrange(i + 1, whole.len() as int) =~= rest_before);
            }
        }
        i = i + 1;
    }
    proof {
        assert(cur@ + whole.subrange(i as int, whole.len() as int) =~= cur@);
        lemma_split_no_sep(cur@, sep);
    }
    let ghost r_old = r@;
    r.push(cur);
    proof {
        assert(views_of(r@) =~~= views_of(r_old) + seq![cur@]);
    }
    r
}

/// An owned copy of a byte slice.
pub fn copy_bytes(s: &[u8]) -> (r: Vec<u8>)
    ensures
        r@ == s@,
{
    let mut r: Vec<u8> = Vec::new();
    let mut i: usize = 0;
    while i < s.len()
        invariant
            0 <= i <= s@.len(),
            r@ == s@.take(i as int),
        decreases s@.len() - i,
    {
        r.push(s[i]);
        proof {
            assert(r@ =~= s@.take(i + 1));
        }
        i = i + 1;
    }
    proof {
        assert(s@.take(i as int) =~= s@);
    }
    r
}

/// ASCII decimal digit.
pub open spec fn is_digit(c: u8) -> bool {
    48 <= c && c <= 57
}

pub open spec fn digits_ok(s: Seq<u8>) -> bool {
    forall|i: int| 0 <= i < s.len() ==> is_digit(#[trigger] s[i])
}

/// The value of a digit string, most significant first.
pub open spec fn dec_val(s: Seq<u8>) -> int
    decreases s.len(),
{
    if s.len() == 0 {
        0
    } else {
        dec_val(s.drop_last()) * 10 + (s.last() - 48)
    }
}

pub proof fn lemma_dec_val_nonneg(s: Seq<u8>)
    requires
        digits_ok(s),
    ensures
        dec_val(s) >= 0,
    decreases s.len(),
{
    if s.len() > 0 {
        lemma_dec_val_nonneg(s.drop_last());
    }
}

/// Reading further digits never shrinks the value.
proof fn lemma_dec_val_prefix(s: Seq<u8>, j: int)
    requires
        digits_ok(s),
        0 <= j <= s.len(),
    ensures
        dec_val(s.take(j)) <= dec_val(s),
    decreases s.len() - j,
{
    if j < s.len() {
        lemma_dec_val_prefix(s, j + 1);
        let t = s.take(j + 1);
        assert(t.drop_last() =~= s.take(j));
        lemma_dec_val_nonneg(s.take(j));
        assert(dec_val(s.take(j)) <= dec_val(t));
    } else {
        assert(s.take(j) =~= s);
    }
}

/// A decimal field is a nonempty, all-digit string whose value fits.
pub open spec fn spec_parse_u32(s: Seq<u8>) -> Option<u32> {
    if s.len() >= 1 && digits_ok(s) && dec_val(s) <= u32::MAX {
        Some(dec_val(s) as u32)
    } else {
        None
    }
}

/// Read a `u32` written in decimal; overflow and stray bytes are rejected.
pub fn parse_u32(s: &[u8]) -> (r: Option<u32>)
    ensures
        r == spec_parse_u32(s@),
{
    if s.len() == 0 {
        return None;
    }
    let mut acc: u32 = 0;
    let mut i: usize = 0;
    while i < s.len()
        invariant
            0 <= i <= s@.len(),
            digits_ok(s@.take(i as int)),
            acc == dec_val(s@.take(i as int)),
        decreases s@.len() - i,
    {
        let c = s[i];
        if c < 48 || c > 57 {
            assert(!is_digit(s@[i as int]));
            return None;
        }
        let d = c - 48;
        proof {
            assert(s@.take(i + 1).drop_last() =~= s@.take(i as int));
        }
        if acc > (u32::MAX - d as u32) / 10 {
            proof {
                assert(digits_ok(s@.take(i + 1)));
                assert(dec_val(s@.take(i + 1)) == acc * 10 + d);
                assert(acc * 10 + d > u32::MAX) by (nonlinear_arith)
                    requires
                        acc > (u32::MAX - d as u32) / 10,
                        0 <= d <= 9,
                ;
                if digits_ok(s@) {
                    lemma_dec_val_prefix(s@, i + 1);
                }
            }
            return None;
        }
        acc = acc * 10 + d as u32;
        i = i + 1;
    }
    proof {
        assert(s@.take(i as int) =~= s@);
    }
    Some(acc)
}

pub proof fn lemma_dec_val_small(s: Seq<u8>)
    requires
        digits_ok(s),
    ensures
        0 <= dec_val(s),
        s.len() <= 1 ==> dec_val(s) < 10,
        s.len() <= 2 ==> dec_val(s) < 100,
        s.len() <= 3 ==> dec_val(s) < 1000,
    decreases s.len(),
{
    if s.len() > 0 {
        lemma_dec_val_small(s.drop_last());
    }
}

/// ASCII hexadecimal digit.
pub open spec fn is_hex(c: u8) -> bool {
    (48 <= c && c <= 57) || (97 <= c && c <= 102) || (65 <= c && c <= 70)
}

pub open spec fn hex_digit(c: u8) -> int {
    if 48 <= c && c <= 57 {
        c - 48
    } else if 97 <= c && c <= 102 {
        c - 87
    } else if 65 <= c && c <= 70 {
        c - 55
    } else {
        0
    }
}

pub open spec fn hexs_ok(s: Seq<u8>) -> bool {
    forall|i: int| 0 <= i < s.len() ==> is_hex(#[trigger] s[i])
}

/// The value of a hexadecimal digit string, most significant first.
pub open spec fn hex_val(s: Seq<u8>) -> int
    decreases s.len(),
{
    if s.len() == 0 {
        0
    } else {
        hex_val(s.drop_last()) * 16 + hex_digit(s.last())
    }
}

pub proof fn lemma_hex_val_bound(s: Seq<u8>)
    requires
        hexs_ok(s),
    ensures
        0 <= hex_val(s),
        s.len() <= 1 ==> hex_val(s) < 16,
        s.len() <= 2 ==> hex_val(s) < 256,
        s.len() <= 3 ==> hex_val(s) < 4096,
        s.len() <= 4 ==> hex_val(s) < 65536,
    decreases s.len(),
{
    if s.len() > 0 {
        lemma_hex_val_bound(s.drop_last());
    }
}

} // verus!

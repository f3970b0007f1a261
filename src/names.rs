//! Region file names: `r.<x>.<z>.<ext>`, with `x` and `z` decimal integers,
//! each with an optional leading minus sign: `mca` for containers, `cache`
//! for snapshots, `png` for tiles.
use vstd::prelude::*;
use crate::coords::RLoc;

verus! {

/// An ASCII decimal digit.
pub open spec fn is_digit(b: u8) -> bool {
    48 <= b <= 57
}

/// The value of a string of decimal digits.
pub open spec fn decimal_value(s: Seq<u8>) -> int
    decreases s.len(),
{
    if s.len() == 0 {
        0
    } else {
        decimal_value(s.drop_last()) * 10 + (s.last() - 48)
    }
}

/// The integer that `s` spells: digits, with an optional leading `-`.
pub open spec fn int_text_value(s: Seq<u8>) -> Option<int> {
    if s.len() > 0 && forall|i: int| 0 <= i < s.len() ==> is_digit(#[trigger] s[i]) {
        Some(decimal_value(s))
    } else if s.len() > 1 && s[0] == 45 && forall|i: int| 1 <= i < s.len() ==> is_digit(#[trigger] s[i]) {
        Some(-decimal_value(s.drop_first()))
    } else {
        None
    }
}

/// `name` is `r.` then text for `x`, a `.` at `2 + k`, text for `z`, and `.mca`.
pub open spec fn region_name_split(name: Seq<u8>, k: int, x: int, z: int) -> bool {
    &&& name.len() >= 9
    &&& name[0] == 114
    &&& name[1] == 46
    &&& name.subrange(name.len() - 4, name.len() as int) == seq![46u8, 109u8, 99u8, 97u8]
    &&& 2 <= 2 + k < name.len() - 4
    &&& name[2 + k] == 46
    &&& int_text_value(name.subrange(2, 2 + k)) == Some(x)
    &&& int_text_value(name.subrange(3 + k, name.len() - 4)) == Some(z)
}

/// `name` names the container of region `(x, z)`.
pub open spec fn names_region(name: Seq<u8>, x: int, z: int) -> bool {
    exists|k: int| region_name_split(name, k, x, z)
}

/// Bound past which the digits read so far are too many for an `i32`.
const BIG: i64 = 0x8000_0001;

/// The integer that bytes `start .. end` of `s` spell, where it fits in
/// an `i32`.
fn parse_int(s: &[u8], start: usize, end: usize) -> (r: Option<i32>)
    requires
        start <= end <= s@.len(),
    ensures
        r matches Some(v) ==> int_text_value(s@.subrange(start as int, end as int)) == Some(
            v as int,
        ),
        r is None ==> (int_text_value(s@.subrange(start as int, end as int)) matches Some(v)
            ==> !(i32::MIN <= v <= i32::MAX)),
{
    let ghost t = s@.subrange(start as int, end as int);
    if start == end {
        return None;
    }
    let neg = s[start] == 45;
    let first: usize = if neg { start + 1 } else { start };
    if first == end {
        return None;
    }
    let ghost digits = s@.subrange(first as int, end as int);
    let mut acc: i64 = 0;
    let mut i: usize = first;
    while i < end
        invariant
            start <= first <= i <= end <= s@.len(),
            first < end,
            start < end,
            t == s@.subrange(start as int, end as int),
            neg == (s@[start as int] == 45),
            first == if neg { start + 1 } else { start as int },
            digits == s@.subrange(first as int, end as int),
            forall|j: int| first <= j < i ==> is_digit(#[trigger] s@[j]),
            acc == if decimal_value(s@.subrange(first as int, i as int)) < BIG {
                decimal_value(s@.subrange(first as int, i as int))
            } else {
                BIG as int
            },
            0 <= acc <= BIG,
        decreases end - i,
    {
        let b = s[i];
        if b < 48 || b > 57 {
            proof {
                assert(t[i - start] == s@[i as int]);
                assert(!is_digit(t[i - start]));
                assert(t[0] == s@[start as int]);
                if neg {
                    assert(!is_digit(t[0]));
                }
            }
            return None;
        }
        let ghost pre = s@.subrange(first as int, i as int);
        proof {
            assert(s@.subrange(first as int, i + 1).drop_last() =~= pre);
        }
        let next = acc * 10 + (b - 48) as i64;
        acc = if next < BIG { next } else { BIG };
        i += 1;
    }
    proof {
        assert(s@.subrange(first as int, end as int) =~= digits);
        assert(t[0] == s@[start as int]);
        if neg {
            assert(!is_digit(t[0]));
            assert(t.drop_first() =~= digits);
            assert forall|j: int| 1 <= j < t.len() implies is_digit(#[trigger] t[j]) by {
                assert(t[j] == s@[start + j]);
            }
        } else {
            assert(t =~= digits);
            assert forall|j: int| 0 <= j < t.len() implies is_digit(#[trigger] t[j]) by {
                assert(t[j] == s@[start + j]);
            }
        }
    }
    if neg {
        if acc > 0x8000_0000 {
            None
        } else {
            Some((-acc) as i32)
        }
    } else {
        if acc > 0x7fff_ffff {
            None
        } else {
            Some(acc as i32)
        }
    }
}

/// The region whose container file is called `name`: none where the name
/// is not of the form `r.<x>.<z>.mca` or a coordinate does not fit in an
/// `i32`.
pub fn parse_region_name(name: &[u8]) -> (r: Option<RLoc>)
    ensures
        r matches Some(l) ==> names_region(name@, l.0 as int, l.1 as int),
        r is None ==> forall|x: int, z: int|
            names_region(name@, x, z) ==> !(i32::MIN <= x <= i32::MAX && i32::MIN <= z <= i32::MAX),
{
    let len = name.len();
    if len < 9 || name[0] != 114 || name[1] != 46 || name[len - 4] != 46 || name[len - 3] != 109
        || name[len - 2] != 99 || name[len - 1] != 97 {
        proof {
            assert forall|x: int, z: int| !names_region(name@, x, z) by {
                if names_region(name@, x, z) {
                    let k = choose|k: int| region_name_split(name@, k, x, z);
                    let suffix = name@.subrange(len - 4, len as int);
                    assert(suffix[0] == name@[len - 4]);
                    assert(suffix[1] == name@[len - 3]);
                    assert(suffix[2] == name@[len - 2]);
                    assert(suffix[3] == name@[len - 1]);
                }
            }
        }
        return None;
    }
    let end = len - 4;
    let mut d: usize = 2;
    while d < end && name[d] != 46
        invariant
            len == name@.len(),
            end == len - 4,
            2 <= d <= end,
            forall|j: int| 2 <= j < d ==> name@[j] != 46,
        decreases end - d,
    {
        d += 1;
    }
    proof {
        assert(name@.subrange(len - 4, len as int) =~= seq![46u8, 109u8, 99u8, 97u8]);
        // Any split puts its dot at the first dot of the middle part.
        assert forall|k: int, x: int, z: int| #[trigger] region_name_split(name@, k, x, z) implies 2 + k
            == d by {
            if 2 + k > d {
                let a = name@.subrange(2, 2 + k);
                assert(a[d - 2] == 46);
                assert(!is_digit(a[d - 2]));
                if d == 2 {
                    assert(a[0] == 46);
                }
            }
        }
    }
    if d == end {
        proof {
            assert forall|x: int, z: int| !names_region(name@, x, z) by {
                if names_region(name@, x, z) {
                    let k = choose|k: int| region_name_split(name@, k, x, z);
                }
            }
        }
        return None;
    }
    let x = parse_int(name, 2, d);
    let z = parse_int(name, d + 1, end);
    match (x, z) {
        (Some(x), Some(z)) => {
            proof {
                assert(region_name_split(name@, d - 2, x as int, z as int));
            }
            Some(RLoc(x, z))
        },
        _ => {
            proof {
                assert forall|xx: int, zz: int| names_region(name@, xx, zz) implies !(i32::MIN <= xx
                    <= i32::MAX && i32::MIN <= zz <= i32::MAX) by {
                    let k = choose|k: int| region_name_split(name@, k, xx, zz);
                    assert(2 + k == d);
                }
            }
            None
        },
    }
}

/// The decimal digits of `n`, most significant first, without leading zeros.
pub open spec fn decimal_digits(n: nat) -> Seq<u8>
    decreases n,
{
    if n < 10 {
        seq![(48 + n) as u8]
    } else {
        decimal_digits(n / 10).push((48 + n % 10) as u8)
    }
}

/// The text of `v` in decimal, with a leading `-` where it is negative.
pub open spec fn int_text(v: int) -> Seq<u8> {
    if v < 0 {
        seq![45u8] + decimal_digits((-v) as nat)
    } else {
        decimal_digits(v as nat)
    }
}

/// `r.<x>.<z>.` followed by `ext`.
pub open spec fn region_file_name(r: RLoc, ext: Seq<u8>) -> Seq<u8> {
    seq![114u8, 46u8] + int_text(r.0 as int) + seq![46u8] + int_text(r.1 as int) + seq![46u8] + ext
}

fn push_digits(out: &mut Vec<u8>, n: u64)
    ensures
        final(out)@ == old(out)@ + decimal_digits(n as nat),
    decreases n,
{
    if n >= 10 {
        push_digits(out, n / 10);
    }
    out.push((48 + n % 10) as u8);
    proof {
        if n < 10 {
            assert(old(out)@ + decimal_digits(n as nat) =~= old(out)@.push((48 + n % 10) as u8));
        } else {
            assert(old(out)@ + decimal_digits(n as nat) =~= (old(out)@ + decimal_digits((n / 10) as nat)).push(
                (48 + n % 10) as u8,
            ));
        }
    }
}

fn push_int(out: &mut Vec<u8>, v: i32)
    ensures
        final(out)@ == old(out)@ + int_text(v as int),
{
    if v < 0 {
        out.push(45);
        let m: u64 = (-(v as i64)) as u64;
        push_digits(out, m);
        proof {
            assert(old(out)@ + int_text(v as int) =~= old(out)@.push(45u8) + decimal_digits(m as nat));
        }
    } else {
        push_digits(out, v as u64);
    }
}

fn push_str(out: &mut Vec<u8>, s: &[u8])
    ensures
        final(out)@ == old(out)@ + s@,
{
    let ghost start = out@;
    let mut i: usize = 0;
    while i < s.len()
        invariant
            i <= s@.len(),
            out@ == start + s@.subrange(0, i as int),
        decreases s@.len() - i,
    {
        out.push(s[i]);
        assert(s@.subrange(0, i + 1) =~= s@.subrange(0, i as int).push(s@[i as int]));
        i += 1;
    }
    assert(s@.subrange(0, s@.len() as int) =~= s@);
}

/// The file name `r.<x>.<z>.<ext>` of region `r`.
pub fn region_file_name_of(r: &RLoc, ext: &[u8]) -> (res: Vec<u8>)
    ensures
        res@ == region_file_name(*r, ext@),
{
    let mut out: Vec<u8> = Vec::new();
    out.push(114);
    out.push(46);
    push_int(&mut out, r.0);
    out.push(46);
    push_int(&mut out, r.1);
    out.push(46);
    push_str(&mut out, ext);
    assert(out@ =~= region_file_name(*r, ext@));
    out
}

/// The file name of region `r`'s stored snapshot: `r.<x>.<z>.cache`.
pub fn to_cache_name(r: &RLoc) -> (res: Vec<u8>)
    ensures
        res@ == region_file_name(*r, seq![99u8, 97u8, 99u8, 104u8, 101u8]),
{
    let ext: [u8; 5] = [99, 97, 99, 104, 101];
    let res = region_file_name_of(r, ext.as_slice());
    assert(ext@ =~= seq![99u8, 97u8, 99u8, 104u8, 101u8]);
    res
}

/// The file name of region `r`'s tile: `r.<x>.<z>.png`.
pub fn to_image_name(r: &RLoc) -> (res: Vec<u8>)
    ensures
        res@ == region_file_name(*r, seq![112u8, 110u8, 103u8]),
{
    let ext: [u8; 3] = [112, 110, 103];
    let res = region_file_name_of(r, ext.as_slice());
    assert(ext@ =~= seq![112u8, 110u8, 103u8]);
    res
}

proof fn lemma_decimal_digits(n: nat)
    ensures
        decimal_digits(n).len() > 0,
        forall|i: int| 0 <= i < decimal_digits(n).len() ==> is_digit(#[trigger] decimal_digits(n)[i]),
        decimal_value(decimal_digits(n)) == n,
    decreases n,
{
    if n >= 10 {
        lemma_decimal_digits(n / 10);
        let p = decimal_digits(n / 10);
        let q = p.push((48 + n % 10) as u8);
        assert(q.drop_last() =~= p);
        assert(q.last() == (48 + n % 10) as u8);
        assert(decimal_value(q) == decimal_value(p) * 10 + (n % 10));
        assert(n == (n / 10) * 10 + n % 10);
        assert forall|i: int| 0 <= i < q.len() implies is_digit(#[trigger] q[i]) by {
            if i < p.len() {
                assert(q[i] == p[i]);
            }
        }
    } else {
        let q = seq![(48 + n) as u8];
        assert(q.drop_last() =~= Seq::<u8>::empty());
        assert(decimal_value(q) == decimal_value(Seq::<u8>::empty()) * 10 + n);
    }
}

proof fn lemma_int_text(v: int)
    ensures
        int_text_value(int_text(v)) == Some(v),
        forall|i: int| 0 <= i < int_text(v).len() ==> #[trigger] int_text(v)[i] != 46,
{
    if v < 0 {
        let d = decimal_digits((-v) as nat);
        lemma_decimal_digits((-v) as nat);
        let t = seq![45u8] + d;
        assert(t.drop_first() =~= d);
        assert(!is_digit(t[0]));
        assert forall|i: int| 1 <= i < t.len() implies is_digit(#[trigger] t[i]) by {
            assert(t[i] == d[i - 1]);
        }
        assert forall|i: int| 0 <= i < t.len() implies #[trigger] t[i] != 46 by {
            if i > 0 {
                assert(t[i] == d[i - 1]);
            }
        }
    } else {
        lemma_decimal_digits(v as nat);
    }
}

/// A dot inside the text of a coordinate rules out an integer reading.
proof fn lemma_dot_not_int(t: Seq<u8>, i: int)
    requires
        0 <= i < t.len(),
        t[i] == 46,
    ensures
        int_text_value(t) is None,
{
    assert(!is_digit(t[i]));
}

/// Two readings of one name split it at the same dot.
proof fn lemma_split_unique(name: Seq<u8>, k1: int, x1: int, z1: int, k2: int, x2: int, z2: int)
    requires
        region_name_split(name, k1, x1, z1),
        region_name_split(name, k2, x2, z2),
    ensures
        k1 == k2,
{
    if k1 < k2 {
        let a = name.subrange(2, 2 + k2);
        assert(a[k1] == name[2 + k1]);
        lemma_dot_not_int(a, k1);
    } else if k2 < k1 {
        let a = name.subrange(2, 2 + k1);
        assert(a[k2] == name[2 + k2]);
        lemma_dot_not_int(a, k2);
    }
}

/// The container file name of a region reads back as that region, and as
/// no other.
pub proof fn law_container_name_round_trip(r: RLoc)
    ensures
        names_region(region_file_name(r, seq![109u8, 99u8, 97u8]), r.0 as int, r.1 as int),
        forall|x: int, z: int|
            names_region(region_file_name(r, seq![109u8, 99u8, 97u8]), x, z) ==> x == r.0 && z
                == r.1,
{
    let name = region_file_name(r, seq![109u8, 99u8, 97u8]);
    let a = int_text(r.0 as int);
    let b = int_text(r.1 as int);
    lemma_int_text(r.0 as int);
    lemma_int_text(r.1 as int);
    let k = a.len() as int;
    assert(a.len() > 0 && b.len() > 0) by {
        if a.len() == 0 {
            assert(int_text_value(a) is None);
        }
        if b.len() == 0 {
            assert(int_text_value(b) is None);
        }
    }
    assert(name.subrange(2, 2 + k) =~= a);
    assert(name.subrange(3 + k, name.len() - 4) =~= b);
    assert(name.subrange(name.len() - 4, name.len() as int) =~= seq![46u8, 109u8, 99u8, 97u8]);
    assert(name[2 + k] == 46);
    assert(name[0] == 114 && name[1] == 46);
    assert(region_name_split(name, k, r.0 as int, r.1 as int));
    assert forall|x: int, z: int| names_region(name, x, z) implies x == r.0 && z == r.1 by {
        let k2 = choose|k2: int| region_name_split(name, k2, x, z);
        lemma_split_unique(name, k, r.0 as int, r.1 as int, k2, x, z);
    }
}

} // verus!

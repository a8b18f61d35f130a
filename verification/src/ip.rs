use vstd::prelude::*;

verus! {

pub open spec fn is_digit(c: char) -> bool {
    48 <= c as int && c as int <= 57
}

pub open spec fn digit_val(c: char) -> int {
    c as int - 48
}

pub open spec fn all_digits(s: Seq<char>) -> bool {
    forall|i: int| 0 <= i < s.len() ==> is_digit(#[trigger] s[i])
}

/// The decimal value of a digit string.
pub open spec fn dec_value(s: Seq<char>) -> int
    decreases s.len(),
{
    if s.len() == 0 {
        0
    } else {
        dec_value(s.drop_last()) * 10 + digit_val(s.last())
    }
}

/// One octet of a dotted-quad IPv4 literal: one to three decimal digits,
/// no leading zero, value at most 255.
pub open spec fn is_octet(s: Seq<char>) -> bool {
    &&& 1 <= s.len() <= 3
    &&& all_digits(s)
    &&& s.len() > 1 ==> s[0] != '0'
    &&& dec_value(s) <= 255
}

/// The chunks of `s` between occurrences of `sep` (empty chunks included).
pub open spec fn split_on(s: Seq<char>, sep: char) -> Seq<Seq<char>>
    decreases s.len(),
{
    if s.len() == 0 {
        seq![Seq::<char>::empty()]
    } else if s[0] == sep {
        seq![Seq::<char>::empty()] + split_on(s.subrange(1, s.len() as int), sep)
    } else {
        let rest = split_on(s.subrange(1, s.len() as int), sep);
        seq![seq![s[0]] + rest[0]] + rest.subrange(1, rest.len() as int)
    }
}

/// Octet `k` of an IPv4 literal, as an integer.
pub open spec fn ipv4_octet(s: Seq<char>, k: int) -> int {
    dec_value(split_on(s, '.')[k])
}

/// An IPv4 literal: four octets separated by dots.
pub open spec fn is_ipv4_literal(s: Seq<char>) -> bool {
    let p = split_on(s, '.');
    &&& p.len() == 4
    &&& is_octet(p[0])
    &&& is_octet(p[1])
    &&& is_octet(p[2])
    &&& is_octet(p[3])
}

proof fn lemma_split_on_len(s: Seq<char>, sep: char)
    ensures
        split_on(s, sep).len() >= 1,
    decreases s.len(),
{
    if s.len() != 0 {
        lemma_split_on_len(s.subrange(1, s.len() as int), sep);
    }
}

/// A separator-free string is a single chunk.
proof fn lemma_split_on_none(s: Seq<char>, sep: char)
    requires
        forall|i: int| 0 <= i < s.len() ==> s[i] != sep,
    ensures
        split_on(s, sep) =~~= seq![s],
    decreases s.len(),
{
    if s.len() != 0 {
        lemma_split_on_none(s.subrange(1, s.len() as int), sep);
        assert(seq![s[0]] + s.subrange(1, s.len() as int) =~= s);
    }
}

/// Splitting at the first separator: the chunk before it, then the
/// split of what follows it.
proof fn lemma_split_on_first(s: Seq<char>, sep: char, k: int)
    requires
        0 <= k < s.len(),
        s[k] == sep,
        forall|i: int| 0 <= i < k ==> s[i] != sep,
    ensures
        split_on(s, sep) =~~= seq![s.subrange(0, k)] + split_on(
            s.subrange(k + 1, s.len() as int),
            sep,
        ),
    decreases k,
{
    if k == 0 {
        assert(s.subrange(0, 0) =~= Seq::<char>::empty());
    } else {
        let t = s.subrange(1, s.len() as int);
        lemma_split_on_first(t, sep, k - 1);
        assert(t.subrange(k, t.len() as int) =~= s.subrange(k + 1, s.len() as int));
        assert(seq![s[0]] + t.subrange(0, k - 1) =~= s.subrange(0, k));
        lemma_split_on_len(t.subrange(k, t.len() as int), sep);
    }
}

pub open spec fn chunk_lo(ds: Seq<int>, k: int) -> int {
    if k == 0 {
        0
    } else {
        ds[k - 1] + 1
    }
}

pub open spec fn chunk_hi(ds: Seq<int>, k: int, n: int) -> int {
    if k == ds.len() {
        n
    } else {
        ds[k]
    }
}

/// `ds` lists exactly the positions of `sep` in `s`, in increasing order.
pub open spec fn sep_positions_ok(s: Seq<char>, sep: char, ds: Seq<int>) -> bool {
    &&& forall|k: int| 0 <= k < ds.len() ==> 0 <= #[trigger] ds[k] < s.len() && s[ds[k]] == sep
    &&& forall|k1: int, k2: int| 0 <= k1 < k2 < ds.len() ==> ds[k1] < ds[k2]
    &&& forall|i: int| 0 <= i < s.len() && s[i] == sep ==> ds.contains(i)
}

/// Given the separator positions, each chunk of the split is the
/// subrange between two neighbouring separators.
proof fn lemma_split_on_chunks(s: Seq<char>, sep: char, ds: Seq<int>)
    requires
        sep_positions_ok(s, sep, ds),
    ensures
        split_on(s, sep).len() == ds.len() + 1,
        forall|k: int|
            0 <= k <= ds.len() ==> #[trigger] split_on(s, sep)[k] =~= s.subrange(
                chunk_lo(ds, k),
                chunk_hi(ds, k, s.len() as int),
            ),
    decreases ds.len(),
{
    if ds.len() == 0 {
        assert forall|i: int| 0 <= i < s.len() implies s[i] != sep by {
            if s[i] == sep {
                assert(ds.contains(i));
            }
        }
        lemma_split_on_none(s, sep);
        assert(split_on(s, sep)[0] =~= s.subrange(0, s.len() as int));
    } else {
        let k0 = ds[0];
        assert forall|i: int| 0 <= i < k0 implies s[i] != sep by {
            if s[i] == sep {
                let m = choose|m: int| 0 <= m < ds.len() && ds[m] == i;
                if m > 0 {
                    assert(ds[0] < ds[m]);
                }
            }
        }
        lemma_split_on_first(s, sep, k0);
        let t = s.subrange(k0 + 1, s.len() as int);
        let ds2 = Seq::new((ds.len() - 1) as nat, |j: int| ds[j + 1] - k0 - 1);
        assert forall|i: int| 0 <= i < t.len() && t[i] == sep implies ds2.contains(i) by {
            assert(s[i + k0 + 1] == sep);
            assert(ds.contains(i + k0 + 1));
            let m = choose|m: int| 0 <= m < ds.len() && ds[m] == i + k0 + 1;
            assert(m != 0);
            assert(ds2[m - 1] == i);
        }
        assert forall|k: int|
            0 <= k < ds2.len() implies 0 <= #[trigger] ds2[k] < t.len() && t[ds2[k]] == sep by {
            assert(ds[0] < ds[k + 1]);
            assert(t[ds2[k]] == s[ds[k + 1]]);
        }
        lemma_split_on_chunks(t, sep, ds2);
        let p = split_on(s, sep);
        let q = split_on(t, sep);
        assert(p =~~= seq![s.subrange(0, k0)] + q);
        assert forall|k: int|
            0 <= k <= ds.len() implies #[trigger] p[k] =~= s.subrange(
            chunk_lo(ds, k),
            chunk_hi(ds, k, s.len() as int),
        ) by {
            if k == 0 {
                assert(p[0] == s.subrange(0, k0));
            } else {
                assert(p[k] == q[k - 1]);
                assert(q[k - 1] =~= t.subrange(
                    chunk_lo(ds2, k - 1),
                    chunk_hi(ds2, k - 1, t.len() as int),
                ));
                assert(t.subrange(chunk_lo(ds2, k - 1), chunk_hi(ds2, k - 1, t.len() as int))
                    =~= s.subrange(chunk_lo(ds, k), chunk_hi(ds, k, s.len() as int)));
            }
        }
    }
}

/// A subrange of a subrange, written over the outer sequence.
proof fn lemma_subrange_shift(s: Seq<char>, lo: int, hi: int, a: int, b: int)
    requires
        0 <= lo <= hi <= s.len(),
        0 <= a <= b <= hi - lo,
    ensures
        s.subrange(lo, hi).subrange(a, b) =~= s.subrange(lo + a, lo + b),
{
}

proof fn lemma_dec_value_bound(s: Seq<char>)
    requires
        all_digits(s),
    ensures
        0 <= dec_value(s),
        s.len() <= 1 ==> dec_value(s) <= 9,
        s.len() <= 2 ==> dec_value(s) <= 99,
        s.len() <= 3 ==> dec_value(s) <= 999,
    decreases s.len(),
{
    if s.len() != 0 {
        lemma_dec_value_bound(s.drop_last());
    }
}

/// The positions of `sep` within `cs[lo..hi)`.
fn find_seps(cs: &Vec<char>, lo: usize, hi: usize, sep: char) -> (ds: Vec<usize>)
    requires
        lo <= hi <= cs.len(),
    ensures
        forall|k: int| 0 <= k < ds@.len() ==> lo <= #[trigger] ds@[k] < hi && cs@[ds@[k] as int] == sep,
        forall|k1: int, k2: int| 0 <= k1 < k2 < ds@.len() ==> ds@[k1] < ds@[k2],
        forall|i: int|
            lo <= i < hi && cs@[i] == sep ==> exists|k: int|
                0 <= k < ds@.len() && #[trigger] ds@[k] == i,
{
    let mut ds: Vec<usize> = Vec::new();
    let mut i: usize = lo;
    while i < hi
        invariant
            lo <= i <= hi <= cs.len(),
            forall|k: int| 0 <= k < ds@.len() ==> lo <= #[trigger] ds@[k] < i && cs@[ds@[k] as int] == sep,
            forall|k1: int, k2: int| 0 <= k1 < k2 < ds@.len() ==> ds@[k1] < ds@[k2],
            forall|j: int|
                lo <= j < i && cs@[j] == sep ==> exists|k: int|
                    0 <= k < ds@.len() && #[trigger] ds@[k] == j,
        decreases hi - i,
    {
        let ghost old_ds = ds@;
        if cs[i] == sep {
            ds.push(i);
            assert(ds@[ds@.len() - 1] == i);
            assert(forall|k: int| 0 <= k < ds@.len() - 1 ==> ds@[k] == old_ds[k]);
        } else {
            assert(cs@[i as int] != sep);
        }
        i = i + 1;
    }
    ds
}

/// Whether `cs[lo..hi)` is a decimal octet, and its value if so.
fn check_octet(cs: &Vec<char>, lo: usize, hi: usize) -> (r: Option<u8>)
    requires
        lo <= hi <= cs.len(),
    ensures
        r is Some <==> is_octet(cs@.subrange(lo as int, hi as int)),
        r matches Some(v) ==> v as int == dec_value(cs@.subrange(lo as int, hi as int)),
{
    let ghost s = cs@.subrange(lo as int, hi as int);
    let n = hi - lo;
    if n < 1 || n > 3 {
        return None;
    }
    if n > 1 && cs[lo] == '0' {
        assert(s[0] == '0');
        return None;
    }
    let mut val: u16 = 0;
    let mut i: usize = lo;
    while i < hi
        invariant
            lo <= i <= hi <= cs.len(),
            1 <= hi - lo <= 3,
            s == cs@.subrange(lo as int, hi as int),
            all_digits(s.subrange(0, i - lo)),
            val as int == dec_value(s.subrange(0, i - lo)),
        decreases hi - i,
    {
        let c = cs[i];
        if c < '0' || c > '9' {
            assert(!is_digit(s[i - lo]));
            return None;
        }
        proof {
            lemma_dec_value_bound(s.subrange(0, i - lo));
            assert(s.subrange(0, i + 1 - lo).drop_last() =~= s.subrange(0, i - lo));
            assert(s.subrange(0, i + 1 - lo).last() == s[i - lo]);
        }
        val = val * 10 + ((c as u32 - 48) as u16);
        i = i + 1;
    }
    assert(s.subrange(0, (hi - lo) as int) =~= s);
    if val > 255 {
        return None;
    }
    assert(s[0] == cs@[lo as int]);
    Some(val as u8)
}

/// Whether `cs[lo..hi)` is an IPv4 literal, and its four octet values.
pub fn parse_ipv4(cs: &Vec<char>, lo: usize, hi: usize) -> (r: Option<(u8, u8, u8, u8)>)
    requires
        lo <= hi <= cs.len(),
    ensures
        r is Some <==> is_ipv4_literal(cs@.subrange(lo as int, hi as int)),
        r matches Some(o) ==> ({
            let p = split_on(cs@.subrange(lo as int, hi as int), '.');
            &&& o.0 as int == dec_value(p[0])
            &&& o.1 as int == dec_value(p[1])
            &&& o.2 as int == dec_value(p[2])
            &&& o.3 as int == dec_value(p[3])
        }),
{
    let ghost s = cs@.subrange(lo as int, hi as int);
    let ghost p = split_on(s, '.');
    let ds = find_seps(cs, lo, hi, '.');
    let ghost rel = Seq::new(ds@.len(), |j: int| ds@[j] - lo as int);
    proof {
        assert forall|i: int| 0 <= i < s.len() && s[i] == '.' implies rel.contains(i) by {
            assert(cs@[i + lo] == '.');
            let k = choose|k: int| 0 <= k < ds@.len() && ds@[k] == i + lo;
            assert(rel[k] == i);
        }
        lemma_split_on_chunks(s, '.', rel);
    }
    if ds.len() != 3 {
        return None;
    }
    let d0 = ds[0];
    let d1 = ds[1];
    let d2 = ds[2];
    proof {
        assert(rel[0] == d0 - lo && rel[1] == d1 - lo && rel[2] == d2 - lo);
        assert(d0 < d1 && d1 < d2);
        lemma_subrange_shift(cs@, lo as int, hi as int, 0, d0 - lo);
        lemma_subrange_shift(cs@, lo as int, hi as int, d0 + 1 - lo, d1 - lo);
        lemma_subrange_shift(cs@, lo as int, hi as int, d1 + 1 - lo, d2 - lo);
        lemma_subrange_shift(cs@, lo as int, hi as int, d2 + 1 - lo, hi - lo);
        assert(p[0] =~= cs@.subrange(lo as int, d0 as int));
        assert(p[1] =~= cs@.subrange(d0 + 1, d1 as int));
        assert(p[2] =~= cs@.subrange(d1 + 1, d2 as int));
        assert(p[3] =~= cs@.subrange(d2 + 1, hi as int));
    }
    let a = check_octet(cs, lo, d0);
    let b = check_octet(cs, d0 + 1, d1);
    let c = check_octet(cs, d1 + 1, d2);
    let d = check_octet(cs, d2 + 1, hi);
    match (a, b, c, d) {
        (Some(x0), Some(x1), Some(x2), Some(x3)) => Some((x0, x1, x2, x3)),
        _ => None,
    }
}

} // verus!

verus! {

pub open spec fn is_hex_digit(c: char) -> bool {
    ||| 48 <= c as int && c as int <= 57
    ||| 97 <= c as int && c as int <= 102
    ||| 65 <= c as int && c as int <= 70
}

/// One group of an IPv6 literal: one to four hexadecimal digits.
pub open spec fn is_hex_group(s: Seq<char>) -> bool {
    1 <= s.len() <= 4 && forall|i: int| 0 <= i < s.len() ==> is_hex_digit(#[trigger] s[i])
}

pub open spec fn all_hex_groups(p: Seq<Seq<char>>, from: int, to: int) -> bool {
    forall|k: int| from <= k < to ==> is_hex_group(#[trigger] p[k])
}

/// How many 16-bit groups a trailing run of chunks stands for: an
/// embedded IPv4 literal in the last place counts as two.
pub open spec fn tail_group_count(t: Seq<Seq<char>>) -> int {
    t.len() + if is_ipv4_literal(t.last()) {
        1int
    } else {
        0int
    }
}

/// The chunks after a `::`: hexadecimal groups, except that the last may
/// be an embedded IPv4 literal, within the group budget.
pub open spec fn tail_ok(t: Seq<Seq<char>>, budget: int) -> bool {
    &&& t.len() >= 1
    &&& all_hex_groups(t, 0, t.len() - 1)
    &&& (is_hex_group(t.last()) || is_ipv4_literal(t.last()))
    &&& tail_group_count(t) <= budget
}

/// The chunks before a `::`: at most seven hexadecimal groups.
pub open spec fn head_ok(h: Seq<Seq<char>>) -> bool {
    1 <= h.len() <= 7 && all_hex_groups(h, 0, h.len() as int)
}

/// An IPv6 literal without `::`: eight groups, or six groups and a
/// trailing embedded IPv4 literal.
pub open spec fn ipv6_full_ok(p: Seq<Seq<char>>) -> bool {
    ||| p.len() == 8 && all_hex_groups(p, 0, 8)
    ||| p.len() == 7 && all_hex_groups(p, 0, 6) && is_ipv4_literal(p[6])
}

/// An IPv6 literal with one `::`, stated over its colon-chunks: the
/// empty chunks are where the `::` stood.
pub open spec fn ipv6_compressed_ok(p: Seq<Seq<char>>) -> bool {
    ||| p.len() == 3 && p[0].len() == 0 && p[1].len() == 0 && p[2].len() == 0
    ||| p.len() >= 3 && p[0].len() == 0 && p[1].len() == 0 && tail_ok(
        p.subrange(2, p.len() as int),
        7,
    )
    ||| p.len() >= 3 && p[p.len() - 1].len() == 0 && p[p.len() - 2].len() == 0 && head_ok(
        p.subrange(0, p.len() - 2),
    )
    ||| exists|j: int|
        1 <= j <= p.len() - 2 && #[trigger] p[j].len() == 0 && head_ok(p.subrange(0, j))
            && tail_ok(p.subrange(j + 1, p.len() as int), 7 - j)
}

pub open spec fn is_ipv6_literal(s: Seq<char>) -> bool {
    let p = split_on(s, ':');
    ipv6_full_ok(p) || ipv6_compressed_ok(p)
}

/// A syntactically valid IP literal, IPv4 or IPv6.
pub open spec fn is_ip_literal(s: Seq<char>) -> bool {
    is_ipv4_literal(s) || is_ipv6_literal(s)
}

proof fn lemma_hex_group_not_ipv4(s: Seq<char>)
    requires
        is_hex_group(s),
    ensures
        !is_ipv4_literal(s),
{
    assert forall|i: int| 0 <= i < s.len() implies s[i] != '.' by {
        assert(is_hex_digit(s[i]));
    }
    lemma_split_on_none(s, '.');
}

pub open spec fn abs_lo(ds: Seq<usize>, k: int, lo: int) -> int {
    if k == 0 {
        lo
    } else {
        ds[k - 1] + 1
    }
}

pub open spec fn abs_hi(ds: Seq<usize>, k: int, hi: int) -> int {
    if k == ds.len() {
        hi
    } else {
        ds[k] as int
    }
}

/// The separator positions found in `cs[lo..hi)`, as `find_seps` reports
/// them.
pub open spec fn seps_found(cs: Seq<char>, lo: int, hi: int, sep: char, ds: Seq<usize>) -> bool {
    &&& forall|k: int| 0 <= k < ds.len() ==> lo <= #[trigger] ds[k] < hi && cs[ds[k] as int] == sep
    &&& forall|k1: int, k2: int| 0 <= k1 < k2 < ds.len() ==> ds[k1] < ds[k2]
    &&& forall|i: int|
        lo <= i < hi && cs[i] == sep ==> exists|k: int| 0 <= k < ds.len() && #[trigger] ds[k] == i
}

/// The bounds of chunk `k` within the original vector.
fn chunk_range(ds: &Vec<usize>, k: usize, lo: usize, hi: usize, Ghost(cs): Ghost<Seq<char>>, Ghost(sep): Ghost<char>) -> (r: (
    usize,
    usize,
))
    requires
        lo <= hi <= cs.len(),
        seps_found(cs, lo as int, hi as int, sep, ds@),
        k <= ds@.len(),
    ensures
        r.0 == abs_lo(ds@, k as int, lo as int),
        r.1 == abs_hi(ds@, k as int, hi as int),
        lo <= r.0 <= r.1 <= hi,
{
    let a = if k == 0 {
        lo
    } else {
        ds[k - 1] + 1
    };
    let b = if k == ds.len() {
        hi
    } else {
        ds[k]
    };
    proof {
        if k >= 1 && k < ds@.len() {
            assert(ds@[k as int - 1] < ds@[k as int]);
        }
    }
    (a, b)
}

/// Ties the split of `cs[lo..hi)` to the separator positions: chunk `k`
/// is the text between separators `k - 1` and `k`.
proof fn lemma_chunks_abs(cs: Seq<char>, lo: int, hi: int, sep: char, ds: Seq<usize>)
    requires
        0 <= lo <= hi <= cs.len(),
        seps_found(cs, lo, hi, sep, ds),
    ensures
        split_on(cs.subrange(lo, hi), sep).len() == ds.len() + 1,
        forall|k: int|
            0 <= k <= ds.len() ==> #[trigger] split_on(cs.subrange(lo, hi), sep)[k]
                =~= cs.subrange(abs_lo(ds, k, lo), abs_hi(ds, k, hi)),
{
    let s = cs.subrange(lo, hi);
    let rel = Seq::new(ds.len(), |j: int| ds[j] - lo);
    assert forall|i: int| 0 <= i < s.len() && s[i] == sep implies rel.contains(i) by {
        assert(cs[i + lo] == sep);
        let k = choose|k: int| 0 <= k < ds.len() && ds[k] == i + lo;
        assert(rel[k] == i);
    }
    lemma_split_on_chunks(s, sep, rel);
    assert forall|k: int|
        0 <= k <= ds.len() implies #[trigger] split_on(s, sep)[k] =~= cs.subrange(
        abs_lo(ds, k, lo),
        abs_hi(ds, k, hi),
    ) by {
        if k >= 1 && k < ds.len() {
            assert(ds[k - 1] < ds[k]);
        }
        lemma_subrange_shift(cs, lo, hi, chunk_lo(rel, k), chunk_hi(rel, k, s.len() as int));
    }
}

/// Whether `cs[lo..hi)` is a hexadecimal group.
#[verifier::loop_isolation(false)]
fn check_hex_group(cs: &Vec<char>, lo: usize, hi: usize) -> (r: bool)
    requires
        lo <= hi <= cs.len(),
    ensures
        r == is_hex_group(cs@.subrange(lo as int, hi as int)),
{
    let ghost s = cs@.subrange(lo as int, hi as int);
    let n = hi - lo;
    if n < 1 || n > 4 {
        return false;
    }
    let mut ok = true;
    let mut i: usize = lo;
    while i < hi
        invariant
            lo <= i <= hi,
            ok <==> (forall|m: int| lo <= m < i ==> is_hex_digit(#[trigger] cs@[m])),
        decreases hi - i,
    {
        let c = cs[i];
        let h = ('0' <= c && c <= '9') || ('a' <= c && c <= 'f') || ('A' <= c && c <= 'F');
        assert(h == is_hex_digit(cs@[i as int]));
        ok = ok && h;
        i = i + 1;
    }
    proof {
        if ok {
            assert forall|m: int| 0 <= m < s.len() implies is_hex_digit(#[trigger] s[m]) by {
                assert(s[m] == cs@[lo + m]);
            }
        } else {
            let m = choose|m: int| lo <= m < hi && !is_hex_digit(#[trigger] cs@[m]);
            assert(s[m - lo] == cs@[m]);
            assert(!is_hex_group(s));
        }
    }
    ok
}

} // verus!

use vstd::string::StrSliceExecFns;

verus! {

/// Whether the chunks from `from` on form a valid tail after a `::`,
/// within `budget` groups.
#[verifier::loop_isolation(false)]
fn check_tail(cs: &Vec<char>, ds: &Vec<usize>, lo: usize, hi: usize, from: usize, budget: usize) -> (r:
    bool)
    requires
        lo <= hi <= cs.len(),
        seps_found(cs@, lo as int, hi as int, ':', ds@),
        1 <= from <= ds@.len(),
        ds@.len() <= 8,
    ensures
        r == tail_ok(
            split_on(cs@.subrange(lo as int, hi as int), ':').subrange(
                from as int,
                ds@.len() as int + 1,
            ),
            budget as int,
        ),
{
    proof {
        lemma_chunks_abs(cs@, lo as int, hi as int, ':', ds@);
    }
    let ghost p = split_on(cs@.subrange(lo as int, hi as int), ':');
    let ghost t = p.subrange(from as int, ds@.len() as int + 1);
    let nch = ds.len() + 1;
    let mut ok = true;
    let mut k: usize = from;
    while k < nch - 1
        invariant
            from <= k <= nch - 1,
            ok <==> all_hex_groups(p, from as int, k as int),
        decreases nch - 1 - k,
    {
        let (a, b) = chunk_range(ds, k, lo, hi, Ghost(cs@), Ghost(':'));
        let h = check_hex_group(cs, a, b);
        proof {
            assert(p[k as int] =~= cs@.subrange(a as int, b as int));
        }
        ok = ok && h;
        k = k + 1;
    }
    let (la, lb) = chunk_range(ds, nch - 1, lo, hi, Ghost(cs@), Ghost(':'));
    proof {
        assert(p[nch - 1] =~= cs@.subrange(la as int, lb as int));
    }
    let lh = check_hex_group(cs, la, lb);
    let lv4 = if lh {
        proof {
            lemma_hex_group_not_ipv4(p[nch - 1]);
        }
        false
    } else {
        parse_ipv4(cs, la, lb).is_some()
    };
    let count = (nch - from) + if lv4 {
        1
    } else {
        0
    };
    let r = ok && (lh || lv4) && count <= budget;
    proof {
        assert(t.len() == nch - from);
        assert(t.last() == p[nch - 1]);
        if ok {
            assert forall|m: int| 0 <= m < t.len() - 1 implies is_hex_group(#[trigger] t[m]) by {
                assert(t[m] == p[from + m]);
            }
        } else {
            let m = choose|m: int|
                from <= m < nch - 1 && !is_hex_group(#[trigger] p[m]);
            assert(t[m - from] == p[m]);
            assert(!all_hex_groups(t, 0, t.len() - 1));
        }
    }
    r
}

/// An uncompressed IPv6 literal, checked over nonempty chunks.
#[verifier::loop_isolation(false)]
fn check_full(cs: &Vec<char>, ds: &Vec<usize>, lo: usize, hi: usize) -> (r: bool)
    requires
        lo <= hi <= cs.len(),
        seps_found(cs@, lo as int, hi as int, ':', ds@),
        ds@.len() <= 8,
        forall|m: int|
            #![trigger split_on(cs@.subrange(lo as int, hi as int), ':')[m]]
            0 <= m <= ds@.len() ==> split_on(cs@.subrange(lo as int, hi as int), ':')[m].len()
                != 0,
    ensures
        r == is_ipv6_literal(cs@.subrange(lo as int, hi as int)),
{
    proof {
        lemma_chunks_abs(cs@, lo as int, hi as int, ':', ds@);
    }
    let ghost p = split_on(cs@.subrange(lo as int, hi as int), ':');
    let nch = ds.len() + 1;
    proof {
        // with no empty chunk, no compressed form fits
        assert(!ipv6_compressed_ok(p)) by {
            assert(p[0].len() != 0);
            assert(p[p.len() - 1].len() != 0);
            assert forall|j: int| 1 <= j <= p.len() - 2 implies #[trigger] p[j].len() != 0 by {}
        }
    }
    if nch == 8 {
        let mut ok = true;
        let mut m: usize = 0;
        while m < 8
            invariant
                m <= 8,
                nch == 8,
                ok <==> all_hex_groups(p, 0, m as int),
            decreases 8 - m,
        {
            let (a, b) = chunk_range(&ds, m, lo, hi, Ghost(cs@), Ghost(':'));
            let h = check_hex_group(cs, a, b);
            proof {
                assert(p[m as int] =~= cs@.subrange(a as int, b as int));
            }
            ok = ok && h;
            m = m + 1;
        }
        return ok;
    }
    if nch == 7 {
        let mut ok = true;
        let mut m: usize = 0;
        while m < 6
            invariant
                m <= 6,
                nch == 7,
                ok <==> all_hex_groups(p, 0, m as int),
            decreases 6 - m,
        {
            let (a, b) = chunk_range(&ds, m, lo, hi, Ghost(cs@), Ghost(':'));
            let h = check_hex_group(cs, a, b);
            proof {
                assert(p[m as int] =~= cs@.subrange(a as int, b as int));
            }
            ok = ok && h;
            m = m + 1;
        }
        let (a6, b6) = chunk_range(&ds, 6, lo, hi, Ghost(cs@), Ghost(':'));
        proof {
            assert(p[6] =~= cs@.subrange(a6 as int, b6 as int));
        }
        let v4 = parse_ipv4(cs, a6, b6).is_some();
        return ok && v4;
    }
    false
}

/// A compressed IPv6 literal whose first chunk is empty: a leading `::`.
#[verifier::loop_isolation(false)]
#[verifier::rlimit(30)]
fn check_compressed_at0(cs: &Vec<char>, ds: &Vec<usize>, lo: usize, hi: usize) -> (r: bool)
    requires
        lo <= hi <= cs.len(),
        seps_found(cs@, lo as int, hi as int, ':', ds@),
        ds@.len() <= 8,
        split_on(cs@.subrange(lo as int, hi as int), ':')[0].len() == 0,
    ensures
        r == is_ipv6_literal(cs@.subrange(lo as int, hi as int)),
{
    proof {
        lemma_chunks_abs(cs@, lo as int, hi as int, ':', ds@);
    }
    let ghost p = split_on(cs@.subrange(lo as int, hi as int), ':');
    let nch = ds.len() + 1;
    proof {
        // the empty first chunk rules out the uncompressed forms and any
        // form with a nonempty head
        assert(!ipv6_full_ok(p)) by {
            assert(p[0].len() == 0);
        }
        if p.len() >= 3 {
            assert(p.subrange(0, p.len() - 2)[0] == p[0]);
        }
        assert forall|j: int|
            1 <= j <= p.len() - 2 implies !(#[trigger] p[j].len() == 0 && head_ok(
            p.subrange(0, j),
        ) && tail_ok(p.subrange(j + 1, p.len() as int), 7 - j)) by {
            assert(p.subrange(0, j)[0] == p[0]);
        }
    }
    if nch < 3 {
        return false;
    }
    let (a1, b1) = chunk_range(&ds, 1, lo, hi, Ghost(cs@), Ghost(':'));
    proof {
        assert(p[1] =~= cs@.subrange(a1 as int, b1 as int));
    }
    if a1 != b1 {
        // a lone leading colon
        return false;
    }
    if nch == 3 {
        let (a2, b2) = chunk_range(&ds, 2, lo, hi, Ghost(cs@), Ghost(':'));
        proof {
            assert(p[2] =~= cs@.subrange(a2 as int, b2 as int));
        }
        if a2 == b2 {
            // "::" alone
            return true;
        }
    }
    let r = check_tail(cs, &ds, lo, hi, 2, 7);
    r
}

/// A compressed IPv6 literal whose first empty chunk is `j0 >= 1`.
#[verifier::loop_isolation(false)]
#[verifier::rlimit(60)]
fn check_compressed_at(cs: &Vec<char>, ds: &Vec<usize>, lo: usize, hi: usize, j0: usize) -> (r:
    bool)
    requires
        lo <= hi <= cs.len(),
        seps_found(cs@, lo as int, hi as int, ':', ds@),
        ds@.len() <= 8,
        1 <= j0 <= ds@.len(),
        split_on(cs@.subrange(lo as int, hi as int), ':')[j0 as int].len() == 0,
        forall|m: int|
            #![trigger split_on(cs@.subrange(lo as int, hi as int), ':')[m]]
            0 <= m < j0 ==> split_on(cs@.subrange(lo as int, hi as int), ':')[m].len() != 0,
    ensures
        r == is_ipv6_literal(cs@.subrange(lo as int, hi as int)),
{
    proof {
        lemma_chunks_abs(cs@, lo as int, hi as int, ':', ds@);
    }
    let ghost p = split_on(cs@.subrange(lo as int, hi as int), ':');
    let nch = ds.len() + 1;
    proof {
        // an empty chunk rules out the uncompressed forms
        assert(!ipv6_full_ok(p)) by {
            assert(p[j0 as int].len() == 0);
            if p.len() == 7 && j0 as int == 6 {
                assert(split_on(p[6], '.').len() == 1);
            }
        }
        // a compressed head must stop exactly at the first empty chunk
        assert forall|j: int|
            1 <= j <= p.len() - 2 && #[trigger] p[j].len() == 0 && head_ok(p.subrange(0, j))
                implies j == j0 as int by {
            if j > j0 as int {
                assert(p.subrange(0, j)[j0 as int] == p[j0 as int]);
            }
        }
    }
    let mut head_hex = true;
    let mut m: usize = 0;
    while m < j0
        invariant
            m <= j0,
            head_hex <==> all_hex_groups(p, 0, m as int),
        decreases j0 - m,
    {
        let (a, b) = chunk_range(&ds, m, lo, hi, Ghost(cs@), Ghost(':'));
        let h = check_hex_group(cs, a, b);
        proof {
            assert(p[m as int] =~= cs@.subrange(a as int, b as int));
        }
        head_hex = head_hex && h;
        m = m + 1;
    }
    proof {
        // the checked head groups are the head of any compressed form here
        if head_hex {
            assert forall|m2: int|
                0 <= m2 < j0 implies is_hex_group(#[trigger] p.subrange(0, j0 as int)[m2]) by {
                assert(p.subrange(0, j0 as int)[m2] == p[m2]);
            }
        } else {
            let m2 = choose|m2: int| 0 <= m2 < j0 && !is_hex_group(#[trigger] p[m2]);
            assert(p.subrange(0, j0 as int)[m2] == p[m2]);
            assert(!all_hex_groups(p.subrange(0, j0 as int), 0, j0 as int));
        }
    }
    let (zl, zr) = chunk_range(&ds, ds.len(), lo, hi, Ghost(cs@), Ghost(':'));
    proof {
        assert(p[nch - 1] =~= cs@.subrange(zl as int, zr as int));
    }
    let last_empty = zl == zr;
    if j0 == nch - 2 && last_empty {
        // a trailing "::"
        let r = head_hex && j0 <= 7;
        proof {
            assert(p.subrange(j0 + 1, p.len() as int).len() == 1);
            assert(p.subrange(j0 + 1, p.len() as int)[0] == p[nch - 1]);
            assert(split_on(p[nch - 1], '.').len() == 1);
        }
        return r;
    }
    if j0 >= nch - 1 {
        // a trailing lone colon
        return false;
    }
    proof {
        if (j0 as int) < p.len() - 2 {
            assert(p.subrange(0, p.len() - 2)[j0 as int] == p[j0 as int]);
        }
    }
    if !head_hex || j0 > 6 {
        proof {
            assert(p.subrange(j0 + 1, p.len() as int).len() == p.len() - 1 - j0);
        }
        return false;
    }
    let r = check_tail(cs, &ds, lo, hi, j0 + 1, 7 - j0);
    r
}

/// Whether `cs[lo..hi)` is an IPv6 literal.
#[verifier::loop_isolation(false)]
pub fn parse_ipv6(cs: &Vec<char>, lo: usize, hi: usize) -> (r: bool)
    requires
        lo <= hi <= cs.len(),
    ensures
        r == is_ipv6_literal(cs@.subrange(lo as int, hi as int)),
{
    let ghost s = cs@.subrange(lo as int, hi as int);
    let ghost p = split_on(s, ':');
    let ds = find_seps(cs, lo, hi, ':');
    proof {
        lemma_chunks_abs(cs@, lo as int, hi as int, ':', ds@);
    }
    if ds.len() > 8 {
        // too many chunks for any form
        proof {
            assert(p.subrange(2, p.len() as int).len() == p.len() - 2);
            assert(p.subrange(0, p.len() - 2).len() == p.len() - 2);
            assert forall|j: int|
                1 <= j <= p.len() - 2 implies !(#[trigger] p[j].len() == 0 && head_ok(
                p.subrange(0, j),
            ) && tail_ok(p.subrange(j + 1, p.len() as int), 7 - j)) by {
                assert(p.subrange(0, j).len() == j);
                assert(p.subrange(j + 1, p.len() as int).len() == p.len() - 1 - j);
            }
        }
        return false;
    }
    let nch = ds.len() + 1;
    let mut j0: usize = 0;
    let mut found = false;
    let mut k: usize = 0;
    while k < nch
        invariant
            k <= nch,
            !found ==> forall|m: int| #![trigger p[m]] 0 <= m < k ==> p[m].len() != 0,
            found ==> j0 < k && p[j0 as int].len() == 0 && (forall|m: int|
                #![trigger p[m]]
                0 <= m < j0 ==> p[m].len() != 0),
        decreases nch - k,
    {
        if !found {
            let (a, b) = chunk_range(&ds, k, lo, hi, Ghost(cs@), Ghost(':'));
            proof {
                assert(p[k as int] =~= cs@.subrange(a as int, b as int));
            }
            if a == b {
                j0 = k;
                found = true;
            }
        }
        k = k + 1;
    }
    if !found {
        check_full(cs, &ds, lo, hi)
    } else if j0 == 0 {
        check_compressed_at0(cs, &ds, lo, hi)
    } else {
        check_compressed_at(cs, &ds, lo, hi, j0)
    }
}

/// The characters of `s`, as a vector.
pub fn chars_of(s: &str) -> (v: Vec<char>)
    ensures
        v@ == s@,
{
    let n = s.unicode_len();
    let mut v: Vec<char> = Vec::new();
    let mut i: usize = 0;
    while i < n
        invariant
            i <= n,
            n == s@.len(),
            v@ =~= s@.subrange(0, i as int),
        decreases n - i,
    {
        let c = s.get_char(i);
        v.push(c);
        i = i + 1;
        assert(v@ =~= s@.subrange(0, i as int));
    }
    proof {
        assert(s@.subrange(0, n as int) =~= s@);
    }
    v
}

} // verus!

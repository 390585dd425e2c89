//! IP address text.
//!
//! The scanner's target is given on the command line as IP address text,
//! either dotted decimal (four octets, no redundant leading zeros) or the
//! colon-separated hexadecimal form with an optional `::` gap and an optional
//! embedded dotted-decimal tail. The grammar is stated as spec functions over
//! character sequences, and the parser is proved to accept exactly that
//! grammar and to return exactly the denoted address.

use vstd::prelude::*;

verus! {

use crate::digits::all_dec_digits;
use crate::digits::all_hex_digits;
use crate::digits::dec_val;
use crate::digits::hex_val;
use crate::digits::is_dec_digit;
use crate::digits::is_hex_digit;
use crate::digits::hex_digit_val;
use crate::digits::lemma_dec_val_nonneg;
use crate::digits::lemma_dec_val_prefix;

/// An IP address held as plain values: four octets, or eight 16-bit groups.
#[derive(Clone, Copy, Debug, PartialEq, Eq, Structural)]
pub enum IpAddress {
    V4 { o0: u8, o1: u8, o2: u8, o3: u8 },
    V6 { s0: u16, s1: u16, s2: u16, s3: u16, s4: u16, s5: u16, s6: u16, s7: u16 },
}

/// Split `s` at every occurrence of `sep`. Splitting the empty sequence
/// gives one empty part; every separator adds a part.
pub open spec fn split_on(s: Seq<char>, sep: char) -> Seq<Seq<char>>
    decreases s.len(),
{
    if s.len() == 0 {
        seq![Seq::<char>::empty()]
    } else if s[0] == sep {
        seq![Seq::<char>::empty()] + split_on(s.drop_first(), sep)
    } else {
        let rest = split_on(s.drop_first(), sep);
        seq![seq![s[0]] + rest[0]] + rest.drop_first()
    }
}

/// Splitting always gives at least one part.
pub proof fn lemma_split_on_len(s: Seq<char>, sep: char)
    ensures
        split_on(s, sep).len() >= 1,
    decreases s.len(),
{
    if s.len() > 0 {
        lemma_split_on_len(s.drop_first(), sep);
    }
}

/// A separator-free prefix extends the first part of the suffix's split.
pub proof fn lemma_split_on_prefix(a: Seq<char>, b: Seq<char>, sep: char)
    requires
        forall|k: int| 0 <= k < a.len() ==> a[k] != sep,
    ensures
        split_on(a + b, sep) == seq![a + split_on(b, sep)[0]] + split_on(b, sep).drop_first(),
    decreases a.len(),
{
    let bs = split_on(b, sep);
    lemma_split_on_len(b, sep);
    if a.len() == 0 {
        assert(a + b =~= b);
        assert(a + bs[0] =~= bs[0]);
        assert(seq![a + bs[0]] + bs.drop_first() =~= bs);
    } else {
        let s = a + b;
        assert(s[0] == a[0]);
        assert(s.drop_first() =~= a.drop_first() + b);
        lemma_split_on_prefix(a.drop_first(), b, sep);
        let rest = split_on(s.drop_first(), sep);
        assert(rest == seq![a.drop_first() + bs[0]] + bs.drop_first());
        assert(rest[0] == a.drop_first() + bs[0]);
        assert(seq![s[0]] + rest[0] =~= a + bs[0]);
        assert(rest.drop_first() =~= bs.drop_first());
        assert(split_on(s, sep) == seq![seq![s[0]] + rest[0]] + rest.drop_first());
        assert(split_on(s, sep) =~= seq![a + bs[0]] + bs.drop_first());
    }
}

/// A separator-free sequence is one part.
pub proof fn lemma_split_on_no_sep(a: Seq<char>, sep: char)
    requires
        forall|k: int| 0 <= k < a.len() ==> a[k] != sep,
    ensures
        split_on(a, sep) == seq![a],
{
    let e = Seq::<char>::empty();
    lemma_split_on_prefix(a, e, sep);
    assert(a + e =~= a);
    assert(a + split_on(e, sep)[0] =~= a);
    assert(seq![a + split_on(e, sep)[0]] + split_on(e, sep).drop_first() =~= seq![a]);
}

/// Split a character vector at every occurrence of `sep`, matching
/// `split_on` exactly.
pub fn split_chars(s: &Vec<char>, sep: char) -> (parts: Vec<Vec<char>>)
    ensures
        parts@.len() == split_on(s@, sep).len(),
        forall|j: int| 0 <= j < parts@.len() ==> (#[trigger] parts@[j])@ == split_on(s@, sep)[j],
{
    let mut parts: Vec<Vec<char>> = Vec::new();
    let mut cur: Vec<char> = Vec::new();
    let ghost mut done: Seq<Seq<char>> = Seq::empty();
    let mut k: usize = 0;
    proof {
        assert(cur@ + s@.subrange(0, s@.len() as int) =~= s@);
        assert(done + split_on(s@, sep) =~= split_on(s@, sep));
    }
    while k < s.len()
        invariant
            k <= s@.len(),
            done.len() == parts@.len(),
            forall|j: int| 0 <= j < parts@.len() ==> (#[trigger] parts@[j])@ == done[j],
            forall|t: int| 0 <= t < cur@.len() ==> cur@[t] != sep,
            split_on(s@, sep) == done + split_on(cur@ + s@.subrange(k as int, s@.len() as int), sep),
        decreases s@.len() - k,
    {
        let c = s[k];
        if c == sep {
            proof {
                let tail = s@.subrange(k as int, s@.len() as int);
                let tail2 = s@.subrange(k as int + 1, s@.len() as int);
                assert(tail[0] == sep);
                assert(tail.drop_first() =~= tail2);
                lemma_split_on_prefix(cur@, tail, sep);
                assert(split_on(tail, sep) == seq![Seq::<char>::empty()] + split_on(tail2, sep));
                assert(split_on(tail, sep)[0] =~= Seq::<char>::empty());
                assert(cur@ + split_on(tail, sep)[0] =~= cur@);
                assert(split_on(tail, sep).drop_first() =~= split_on(tail2, sep));
                assert(split_on(cur@ + tail, sep) == seq![cur@] + split_on(tail2, sep));
                assert(done + split_on(cur@ + tail, sep) =~= done.push(cur@) + split_on(
                    tail2,
                    sep,
                ));
            }
            let finished = cur;
            proof {
                done = done.push(finished@);
            }
            parts.push(finished);
            cur = Vec::new();
        } else {
            proof {
                let tail = s@.subrange(k as int, s@.len() as int);
                let tail2 = s@.subrange(k as int + 1, s@.len() as int);
                assert(cur@ + tail =~= cur@.push(c) + tail2);
            }
            cur.push(c);
        }
        k = k + 1;
    }
    proof {
        let tail = s@.subrange(k as int, s@.len() as int);
        assert(cur@ + tail =~= cur@);
        lemma_split_on_no_sep(cur@, sep);
        assert(done + split_on(cur@, sep) =~= done.push(cur@));
    }
    let finished = cur;
    proof {
        done = done.push(finished@);
    }
    parts.push(finished);
    parts
}

/// One octet of dotted-decimal text: one to three decimal digits with no
/// redundant leading zero, denoting a value of at most 255.
pub open spec fn is_octet_text(s: Seq<char>) -> bool {
    &&& 1 <= s.len() <= 3
    &&& all_dec_digits(s)
    &&& (s.len() > 1 ==> s[0] != '0')
    &&& dec_val(s) <= 255
}

/// Parse one dotted-decimal octet, accepting exactly `is_octet_text`.
pub fn parse_octet(part: &Vec<char>) -> (r: Option<u8>)
    ensures
        is_octet_text(part@) ==> r == Some(dec_val(part@) as u8),
        !is_octet_text(part@) ==> r is None,
{
    if part.len() == 0 || part.len() > 3 {
        return None;
    }
    if part.len() > 1 && part[0] == '0' {
        return None;
    }
    let mut acc: u16 = 0;
    let mut k: usize = 0;
    while k < part.len()
        invariant
            k <= part@.len() <= 3,
            acc <= 255,
            all_dec_digits(part@.take(k as int)),
            acc as int == dec_val(part@.take(k as int)),
        decreases part@.len() - k,
    {
        let c = part[k];
        let v: u32 = c as u32;
        if v < 48 || v > 57 {
            proof {
                assert(!is_dec_digit(part@[k as int]));
            }
            return None;
        }
        let next: u16 = acc * 10 + ((v - 48) as u16);
        proof {
            assert(part@.take(k + 1).drop_last() =~= part@.take(k as int));
            assert(part@.take(k + 1).last() == part@[k as int]);
        }
        if next > 255 {
            proof {
                if is_octet_text(part@) {
                    lemma_dec_val_prefix(part@, k + 1);
                    assert(false);
                }
            }
            return None;
        }
        acc = next;
        k = k + 1;
    }
    proof {
        assert(part@.take(k as int) =~= part@);
    }
    Some(acc as u8)
}

/// Dotted-decimal IPv4 text: exactly four octets separated by dots.
pub open spec fn is_ipv4_text(s: Seq<char>) -> bool {
    let parts = split_on(s, '.');
    &&& parts.len() == 4
    &&& forall|j: int| 0 <= j < 4 ==> is_octet_text(#[trigger] parts[j])
}

/// The address denoted by valid dotted-decimal IPv4 text.
pub open spec fn ipv4_value(s: Seq<char>) -> IpAddress {
    let parts = split_on(s, '.');
    IpAddress::V4 {
        o0: dec_val(parts[0]) as u8,
        o1: dec_val(parts[1]) as u8,
        o2: dec_val(parts[2]) as u8,
        o3: dec_val(parts[3]) as u8,
    }
}

/// Parse dotted-decimal IPv4 text, accepting exactly `is_ipv4_text` and
/// returning the denoted address.
pub fn parse_ipv4(s: &Vec<char>) -> (r: Option<IpAddress>)
    ensures
        is_ipv4_text(s@) ==> r == Some(ipv4_value(s@)),
        !is_ipv4_text(s@) ==> r is None,
{
    let parts = split_chars(s, '.');
    if parts.len() != 4 {
        return None;
    }
    let o0 = match parse_octet(&parts[0]) {
        Some(v) => v,
        None => {
            return None;
        },
    };
    let o1 = match parse_octet(&parts[1]) {
        Some(v) => v,
        None => {
            return None;
        },
    };
    let o2 = match parse_octet(&parts[2]) {
        Some(v) => v,
        None => {
            return None;
        },
    };
    let o3 = match parse_octet(&parts[3]) {
        Some(v) => v,
        None => {
            return None;
        },
    };
    Some(IpAddress::V4 { o0, o1, o2, o3 })
}

/// A colon-separated hexadecimal group: one to four hex digits.
pub open spec fn is_hex_group(s: Seq<char>) -> bool {
    1 <= s.len() <= 4 && all_hex_digits(s)
}

/// Every part is a hexadecimal group.
pub open spec fn all_hex_groups(parts: Seq<Seq<char>>) -> bool {
    forall|j: int| 0 <= j < parts.len() ==> is_hex_group(#[trigger] parts[j])
}

/// The 16-bit values of a run of hexadecimal groups.
pub open spec fn group_vals(parts: Seq<Seq<char>>) -> Seq<int> {
    parts.map_values(|p: Seq<char>| hex_val(p))
}

/// The two 16-bit groups denoted by an embedded dotted-decimal tail.
pub open spec fn ipv4_group_pair(p: Seq<char>) -> Seq<int> {
    let parts = split_on(p, '.');
    seq![
        dec_val(parts[0]) * 256 + dec_val(parts[1]),
        dec_val(parts[2]) * 256 + dec_val(parts[3]),
    ]
}

/// A nonempty colon-separated run of groups whose last part is either one
/// more hexadecimal group or an embedded dotted-decimal tail.
pub open spec fn is_tail_parts(parts: Seq<Seq<char>>) -> bool {
    &&& parts.len() >= 1
    &&& all_hex_groups(parts.take(parts.len() - 1))
    &&& (is_hex_group(parts.last()) || is_ipv4_text(parts.last()))
}

/// The 16-bit values of such a run; an embedded dotted-decimal tail counts
/// as two groups.
pub open spec fn tail_vals(parts: Seq<Seq<char>>) -> Seq<int> {
    let init = group_vals(parts.take(parts.len() - 1));
    if is_hex_group(parts.last()) {
        init + seq![hex_val(parts.last())]
    } else {
        init + ipv4_group_pair(parts.last())
    }
}

/// Position of the first `::` in `s`, or a negative number if there is none.
pub open spec fn find_double_colon(s: Seq<char>) -> int
    decreases s.len(),
{
    if s.len() < 2 {
        -1
    } else if s[0] == ':' && s[1] == ':' {
        0
    } else {
        let r = find_double_colon(s.drop_first());
        if r < 0 {
            -1
        } else {
            r + 1
        }
    }
}

/// `find_double_colon` finds exactly the first `::`.
pub proof fn lemma_find_double_colon(s: Seq<char>)
    ensures
        find_double_colon(s) < 0 ==> forall|i: int|
            0 <= i && i + 1 < s.len() ==> !((#[trigger] s[i]) == ':' && s[i + 1] == ':'),
        find_double_colon(s) >= 0 ==> {
            let r = find_double_colon(s);
            &&& r + 1 < s.len()
            &&& s[r] == ':'
            &&& s[r + 1] == ':'
            &&& forall|i: int|
                0 <= i < r ==> !((#[trigger] s[i]) == ':' && s[i + 1] == ':')
        },
    decreases s.len(),
{
    if s.len() >= 2 && !(s[0] == ':' && s[1] == ':') {
        let t = s.drop_first();
        lemma_find_double_colon(t);
        let rt = find_double_colon(t);
        if rt < 0 {
            assert forall|i: int| 0 <= i && i + 1 < s.len() implies !((#[trigger] s[i]) == ':'
                && s[i + 1] == ':') by {
                if i > 0 {
                    assert(t[i - 1] == s[i]);
                    assert(t[i] == s[i + 1]);
                    assert(!(t[i - 1] == ':' && t[i] == ':'));
                }
            }
        } else {
            let r = rt + 1;
            assert(find_double_colon(s) == r);
            assert(s[r] == ':') by {
                assert(t[rt] == s[rt + 1]);
            }
            assert(s[r + 1] == ':') by {
                assert(t[rt + 1] == s[rt + 2]);
            }
            assert forall|i: int| 0 <= i < r implies !((#[trigger] s[i]) == ':' && s[i + 1]
                == ':') by {
                if i > 0 {
                    assert(t[i - 1] == s[i]);
                    assert(t[i] == s[i + 1]);
                    assert(!(t[i - 1] == ':' && t[i] == ':'));
                }
            }
        }
    }
}

/// Colon-hexadecimal IPv6 text: either exactly eight groups, or a single
/// `::` gap standing for the missing zero groups, with at most seven
/// explicit groups around it; the last explicit group may be an embedded
/// dotted-decimal tail.
pub open spec fn is_ipv6_text(s: Seq<char>) -> bool {
    let dc = find_double_colon(s);
    if dc < 0 {
        let parts = split_on(s, ':');
        is_tail_parts(parts) && tail_vals(parts).len() == 8
    } else {
        let left = s.take(dc);
        let right = s.skip(dc + 2);
        let lcnt = if left.len() == 0 {
            0int
        } else {
            split_on(left, ':').len() as int
        };
        let rcnt = if right.len() == 0 {
            0int
        } else {
            tail_vals(split_on(right, ':')).len() as int
        };
        &&& (left.len() == 0 || all_hex_groups(split_on(left, ':')))
        &&& (right.len() == 0 || is_tail_parts(split_on(right, ':')))
        &&& lcnt + rcnt <= 7
    }
}

/// The eight 16-bit groups denoted by valid IPv6 text; a `::` gap denotes
/// zero groups.
pub open spec fn ipv6_groups(s: Seq<char>) -> Seq<int> {
    let dc = find_double_colon(s);
    if dc < 0 {
        tail_vals(split_on(s, ':'))
    } else {
        let left = s.take(dc);
        let right = s.skip(dc + 2);
        let lv = if left.len() == 0 {
            Seq::<int>::empty()
        } else {
            group_vals(split_on(left, ':'))
        };
        let rv = if right.len() == 0 {
            Seq::<int>::empty()
        } else {
            tail_vals(split_on(right, ':'))
        };
        lv + Seq::new((8 - lv.len() - rv.len()) as nat, |q: int| 0int) + rv
    }
}

/// The address denoted by valid IPv6 text.
pub open spec fn ipv6_value(s: Seq<char>) -> IpAddress {
    let g = ipv6_groups(s);
    IpAddress::V6 {
        s0: g[0] as u16,
        s1: g[1] as u16,
        s2: g[2] as u16,
        s3: g[3] as u16,
        s4: g[4] as u16,
        s5: g[5] as u16,
        s6: g[6] as u16,
        s7: g[7] as u16,
    }
}

/// Hexadecimal groups are small: at most four digits stay below 2^16.
proof fn lemma_hex_val_small(s: Seq<char>)
    requires
        all_hex_digits(s),
        s.len() <= 4,
    ensures
        0 <= hex_val(s),
        hex_val(s) < 65536,
        s.len() <= 3 ==> hex_val(s) < 4096,
        s.len() <= 2 ==> hex_val(s) < 256,
        s.len() <= 1 ==> hex_val(s) < 16,
    decreases s.len(),
{
    if s.len() > 0 {
        assert(forall|k: int|
            0 <= k < s.drop_last().len() ==> is_hex_digit(#[trigger] s.drop_last()[k]));
        lemma_hex_val_small(s.drop_last());
        assert(is_hex_digit(s.last()));
        assert(0 <= hex_digit_val(s.last()) < 16);
    }
}

/// Parse one hexadecimal group, accepting exactly `is_hex_group`.
pub fn parse_hex_group(part: &Vec<char>) -> (r: Option<u16>)
    ensures
        is_hex_group(part@) ==> r == Some(hex_val(part@) as u16),
        is_hex_group(part@) ==> 0 <= hex_val(part@) < 65536,
        !is_hex_group(part@) ==> r is None,
{
    if part.len() == 0 || part.len() > 4 {
        return None;
    }
    let mut acc: u32 = 0;
    let mut k: usize = 0;
    while k < part.len()
        invariant
            k <= part@.len() <= 4,
            all_hex_digits(part@.take(k as int)),
            acc as int == hex_val(part@.take(k as int)),
            acc < 65536,
        decreases part@.len() - k,
    {
        let c = part[k];
        let v: u32 = c as u32;
        let d: u32 = if 48 <= v && v <= 57 {
            v - 48
        } else if 97 <= v && v <= 102 {
            v - 87
        } else if 65 <= v && v <= 70 {
            v - 55
        } else {
            proof {
                assert(!is_hex_digit(part@[k as int]));
            }
            return None;
        };
        proof {
            assert(part@.take(k + 1).drop_last() =~= part@.take(k as int));
            assert(part@.take(k + 1).last() == part@[k as int]);
            lemma_hex_val_small(part@.take(k + 1));
        }
        acc = acc * 16 + d;
        k = k + 1;
    }
    proof {
        assert(part@.take(k as int) =~= part@);
        lemma_hex_val_small(part@);
    }
    Some(acc as u16)
}

/// Find the first `::`, matching `find_double_colon` exactly.
fn find_gap(s: &Vec<char>) -> (r: Option<usize>)
    ensures
        match r {
            Some(i) => find_double_colon(s@) == i && i + 2 <= s@.len(),
            None => find_double_colon(s@) < 0,
        },
{
    proof {
        lemma_find_double_colon(s@);
    }
    let m = s.len();
    if m < 2 {
        return None;
    }
    let mut k: usize = 0;
    while k < m - 1
        invariant
            2 <= m == s@.len(),
            k + 1 <= m,
            forall|i: int| 0 <= i < k ==> !((#[trigger] s@[i]) == ':' && s@[i + 1] == ':'),
        decreases m - k,
    {
        if s[k] == ':' && s[k + 1] == ':' {
            proof {
                lemma_find_double_colon(s@);
                let r = find_double_colon(s@);
                if r < 0 {
                    assert(!(s@[k as int] == ':' && s@[k as int + 1] == ':'));
                }
                assert(r >= 0);
                if r < k {
                    assert(s@[r] == ':' && s@[r + 1] == ':');
                    assert(false);
                }
                if r > k {
                    assert(!(s@[k as int] == ':' && s@[k as int + 1] == ':'));
                    assert(false);
                }
            }
            return Some(k);
        }
        k = k + 1;
    }
    proof {
        lemma_find_double_colon(s@);
        let r = find_double_colon(s@);
        if r >= 0 {
            assert(s@[r] == ':' && s@[r + 1] == ':');
            assert(false);
        }
    }
    None
}

/// Copy out a range of a character vector.
fn subvec(s: &Vec<char>, from: usize, to: usize) -> (r: Vec<char>)
    requires
        from <= to <= s@.len(),
    ensures
        r@ == s@.subrange(from as int, to as int),
{
    let mut r: Vec<char> = Vec::new();
    let mut k: usize = from;
    while k < to
        invariant
            from <= k <= to <= s@.len(),
            r@ =~= s@.subrange(from as int, k as int),
        decreases to - k,
    {
        r.push(s[k]);
        proof {
            assert(r@ =~= s@.subrange(from as int, k + 1));
        }
        k = k + 1;
    }
    r
}

/// The views of a vector of character vectors.
pub open spec fn part_views(parts: Seq<Vec<char>>) -> Seq<Seq<char>> {
    parts.map_values(|p: Vec<char>| p@)
}

/// Parse a run of hexadecimal groups, one per part.
fn parse_groups(parts: &Vec<Vec<char>>) -> (r: Option<Vec<u16>>)
    ensures
        match r {
            Some(vals) => {
                &&& all_hex_groups(part_views(parts@))
                &&& vals@.len() == parts@.len()
                &&& forall|j: int|
                    0 <= j < vals@.len() ==> (#[trigger] vals@[j]) as int == group_vals(
                        part_views(parts@),
                    )[j]
            },
            None => !all_hex_groups(part_views(parts@)),
        },
{
    let mut vals: Vec<u16> = Vec::new();
    let mut j: usize = 0;
    while j < parts.len()
        invariant
            j <= parts@.len(),
            vals@.len() == j,
            all_hex_groups(part_views(parts@).take(j as int)),
            forall|t: int|
                0 <= t < j ==> (#[trigger] vals@[t]) as int == hex_val(part_views(parts@)[t]),
        decreases parts@.len() - j,
    {
        proof {
            assert(part_views(parts@)[j as int] == parts@[j as int]@);
        }
        match parse_hex_group(&parts[j]) {
            Some(v) => {
                vals.push(v);
            },
            None => {
                proof {
                    assert(!is_hex_group(part_views(parts@)[j as int]));
                }
                return None;
            },
        }
        proof {
            assert(forall|t: int|
                0 <= t < j + 1 ==> is_hex_group(#[trigger] part_views(parts@).take(j + 1)[t]));
        }
        j = j + 1;
    }
    proof {
        let pv = part_views(parts@);
        assert(pv.take(j as int) =~= pv);
        assert(forall|t: int|
            0 <= t < pv.len() ==> group_vals(pv)[t] == hex_val(#[trigger] pv[t]));
    }
    Some(vals)
}

/// Parse a colon-separated run whose last part may be an embedded
/// dotted-decimal tail, accepting exactly `is_tail_parts` and returning
/// `tail_vals`.
fn parse_tail(parts: &Vec<Vec<char>>) -> (r: Option<Vec<u16>>)
    requires
        parts@.len() >= 1,
    ensures
        match r {
            Some(vals) => {
                &&& is_tail_parts(part_views(parts@))
                &&& vals@.len() == tail_vals(part_views(parts@)).len()
                &&& forall|j: int|
                    0 <= j < vals@.len() ==> (#[trigger] vals@[j]) as int == tail_vals(
                        part_views(parts@),
                    )[j]
            },
            None => !is_tail_parts(part_views(parts@)),
        },
{
    let ghost pv = part_views(parts@);
    let n = parts.len();
    let mut vals: Vec<u16> = Vec::new();
    let mut j: usize = 0;
    while j < n - 1
        invariant
            parts@.len() == n,
            pv == part_views(parts@),
            n >= 1,
            j <= n - 1,
            vals@.len() == j,
            all_hex_groups(pv.take(j as int)),
            forall|t: int| 0 <= t < j ==> (#[trigger] vals@[t]) as int == hex_val(pv[t]),
        decreases n - j,
    {
        proof {
            assert(pv[j as int] == parts@[j as int]@);
        }
        match parse_hex_group(&parts[j]) {
            Some(v) => {
                vals.push(v);
            },
            None => {
                proof {
                    assert(pv.take(n - 1)[j as int] == pv[j as int]);
                    assert(!is_hex_group(pv[j as int]));
                }
                return None;
            },
        }
        proof {
            assert(forall|t: int|
                0 <= t < j + 1 ==> is_hex_group(#[trigger] pv.take(j + 1)[t]));
        }
        j = j + 1;
    }
    proof {
        assert(pv.take(n - 1) =~= pv.take(pv.len() - 1));
        assert(group_vals(pv.take(pv.len() - 1)).len() == n - 1);
        assert(forall|t: int|
            0 <= t < n - 1 ==> group_vals(pv.take(pv.len() - 1))[t] == hex_val(
                #[trigger] pv.take(pv.len() - 1)[t],
            ));
        assert(forall|t: int| 0 <= t < n - 1 ==> pv.take(pv.len() - 1)[t] == #[trigger] pv[t]);
        assert(pv[n - 1] == parts@[n - 1]@);
        assert(pv.last() == pv[n - 1]);
    }
    match parse_hex_group(&parts[n - 1]) {
        Some(v) => {
            vals.push(v);
            proof {
                assert(pv.last() == pv[n - 1]);
                assert(is_hex_group(pv.last()));
                let tv = tail_vals(pv);
                assert(tv.len() == n);
                assert(forall|t: int|
                    0 <= t < n - 1 ==> tv[t] == group_vals(pv.take(pv.len() - 1))[t]);
                assert(tv[n - 1] == hex_val(pv.last()));
            }
            Some(vals)
        },
        None => {
            proof {
                assert(!is_hex_group(pv[n - 1]));
                assert(pv.last() == pv[n - 1]);
            }
            match parse_ipv4(&parts[n - 1]) {
                Some(IpAddress::V4 { o0, o1, o2, o3 }) => {
                    let hi: u16 = (o0 as u16) * 256 + (o1 as u16);
                    let lo: u16 = (o2 as u16) * 256 + (o3 as u16);
                    vals.push(hi);
                    vals.push(lo);
                    proof {
                        assert(is_ipv4_text(pv[n - 1]));
                        let ps = split_on(pv[n - 1], '.');
                        assert(is_octet_text(ps[0]) && is_octet_text(ps[1]) && is_octet_text(ps[2])
                            && is_octet_text(ps[3]));
                        lemma_dec_val_nonneg(ps[0]);
                        lemma_dec_val_nonneg(ps[1]);
                        lemma_dec_val_nonneg(ps[2]);
                        lemma_dec_val_nonneg(ps[3]);
                        let tv = tail_vals(pv);
                        assert(tv.len() == n + 1);
                        assert(forall|t: int|
                            0 <= t < n - 1 ==> tv[t] == group_vals(pv.take(pv.len() - 1))[t]);
                        assert(tv[n - 1] == dec_val(ps[0]) * 256 + dec_val(ps[1]));
                        assert(tv[n as int] == dec_val(ps[2]) * 256 + dec_val(ps[3]));
                    }
                    Some(vals)
                },
                Some(IpAddress::V6 { .. }) => {
                    proof {
                        assert(false);
                    }
                    None
                },
                None => {
                    proof {
                        assert(!is_ipv4_text(pv[n - 1]));
                    }
                    None
                },
            }
        },
    }
}

/// Parse colon-hexadecimal IPv6 text, accepting exactly `is_ipv6_text` and
/// returning the denoted address.
pub fn parse_ipv6(s: &Vec<char>) -> (r: Option<IpAddress>)
    ensures
        is_ipv6_text(s@) ==> r == Some(ipv6_value(s@)),
        !is_ipv6_text(s@) ==> r is None,
{
    match find_gap(s) {
        None => {
            let parts = split_chars(s, ':');
            proof {
                lemma_split_on_len(s@, ':');
                assert(part_views(parts@) =~= split_on(s@, ':'));
            }
            match parse_tail(&parts) {
                Some(vals) => {
                    if vals.len() != 8 {
                        return None;
                    }
                    proof {
                        let g = ipv6_groups(s@);
                        assert(forall|q: int| 0 <= q < 8 ==> vals@[q] as int == g[q]);
                    }
                    Some(
                        IpAddress::V6 {
                            s0: vals[0],
                            s1: vals[1],
                            s2: vals[2],
                            s3: vals[3],
                            s4: vals[4],
                            s5: vals[5],
                            s6: vals[6],
                            s7: vals[7],
                        },
                    )
                },
                None => None,
            }
        },
        Some(i) => {
            let end = s.len();
            let left = subvec(s, 0, i);
            let right = subvec(s, i + 2, end);
            proof {
                assert(left@ =~= s@.take(i as int));
                assert(right@ =~= s@.skip(i + 2));
            }
            let mut vals: Vec<u16> = Vec::new();
            if left.len() > 0 {
                let lparts = split_chars(&left, ':');
                proof {
                    lemma_split_on_len(left@, ':');
                    assert(part_views(lparts@) =~= split_on(left@, ':'));
                }
                match parse_groups(&lparts) {
                    Some(lv) => {
                        vals = lv;
                    },
                    None => {
                        return None;
                    },
                }
            }
            let lcnt = vals.len();
            let mut rvals: Vec<u16> = Vec::new();
            if right.len() > 0 {
                let rparts = split_chars(&right, ':');
                proof {
                    lemma_split_on_len(right@, ':');
                    assert(part_views(rparts@) =~= split_on(right@, ':'));
                }
                match parse_tail(&rparts) {
                    Some(rv) => {
                        rvals = rv;
                    },
                    None => {
                        return None;
                    },
                }
            }
            let rcnt = rvals.len();
            if lcnt > 7 || rcnt > 7 || lcnt + rcnt > 7 {
                return None;
            }
            let ghost lvseq = vals@;
            let mut g = vals;
            let mut z: usize = 0;
            let zeros: usize = 8 - lcnt - rcnt;
            while z < zeros
                invariant
                    z <= zeros,
                    lvseq.len() == lcnt,
                    g@.len() == lcnt + z,
                    forall|q: int| 0 <= q < lcnt ==> #[trigger] g@[q] == lvseq[q],
                    forall|q: int| lcnt <= q < lcnt + z ==> #[trigger] g@[q] == 0u16,
                decreases zeros - z,
            {
                g.push(0u16);
                z = z + 1;
            }
            let mut t: usize = 0;
            while t < rcnt
                invariant
                    t <= rcnt,
                    rvals@.len() == rcnt,
                    lvseq.len() == lcnt,
                    zeros == 8 - lcnt - rcnt,
                    g@.len() == lcnt + zeros + t,
                    forall|q: int| 0 <= q < lcnt ==> #[trigger] g@[q] == lvseq[q],
                    forall|q: int| lcnt <= q < lcnt + zeros ==> #[trigger] g@[q] == 0u16,
                    forall|q: int|
                        lcnt + zeros <= q < lcnt + zeros + t ==> #[trigger] g@[q] == rvals@[
                            q - lcnt - zeros
                        ],
                decreases rcnt - t,
            {
                g.push(rvals[t]);
                t = t + 1;
            }
            proof {
                assert(g@.len() == 8);
                let spec_g = ipv6_groups(s@);
                assert(is_ipv6_text(s@));
                assert forall|q: int| 0 <= q < 8 implies #[trigger] g@[q] as int == spec_g[q] by {
                    if q < lcnt {
                    } else if q < lcnt + zeros {
                    } else {
                        assert(g@[q] == rvals@[q - lcnt - zeros]);
                    }
                }
            }
            Some(
                IpAddress::V6 {
                    s0: g[0],
                    s1: g[1],
                    s2: g[2],
                    s3: g[3],
                    s4: g[4],
                    s5: g[5],
                    s6: g[6],
                    s7: g[7],
                },
            )
        },
    }
}

/// IP address text: dotted-decimal IPv4 or colon-hexadecimal IPv6.
pub open spec fn is_ip_text(s: Seq<char>) -> bool {
    is_ipv4_text(s) || is_ipv6_text(s)
}

/// The address denoted by valid IP address text.
pub open spec fn ip_value(s: Seq<char>) -> IpAddress {
    if is_ipv4_text(s) {
        ipv4_value(s)
    } else {
        ipv6_value(s)
    }
}

/// Parse IP address text, accepting exactly `is_ip_text` and returning the
/// denoted address.
pub fn parse_ip(s: &Vec<char>) -> (r: Option<IpAddress>)
    ensures
        is_ip_text(s@) ==> r == Some(ip_value(s@)),
        !is_ip_text(s@) ==> r is None,
{
    match parse_ipv4(s) {
        Some(a) => Some(a),
        None => parse_ipv6(s),
    }
}

} // verus!

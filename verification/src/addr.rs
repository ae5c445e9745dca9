//! IP addresses: the library's address type, its order, and the textual
//! address grammar of the standard library (dotted-quad IPv4, and IPv6 with
//! `::` compression and an optional trailing dotted quad).

use vstd::prelude::*;
use crate::text::{all_dec_digits, dec_value, is_dec_digit};
use crate::fields::{
    free_of, lemma_free_extend, lemma_split_nonempty, lemma_split_single, lemma_split_step,
    split_fields,
};

verus! {

/// An IP address, held as its numeric value.
#[derive(Clone, Copy, Debug, PartialEq, Eq, Structural, Hash)]
pub enum IpAddress {
    V4(u32),
    V6(u128),
}

/// An ASCII hexadecimal digit's value, either case.
pub open spec fn hex_digit_value(c: char) -> Option<nat> {
    let v = c as u32;
    if 0x30 <= v <= 0x39 {
        Some((v - 0x30) as nat)
    } else if 0x61 <= v <= 0x66 {
        Some((v - 0x61 + 10) as nat)
    } else if 0x41 <= v <= 0x46 {
        Some((v - 0x41 + 10) as nat)
    } else {
        None
    }
}

/// Every character is a hexadecimal digit.
pub open spec fn all_hex_digits(ds: Seq<char>) -> bool {
    forall|i: int| 0 <= i < ds.len() ==> (#[trigger] hex_digit_value(ds[i])) is Some
}

/// The value of a string of hexadecimal digits, most significant first.
pub open spec fn hex_value(ds: Seq<char>) -> nat
    decreases ds.len(),
{
    if ds.len() == 0 {
        0
    } else {
        hex_value(ds.drop_last()) * 16 + hex_digit_value(ds.last()).unwrap()
    }
}

/// The value of a hexadecimal digit character.
pub fn hex_digit(c: char) -> (res: Option<u8>)
    ensures
        match res {
            Some(d) => hex_digit_value(c) == Some(d as nat) && d < 16,
            None => hex_digit_value(c) is None,
        },
{
    let v = c as u32;
    if 0x30 <= v && v <= 0x39 {
        Some((v - 0x30) as u8)
    } else if 0x61 <= v && v <= 0x66 {
        Some((v - 0x61 + 10) as u8)
    } else if 0x41 <= v && v <= 0x46 {
        Some((v - 0x41 + 10) as u8)
    } else {
        None
    }
}

/// One octet of a dotted quad: one to three decimal digits, no leading zero
/// unless the octet is `0`, value at most 255.
pub open spec fn dec_octet(f: Seq<char>) -> Option<u8> {
    if 1 <= f.len() <= 3 && all_dec_digits(f) && !(f.len() > 1 && f[0] == '0') && dec_value(f)
        <= 255 {
        Some(dec_value(f) as u8)
    } else {
        None
    }
}

/// One group of an IPv6 address: one to four hexadecimal digits.
pub open spec fn hex_group(f: Seq<char>) -> Option<u16> {
    if 1 <= f.len() <= 4 && all_hex_digits(f) {
        Some(hex_value(f) as u16)
    } else {
        None
    }
}

/// The numeric value of four octets, most significant first.
pub open spec fn octets_value(a: u8, b: u8, c: u8, d: u8) -> nat {
    a as nat * 0x1000000 + b as nat * 0x10000 + c as nat * 0x100 + d as nat
}

/// A dotted-quad IPv4 address: exactly four `.`-separated octets.
pub open spec fn parse_ipv4(s: Seq<char>) -> Option<u32> {
    let fs = split_fields(s, '.');
    if fs.len() == 4 && dec_octet(fs[0]) is Some && dec_octet(fs[1]) is Some && dec_octet(
        fs[2],
    ) is Some && dec_octet(fs[3]) is Some {
        Some(
            octets_value(
                dec_octet(fs[0]).unwrap(),
                dec_octet(fs[1]).unwrap(),
                dec_octet(fs[2]).unwrap(),
                dec_octet(fs[3]).unwrap(),
            ) as u32,
        )
    } else {
        None
    }
}

proof fn lemma_dec_value_bound(ds: Seq<char>)
    requires
        all_dec_digits(ds),
    ensures
        ds.len() == 1 ==> dec_value(ds) < 10,
        ds.len() == 2 ==> dec_value(ds) < 100,
        ds.len() == 3 ==> dec_value(ds) < 1000,
    decreases ds.len(),
{
    if ds.len() > 0 {
        let p = ds.drop_last();
        assert(all_dec_digits(p)) by {
            assert forall|i: int| 0 <= i < p.len() implies is_dec_digit(#[trigger] p[i]) by {
                assert(p[i] == ds[i]);
            }
        }
        assert(is_dec_digit(ds[ds.len() - 1]));
        lemma_dec_value_bound(p);
        if ds.len() == 1 {
            assert(dec_value(p) == 0);
        }
    }
}

/// Parses `s[lo..hi]` as one octet of a dotted quad.
pub fn parse_dec_octet(s: &Vec<char>, lo: usize, hi: usize) -> (res: Option<u8>)
    requires
        lo <= hi <= s@.len(),
    ensures
        res == dec_octet(s@.subrange(lo as int, hi as int)),
{
    let ghost f = s@.subrange(lo as int, hi as int);
    let n = hi - lo;
    if n < 1 || n > 3 {
        return None;
    }
    if n > 1 && s[lo] == '0' {
        assert(f[0] == s@[lo as int]);
        return None;
    }
    let mut acc: u32 = 0;
    let mut i = lo;
    while i < hi
        invariant
            lo <= i <= hi <= s@.len(),
            hi - lo <= 3,
            f == s@.subrange(lo as int, hi as int),
            acc as nat == dec_value(f.subrange(0, i - lo)),
            all_dec_digits(f.subrange(0, i - lo)),
        decreases hi - i,
    {
        let ghost pre = f.subrange(0, i - lo);
        let ghost next = f.subrange(0, i - lo + 1);
        assert(next.drop_last() =~= pre);
        let c = s[i];
        assert(f[i - lo] == c);
        let cv = c as u32;
        if !(0x30 <= cv && cv <= 0x39) {
            assert(!all_dec_digits(f));
            return None;
        }
        assert(all_dec_digits(next)) by {
            assert forall|j: int| 0 <= j < next.len() implies is_dec_digit(#[trigger] next[j]) by {
                if j < pre.len() {
                    assert(next[j] == pre[j]);
                }
            }
        }
        proof {
            lemma_dec_value_bound(next);
        }
        acc = acc * 10 + (cv - 0x30);
        i = i + 1;
    }
    assert(f.subrange(0, i - lo) =~= f);
    if acc > 255 {
        return None;
    }
    Some(acc as u8)
}

proof fn lemma_hex_value_bound(ds: Seq<char>)
    requires
        all_hex_digits(ds),
        ds.len() <= 4,
    ensures
        hex_value(ds) < 0x10000,
        ds.len() <= 3 ==> hex_value(ds) < 0x1000,
        ds.len() <= 2 ==> hex_value(ds) < 0x100,
        ds.len() <= 1 ==> hex_value(ds) < 0x10,
    decreases ds.len(),
{
    if ds.len() > 0 {
        let p = ds.drop_last();
        assert(all_hex_digits(p)) by {
            assert forall|i: int| 0 <= i < p.len() implies (#[trigger] hex_digit_value(
                p[i],
            )) is Some by {
                assert(p[i] == ds[i]);
            }
        }
        assert(hex_digit_value(ds[ds.len() - 1]) is Some);
        lemma_hex_value_bound(p);
    }
}

/// Parses `s[lo..hi]` as one group of an IPv6 address.
pub fn parse_hex_group(s: &Vec<char>, lo: usize, hi: usize) -> (res: Option<u16>)
    requires
        lo <= hi <= s@.len(),
    ensures
        res == hex_group(s@.subrange(lo as int, hi as int)),
{
    let ghost f = s@.subrange(lo as int, hi as int);
    let n = hi - lo;
    if n < 1 || n > 4 {
        return None;
    }
    let mut acc: u32 = 0;
    let mut i = lo;
    while i < hi
        invariant
            lo <= i <= hi <= s@.len(),
            hi - lo <= 4,
            f == s@.subrange(lo as int, hi as int),
            acc as nat == hex_value(f.subrange(0, i - lo)),
            all_hex_digits(f.subrange(0, i - lo)),
        decreases hi - i,
    {
        let ghost pre = f.subrange(0, i - lo);
        let ghost next = f.subrange(0, i - lo + 1);
        assert(next.drop_last() =~= pre);
        let c = s[i];
        assert(f[i - lo] == c);
        match hex_digit(c) {
            None => {
                assert(!all_hex_digits(f));
                return None;
            },
            Some(d) => {
                assert(all_hex_digits(next)) by {
                    assert forall|j: int| 0 <= j < next.len() implies (#[trigger] hex_digit_value(
                        next[j],
                    )) is Some by {
                        if j < pre.len() {
                            assert(next[j] == pre[j]);
                        }
                    }
                }
                proof {
                    lemma_hex_value_bound(next);
                }
                acc = acc * 16 + d as u32;
            },
        }
        i = i + 1;
    }
    assert(f.subrange(0, i - lo) =~= f);
    proof {
        lemma_hex_value_bound(f);
    }
    Some(acc as u16)
}


/// Parses `s[lo..hi]` as a dotted-quad IPv4 address.
pub fn parse_ipv4_chars(s: &Vec<char>, lo: usize, hi: usize) -> (res: Option<u32>)
    requires
        lo <= hi <= s@.len(),
    ensures
        res == parse_ipv4(s@.subrange(lo as int, hi as int)),
{
    let ghost whole = s@.subrange(lo as int, hi as int);
    let mut octs: Vec<u8> = Vec::new();
    let ghost mut done: Seq<Seq<char>> = seq![];
    let mut fs = lo;
    let mut i = lo;
    assert(whole =~= s@.subrange(fs as int, hi as int));
    while i < hi
        invariant
            lo <= fs <= i <= hi <= s@.len(),
            whole == s@.subrange(lo as int, hi as int),
            split_fields(whole, '.') == done + split_fields(s@.subrange(fs as int, hi as int), '.'),
            free_of(s@.subrange(fs as int, i as int), '.'),
            octs@.len() == done.len() <= 3,
            forall|j: int| 0 <= j < done.len() ==> dec_octet(#[trigger] done[j]) == Some(octs@[j]),
        decreases hi - i,
    {
        if s[i] == '.' {
            let ghost f = s@.subrange(fs as int, i as int);
            let ghost rest = s@.subrange(i + 1, hi as int);
            proof {
                lemma_split_step(s@, lo as int, fs as int, i as int, hi as int, '.');
                lemma_split_nonempty(rest, '.');
                assert((done + (seq![f] + split_fields(rest, '.')))[done.len() as int] == f);
            }
            if octs.len() == 3 {
                return None;
            }
            match parse_dec_octet(s, fs, i) {
                None => {
                    return None;
                },
                Some(o) => {
                    octs.push(o);
                    proof {
                        assert(done + (seq![f] + split_fields(rest, '.')) =~= done.push(f)
                            + split_fields(rest, '.'));
                        done = done.push(f);
                    }
                },
            }
            fs = i + 1;
        } else {
            proof {
                lemma_free_extend(s@, fs as int, i as int, '.');
            }
        }
        i = i + 1;
    }
    let ghost last = s@.subrange(fs as int, hi as int);
    proof {
        lemma_split_single(last, '.');
    }
    let fields = Ghost(split_fields(whole, '.'));
    assert(fields@ =~= done.push(last));
    if octs.len() != 3 {
        return None;
    }
    match parse_dec_octet(s, fs, hi) {
        None => {
            assert(fields@[3] == last);
            None
        },
        Some(d) => {
            assert(fields@[0] == done[0]);
            assert(fields@[1] == done[1]);
            assert(fields@[2] == done[2]);
            assert(fields@[3] == last);
            let a = octs[0];
            let b = octs[1];
            let c = octs[2];
            Some(a as u32 * 0x1000000 + b as u32 * 0x10000 + c as u32 * 0x100 + d as u32)
        },
    }
}

/// The position of the first `::`, if any.
pub open spec fn find_double_colon(s: Seq<char>) -> Option<nat>
    decreases s.len(),
{
    if s.len() < 2 {
        None
    } else if s[0] == ':' && s[1] == ':' {
        Some(0)
    } else {
        match find_double_colon(s.drop_first()) {
            Some(k) => Some(k + 1),
            None => None,
        }
    }
}

/// The two IPv6 groups that an embedded dotted quad stands for.
pub open spec fn ipv4_groups(v: u32) -> Seq<u16> {
    seq![(v / 0x10000) as u16, (v % 0x10000) as u16]
}

/// The groups of `:`-separated fields: each field is one group, except
/// that the last field may be a dotted quad (two groups) when `allow_v4`.
pub open spec fn group_fields(fs: Seq<Seq<char>>, allow_v4: bool) -> Option<Seq<u16>>
    decreases fs.len(),
{
    if fs.len() == 0 {
        Some(seq![])
    } else if fs.len() == 1 {
        match hex_group(fs[0]) {
            Some(g) => Some(seq![g]),
            None => if allow_v4 {
                match parse_ipv4(fs[0]) {
                    Some(v) => Some(ipv4_groups(v)),
                    None => None,
                }
            } else {
                None
            },
        }
    } else {
        match hex_group(fs[0]) {
            Some(g) => match group_fields(fs.drop_first(), allow_v4) {
                Some(r) => Some(seq![g] + r),
                None => None,
            },
            None => None,
        }
    }
}

/// The groups of one side of a `::`; an empty side has none.
pub open spec fn part_groups(p: Seq<char>, allow_v4: bool) -> Option<Seq<u16>> {
    if p.len() == 0 {
        Some(seq![])
    } else {
        group_fields(split_fields(p, ':'), allow_v4)
    }
}

/// `n` zero groups.
pub open spec fn zero_groups(n: nat) -> Seq<u16> {
    Seq::new(n, |i: int| 0u16)
}

/// The eight groups of an IPv6 address: either eight groups (the last two may
/// be a dotted quad), or at most seven around one `::` that stands for as many
/// zero groups as are missing. A dotted quad may only end the address.
pub open spec fn ipv6_groups(s: Seq<char>) -> Option<Seq<u16>> {
    match find_double_colon(s) {
        Some(k) => {
            let head = part_groups(s.subrange(0, k as int), false);
            let tail = part_groups(s.subrange(k as int + 2, s.len() as int), true);
            if head is Some && tail is Some && head.unwrap().len() + tail.unwrap().len() <= 7 {
                Some(
                    head.unwrap() + zero_groups((8 - head.unwrap().len() - tail.unwrap().len()) as nat)
                        + tail.unwrap(),
                )
            } else {
                None
            }
        },
        None => match group_fields(split_fields(s, ':'), true) {
            Some(g) => if g.len() == 8 {
                Some(g)
            } else {
                None
            },
            None => None,
        },
    }
}

/// The numeric value of 16-bit groups, most significant first.
pub open spec fn groups_value(gs: Seq<u16>) -> nat
    decreases gs.len(),
{
    if gs.len() == 0 {
        0
    } else {
        groups_value(gs.drop_last()) * 0x10000 + gs.last() as nat
    }
}

/// A textual IPv6 address.
pub open spec fn parse_ipv6(s: Seq<char>) -> Option<u128> {
    match ipv6_groups(s) {
        Some(g) => Some(groups_value(g) as u128),
        None => None,
    }
}

/// A textual IP address, as `IpAddr`'s `FromStr` reads it: a dotted quad, or else an IPv6 address.
pub open spec fn parse_ip(s: Seq<char>) -> Option<IpAddress> {
    match parse_ipv4(s) {
        Some(v) => Some(IpAddress::V4(v)),
        None => match parse_ipv6(s) {
            Some(v) => Some(IpAddress::V6(v)),
            None => None,
        },
    }
}


/// Finds the first `::` in `s[lo..hi]`.
fn find_double_colon_chars(s: &Vec<char>, lo: usize, hi: usize) -> (res: Option<usize>)
    requires
        lo <= hi <= s@.len(),
    ensures
        match res {
            Some(k) => lo <= k && k + 2 <= hi && find_double_colon(s@.subrange(lo as int, hi as int))
                == Some((k - lo) as nat),
            None => find_double_colon(s@.subrange(lo as int, hi as int)) is None,
        },
{
    let mut i = lo;
    while hi - i >= 2
        invariant
            lo <= i <= hi <= s@.len(),
            find_double_colon(s@.subrange(lo as int, hi as int)) == match find_double_colon(
                s@.subrange(i as int, hi as int),
            ) {
                Some(k) => Some((k + (i - lo)) as nat),
                None => None,
            },
        decreases hi - i,
    {
        let ghost t = s@.subrange(i as int, hi as int);
        assert(t[0] == s@[i as int] && t[1] == s@[i + 1]);
        if s[i] == ':' && s[i + 1] == ':' {
            return Some(i);
        }
        assert(t.drop_first() =~= s@.subrange(i + 1, hi as int));
        i = i + 1;
    }
    None
}

/// Parses the `:`-separated fields of `s[lo..hi]` into groups.
fn parse_group_fields(s: &Vec<char>, lo: usize, hi: usize, allow_v4: bool) -> (res: Option<
    Vec<u16>,
>)
    requires
        lo <= hi <= s@.len(),
    ensures
        match res {
            Some(v) => group_fields(split_fields(s@.subrange(lo as int, hi as int), ':'), allow_v4)
                == Some(v@),
            None => group_fields(
                split_fields(s@.subrange(lo as int, hi as int), ':'),
                allow_v4,
            ) is None,
        },
{
    let ghost whole = s@.subrange(lo as int, hi as int);
    let mut acc: Vec<u16> = Vec::new();
    let mut fs = lo;
    let mut i = lo;
    assert(acc@ + seq![] =~= acc@);
    assert(whole =~= s@.subrange(fs as int, hi as int));
    proof {
        let r = group_fields(split_fields(whole, ':'), allow_v4);
        if r is Some {
            assert(acc@ + r.unwrap() =~= r.unwrap());
        }
    }
    while i < hi
        invariant
            lo <= fs <= i <= hi <= s@.len(),
            whole == s@.subrange(lo as int, hi as int),
            group_fields(split_fields(whole, ':'), allow_v4) == match group_fields(
                split_fields(s@.subrange(fs as int, hi as int), ':'),
                allow_v4,
            ) {
                Some(r) => Some(acc@ + r),
                None => None,
            },
            free_of(s@.subrange(fs as int, i as int), ':'),
        decreases hi - i,
    {
        if s[i] == ':' {
            let ghost f = s@.subrange(fs as int, i as int);
            let ghost rest = s@.subrange(i + 1, hi as int);
            let ghost l = seq![f] + split_fields(rest, ':');
            proof {
                lemma_split_step(s@, lo as int, fs as int, i as int, hi as int, ':');
                lemma_split_nonempty(rest, ':');
                assert(l.drop_first() =~= split_fields(rest, ':'));
                assert(l[0] == f);
            }
            match parse_hex_group(s, fs, i) {
                None => {
                    return None;
                },
                Some(g) => {
                    let ghost old_acc = acc@;
                    acc.push(g);
                    proof {
                        let r = group_fields(split_fields(rest, ':'), allow_v4);
                        if r is Some {
                            assert(old_acc + (seq![g] + r.unwrap()) =~= acc@ + r.unwrap());
                        }
                    }
                },
            }
            fs = i + 1;
        } else {
            proof {
                lemma_free_extend(s@, fs as int, i as int, ':');
            }
        }
        i = i + 1;
    }
    let ghost last = s@.subrange(fs as int, hi as int);
    proof {
        lemma_split_single(last, ':');
        assert(seq![last][0] == last);
    }
    match parse_hex_group(s, fs, hi) {
        Some(g) => {
            let ghost old_acc = acc@;
            acc.push(g);
            assert(old_acc + seq![g] =~= acc@);
            Some(acc)
        },
        None => {
            if allow_v4 {
                match parse_ipv4_chars(s, fs, hi) {
                    Some(v) => {
                        let ghost old_acc = acc@;
                        acc.push((v / 0x10000) as u16);
                        acc.push((v % 0x10000) as u16);
                        assert(old_acc + ipv4_groups(v) =~= acc@);
                        Some(acc)
                    },
                    None => None,
                }
            } else {
                None
            }
        },
    }
}

/// `0x10000` to the power `n`.
pub open spec fn pow_group(n: nat) -> nat
    decreases n,
{
    if n == 0 {
        1
    } else {
        pow_group((n - 1) as nat) * 0x10000
    }
}

proof fn lemma_groups_value_bound(gs: Seq<u16>)
    ensures
        groups_value(gs) < pow_group(gs.len()),
    decreases gs.len(),
{
    if gs.len() > 0 {
        lemma_groups_value_bound(gs.drop_last());
        let v = groups_value(gs.drop_last());
        let p = pow_group(gs.drop_last().len());
        let g = gs.last() as nat;
        assert(v * 0x10000 + g < p * 0x10000) by (nonlinear_arith)
            requires
                v < p,
                g < 0x10000,
        ;
    }
}

proof fn lemma_pow_group_mono(a: nat, b: nat)
    requires
        a <= b,
    ensures
        pow_group(a) <= pow_group(b),
    decreases b,
{
    if a < b {
        lemma_pow_group_mono(a, (b - 1) as nat);
        assert(pow_group((b - 1) as nat) <= pow_group((b - 1) as nat) * 0x10000) by (
        nonlinear_arith);
    }
}

/// The numeric value of eight 16-bit groups.
fn groups_to_u128(gs: &Vec<u16>) -> (res: u128)
    requires
        gs@.len() == 8,
    ensures
        res as nat == groups_value(gs@),
{
    proof {
        reveal_with_fuel(pow_group, 9);
        assert(pow_group(8) == 0x1_0000_0000_0000_0000_0000_0000_0000_0000);
    }
    let mut acc: u128 = 0;
    let mut i: usize = 0;
    while i < 8
        invariant
            i <= 8,
            gs@.len() == 8,
            pow_group(8) == 0x1_0000_0000_0000_0000_0000_0000_0000_0000,
            acc as nat == groups_value(gs@.subrange(0, i as int)),
        decreases 8 - i,
    {
        let ghost pre = gs@.subrange(0, i as int);
        let ghost next = gs@.subrange(0, i + 1);
        assert(next.drop_last() =~= pre);
        proof {
            lemma_groups_value_bound(next);
            lemma_pow_group_mono(next.len(), 8);
        }
        acc = acc * 0x10000 + gs[i] as u128;
        i = i + 1;
    }
    assert(gs@.subrange(0, 8) =~= gs@);
    acc
}

/// Parses `s[lo..hi]` as a textual IPv6 address.
pub fn parse_ipv6_chars(s: &Vec<char>, lo: usize, hi: usize) -> (res: Option<u128>)
    requires
        lo <= hi <= s@.len(),
    ensures
        res == parse_ipv6(s@.subrange(lo as int, hi as int)),
{
    let ghost whole = s@.subrange(lo as int, hi as int);
    match find_double_colon_chars(s, lo, hi) {
        Some(k) => {
            assert(whole.subrange(0, k - lo) =~= s@.subrange(lo as int, k as int));
            assert(whole.subrange(k - lo + 2, whole.len() as int) =~= s@.subrange(
                k + 2,
                hi as int,
            ));
            let head = if k == lo {
                Some(Vec::new())
            } else {
                parse_group_fields(s, lo, k, false)
            };
            let tail = if k + 2 == hi {
                Some(Vec::new())
            } else {
                parse_group_fields(s, k + 2, hi, true)
            };
            match (head, tail) {
                (Some(h), Some(t)) => {
                    if h.len() > 7 || t.len() > 7 - h.len() {
                        return None;
                    }
                    let mut all: Vec<u16> = Vec::new();
                    let mut j: usize = 0;
                    while j < h.len()
                        invariant
                            j <= h@.len(),
                            all@ == h@.subrange(0, j as int),
                        decreases h@.len() - j,
                    {
                        all.push(h[j]);
                        assert(all@ =~= h@.subrange(0, j + 1));
                        j = j + 1;
                    }
                    let zeros = 8 - h.len() - t.len();
                    let mut z: usize = 0;
                    while z < zeros
                        invariant
                            z <= zeros,
                            all@ == h@ + zero_groups(z as nat),
                        decreases zeros - z,
                    {
                        all.push(0u16);
                        assert(all@ =~= h@ + zero_groups((z + 1) as nat));
                        z = z + 1;
                    }
                    let mut j: usize = 0;
                    while j < t.len()
                        invariant
                            j <= t@.len(),
                            all@ == h@ + zero_groups(zeros as nat) + t@.subrange(0, j as int),
                        decreases t@.len() - j,
                    {
                        all.push(t[j]);
                        assert(all@ =~= h@ + zero_groups(zeros as nat) + t@.subrange(0, j + 1));
                        j = j + 1;
                    }
                    assert(t@.subrange(0, t@.len() as int) =~= t@);
                    Some(groups_to_u128(&all))
                },
                _ => None,
            }
        },
        None => match parse_group_fields(s, lo, hi, true) {
            Some(g) => {
                if g.len() != 8 {
                    return None;
                }
                Some(groups_to_u128(&g))
            },
            None => None,
        },
    }
}

/// Parses `s[lo..hi]` as a textual IP address.
pub fn parse_ip_chars(s: &Vec<char>, lo: usize, hi: usize) -> (res: Option<IpAddress>)
    requires
        lo <= hi <= s@.len(),
    ensures
        res == parse_ip(s@.subrange(lo as int, hi as int)),
{
    match parse_ipv4_chars(s, lo, hi) {
        Some(v) => Some(IpAddress::V4(v)),
        None => match parse_ipv6_chars(s, lo, hi) {
            Some(v) => Some(IpAddress::V6(v)),
            None => None,
        },
    }
}


/// The order of addresses: every IPv4 address comes before every IPv6
/// address, and within a family the numeric value decides.
pub open spec fn ip_le(a: IpAddress, b: IpAddress) -> bool {
    match (a, b) {
        (IpAddress::V4(x), IpAddress::V4(y)) => x <= y,
        (IpAddress::V6(x), IpAddress::V6(y)) => x <= y,
        (IpAddress::V4(_), IpAddress::V6(_)) => true,
        (IpAddress::V6(_), IpAddress::V4(_)) => false,
    }
}

/// Addresses in ascending order.
pub open spec fn sorted_addresses(s: Seq<IpAddress>) -> bool {
    forall|i: int, j: int| 0 <= i < j < s.len() ==> ip_le(#[trigger] s[i], #[trigger] s[j])
}

/// `a` comes no later than `b` (see `ip_le`).
pub fn ip_less_eq(a: &IpAddress, b: &IpAddress) -> (res: bool)
    ensures
        res == ip_le(*a, *b),
{
    match (a, b) {
        (IpAddress::V4(x), IpAddress::V4(y)) => *x <= *y,
        (IpAddress::V6(x), IpAddress::V6(y)) => *x <= *y,
        (IpAddress::V4(_), IpAddress::V6(_)) => true,
        (IpAddress::V6(_), IpAddress::V4(_)) => false,
    }
}

/// The same addresses in ascending order (see `ip_le`); equal addresses keep
/// their relative order.
pub fn sort_addresses(v: Vec<IpAddress>) -> (res: Vec<IpAddress>)
    ensures
        sorted_addresses(res@),
        res@.to_multiset() == v@.to_multiset(),
{
    broadcast use vstd::seq_lib::group_to_multiset_ensures;

    let mut res: Vec<IpAddress> = Vec::new();
    let mut i: usize = 0;
    while i < v.len()
        invariant
            i <= v@.len(),
            sorted_addresses(res@),
            res@.to_multiset() == v@.subrange(0, i as int).to_multiset(),
        decreases v@.len() - i,
    {
        let x = v[i];
        let mut j: usize = 0;
        while j < res.len() && ip_less_eq(&res[j], &x)
            invariant
                j <= res@.len(),
                forall|k: int| 0 <= k < j ==> ip_le(#[trigger] res@[k], x),
            decreases res@.len() - j,
        {
            j = j + 1;
        }
        let ghost old_res = res@;
        res.insert(j, x);
        proof {
            vstd::seq_lib::to_multiset_insert(old_res, j as int, x);
            assert(v@.subrange(0, i + 1) =~= v@.subrange(0, i as int).push(x));
            vstd::seq_lib::to_multiset_build(v@.subrange(0, i as int), x);
            assert forall|a: int, b: int| 0 <= a < b < res@.len() implies ip_le(
                #[trigger] res@[a],
                #[trigger] res@[b],
            ) by {
                if b < j {
                    assert(res@[a] == old_res[a] && res@[b] == old_res[b]);
                } else if b == j {
                    assert(res@[a] == old_res[a]);
                } else if a == j {
                    assert(res@[b] == old_res[b - 1]);
                    assert(!ip_le(old_res[j as int], x));
                    assert(ip_le(old_res[j as int], old_res[b - 1]) || j == b - 1);
                } else if a < j {
                    assert(res@[a] == old_res[a] && res@[b] == old_res[b - 1]);
                } else {
                    assert(res@[a] == old_res[a - 1] && res@[b] == old_res[b - 1]);
                }
            }
        }
        i = i + 1;
    }
    assert(v@.subrange(0, v@.len() as int) =~= v@);
    res
}

} // verus!

//! Properties that hold across the library's operations.

use vstd::prelude::*;
use crate::addr::{
    dec_octet, find_double_colon, group_fields, hex_digit_value, hex_group, ip_le, ipv6_groups,
    parse_ip, parse_ipv4, part_groups, sorted_addresses, IpAddress,
};
use crate::fields::{free_of, lemma_split_nonempty, lemma_split_single, split_fields};
use crate::hex::{
    hex_pair_value, hex_pairs, hex_pairs_split_char, hex_payload, hex_payload_splits_char,
    is_ascii_char, strip_white_space, utf8_length,
};
use crate::range::{
    cidr_hosts, hostmask_v4, hostmask_v6, last_octet_range, lemma_hostmask_v4_wide, lemma_mask_v4,
    lemma_mask_v6, range_between, span, text_range, CidrBlock, RangeError,
};
use crate::scan::{after_reply, ipv4_octets, nec_wants_local_address, payload_for_target};
use crate::text::{is_dec_digit, is_white_space};

verus! {

/// The order of addresses is total: reflexive, antisymmetric, transitive and
/// relating any two addresses one way or the other.
pub proof fn law_address_order_total(a: IpAddress, b: IpAddress, c: IpAddress)
    ensures
        ip_le(a, a),
        ip_le(a, b) && ip_le(b, a) ==> a == b,
        ip_le(a, b) && ip_le(b, c) ==> ip_le(a, c),
        ip_le(a, b) || ip_le(b, a),
{
}

/// A span of one family is in ascending order, starts at its first address
/// and ends at its last one.
proof fn lemma_span_shape(first: IpAddress, last: IpAddress)
    requires
        (first is V4 && last is V4 && first->V4_0 <= last->V4_0) || (first is V6 && last is V6
            && first->V6_0 <= last->V6_0),
    ensures
        span(first, last).len() > 0,
        span(first, last)[0] == first,
        span(first, last).last() == last,
        sorted_addresses(span(first, last)),
{
}

/// A range holds every address from its start to its end, in ascending order:
/// `end - start + 1` addresses, the first being `start` and the last `end`.
pub proof fn law_range_is_consecutive(start: IpAddress, end: IpAddress)
    ensures
        range_between(start, end) matches Ok(s) ==> {
            &&& s.len() > 0
            &&& s[0] == start
            &&& s.last() == end
            &&& sorted_addresses(s)
            &&& forall|i: int| 0 <= i < s.len() ==> ip_le(start, #[trigger] s[i]) && ip_le(s[i], end)
        },
{
    if range_between(start, end) is Ok {
        lemma_span_shape(start, end);
    }
}

/// A range refuses exactly: mixed families, a start above the end, and an
/// IPv6 range of more than 100,000 steps.
pub proof fn law_range_refusals(start: IpAddress, end: IpAddress)
    ensures
        (start is V4 != end is V4) ==> range_between(start, end) == Err::<
            Seq<IpAddress>,
            RangeError,
        >(RangeError::VersionMismatch),
        (start is V4 == end is V4) && !ip_le(start, end) ==> range_between(start, end) == Err::<
            Seq<IpAddress>,
            RangeError,
        >(RangeError::StartAfterEnd),
{
}

/// `a.b.c.d-e` stands for the same addresses as `a.b.c.d-a.b.c.e`.
pub proof fn law_last_octet_range_is_full_range(start: u32, end_octet: nat)
    requires
        end_octet <= 255,
        end_octet >= start % 256,
    ensures
        last_octet_range(start, end_octet) == range_between(
            IpAddress::V4(start),
            IpAddress::V4((start - start % 256 + end_octet) as u32),
        ),
{
}

/// The hosts of a network lie between its network address and its broadcast
/// address, ascending, and number `2^(32-p) - 2` for an IPv4 prefix `p` below 31,
/// `2^(32-p)` for an IPv4 prefix of 31 or 32, and `2^(128-p)` for IPv6 (with
/// `hostmask + 1 = 2^(bits-p)`).
pub proof fn law_network_hosts(b: CidrBlock)
    requires
        b.wf(),
    ensures
        sorted_addresses(cidr_hosts(b)),
        match b.addr {
            IpAddress::V4(a) => {
                let m = hostmask_v4(b.prefix_len);
                &&& cidr_hosts(b).len() == if b.prefix_len < 31 {
                    m as int - 1
                } else {
                    m as int + 1
                }
                &&& forall|i: int|
                    0 <= i < cidr_hosts(b).len() ==> (#[trigger] cidr_hosts(b)[i] matches IpAddress::V4(
                        h,
                    ) && (a & !m) <= h <= (a | m))
            },
            IpAddress::V6(a) => {
                let m = hostmask_v6(b.prefix_len);
                &&& cidr_hosts(b).len() == m as int + 1
                &&& forall|i: int|
                    0 <= i < cidr_hosts(b).len() ==> (#[trigger] cidr_hosts(b)[i] matches IpAddress::V6(
                        h,
                    ) && (a & !m) <= h <= (a | m))
            },
        },
{
    match b.addr {
        IpAddress::V4(a) => {
            let m = hostmask_v4(b.prefix_len);
            lemma_mask_v4(a, m);
            if b.prefix_len < 31 {
                lemma_hostmask_v4_wide(b.prefix_len);
                lemma_span_shape(
                    IpAddress::V4(((a & !m) + 1) as u32),
                    IpAddress::V4(((a | m) - 1) as u32),
                );
            } else {
                lemma_span_shape(IpAddress::V4(a & !m), IpAddress::V4(a | m));
            }
        },
        IpAddress::V6(a) => {
            let m = hostmask_v6(b.prefix_len);
            lemma_mask_v6(a, m);
            lemma_span_shape(IpAddress::V6(a & !m), IpAddress::V6(a | m));
        },
    }
}

/// Recording a reply twice is recording it once.
pub proof fn law_reply_idempotent(found: Seq<IpAddress>, is_target: bool, ip: IpAddress)
    ensures
        after_reply(after_reply(found, is_target, ip), is_target, ip) == after_reply(
            found,
            is_target,
            ip,
        ),
{
    if is_target && !found.contains(ip) {
        assert(found.push(ip)[found.len() as int] == ip);
    }
}

/// Recording replies keeps the repliers free of duplicates and within the targets.
pub proof fn law_repliers_stay_distinct_targets(
    found: Seq<IpAddress>,
    targets: Set<IpAddress>,
    ip: IpAddress,
)
    requires
        found.no_duplicates(),
        forall|i: int| 0 <= i < found.len() ==> targets.contains(#[trigger] found[i]),
    ensures
        after_reply(found, targets.contains(ip), ip).no_duplicates(),
        forall|i: int|
            0 <= i < after_reply(found, targets.contains(ip), ip).len() ==> targets.contains(
                #[trigger] after_reply(found, targets.contains(ip), ip)[i],
            ),
{
    let r = after_reply(found, targets.contains(ip), ip);
    if targets.contains(ip) && !found.contains(ip) {
        assert forall|i: int, j: int| 0 <= i < r.len() && 0 <= j < r.len() && i != j implies r[i]
            != r[j] by {
            if i == found.len() {
                assert(r[j] == found[j]);
            } else if j == found.len() {
                assert(r[i] == found[i]);
            } else {
                assert(r[i] == found[i] && r[j] == found[j]);
            }
        }
        assert forall|i: int| 0 <= i < r.len() implies targets.contains(#[trigger] r[i]) by {
            if i < found.len() {
                assert(r[i] == found[i]);
            }
        }
    }
}

/// The payload sent to a target keeps the length of the payload and all of it
/// but, in NEC mode with a payload of at least twelve bytes and an IPv4 local
/// address, its last four bytes, which then hold that address.
pub proof fn law_target_payload_shape(payload: Seq<u8>, is_nec: bool, local: Option<IpAddress>)
    ensures
        payload_for_target(payload, is_nec, local).len() == payload.len(),
        match local {
            Some(IpAddress::V4(v)) => is_nec && payload.len() >= 12 ==> {
                &&& forall|i: int|
                    0 <= i < payload.len() - 4 ==> #[trigger] payload_for_target(
                        payload,
                        is_nec,
                        local,
                    )[i] == payload[i]
                &&& payload_for_target(payload, is_nec, local).subrange(
                    payload.len() - 4,
                    payload.len() as int,
                ) == ipv4_octets(v)
            },
            _ => true,
        },
        !(is_nec && payload.len() >= 12 && local matches Some(IpAddress::V4(_)))
            ==> payload_for_target(payload, is_nec, local) == payload,
{
    if let Some(IpAddress::V4(v)) = local {
        if nec_wants_local_address(is_nec, payload.len()) {
            let r = payload_for_target(payload, is_nec, local);
            assert(r.subrange(payload.len() - 4, payload.len() as int) =~= ipv4_octets(v));
        }
    }
}


/// The hex digit of a value below 16, upper- or lower-case.
pub open spec fn nibble_char(n: nat, upper: bool) -> char {
    if n < 10 {
        (0x30 + n) as char
    } else if upper {
        (0x41 + n - 10) as char
    } else {
        (0x61 + n - 10) as char
    }
}

/// Bytes written as two hex digits each (as `{:02x}` or `{:02X}` writes them).
pub open spec fn hex_encode(bytes: Seq<u8>, upper: bool) -> Seq<char>
    decreases bytes.len(),
{
    if bytes.len() == 0 {
        Seq::empty()
    } else {
        seq![
            nibble_char((bytes[0] / 16) as nat, upper),
            nibble_char((bytes[0] % 16) as nat, upper),
        ] + hex_encode(bytes.drop_first(), upper)
    }
}

pub(crate) proof fn lemma_nibble_char(n: nat, upper: bool)
    requires
        n < 16,
    ensures
        hex_digit_value(nibble_char(n, upper)) == Some(n),
        is_ascii_char(nibble_char(n, upper)),
        !is_white_space(nibble_char(n, upper)),
{
}

proof fn lemma_hex_encode_chars(bytes: Seq<u8>, upper: bool)
    ensures
        hex_encode(bytes, upper).len() == 2 * bytes.len(),
        forall|i: int|
            0 <= i < hex_encode(bytes, upper).len() ==> is_ascii_char(
                #[trigger] hex_encode(bytes, upper)[i],
            ) && !is_white_space(hex_encode(bytes, upper)[i]),
    decreases bytes.len(),
{
    if bytes.len() > 0 {
        lemma_hex_encode_chars(bytes.drop_first(), upper);
        lemma_nibble_char((bytes[0] / 16) as nat, upper);
        lemma_nibble_char((bytes[0] % 16) as nat, upper);
        let t = hex_encode(bytes.drop_first(), upper);
        assert forall|i: int| 0 <= i < hex_encode(bytes, upper).len() implies is_ascii_char(
            #[trigger] hex_encode(bytes, upper)[i],
        ) && !is_white_space(hex_encode(bytes, upper)[i]) by {
            if i >= 2 {
                assert(hex_encode(bytes, upper)[i] == t[i - 2]);
            }
        }
    }
}

proof fn lemma_strip_plain(s: Seq<char>)
    requires
        forall|i: int| 0 <= i < s.len() ==> is_ascii_char(#[trigger] s[i]) && !is_white_space(s[i]),
    ensures
        strip_white_space(s) == s,
        utf8_length(s) == s.len(),
    decreases s.len(),
{
    if s.len() > 0 {
        let p = s.drop_last();
        assert forall|i: int| 0 <= i < p.len() implies is_ascii_char(#[trigger] p[i])
            && !is_white_space(p[i]) by {
            assert(p[i] == s[i]);
        }
        lemma_strip_plain(p);
        assert(is_ascii_char(s[s.len() - 1]));
        assert(p.push(s.last()) =~= s);
    }
}

proof fn lemma_hex_pairs_encode(bytes: Seq<u8>, upper: bool)
    ensures
        hex_pairs(hex_encode(bytes, upper)) == Some(bytes),
        !hex_pairs_split_char(hex_encode(bytes, upper)),
    decreases bytes.len(),
{
    let e = hex_encode(bytes, upper);
    if bytes.len() == 0 {
        assert(bytes =~= Seq::<u8>::empty());
    } else {
        let b = bytes[0];
        let hi = (b / 16) as nat;
        let lo = (b % 16) as nat;
        lemma_nibble_char(hi, upper);
        lemma_nibble_char(lo, upper);
        lemma_hex_encode_chars(bytes.drop_first(), upper);
        lemma_hex_pairs_encode(bytes.drop_first(), upper);
        assert(e[0] == nibble_char(hi, upper) && e[1] == nibble_char(lo, upper));
        assert(e.subrange(2, e.len() as int) =~= hex_encode(bytes.drop_first(), upper));
        assert(hex_pair_value(e[0], e[1]) == Some(b));
        assert(seq![b] + bytes.drop_first() =~= bytes);
    }
}

/// Hex text decodes to the bytes it encodes: two hex digits per byte, in
/// either case, read back give the bytes, and never cut a character.
pub proof fn law_hex_roundtrip(bytes: Seq<u8>, upper: bool)
    ensures
        hex_payload(hex_encode(bytes, upper)) == Some(bytes),
        !hex_payload_splits_char(hex_encode(bytes, upper)),
{
    lemma_hex_encode_chars(bytes, upper);
    lemma_strip_plain(hex_encode(bytes, upper));
    lemma_hex_pairs_encode(bytes, upper);
}

/// An ASCII letter in the given case; any other character unchanged.
pub open spec fn ascii_case(c: char, upper: bool) -> char {
    let v = c as u32;
    if upper && 0x61 <= v <= 0x7a {
        (v - 0x20) as char
    } else if !upper && 0x41 <= v <= 0x5a {
        (v + 0x20) as char
    } else {
        c
    }
}

/// Text with its ASCII letters put in the given case (as
/// `to_ascii_uppercase` / `to_ascii_lowercase` do).
pub open spec fn case_map(s: Seq<char>, upper: bool) -> Seq<char> {
    Seq::new(s.len(), |i: int| ascii_case(s[i], upper))
}

proof fn lemma_ascii_case_char(c: char, upper: bool)
    ensures
        is_white_space(ascii_case(c, upper)) == is_white_space(c),
        is_ascii_char(ascii_case(c, upper)) == is_ascii_char(c),
        crate::hex::utf8_width(ascii_case(c, upper)) == crate::hex::utf8_width(c),
        hex_digit_value(ascii_case(c, upper)) == hex_digit_value(c),
{
}

proof fn lemma_case_map_strip(s: Seq<char>, upper: bool)
    ensures
        strip_white_space(case_map(s, upper)) == case_map(strip_white_space(s), upper),
        utf8_length(case_map(s, upper)) == utf8_length(s),
    decreases s.len(),
{
    if s.len() > 0 {
        let p = s.drop_last();
        lemma_case_map_strip(p, upper);
        lemma_ascii_case_char(s.last(), upper);
        let m = case_map(s, upper);
        assert(m.drop_last() =~= case_map(p, upper));
        assert(m.last() == ascii_case(s.last(), upper));
        if !is_white_space(s.last()) {
            assert(case_map(strip_white_space(p).push(s.last()), upper) =~= case_map(
                strip_white_space(p),
                upper,
            ).push(ascii_case(s.last(), upper)));
        }
    } else {
        assert(case_map(s, upper) =~= s);
    }
}

proof fn lemma_case_map_pairs(t: Seq<char>, upper: bool)
    ensures
        hex_pairs(case_map(t, upper)) == hex_pairs(t),
        hex_pairs_split_char(case_map(t, upper)) == hex_pairs_split_char(t),
    decreases t.len(),
{
    let m = case_map(t, upper);
    if t.len() > 0 {
        lemma_ascii_case_char(t[0], upper);
        if t.len() >= 2 {
            lemma_ascii_case_char(t[1], upper);
            let r = t.subrange(2, t.len() as int);
            assert(m.subrange(2, m.len() as int) =~= case_map(r, upper));
            lemma_case_map_pairs(r, upper);
            assert(m[0] == ascii_case(t[0], upper) && m[1] == ascii_case(t[1], upper));
        }
    }
}

/// The case of hex digits changes nothing: text with its ASCII letters
/// put in upper or in lower case decodes as the text itself does.
pub proof fn law_hex_case_insensitive(s: Seq<char>, upper: bool)
    ensures
        hex_payload(case_map(s, upper)) == hex_payload(s),
        hex_payload_splits_char(case_map(s, upper)) == hex_payload_splits_char(s),
{
    lemma_case_map_strip(s, upper);
    lemma_case_map_strip(strip_white_space(s), upper);
    lemma_case_map_pairs(strip_white_space(s), upper);
}

/// Removing whitespace twice is removing it once.
proof fn lemma_strip_idempotent(s: Seq<char>)
    ensures
        strip_white_space(strip_white_space(s)) == strip_white_space(s),
        forall|i: int|
            0 <= i < strip_white_space(s).len() ==> !is_white_space(
                #[trigger] strip_white_space(s)[i],
            ),
    decreases s.len(),
{
    if s.len() > 0 {
        let p = s.drop_last();
        lemma_strip_idempotent(p);
        let sp = strip_white_space(p);
        if !is_white_space(s.last()) {
            let r = sp.push(s.last());
            assert(r.drop_last() =~= sp);
            assert forall|i: int| 0 <= i < r.len() implies !is_white_space(#[trigger] r[i]) by {
                if i < sp.len() {
                    assert(r[i] == sp[i]);
                }
            }
        }
    } else {
        assert(strip_white_space(s) =~= s);
    }
}

/// Whitespace anywhere in a hex payload changes nothing.
pub proof fn law_hex_ignores_whitespace(s: Seq<char>)
    ensures
        hex_payload(strip_white_space(s)) == hex_payload(s),
        hex_payload_splits_char(strip_white_space(s)) == hex_payload_splits_char(s),
{
    lemma_strip_idempotent(s);
}

/// Two payloads that differ only in their whitespace (inserted anywhere, even
/// between the two digits of a byte) decode alike.
pub proof fn law_hex_whitespace_insensitive(s1: Seq<char>, s2: Seq<char>)
    requires
        strip_white_space(s1) == strip_white_space(s2),
    ensures
        hex_payload(s1) == hex_payload(s2),
        hex_payload_splits_char(s1) == hex_payload_splits_char(s2),
{
}

/// When every field is free of `c`, so is the whole text.
proof fn lemma_fields_free(s: Seq<char>, sep: char, c: char)
    requires
        c != sep,
        forall|i: int|
            0 <= i < split_fields(s, sep).len() ==> free_of(#[trigger] split_fields(s, sep)[i], c),
    ensures
        free_of(s, c),
    decreases s.len(),
{
    if s.len() > 0 {
        let rest = s.drop_first();
        let fr = split_fields(rest, sep);
        lemma_split_nonempty(rest, sep);
        if s[0] == sep {
            assert forall|i: int| 0 <= i < fr.len() implies free_of(#[trigger] fr[i], c) by {
                assert(split_fields(s, sep)[i + 1] == fr[i]);
            }
        } else {
            let f0 = split_fields(s, sep)[0];
            assert(f0 == seq![s[0]] + fr[0]);
            assert(f0[0] == s[0]);
            assert forall|i: int| 0 <= i < fr.len() implies free_of(#[trigger] fr[i], c) by {
                if i == 0 {
                    assert forall|j: int| 0 <= j < fr[0].len() implies #[trigger] fr[0][j] != c by {
                        assert(f0[j + 1] == fr[0][j]);
                    }
                } else {
                    assert(split_fields(s, sep)[i] == fr[i]);
                }
            }
        }
        lemma_fields_free(rest, sep, c);
        assert forall|j: int| 0 <= j < s.len() implies #[trigger] s[j] != c by {
            if j > 0 {
                assert(s[j] == rest[j - 1]);
            }
        }
    }
}

proof fn lemma_octet_free(f: Seq<char>)
    requires
        dec_octet(f) is Some,
    ensures
        free_of(f, '-'),
{
    assert forall|j: int| 0 <= j < f.len() implies #[trigger] f[j] != '-' by {
        assert(is_dec_digit(f[j]));
    }
}

proof fn lemma_ipv4_free(s: Seq<char>)
    requires
        parse_ipv4(s) is Some,
    ensures
        free_of(s, '-'),
{
    let fs = split_fields(s, '.');
    assert forall|i: int| 0 <= i < fs.len() implies free_of(#[trigger] fs[i], '-') by {
        lemma_octet_free(fs[i]);
    }
    lemma_fields_free(s, '.', '-');
}

proof fn lemma_group_free(f: Seq<char>)
    requires
        hex_group(f) is Some,
    ensures
        free_of(f, '-'),
{
    assert forall|j: int| 0 <= j < f.len() implies #[trigger] f[j] != '-' by {
        assert(hex_digit_value(f[j]) is Some);
    }
}

proof fn lemma_group_fields_free(fs: Seq<Seq<char>>, allow_v4: bool)
    requires
        group_fields(fs, allow_v4) is Some,
    ensures
        forall|i: int| 0 <= i < fs.len() ==> free_of(#[trigger] fs[i], '-'),
    decreases fs.len(),
{
    if fs.len() == 1 {
        if hex_group(fs[0]) is Some {
            lemma_group_free(fs[0]);
        } else {
            lemma_ipv4_free(fs[0]);
        }
    } else if fs.len() > 1 {
        lemma_group_free(fs[0]);
        lemma_group_fields_free(fs.drop_first(), allow_v4);
        assert forall|i: int| 0 <= i < fs.len() implies free_of(#[trigger] fs[i], '-') by {
            if i > 0 {
                assert(fs[i] == fs.drop_first()[i - 1]);
            }
        }
    }
}

proof fn lemma_part_free(p: Seq<char>, allow_v4: bool)
    requires
        part_groups(p, allow_v4) is Some,
    ensures
        free_of(p, '-'),
{
    if p.len() > 0 {
        lemma_group_fields_free(split_fields(p, ':'), allow_v4);
        lemma_fields_free(p, ':', '-');
    }
}

proof fn lemma_ip_free(s: Seq<char>)
    requires
        parse_ip(s) is Some,
    ensures
        free_of(s, '-'),
{
    if parse_ipv4(s) is Some {
        lemma_ipv4_free(s);
    } else {
        assert(ipv6_groups(s) is Some);
        match find_double_colon(s) {
            Some(k) => {
                lemma_find_double_colon_bounds(s);
                let head = s.subrange(0, k as int);
                let tail = s.subrange(k as int + 2, s.len() as int);
                lemma_part_free(head, false);
                lemma_part_free(tail, true);
                assert forall|j: int| 0 <= j < s.len() implies #[trigger] s[j] != '-' by {
                    if j < k {
                        assert(s[j] == head[j]);
                    } else if j >= k + 2 {
                        assert(s[j] == tail[j - k - 2]);
                    } else {
                        lemma_find_double_colon_at(s);
                    }
                }
            },
            None => {
                lemma_group_fields_free(split_fields(s, ':'), true);
                lemma_fields_free(s, ':', '-');
            },
        }
    }
}

pub(crate) proof fn lemma_find_double_colon_bounds(s: Seq<char>)
    ensures
        find_double_colon(s) matches Some(k) ==> k + 2 <= s.len(),
    decreases s.len(),
{
    if s.len() >= 2 && !(s[0] == ':' && s[1] == ':') {
        lemma_find_double_colon_bounds(s.drop_first());
    }
}

pub(crate) proof fn lemma_find_double_colon_at(s: Seq<char>)
    ensures
        find_double_colon(s) matches Some(k) ==> s[k as int] == ':' && s[k as int + 1] == ':',
    decreases s.len(),
{
    if s.len() >= 2 && !(s[0] == ':' && s[1] == ':') {
        lemma_find_double_colon_at(s.drop_first());
        lemma_find_double_colon_bounds(s.drop_first());
    }
}

/// A single address stands for itself: text that reads as an address
/// (and so holds no dash) is that one address.
pub proof fn law_single_address(t: Seq<char>)
    requires
        parse_ip(t) is Some,
    ensures
        text_range(t) == Ok::<Seq<IpAddress>, RangeError>(seq![parse_ip(t).unwrap()]),
{
    lemma_ip_free(t);
    lemma_split_single(t, '-');
}


/// An IPv4 range has no size limit: from `a` up to `b` it holds the
/// `b - a + 1` addresses `a, a + 1, ..., b`, the `i`-th being `a + i`.
pub proof fn law_ipv4_range_unbounded(a: u32, b: u32)
    requires
        a <= b,
    ensures
        range_between(IpAddress::V4(a), IpAddress::V4(b)) is Ok,
        range_between(IpAddress::V4(a), IpAddress::V4(b))->Ok_0.len() == b - a + 1,
        forall|i: int|
            0 <= i <= b - a ==> #[trigger] range_between(IpAddress::V4(a), IpAddress::V4(b))->Ok_0[i]
                == IpAddress::V4((a + i) as u32),
{
}

/// A reply from a target always leaves it among the repliers, keeps the
/// earlier repliers in place, and adds at most that one address; a reply from
/// anything else changes nothing.
pub proof fn law_reply_recorded(found: Seq<IpAddress>, is_target: bool, ip: IpAddress)
    ensures
        is_target ==> after_reply(found, is_target, ip).contains(ip),
        !is_target ==> after_reply(found, is_target, ip) == found,
        after_reply(found, is_target, ip).len() <= found.len() + 1,
        found.len() <= after_reply(found, is_target, ip).len(),
        forall|i: int| 0 <= i < found.len() ==> #[trigger] after_reply(found, is_target, ip)[i] == found[i],
        forall|x: IpAddress|
            #[trigger] after_reply(found, is_target, ip).contains(x) ==> found.contains(x) || x == ip,
{
    let r = after_reply(found, is_target, ip);
    if is_target && !found.contains(ip) {
        assert(r[found.len() as int] == ip);
        assert forall|x: IpAddress| #[trigger] r.contains(x) implies found.contains(x) || x == ip by {
            if r.contains(x) && x != ip {
                let k = choose|k: int| 0 <= k < r.len() && r[k] == x;
                assert(found[k] == x);
            }
        }
    }
}

/// The four octets written into an NEC payload are the address in
/// big-endian order: each is a byte, and read back they give the address.
pub proof fn law_ipv4_octets_big_endian(v: u32)
    ensures
        ipv4_octets(v).len() == 4,
        ipv4_octets(v)[0] as int * 0x1000000 + ipv4_octets(v)[1] as int * 0x10000
            + ipv4_octets(v)[2] as int * 0x100 + ipv4_octets(v)[3] as int == v,
{
    let o0 = v / 0x1000000;
    let o1 = v / 0x10000 % 0x100;
    let o2 = v / 0x100 % 0x100;
    let o3 = v % 0x100;
    assert(o0 < 0x100 && o1 < 0x100 && o2 < 0x100 && o3 < 0x100);
    assert(o0 * 0x1000000 + o1 * 0x10000 + o2 * 0x100 + o3 == v) by (bit_vector)
        requires
            o0 == v / 0x1000000,
            o1 == v / 0x10000 % 0x100,
            o2 == v / 0x100 % 0x100,
            o3 == v % 0x100,
    ;
    assert(ipv4_octets(v)[0] as int == o0);
    assert(ipv4_octets(v)[1] as int == o1);
    assert(ipv4_octets(v)[2] as int == o2);
    assert(ipv4_octets(v)[3] as int == o3);
}


/// Addresses are ordered IPv4 first, then by numeric value within a family.
pub proof fn law_address_order_by_value(x: u32, y: u32, p: u128, q: u128)
    ensures
        ip_le(IpAddress::V4(x), IpAddress::V4(y)) == (x <= y),
        ip_le(IpAddress::V6(p), IpAddress::V6(q)) == (p <= q),
        ip_le(IpAddress::V4(x), IpAddress::V6(p)),
        !ip_le(IpAddress::V6(p), IpAddress::V4(x)),
{
}

/// An IPv6 range of up to 100,000 steps holds every address from start to
/// end, the `i`-th being `a + i`; a longer one is refused as too large.
pub proof fn law_ipv6_range_limit(a: u128, b: u128)
    requires
        a <= b,
    ensures
        b - a <= 100_000 ==> {
            &&& range_between(IpAddress::V6(a), IpAddress::V6(b)) is Ok
            &&& range_between(IpAddress::V6(a), IpAddress::V6(b))->Ok_0.len() == b - a + 1
            &&& forall|i: int|
                0 <= i <= b - a ==> #[trigger] range_between(IpAddress::V6(a), IpAddress::V6(b))->Ok_0[i]
                    == IpAddress::V6((a + i) as u128)
        },
        b - a > 100_000 ==> range_between(IpAddress::V6(a), IpAddress::V6(b)) == Err::<
            Seq<IpAddress>,
            RangeError,
        >(RangeError::Ipv6RangeTooLarge),
{
}

proof fn lemma_block_size(p: u8)
    by (bit_vector)
    requires
        p <= 32,
    ensures
        (if p >= 32 { 0u64 } else { (0xffff_ffffu32 >> p) as u64 }) + 1 == (1u64 << ((32 - p) as u64)),
{
}

proof fn lemma_same_prefix(a: u32, h: u32, p: u8)
    by (bit_vector)
    requires
        p < 32,
        (a & !(0xffff_ffffu32 >> p)) <= h <= (a | (0xffff_ffffu32 >> p)),
    ensures
        (h as u64) >> ((32 - p) as u64) == (a as u64) >> ((32 - p) as u64),
{
}

/// An IPv4 network with prefix `p` has `2^(32-p) - 2` usable hosts when `p`
/// is below 31 and `2^(32-p)` otherwise, and every host shares the first `p`
/// bits of the network's address.
pub proof fn law_ipv4_network_size(a: u32, p: u8)
    requires
        p <= 32,
    ensures
        cidr_hosts(CidrBlock { addr: IpAddress::V4(a), prefix_len: p }).len() == if p < 31 {
            (1u64 << ((32 - p) as u64)) - 2
        } else {
            (1u64 << ((32 - p) as u64)) as int
        },
        forall|i: int|
            0 <= i < cidr_hosts(CidrBlock { addr: IpAddress::V4(a), prefix_len: p }).len() ==> (
            #[trigger] cidr_hosts(CidrBlock { addr: IpAddress::V4(a), prefix_len: p })[i] matches IpAddress::V4(h)
                && (p < 32 ==> (h as u64) >> ((32 - p) as u64) == (a as u64) >> ((32 - p) as u64))),
{
    let b = CidrBlock { addr: IpAddress::V4(a), prefix_len: p };
    law_network_hosts(b);
    lemma_block_size(p);
    let m = hostmask_v4(p);
    assert forall|i: int| 0 <= i < cidr_hosts(b).len() implies (#[trigger] cidr_hosts(b)[i] matches IpAddress::V4(h)
        && (p < 32 ==> (h as u64) >> ((32 - p) as u64) == (a as u64) >> ((32 - p) as u64))) by {
        if let IpAddress::V4(h) = cidr_hosts(b)[i] {
            if p < 32 {
                lemma_same_prefix(a, h, p);
            }
        }
    }
}


/// Hex text with an odd number of digits and nothing else is refused.
pub proof fn law_hex_odd_length_refused(s: Seq<char>)
    requires
        forall|i: int| 0 <= i < s.len() ==> is_ascii_char(#[trigger] s[i]) && !is_white_space(s[i]),
        s.len() % 2 == 1,
    ensures
        hex_payload(s) is None,
        !hex_payload_splits_char(s),
{
    lemma_strip_plain(s);
}

} // verus!

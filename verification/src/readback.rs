//! Numbers and addresses written out in decimal are read back as themselves.

use vstd::prelude::*;
use crate::addr::{
    all_hex_digits, dec_octet, find_double_colon, group_fields, groups_value, hex_digit_value,
    hex_group, hex_value, ipv6_groups, parse_ip, parse_ipv4, parse_ipv6, IpAddress,
};
use crate::laws::{lemma_find_double_colon_at, lemma_nibble_char, nibble_char};
use crate::config::{
    concurrency_value, port_value, prompt_answer, protocol_named, timeout_value, Protocol,
};
use crate::fields::{free_of, lemma_split_cons, lemma_split_single, split_fields};
use crate::range::{decimal_text, digit_text, text_range, RangeError};
use crate::text::{
    all_dec_digits, dec_digit_value, dec_value, is_dec_digit, is_white_space, parse_unsigned, trim_end,
    trim_start, trimmed,
};

verus! {

/// The decimal digit character of a value below 10.
pub open spec fn digit_char(d: nat) -> char {
    (0x30 + d) as char
}

/// `n` written in decimal, without leading zeros.
pub open spec fn dec_chars(n: nat) -> Seq<char>
    decreases n,
{
    if n < 10 {
        seq![digit_char(n)]
    } else {
        dec_chars(n / 10).push(digit_char(n % 10))
    }
}

/// An IPv4 address written as a dotted quad of its octets.
pub open spec fn dotted_quad(o0: u8, o1: u8, o2: u8, o3: u8) -> Seq<char> {
    dec_chars(o0 as nat) + seq!['.'] + dec_chars(o1 as nat) + seq!['.'] + dec_chars(o2 as nat)
        + seq!['.'] + dec_chars(o3 as nat)
}

/// Every character of `s` is a decimal digit.
proof fn lemma_digits_plain(s: Seq<char>)
    requires
        all_dec_digits(s),
    ensures
        free_of(s, '.'),
        free_of(s, ':'),
        free_of(s, '-'),
        forall|i: int| 0 <= i < s.len() ==> !is_white_space(#[trigger] s[i]),
{
    assert forall|i: int| 0 <= i < s.len() implies #[trigger] s[i] != '.' && s[i] != ':' && s[i]
        != '-' && !is_white_space(s[i]) by {
        assert(is_dec_digit(s[i]));
    }
}

proof fn lemma_dec_chars(n: nat)
    ensures
        dec_chars(n).len() >= 1,
        all_dec_digits(dec_chars(n)),
        dec_value(dec_chars(n)) == n,
        n >= 1 ==> dec_chars(n)[0] != '0',
        n < 10 ==> dec_chars(n).len() == 1,
        n < 100 ==> dec_chars(n).len() <= 2,
        n < 1000 ==> dec_chars(n).len() <= 3,
    decreases n,
{
    let s = dec_chars(n);
    if n < 10 {
        assert(dec_digit_value(digit_char(n)) == n);
        assert(s.drop_last() =~= Seq::<char>::empty());
        assert(dec_value(s.drop_last()) == 0);
    } else {
        let p = dec_chars(n / 10);
        lemma_dec_chars(n / 10);
        assert(s.drop_last() =~= p);
        assert(dec_digit_value(digit_char(n % 10)) == n % 10);
        assert(all_dec_digits(s)) by {
            assert forall|i: int| 0 <= i < s.len() implies is_dec_digit(#[trigger] s[i]) by {
                if i < p.len() {
                    assert(s[i] == p[i]);
                }
            }
        }
        assert(s[0] == p[0]);
    }
}

proof fn lemma_dec_octet(n: u8)
    ensures
        dec_octet(dec_chars(n as nat)) == Some(n),
{
    lemma_dec_chars(n as nat);
}

proof fn lemma_trimmed_plain(s: Seq<char>)
    requires
        s.len() > 0,
        !is_white_space(s[0]),
        !is_white_space(s.last()),
    ensures
        trimmed(s) == s,
{
    assert(trim_start(s) == s);
    assert(trim_end(s) == s);
}

proof fn lemma_no_double_colon(s: Seq<char>)
    requires
        free_of(s, ':'),
    ensures
        find_double_colon(s) is None,
    decreases s.len(),
{
    if s.len() >= 2 {
        assert(s[0] != ':');
        assert(free_of(s.drop_first(), ':')) by {
            assert forall|i: int| 0 <= i < s.drop_first().len() implies #[trigger] s.drop_first()[i]
                != ':' by {
                assert(s.drop_first()[i] == s[i + 1]);
            }
        }
        lemma_no_double_colon(s.drop_first());
    }
}

/// A dotted quad of octets reads as the address of those octets.
proof fn lemma_dotted_quad(o0: u8, o1: u8, o2: u8, o3: u8)
    ensures
        parse_ip(dotted_quad(o0, o1, o2, o3)) == Some(
            IpAddress::V4(
                (o0 as int * 0x1000000 + o1 as int * 0x10000 + o2 as int * 0x100 + o3 as int) as u32,
            ),
        ),
        free_of(dotted_quad(o0, o1, o2, o3), '-'),
        !is_white_space(dotted_quad(o0, o1, o2, o3)[0]),
        !is_white_space(dotted_quad(o0, o1, o2, o3).last()),
{
    let d0 = dec_chars(o0 as nat);
    let d1 = dec_chars(o1 as nat);
    let d2 = dec_chars(o2 as nat);
    let d3 = dec_chars(o3 as nat);
    lemma_dec_chars(o0 as nat);
    lemma_dec_chars(o1 as nat);
    lemma_dec_chars(o2 as nat);
    lemma_dec_chars(o3 as nat);
    lemma_digits_plain(d0);
    lemma_digits_plain(d1);
    lemma_digits_plain(d2);
    lemma_digits_plain(d3);
    lemma_dec_octet(o0);
    lemma_dec_octet(o1);
    lemma_dec_octet(o2);
    lemma_dec_octet(o3);
    let t = dotted_quad(o0, o1, o2, o3);
    let r3 = d3;
    let r2 = d2 + seq!['.'] + r3;
    let r1 = d1 + seq!['.'] + r2;
    assert(t =~= d0 + seq!['.'] + r1);
    lemma_split_single(r3, '.');
    lemma_split_cons(d2, r3, '.');
    lemma_split_cons(d1, r2, '.');
    lemma_split_cons(d0, r1, '.');
    let fs = split_fields(t, '.');
    assert(fs =~= seq![d0, d1, d2, d3]);
    assert(parse_ipv4(t) == Some(
        (o0 as int * 0x1000000 + o1 as int * 0x10000 + o2 as int * 0x100 + o3 as int) as u32,
    ));
    assert forall|i: int| 0 <= i < t.len() implies #[trigger] t[i] != '-' by {
        if i < d0.len() {
            assert(t[i] == d0[i]);
        } else if i == d0.len() {
        } else if i < d0.len() + 1 + d1.len() {
            assert(t[i] == d1[i - d0.len() - 1]);
        } else if i == d0.len() + 1 + d1.len() {
        } else if i < d0.len() + 2 + d1.len() + d2.len() {
            assert(t[i] == d2[i - d0.len() - 2 - d1.len()]);
        } else if i == d0.len() + 2 + d1.len() + d2.len() {
        } else {
            assert(t[i] == d3[i - d0.len() - 3 - d1.len() - d2.len()]);
        }
    }
    assert(t[0] == d0[0]);
    assert(t.last() == d3.last());
}

/// A number written in decimal is no address.
proof fn lemma_number_not_address(n: nat)
    ensures
        parse_ip(dec_chars(n)) is None,
{
    let d = dec_chars(n);
    lemma_dec_chars(n);
    lemma_digits_plain(d);
    lemma_split_single(d, '.');
    lemma_split_single(d, ':');
    lemma_no_double_colon(d);
    assert(parse_ipv4(d) is None);
    let g = group_fields(split_fields(d, ':'), true);
    assert(split_fields(d, ':').len() == 1);
    assert(g is None || g.unwrap().len() <= 2);
    assert(ipv6_groups(d) is None);
    assert(parse_ipv6(d) is None);
}

/// `n` written in decimal reads back as `n` wherever it fits.
pub proof fn law_decimal_reads_back(n: nat, max: nat)
    ensures
        n <= max ==> parse_unsigned(dec_chars(n), max) == Some(n),
        n > max ==> parse_unsigned(dec_chars(n), max) is None,
{
    lemma_dec_chars(n);
    lemma_digits_plain(dec_chars(n));
    assert(dec_chars(n)[0] != '+') by {
        assert(is_dec_digit(dec_chars(n)[0]));
    }
}

/// A port, timeout or concurrency limit typed in decimal is read as that
/// number: every port from 1 to 65535, every positive `u64` timeout and every
/// positive `usize` limit; 0 is refused.
pub proof fn law_option_numbers_read_back(n: nat)
    ensures
        0 < n <= 65535 ==> port_value(dec_chars(n)) == Some(n as u16),
        0 < n <= u64::MAX ==> timeout_value(dec_chars(n)) == Some(n as u64),
        0 < n <= usize::MAX ==> concurrency_value(dec_chars(n)) == Some(n as usize),
        port_value(dec_chars(0)) is None,
        timeout_value(dec_chars(0)) is None,
        concurrency_value(dec_chars(0)) is None,
{
    law_decimal_reads_back(n, 65535);
    law_decimal_reads_back(n, u64::MAX as nat);
    law_decimal_reads_back(n, usize::MAX as nat);
    law_decimal_reads_back(0, 65535);
    law_decimal_reads_back(0, u64::MAX as nat);
    law_decimal_reads_back(0, usize::MAX as nat);
}

/// `a.b.c.d-e`, for an end octet `e` below `d`, is refused with both octets.
pub proof fn law_last_octet_below_start_text(o0: u8, o1: u8, o2: u8, o3: u8, e: u8)
    requires
        e < o3,
    ensures
        text_range(dotted_quad(o0, o1, o2, o3) + seq!['-'] + dec_chars(e as nat)) == Err::<
            Seq<IpAddress>,
            RangeError,
        >(RangeError::EndOctetBelowStart { end: e, start: o3 }),
{
    let q = dotted_quad(o0, o1, o2, o3);
    let d = dec_chars(e as nat);
    let t = q + seq!['-'] + d;
    let v = quad_value(o0, o1, o2, o3);
    lemma_dotted_quad(o0, o1, o2, o3);
    lemma_dec_chars(e as nat);
    lemma_digits_plain(d);
    lemma_split_single(d, '-');
    lemma_split_cons(q, d, '-');
    assert(split_fields(t, '-') =~= seq![q, d]);
    lemma_trimmed_plain(q);
    lemma_trimmed_plain(d);
    lemma_number_not_address(e as nat);
    law_decimal_reads_back(e as nat, 255);
    assert(v % 256 == o3 as int) by (nonlinear_arith)
        requires
            v == o0 as int * 0x1000000 + o1 as int * 0x10000 + o2 as int * 0x100 + o3 as int,
            0 <= o3 < 256,
    ;
}

/// `a.b.c.d-e`, for every end octet `e` from `d` up to 255, stands for the
/// `e - d + 1` addresses `a.b.c.d, a.b.c.(d+1), ..., a.b.c.e`.
pub proof fn law_last_octet_text(o0: u8, o1: u8, o2: u8, o3: u8, e: u8)
    requires
        o3 <= e,
    ensures
        text_range(dotted_quad(o0, o1, o2, o3) + seq!['-'] + dec_chars(e as nat)) == Ok::<
            Seq<IpAddress>,
            crate::range::RangeError,
        >(
            Seq::new(
                (e - o3 + 1) as nat,
                |i: int|
                    IpAddress::V4(
                        (o0 as int * 0x1000000 + o1 as int * 0x10000 + o2 as int * 0x100 + o3 as int
                            + i) as u32,
                    ),
            ),
        ),
{
    let q = dotted_quad(o0, o1, o2, o3);
    let d = dec_chars(e as nat);
    let t = q + seq!['-'] + d;
    let v = o0 as int * 0x1000000 + o1 as int * 0x10000 + o2 as int * 0x100 + o3 as int;
    lemma_dotted_quad(o0, o1, o2, o3);
    lemma_dec_chars(e as nat);
    lemma_digits_plain(d);
    lemma_split_single(d, '-');
    lemma_split_cons(q, d, '-');
    let parts = split_fields(t, '-');
    assert(parts =~= seq![q, d]);
    lemma_trimmed_plain(q);
    lemma_trimmed_plain(d);
    lemma_number_not_address(e as nat);
    law_decimal_reads_back(e as nat, 255);
    assert(v % 256 == o3 as int) by (nonlinear_arith)
        requires
            v == o0 as int * 0x1000000 + o1 as int * 0x10000 + o2 as int * 0x100 + o3 as int,
            0 <= o3 < 256,
    ;
    assert(0 <= v < 0x1_0000_0000);
    let r = text_range(t);
    assert(r is Ok);
    assert(r->Ok_0 =~= Seq::new(
        (e - o3 + 1) as nat,
        |i: int| IpAddress::V4((v + i) as u32),
    ));
}


/// The value of the dotted quad `o0.o1.o2.o3`.
pub open spec fn quad_value(o0: u8, o1: u8, o2: u8, o3: u8) -> int {
    o0 as int * 0x1000000 + o1 as int * 0x10000 + o2 as int * 0x100 + o3 as int
}

/// A dotted quad on its own stands for that one address.
pub proof fn law_single_quad_text(o0: u8, o1: u8, o2: u8, o3: u8)
    ensures
        text_range(dotted_quad(o0, o1, o2, o3)) == Ok::<Seq<IpAddress>, RangeError>(
            seq![IpAddress::V4(quad_value(o0, o1, o2, o3) as u32)],
        ),
{
    let q = dotted_quad(o0, o1, o2, o3);
    lemma_dotted_quad(o0, o1, o2, o3);
    lemma_split_single(q, '-');
}

/// `a.b.c.d-e.f.g.h` stands for every address from the first to the second,
/// `i`-th being the first plus `i`, when the first is not above the second;
/// otherwise it is refused as a start after the end.
pub proof fn law_full_range_text(
    o0: u8,
    o1: u8,
    o2: u8,
    o3: u8,
    p0: u8,
    p1: u8,
    p2: u8,
    p3: u8,
)
    ensures
        ({
            let t = dotted_quad(o0, o1, o2, o3) + seq!['-'] + dotted_quad(p0, p1, p2, p3);
            let a = quad_value(o0, o1, o2, o3);
            let b = quad_value(p0, p1, p2, p3);
            &&& a <= b ==> text_range(t) == Ok::<Seq<IpAddress>, RangeError>(
                Seq::new((b - a + 1) as nat, |i: int| IpAddress::V4((a + i) as u32)),
            )
            &&& a > b ==> text_range(t) == Err::<Seq<IpAddress>, RangeError>(
                RangeError::StartAfterEnd,
            )
        }),
{
    let q = dotted_quad(o0, o1, o2, o3);
    let r = dotted_quad(p0, p1, p2, p3);
    let t = q + seq!['-'] + r;
    lemma_dotted_quad(o0, o1, o2, o3);
    lemma_dotted_quad(p0, p1, p2, p3);
    lemma_split_single(r, '-');
    lemma_split_cons(q, r, '-');
    assert(split_fields(t, '-') =~= seq![q, r]);
    lemma_trimmed_plain(q);
    lemma_trimmed_plain(r);
    let a = quad_value(o0, o1, o2, o3);
    let b = quad_value(p0, p1, p2, p3);
    assert(0 <= a < 0x1_0000_0000 && 0 <= b < 0x1_0000_0000);
    if a <= b {
        assert(text_range(t)->Ok_0 =~= Seq::new(
            (b - a + 1) as nat,
            |i: int| IpAddress::V4((a + i) as u32),
        ));
    }
}

proof fn lemma_digit_text(d: nat)
    requires
        d < 10,
    ensures
        digit_text(d) == seq![digit_char(d)],
{
    reveal_strlit("0");
    reveal_strlit("1");
    reveal_strlit("2");
    reveal_strlit("3");
    reveal_strlit("4");
    reveal_strlit("5");
    reveal_strlit("6");
    reveal_strlit("7");
    reveal_strlit("8");
    reveal_strlit("9");
    assert(digit_text(d) =~= seq![digit_char(d)]);
}

/// The numbers in refusal messages are written in decimal without leading zeros.
pub proof fn law_message_numbers_are_decimal(n: nat)
    ensures
        decimal_text(n) == dec_chars(n),
    decreases n,
{
    if n < 10 {
        lemma_digit_text(n);
    } else {
        law_message_numbers_are_decimal(n / 10);
        lemma_digit_text(n % 10);
        assert(dec_chars(n / 10) + seq![digit_char(n % 10)] =~= dec_chars(n / 10).push(
            digit_char(n % 10),
        ));
    }
}


/// A prompt answer keeps what was typed, without surrounding whitespace, and
/// falls back to the default only when nothing but whitespace was typed.
pub proof fn law_prompt_answer(core: Seq<char>, pre: Seq<char>, post: Seq<char>, default: Option<Seq<char>>)
    requires
        forall|i: int| 0 <= i < pre.len() ==> is_white_space(#[trigger] pre[i]),
        forall|i: int| 0 <= i < post.len() ==> is_white_space(#[trigger] post[i]),
        core.len() > 0 ==> !is_white_space(core[0]) && !is_white_space(core.last()),
    ensures
        core.len() > 0 ==> prompt_answer(pre + core + post, default) == core,
        core.len() == 0 ==> prompt_answer(pre + core + post, default) == match default {
            Some(d) => d,
            None => Seq::<char>::empty(),
        },
{
    lemma_trim_parts(pre, core, post);
}

proof fn lemma_trim_start_ws(pre: Seq<char>, rest: Seq<char>)
    requires
        forall|i: int| 0 <= i < pre.len() ==> is_white_space(#[trigger] pre[i]),
        rest.len() > 0 ==> !is_white_space(rest[0]),
    ensures
        trim_start(pre + rest) == rest,
    decreases pre.len(),
{
    if pre.len() > 0 {
        assert((pre + rest).drop_first() =~= pre.drop_first() + rest);
        assert(pre[0] == (pre + rest)[0]);
        lemma_trim_start_ws(pre.drop_first(), rest);
    } else {
        assert(pre + rest =~= rest);
        if rest.len() > 0 {
            assert(trim_start(rest) == rest);
        }
    }
}

proof fn lemma_trim_end_ws(rest: Seq<char>, post: Seq<char>)
    requires
        forall|i: int| 0 <= i < post.len() ==> is_white_space(#[trigger] post[i]),
        rest.len() > 0 ==> !is_white_space(rest.last()),
    ensures
        trim_end(rest + post) == rest,
    decreases post.len(),
{
    if post.len() > 0 {
        assert((rest + post).drop_last() =~= rest + post.drop_last());
        assert(post[post.len() - 1] == (rest + post).last());
        lemma_trim_end_ws(rest, post.drop_last());
    } else {
        assert(rest + post =~= rest);
        if rest.len() > 0 {
            assert(trim_end(rest) == rest);
        }
    }
}

proof fn lemma_trim_parts(pre: Seq<char>, core: Seq<char>, post: Seq<char>)
    requires
        forall|i: int| 0 <= i < pre.len() ==> is_white_space(#[trigger] pre[i]),
        forall|i: int| 0 <= i < post.len() ==> is_white_space(#[trigger] post[i]),
        core.len() > 0 ==> !is_white_space(core[0]) && !is_white_space(core.last()),
    ensures
        trimmed(pre + core + post) == core,
{
    if core.len() > 0 {
        let rest = core + post;
        assert(pre + core + post =~= pre + rest);
        assert(rest[0] == core[0]);
        lemma_trim_start_ws(pre, rest);
        lemma_trim_end_ws(core, post);
    } else {
        let ws = pre + post;
        assert(pre + core + post =~= ws);
        assert forall|i: int| 0 <= i < ws.len() implies is_white_space(#[trigger] ws[i]) by {
            if i < pre.len() {
                assert(ws[i] == pre[i]);
            } else {
                assert(ws[i] == post[i - pre.len()]);
            }
        }
        lemma_trim_start_ws(ws, Seq::empty());
        assert(ws + Seq::<char>::empty() =~= ws);
        assert(trim_end(Seq::<char>::empty()) == Seq::<char>::empty());
    }
}

/// `TCP` names TCP and `UDP` names UDP (after upper-casing); other names
/// name no protocol.
pub proof fn law_protocol_names(u: Seq<char>)
    ensures
        protocol_named(seq!['T', 'C', 'P']) == Some(Protocol::Tcp),
        protocol_named(seq!['U', 'D', 'P']) == Some(Protocol::Udp),
        u != seq!['T', 'C', 'P'] && u != seq!['U', 'D', 'P'] ==> protocol_named(u) is None,
{
    reveal_strlit("TCP");
    reveal_strlit("UDP");
    assert("TCP"@ =~= seq!['T', 'C', 'P']);
    assert("UDP"@ =~= seq!['U', 'D', 'P']);
}


/// A 16-bit group written as four lower-case hex digits.
pub open spec fn group_text(g: u16) -> Seq<char> {
    seq![
        nibble_char((g / 0x1000) as nat, false),
        nibble_char((g / 0x100 % 0x10) as nat, false),
        nibble_char((g / 0x10 % 0x10) as nat, false),
        nibble_char((g % 0x10) as nat, false),
    ]
}

/// Groups written out in full and joined with `:`.
pub open spec fn groups_text(gs: Seq<u16>) -> Seq<char>
    decreases gs.len(),
{
    if gs.len() <= 1 {
        if gs.len() == 1 {
            group_text(gs[0])
        } else {
            Seq::empty()
        }
    } else {
        group_text(gs[0]) + seq![':'] + groups_text(gs.drop_first())
    }
}

proof fn lemma_group_text(g: u16)
    ensures
        hex_group(group_text(g)) == Some(g),
        free_of(group_text(g), ':'),
        free_of(group_text(g), '.'),
{
    let t = group_text(g);
    let d0 = (g / 0x1000) as nat;
    let d1 = (g / 0x100 % 0x10) as nat;
    let d2 = (g / 0x10 % 0x10) as nat;
    let d3 = (g % 0x10) as nat;
    lemma_nibble_char(d0, false);
    lemma_nibble_char(d1, false);
    lemma_nibble_char(d2, false);
    lemma_nibble_char(d3, false);
    assert(all_hex_digits(t)) by {
        assert forall|i: int| 0 <= i < t.len() implies (#[trigger] hex_digit_value(t[i])) is Some by {
        }
    }
    assert(t.drop_last() =~= seq![t[0], t[1], t[2]]);
    assert(seq![t[0], t[1], t[2]].drop_last() =~= seq![t[0], t[1]]);
    assert(seq![t[0], t[1]].drop_last() =~= seq![t[0]]);
    assert(seq![t[0]].drop_last() =~= Seq::<char>::empty());
    assert(hex_value(Seq::<char>::empty()) == 0);
    assert(hex_value(seq![t[0]]) == d0);
    assert(hex_value(seq![t[0], t[1]]) == d0 * 16 + d1);
    assert(hex_value(seq![t[0], t[1], t[2]]) == (d0 * 16 + d1) * 16 + d2);
    assert(hex_value(t) == ((d0 * 16 + d1) * 16 + d2) * 16 + d3);
    assert(((d0 * 16 + d1) * 16 + d2) * 16 + d3 == g) by (nonlinear_arith)
        requires
            d0 == g / 0x1000,
            d1 == g / 0x100 % 0x10,
            d2 == g / 0x10 % 0x10,
            d3 == g % 0x10,
            0 <= g < 0x10000,
    ;
    assert forall|i: int| 0 <= i < t.len() implies #[trigger] t[i] != ':' && t[i] != '.' by {
        assert(hex_digit_value(t[i]) is Some);
    }
}

proof fn lemma_groups_text(gs: Seq<u16>)
    requires
        gs.len() >= 1,
    ensures
        split_fields(groups_text(gs), ':') == Seq::new(gs.len(), |i: int| group_text(gs[i])),
        group_fields(split_fields(groups_text(gs), ':'), true) == Some(gs),
        groups_text(gs).len() > 0,
        hex_digit_value(groups_text(gs)[0]) is Some,
        forall|k: int|
            0 <= k < groups_text(gs).len() - 1 ==> !(#[trigger] groups_text(gs)[k] == ':'
                && groups_text(gs)[k + 1] == ':'),
        free_of(groups_text(gs), '.'),
    decreases gs.len(),
{
    let t = groups_text(gs);
    let h = group_text(gs[0]);
    lemma_group_text(gs[0]);
    lemma_nibble_char((gs[0] / 0x1000) as nat, false);
    if gs.len() == 1 {
        lemma_split_single(h, ':');
        assert(split_fields(t, ':') =~= Seq::new(gs.len(), |i: int| group_text(gs[i])));
        assert(seq![gs[0]] =~= gs);
        assert forall|k: int| 0 <= k < t.len() - 1 implies !(#[trigger] t[k] == ':' && t[k + 1]
            == ':') by {
            assert(t[k] != ':');
        }
    } else {
        let rest = gs.drop_first();
        let r = groups_text(rest);
        lemma_groups_text(rest);
        lemma_split_cons(h, r, ':');
        assert(split_fields(t, ':') =~= Seq::new(gs.len(), |i: int| group_text(gs[i])));
        let fs = split_fields(t, ':');
        assert(fs.drop_first() =~= split_fields(r, ':'));
        assert(fs[0] == h);
        assert(seq![gs[0]] + rest =~= gs);
        assert forall|k: int| 0 <= k < t.len() - 1 implies !(#[trigger] t[k] == ':' && t[k + 1]
            == ':') by {
            if k < 4 {
                assert(t[k] == h[k]);
            } else if k == 4 {
                assert(t[k + 1] == r[0]);
            } else {
                assert(t[k] == r[k - 5] && t[k + 1] == r[k - 4]);
            }
        }
        assert forall|k: int| 0 <= k < t.len() implies #[trigger] t[k] != '.' by {
            if k < 4 {
                assert(t[k] == h[k]);
            } else if k > 4 {
                assert(t[k] == r[k - 5]);
            }
        }
        assert(t[0] == h[0]);
    }
}

/// Eight groups written out in full and joined with `:` read back as the
/// address of those groups.
pub proof fn law_full_ipv6_text(gs: Seq<u16>)
    requires
        gs.len() == 8,
    ensures
        parse_ip(groups_text(gs)) == Some(IpAddress::V6(groups_value(gs) as u128)),
{
    let t = groups_text(gs);
    lemma_groups_text(gs);
    lemma_find_double_colon_at(t);
    crate::laws::lemma_find_double_colon_bounds(t);
    assert(find_double_colon(t) is None) by {
        if find_double_colon(t) is Some {
            let k = find_double_colon(t).unwrap() as int;
            assert(t[k] == ':' && t[k + 1] == ':');
        }
    }
    assert(split_fields(t, '.') =~= seq![t]) by {
        lemma_split_single(t, '.');
    }
    assert(parse_ipv4(t) is None);
}

/// The value of eight groups is the first group times `2^112`, plus the second
/// times `2^96`, and so on down to the last group.
pub proof fn law_groups_value(gs: Seq<u16>)
    requires
        gs.len() == 8,
    ensures
        groups_value(gs) == gs[0] as int * 0x1_0000_0000_0000_0000_0000_0000_0000
            + gs[1] as int * 0x1_0000_0000_0000_0000_0000_0000 + gs[2] as int
            * 0x1_0000_0000_0000_0000_0000 + gs[3] as int * 0x1_0000_0000_0000_0000
            + gs[4] as int * 0x1_0000_0000_0000 + gs[5] as int * 0x1_0000_0000 + gs[6] as int
            * 0x1_0000 + gs[7] as int,
{
    let s7 = gs.subrange(0, 7);
    let s6 = gs.subrange(0, 6);
    let s5 = gs.subrange(0, 5);
    let s4 = gs.subrange(0, 4);
    let s3 = gs.subrange(0, 3);
    let s2 = gs.subrange(0, 2);
    let s1 = gs.subrange(0, 1);
    let s0 = gs.subrange(0, 0);
    assert(gs.drop_last() =~= s7);
    assert(s7.drop_last() =~= s6);
    assert(s6.drop_last() =~= s5);
    assert(s5.drop_last() =~= s4);
    assert(s4.drop_last() =~= s3);
    assert(s3.drop_last() =~= s2);
    assert(s2.drop_last() =~= s1);
    assert(s1.drop_last() =~= s0);
    assert(groups_value(s0) == 0);
    assert(groups_value(s1) == gs[0] as int);
    assert(groups_value(s2) == groups_value(s1) * 0x10000 + gs[1] as int);
    assert(groups_value(s3) == groups_value(s2) * 0x10000 + gs[2] as int);
    assert(groups_value(s4) == groups_value(s3) * 0x10000 + gs[3] as int);
    assert(groups_value(s5) == groups_value(s4) * 0x10000 + gs[4] as int);
    assert(groups_value(s6) == groups_value(s5) * 0x10000 + gs[5] as int);
    assert(groups_value(s7) == groups_value(s6) * 0x10000 + gs[6] as int);
    assert(groups_value(gs) == groups_value(s7) * 0x10000 + gs[7] as int);
}

} // verus!

//! Address patterns: parsing of textual host addresses, with or without a
//! port suffix.
//!
//! The accepted grammar:
//! - dotted-decimal form: four decimal octets in `[0, 255]`, separated by
//!   `.`, no leading zeros;
//! - hextet form: eight groups of 1..=4 hex digits separated by `:`, or a
//!   shortened form with one `::` standing for a run of zero groups; the
//!   last two groups may be written as one dotted-decimal quad;
//! - either form followed by a port: `a.b.c.d:port` for the dotted form,
//!   `[h:...:h]:port` for the hextet form, the port a decimal number in
//!   `[0, 65535]` (leading zeros allowed).

use vstd::prelude::*;

verus! {

/// A literal numeric host address.
#[derive(PartialEq, Eq, Structural, Clone, Copy, Debug, Hash)]
pub enum IpAddress {
    V4(u8, u8, u8, u8),
    V6(u16, u16, u16, u16, u16, u16, u16, u16),
}

/// What one input string denotes: a whole host, or one port on a host.
#[derive(PartialEq, Eq, Structural, Clone, Copy, Debug)]
pub enum AddressPattern {
    HostOnly(IpAddress),
    HostAndPort(IpAddress, u16),
}

pub open spec fn is_dec_digit(c: char) -> bool {
    '0' as int <= c as int <= '9' as int
}

pub open spec fn dec_digit_val(c: char) -> int {
    c as int - '0' as int
}

pub open spec fn is_hex_digit(c: char) -> bool {
    is_dec_digit(c)
        || 'a' as int <= c as int <= 'f' as int
        || 'A' as int <= c as int <= 'F' as int
}

pub open spec fn hex_digit_val(c: char) -> int {
    if is_dec_digit(c) {
        dec_digit_val(c)
    } else if 'a' as int <= c as int <= 'f' as int {
        c as int - 'a' as int + 10
    } else {
        c as int - 'A' as int + 10
    }
}

pub open spec fn all_dec_digits(s: Seq<char>) -> bool {
    forall|i: int| 0 <= i < s.len() ==> is_dec_digit(#[trigger] s[i])
}

pub open spec fn all_hex_digits(s: Seq<char>) -> bool {
    forall|i: int| 0 <= i < s.len() ==> is_hex_digit(#[trigger] s[i])
}

/// The value of a string of decimal digits, most significant first.
pub open spec fn dec_value(s: Seq<char>) -> int
    decreases s.len(),
{
    if s.len() == 0 {
        0
    } else {
        dec_value(s.drop_last()) * 10 + dec_digit_val(s.last())
    }
}

/// The value of a string of hex digits, most significant first.
pub open spec fn hex_value(s: Seq<char>) -> int
    decreases s.len(),
{
    if s.len() == 0 {
        0
    } else {
        hex_value(s.drop_last()) * 16 + hex_digit_val(s.last())
    }
}

/// One field of a dotted-decimal address: 1..=3 digits, no leading zero,
/// value at most 255.
pub open spec fn valid_octet(s: Seq<char>) -> bool {
    &&& 1 <= s.len() <= 3
    &&& all_dec_digits(s)
    &&& dec_value(s) <= 255
    &&& (s.len() > 1 ==> s[0] != '0')
}

/// A port suffix: at least one digit, value at most 65535; leading zeros
/// are accepted.
pub open spec fn valid_port(s: Seq<char>) -> bool {
    &&& s.len() >= 1
    &&& all_dec_digits(s)
    &&& dec_value(s) <= 65535
}

/// One group of a hextet-form address: 1..=4 hex digits.
pub open spec fn valid_hextet(s: Seq<char>) -> bool {
    &&& 1 <= s.len() <= 4
    &&& all_hex_digits(s)
}

proof fn lemma_dec_value_nonneg(s: Seq<char>)
    requires
        all_dec_digits(s),
    ensures
        dec_value(s) >= 0,
    decreases s.len(),
{
    if s.len() > 0 {
        assert(all_dec_digits(s.drop_last()));
        lemma_dec_value_nonneg(s.drop_last());
    }
}

/// Reading more digits can only grow the value: the value of a proper
/// prefix is a lower bound.
proof fn lemma_dec_value_prefix_le(s: Seq<char>, i: int)
    requires
        all_dec_digits(s),
        0 <= i <= s.len(),
    ensures
        dec_value(s.take(i)) <= dec_value(s),
    decreases s.len() - i,
{
    if i < s.len() {
        let t = s.take(i + 1);
        assert(t.drop_last() =~= s.take(i));
        assert(all_dec_digits(s.take(i)));
        lemma_dec_value_nonneg(s.take(i));
        assert(dec_value(t) == dec_value(s.take(i)) * 10 + dec_digit_val(s[i]));
        lemma_dec_value_prefix_le(s, i + 1);
        assert(s.take(s.len() as int) =~= s);
    } else {
        assert(s.take(i) =~= s);
    }
}

spec fn pow16(n: nat) -> int
    decreases n,
{
    if n == 0 {
        1
    } else {
        16 * pow16((n - 1) as nat)
    }
}

/// Scan a field of decimal digits; `Some` exactly on digit-only fields whose
/// value stays within `max`, which must be small enough that one more digit
/// cannot overflow the accumulator.
fn dec_field_value(f: &Vec<char>, max: u32) -> (r: Option<u32>)
    requires
        max <= 100000,
    ensures
        match r {
            Some(v) => all_dec_digits(f@) && f@.len() >= 1 && dec_value(f@) == v && v <= max,
            None => !(all_dec_digits(f@) && f@.len() >= 1 && dec_value(f@) <= max),
        },
{
    if f.len() == 0 {
        return None;
    }
    let mut v: u32 = 0;
    let mut i: usize = 0;
    while i < f.len()
        invariant
            0 <= i <= f@.len(),
            all_dec_digits(f@.take(i as int)),
            v == dec_value(f@.take(i as int)),
            v <= max,
            max <= 100000,
        decreases f@.len() - i,
    {
        let c = f[i];
        if !(c >= '0' && c <= '9') {
            return None;
        }
        let d: u32 = (c as u32) - ('0' as u32);
        proof {
            assert(f@.take(i + 1).drop_last() =~= f@.take(i as int));
            assert(f@.take(i + 1).last() == f@[i as int]);
        }
        v = v * 10 + d;
        i = i + 1;
        if v > max {
            proof {
                if all_dec_digits(f@) {
                    lemma_dec_value_prefix_le(f@, i as int);
                }
            }
            return None;
        }
    }
    proof {
        assert(f@.take(f@.len() as int) =~= f@);
    }
    Some(v)
}

/// Scan a field of hex digits; `Some` exactly on fields of 1..=4 hex
/// digits, with the field's value.
fn hextet_value(f: &Vec<char>) -> (r: Option<u16>)
    ensures
        match r {
            Some(v) => valid_hextet(f@) && hex_value(f@) == v,
            None => !valid_hextet(f@),
        },
{
    if f.len() == 0 || f.len() > 4 {
        return None;
    }
    let mut v: u32 = 0;
    let mut i: usize = 0;
    while i < f.len()
        invariant
            0 <= i <= f@.len() <= 4,
            all_hex_digits(f@.take(i as int)),
            v == hex_value(f@.take(i as int)),
            v < pow16(i as nat),
        decreases f@.len() - i,
    {
        let c = f[i];
        let d: u32;
        if c >= '0' && c <= '9' {
            d = (c as u32) - ('0' as u32);
        } else if c >= 'a' && c <= 'f' {
            d = (c as u32) - ('a' as u32) + 10;
        } else if c >= 'A' && c <= 'F' {
            d = (c as u32) - ('A' as u32) + 10;
        } else {
            return None;
        }
        proof {
            assert(f@.take(i + 1).drop_last() =~= f@.take(i as int));
            assert(f@.take(i + 1).last() == f@[i as int]);
            reveal_with_fuel(pow16, 5);
            assert(pow16(0) == 1 && pow16(1) == 16 && pow16(2) == 256 && pow16(3) == 4096
                && pow16(4) == 65536);
        }
        v = v * 16 + d;
        i = i + 1;
    }
    proof {
        assert(f@.take(f@.len() as int) =~= f@);
        reveal_with_fuel(pow16, 5);
        assert(pow16(0) == 1 && pow16(1) == 16 && pow16(2) == 256 && pow16(3) == 4096
            && pow16(4) == 65536);
        assert(pow16(f@.len()) <= 65536);
    }
    Some(v as u16)
}

/// The fields of `s` between occurrences of `sep`: always one more field
/// than there are separators, fields may be empty.
pub open spec fn split_on(s: Seq<char>, sep: char) -> Seq<Seq<char>>
    decreases s.len(),
{
    if s.len() == 0 {
        seq![Seq::<char>::empty()]
    } else if s[0] == sep {
        seq![Seq::<char>::empty()] + split_on(s.drop_first(), sep)
    } else {
        let rest = split_on(s.drop_first(), sep);
        seq![seq![s[0]] + rest[0]] + rest.drop_first()
    }
}

proof fn lemma_split_on_len(s: Seq<char>, sep: char)
    ensures
        split_on(s, sep).len() >= 1,
    decreases s.len(),
{
    if s.len() > 0 {
        lemma_split_on_len(s.drop_first(), sep);
    }
}

fn split_chars(s: &Vec<char>, sep: char) -> (r: Vec<Vec<char>>)
    ensures
        r.deep_view() == split_on(s@, sep),
{
    let ghost full = split_on(s@, sep);
    let mut out: Vec<Vec<char>> = Vec::new();
    let mut cur: Vec<char> = Vec::new();
    let mut i: usize = 0;
    proof {
        assert(s@.skip(0) =~= s@);
        lemma_split_on_len(s@, sep);
        assert(full =~~= out.deep_view() + seq![cur@ + full[0]] + full.drop_first());
    }
    while i < s.len()
        invariant
            0 <= i <= s@.len(),
            split_on(s@.skip(i as int), sep).len() >= 1,
            full =~~= out.deep_view() + seq![
                cur@ + split_on(s@.skip(i as int), sep)[0],
            ] + split_on(s@.skip(i as int), sep).drop_first(),
        decreases s@.len() - i,
    {
        let ghost rest = split_on(s@.skip(i as int), sep);
        proof {
            assert(s@.skip(i as int).drop_first() =~= s@.skip(i + 1));
            assert(s@.skip(i as int)[0] == s@[i as int]);
            lemma_split_on_len(s@.skip(i + 1), sep);
        }
        let c = s[i];
        if c == sep {
            out.push(cur);
            cur = Vec::new();
            proof {
                assert(rest =~~= seq![Seq::<char>::empty()] + split_on(s@.skip(i + 1), sep));
                assert(full =~~= out.deep_view() + seq![
                    cur@ + split_on(s@.skip(i + 1), sep)[0],
                ] + split_on(s@.skip(i + 1), sep).drop_first());
            }
        } else {
            cur.push(c);
            proof {
                let nrest = split_on(s@.skip(i + 1), sep);
                assert(rest =~~= seq![seq![s@[i as int]] + nrest[0]] + nrest.drop_first());
                assert(cur@ + nrest[0] =~= (cur@.drop_last() + rest[0]));
                assert(full =~~= out.deep_view() + seq![cur@ + nrest[0]] + nrest.drop_first());
            }
        }
        i = i + 1;
    }
    proof {
        assert(s@.skip(s@.len() as int) =~= Seq::<char>::empty());
        assert(split_on(Seq::<char>::empty(), sep) =~~= seq![Seq::<char>::empty()]);
    }
    out.push(cur);
    proof {
        assert(out.deep_view() =~~= full);
    }
    out
}

/// The dotted-decimal reading of the fields of `s` split on `.`:
/// exactly four octet fields.
pub open spec fn spec_parse_ipv4(s: Seq<char>) -> Option<IpAddress> {
    let f = split_on(s, '.');
    if f.len() == 4 && valid_octet(f[0]) && valid_octet(f[1]) && valid_octet(f[2]) && valid_octet(
        f[3],
    ) {
        Some(
            IpAddress::V4(
                dec_value(f[0]) as u8,
                dec_value(f[1]) as u8,
                dec_value(f[2]) as u8,
                dec_value(f[3]) as u8,
            ),
        )
    } else {
        None
    }
}

/// `Some` exactly on octet fields, with the octet's value.
fn octet_value(f: &Vec<char>) -> (r: Option<u8>)
    ensures
        match r {
            Some(v) => valid_octet(f@) && dec_value(f@) == v,
            None => !valid_octet(f@),
        },
{
    if f.len() == 0 || f.len() > 3 {
        return None;
    }
    if f.len() > 1 && f[0] == '0' {
        return None;
    }
    match dec_field_value(f, 255) {
        Some(v) => Some(v as u8),
        None => None,
    }
}

pub fn parse_ipv4(s: &Vec<char>) -> (r: Option<IpAddress>)
    ensures
        r == spec_parse_ipv4(s@),
{
    let f = split_chars(s, '.');
    if f.len() != 4 {
        return None;
    }
    proof {
        assert(f.deep_view()[0] == f@[0]@ && f.deep_view()[1] == f@[1]@ && f.deep_view()[2]
            == f@[2]@ && f.deep_view()[3] == f@[3]@);
    }
    let a = match octet_value(&f[0]) {
        Some(v) => v,
        None => {
            return None;
        },
    };
    let b = match octet_value(&f[1]) {
        Some(v) => v,
        None => {
            return None;
        },
    };
    let c = match octet_value(&f[2]) {
        Some(v) => v,
        None => {
            return None;
        },
    };
    let d = match octet_value(&f[3]) {
        Some(v) => v,
        None => {
            return None;
        },
    };
    Some(IpAddress::V4(a, b, c, d))
}

pub open spec fn all_hextets(f: Seq<Seq<char>>, lo: int, hi: int) -> bool {
    forall|i: int| lo <= i < hi ==> valid_hextet(#[trigger] f[i])
}

pub open spec fn hextet_vals(f: Seq<Seq<char>>, lo: int, hi: int) -> Seq<u16> {
    Seq::new((hi - lo) as nat, |i: int| hex_value(f[lo + i]) as u16)
}

pub open spec fn zero_groups(n: nat) -> Seq<u16> {
    Seq::new(n, |i: int| 0u16)
}

/// The index of the first empty field, or `f.len()` if there is none.
pub open spec fn first_empty(f: Seq<Seq<char>>) -> int
    decreases f.len(),
{
    if f.len() == 0 {
        0
    } else if f[0].len() == 0 {
        0
    } else {
        1 + first_empty(f.drop_first())
    }
}

proof fn lemma_first_empty_at(f: Seq<Seq<char>>, i: int)
    requires
        0 <= i <= f.len(),
        forall|j: int| 0 <= j < i ==> (#[trigger] f[j]).len() > 0,
        i < f.len() ==> f[i].len() == 0,
    ensures
        first_empty(f) == i,
    decreases i,
{
    if i == 0 {
    } else {
        assert(f[0].len() > 0);
        lemma_first_empty_at(f.drop_first(), i - 1);
    }
}

/// The two groups a trailing dotted-quad field stands for.
pub open spec fn v4_groups(ip: IpAddress) -> Seq<u16> {
    match ip {
        IpAddress::V4(a, b, c, d) => seq![
            ((a as int) * 256 + (b as int)) as u16,
            ((c as int) * 256 + (d as int)) as u16,
        ],
        IpAddress::V6(..) => Seq::<u16>::empty(),
    }
}

/// The groups of a run of fields: plain hextets, except that the last
/// field may be a dotted-quad standing for the final two groups, as
/// standard notation allows at the end of an address.
pub open spec fn seg_groups(f: Seq<Seq<char>>, lo: int, hi: int) -> Option<Seq<u16>> {
    if all_hextets(f, lo, hi) {
        Some(hextet_vals(f, lo, hi))
    } else if lo < hi && all_hextets(f, lo, hi - 1) && spec_parse_ipv4(f[hi - 1]).is_some() {
        Some(hextet_vals(f, lo, hi - 1) + v4_groups(spec_parse_ipv4(f[hi - 1]).unwrap()))
    } else {
        None
    }
}

/// The eight groups denoted by the fields of a hextet-form address split on
/// `:`, if the fields are well formed. The shapes, in the order tried:
/// eight plain groups; the bare `::`; a leading `::`; a trailing `::`; a
/// `::` between groups. A `::` must stand for at least one zero group, and
/// a run that ends the address may close with a dotted-quad for the last
/// two groups.
pub open spec fn ipv6_groups(f: Seq<Seq<char>>) -> Option<Seq<u16>> {
    let n = f.len() as int;
    let e = first_empty(f);
    let whole = seg_groups(f, 0, n);
    let lead_tail = seg_groups(f, 2, n);
    let mid_tail = seg_groups(f, e + 1, n);
    if whole.is_some() && whole.unwrap().len() == 8 {
        whole
    } else if n == 3 && f[0].len() == 0 && f[1].len() == 0 && f[2].len() == 0 {
        Some(zero_groups(8))
    } else if n >= 3 && f[0].len() == 0 && f[1].len() == 0 && lead_tail.is_some()
        && lead_tail.unwrap().len() <= 7 {
        Some(zero_groups((8 - lead_tail.unwrap().len()) as nat) + lead_tail.unwrap())
    } else if 3 <= n <= 9 && f[n - 1].len() == 0 && f[n - 2].len() == 0 && all_hextets(
        f,
        0,
        n - 2,
    ) {
        Some(hextet_vals(f, 0, n - 2) + zero_groups((10 - n) as nat))
    } else if 0 < e < n - 1 && all_hextets(f, 0, e) && mid_tail.is_some() && e
        + mid_tail.unwrap().len() <= 7 {
        Some(
            hextet_vals(f, 0, e) + zero_groups((8 - e - mid_tail.unwrap().len()) as nat)
                + mid_tail.unwrap(),
        )
    } else {
        None
    }
}

pub open spec fn ip_of_groups(g: Seq<u16>) -> IpAddress {
    IpAddress::V6(g[0], g[1], g[2], g[3], g[4], g[5], g[6], g[7])
}

/// The hextet-form reading of `s`.
pub open spec fn spec_parse_ipv6(s: Seq<char>) -> Option<IpAddress> {
    match ipv6_groups(split_on(s, ':')) {
        Some(g) => Some(ip_of_groups(g)),
        None => None,
    }
}

/// Check a range of fields for well-formed hextets and collect their
/// values.
fn hextets_range(f: &Vec<Vec<char>>, lo: usize, hi: usize) -> (r: Option<Vec<u16>>)
    requires
        lo <= hi <= f@.len(),
    ensures
        r.is_some() == all_hextets(f.deep_view(), lo as int, hi as int),
        r.is_some() ==> r.unwrap()@ == hextet_vals(f.deep_view(), lo as int, hi as int),
{
    let mut out: Vec<u16> = Vec::new();
    let mut i: usize = lo;
    while i < hi
        invariant
            lo <= i <= hi <= f@.len(),
            all_hextets(f.deep_view(), lo as int, i as int),
            out@ =~= hextet_vals(f.deep_view(), lo as int, i as int),
        decreases hi - i,
    {
        proof {
            assert(f.deep_view()[i as int] == f@[i as int]@);
        }
        match hextet_value(&f[i]) {
            Some(v) => {
                out.push(v);
            },
            None => {
                return None;
            },
        }
        i = i + 1;
        proof {
            assert(out@ =~= hextet_vals(f.deep_view(), lo as int, i as int));
        }
    }
    Some(out)
}

/// The index of the first empty field, or `f.len()`.
fn find_first_empty(f: &Vec<Vec<char>>) -> (r: usize)
    ensures
        r == first_empty(f.deep_view()),
        r <= f@.len(),
{
    let mut i: usize = 0;
    while i < f.len()
        invariant
            0 <= i <= f@.len(),
            forall|j: int| 0 <= j < i ==> (#[trigger] f.deep_view()[j]).len() > 0,
        decreases f@.len() - i,
    {
        if f[i].len() == 0 {
            proof {
                assert(f.deep_view()[i as int] == f@[i as int]@);
                lemma_first_empty_at(f.deep_view(), i as int);
            }
            return i;
        }
        proof {
            assert(f.deep_view()[i as int] == f@[i as int]@);
        }
        i = i + 1;
    }
    proof {
        lemma_first_empty_at(f.deep_view(), f@.len() as int);
    }
    f.len()
}

fn ip_from_group_vec(g: &Vec<u16>) -> (r: IpAddress)
    requires
        g@.len() == 8,
    ensures
        r == ip_of_groups(g@),
{
    IpAddress::V6(g[0], g[1], g[2], g[3], g[4], g[5], g[6], g[7])
}

fn push_zeros(g: &mut Vec<u16>, count: usize)
    ensures
        final(g)@ == old(g)@ + zero_groups(count as nat),
{
    let mut z: usize = 0;
    while z < count
        invariant
            z <= count,
            g@ =~= old(g)@ + zero_groups(z as nat),
        decreases count - z,
    {
        g.push(0u16);
        z = z + 1;
        proof {
            assert(g@ =~= old(g)@ + zero_groups(z as nat));
        }
    }
}

fn append_groups(g: &mut Vec<u16>, t: &Vec<u16>)
    ensures
        final(g)@ == old(g)@ + t@,
{
    let mut i: usize = 0;
    while i < t.len()
        invariant
            i <= t@.len(),
            g@ =~= old(g)@ + t@.take(i as int),
        decreases t@.len() - i,
    {
        g.push(t[i]);
        i = i + 1;
        proof {
            assert(g@ =~= old(g)@ + t@.take(i as int));
        }
    }
    proof {
        assert(t@.take(t@.len() as int) =~= t@);
    }
}

/// Collect the groups of a run of fields, allowing a final dotted-quad.
fn seg_range(f: &Vec<Vec<char>>, lo: usize, hi: usize) -> (r: Option<Vec<u16>>)
    requires
        lo <= hi <= f@.len(),
    ensures
        r.is_some() == seg_groups(f.deep_view(), lo as int, hi as int).is_some(),
        r.is_some() ==> r.unwrap()@ == seg_groups(f.deep_view(), lo as int, hi as int).unwrap(),
{
    match hextets_range(f, lo, hi) {
        Some(v) => Some(v),
        None => {
            if lo < hi {
                match hextets_range(f, lo, hi - 1) {
                    Some(head) => {
                        proof {
                            assert(f.deep_view()[hi - 1] == f@[hi - 1]@);
                        }
                        match parse_ipv4(&f[hi - 1]) {
                            Some(ip) => match ip {
                                IpAddress::V4(a, b, c, d) => {
                                    let mut v = head;
                                    v.push((a as u16) * 256 + (b as u16));
                                    v.push((c as u16) * 256 + (d as u16));
                                    proof {
                                        assert(v@ =~= hextet_vals(f.deep_view(), lo as int, hi - 1)
                                            + v4_groups(IpAddress::V4(a, b, c, d)));
                                    }
                                    Some(v)
                                },
                                IpAddress::V6(..) => {
                                    proof {
                                        assert(false);
                                    }
                                    None
                                },
                            },
                            None => None,
                        }
                    },
                    None => None,
                }
            } else {
                None
            }
        },
    }
}

pub fn parse_ipv6(s: &Vec<char>) -> (r: Option<IpAddress>)
    ensures
        r == spec_parse_ipv6(s@),
{
    let f = split_chars(s, ':');
    let ghost fd = f.deep_view();
    let n = f.len();
    proof {
        lemma_split_on_len(s@, ':');
        assert(forall|j: int| 0 <= j < n ==> fd[j] == f@[j]@);
    }
    let e = find_first_empty(&f);
    match seg_range(&f, 0, n) {
        Some(g) => {
            if g.len() == 8 {
                return Some(ip_from_group_vec(&g));
            }
        },
        None => {},
    }
    if n == 3 && f[0].len() == 0 && f[1].len() == 0 && f[2].len() == 0 {
        return Some(IpAddress::V6(0, 0, 0, 0, 0, 0, 0, 0));
    }
    if n >= 3 && f[0].len() == 0 && f[1].len() == 0 {
        match seg_range(&f, 2, n) {
            Some(tail) => {
                if tail.len() <= 7 {
                    let mut g: Vec<u16> = Vec::new();
                    push_zeros(&mut g, 8 - tail.len());
                    append_groups(&mut g, &tail);
                    return Some(ip_from_group_vec(&g));
                }
            },
            None => {},
        }
    }
    if 3 <= n && n <= 9 && f[n - 1].len() == 0 && f[n - 2].len() == 0 {
        match hextets_range(&f, 0, n - 2) {
            Some(head) => {
                let mut g: Vec<u16> = head;
                push_zeros(&mut g, 10 - n);
                return Some(ip_from_group_vec(&g));
            },
            None => {},
        }
    }
    if 0 < e && n - e > 1 {
        match hextets_range(&f, 0, e) {
            Some(head) => {
                match seg_range(&f, e + 1, n) {
                    Some(tail) => {
                        if e + tail.len() <= 7 {
                            let mut g: Vec<u16> = head;
                            push_zeros(&mut g, 8 - e - tail.len());
                            append_groups(&mut g, &tail);
                            return Some(ip_from_group_vec(&g));
                        }
                    },
                    None => {},
                }
            },
            None => {},
        }
    }
    None
}

/// The index of the first occurrence of `c`, or `s.len()` if there is
/// none.
pub open spec fn first_index(s: Seq<char>, c: char) -> int
    decreases s.len(),
{
    if s.len() == 0 {
        0
    } else if s[0] == c {
        0
    } else {
        1 + first_index(s.drop_first(), c)
    }
}

proof fn lemma_first_index_at(s: Seq<char>, c: char, i: int)
    requires
        0 <= i <= s.len(),
        forall|j: int| 0 <= j < i ==> s[j] != c,
        i < s.len() ==> s[i] == c,
    ensures
        first_index(s, c) == i,
    decreases i,
{
    if i > 0 {
        lemma_first_index_at(s.drop_first(), c, i - 1);
    }
}

fn find_first(s: &Vec<char>, c: char) -> (r: usize)
    ensures
        r == first_index(s@, c),
        r <= s@.len(),
        forall|j: int| 0 <= j < r ==> s@[j] != c,
        r < s@.len() ==> s@[r as int] == c,
{
    let mut i: usize = 0;
    while i < s.len()
        invariant
            0 <= i <= s@.len(),
            forall|j: int| 0 <= j < i ==> s@[j] != c,
        decreases s@.len() - i,
    {
        if s[i] == c {
            proof {
                lemma_first_index_at(s@, c, i as int);
            }
            return i;
        }
        i = i + 1;
    }
    proof {
        lemma_first_index_at(s@, c, s@.len() as int);
    }
    s.len()
}

/// A dotted-decimal address before the first `:`, a port after it.
pub open spec fn spec_parse_v4_socket(s: Seq<char>) -> Option<(IpAddress, u16)> {
    let j = first_index(s, ':');
    if j < s.len() && spec_parse_ipv4(s.take(j)).is_some() && valid_port(s.skip(j + 1)) {
        Some((spec_parse_ipv4(s.take(j)).unwrap(), dec_value(s.skip(j + 1)) as u16))
    } else {
        None
    }
}

/// A hextet-form address in brackets, then `:` and a port.
pub open spec fn spec_parse_v6_socket(s: Seq<char>) -> Option<(IpAddress, u16)> {
    let j = first_index(s, ']');
    if s.len() >= 1 && s[0] == '[' && j + 1 < s.len() && s[j + 1] == ':' && spec_parse_ipv6(
        s.subrange(1, j),
    ).is_some() && valid_port(s.skip(j + 2)) {
        Some((spec_parse_ipv6(s.subrange(1, j)).unwrap(), dec_value(s.skip(j + 2)) as u16))
    } else {
        None
    }
}

/// What one input string denotes, tried in this order: a bare
/// dotted-decimal address, a bare hextet-form address, either form with a
/// port suffix; anything else is malformed.
pub open spec fn spec_parse_pattern(s: Seq<char>) -> Option<AddressPattern> {
    if spec_parse_ipv4(s).is_some() {
        Some(AddressPattern::HostOnly(spec_parse_ipv4(s).unwrap()))
    } else if spec_parse_ipv6(s).is_some() {
        Some(AddressPattern::HostOnly(spec_parse_ipv6(s).unwrap()))
    } else if spec_parse_v4_socket(s).is_some() {
        let (a, p) = spec_parse_v4_socket(s).unwrap();
        Some(AddressPattern::HostAndPort(a, p))
    } else if spec_parse_v6_socket(s).is_some() {
        let (a, p) = spec_parse_v6_socket(s).unwrap();
        Some(AddressPattern::HostAndPort(a, p))
    } else {
        None
    }
}

fn subrange_vec(s: &Vec<char>, lo: usize, hi: usize) -> (r: Vec<char>)
    requires
        lo <= hi <= s@.len(),
    ensures
        r@ == s@.subrange(lo as int, hi as int),
{
    let mut out: Vec<char> = Vec::new();
    let mut i: usize = lo;
    while i < hi
        invariant
            lo <= i <= hi <= s@.len(),
            out@ =~= s@.subrange(lo as int, i as int),
        decreases hi - i,
    {
        out.push(s[i]);
        i = i + 1;
        proof {
            assert(out@ =~= s@.subrange(lo as int, i as int));
        }
    }
    out
}

fn parse_port_field(s: &Vec<char>, from: usize) -> (r: Option<u16>)
    requires
        from <= s@.len(),
    ensures
        r.is_some() == valid_port(s@.skip(from as int)),
        r.is_some() ==> r.unwrap() == dec_value(s@.skip(from as int)),
{
    let field = subrange_vec(s, from, s.len());
    proof {
        assert(field@ =~= s@.skip(from as int));
    }
    match dec_field_value(&field, 65535) {
        Some(v) => Some(v as u16),
        None => None,
    }
}

/// Parse one input string, given as its characters.
pub fn parse_pattern(s: &Vec<char>) -> (r: Option<AddressPattern>)
    ensures
        r == spec_parse_pattern(s@),
{
    match parse_ipv4(s) {
        Some(a) => {
            return Some(AddressPattern::HostOnly(a));
        },
        None => {},
    }
    match parse_ipv6(s) {
        Some(a) => {
            return Some(AddressPattern::HostOnly(a));
        },
        None => {},
    }
    let j = find_first(s, ':');
    if j < s.len() {
        let head = subrange_vec(s, 0, j);
        proof {
            assert(head@ =~= s@.take(j as int));
        }
        match parse_ipv4(&head) {
            Some(a) => {
                match parse_port_field(s, j + 1) {
                    Some(p) => {
                        return Some(AddressPattern::HostAndPort(a, p));
                    },
                    None => {},
                }
            },
            None => {},
        }
    }
    if s.len() >= 1 {
        let c0 = s[0];
        if c0 == '[' {
            let k = find_first(s, ']');
            if k < s.len() && k + 1 < s.len() {
                let c1 = s[k + 1];
                if c1 == ':' {
                    let inner = subrange_vec(s, 1, k);
                    match parse_ipv6(&inner) {
                        Some(a) => {
                            match parse_port_field(s, k + 2) {
                                Some(p) => {
                                    return Some(AddressPattern::HostAndPort(a, p));
                                },
                                None => {},
                            }
                        },
                        None => {},
                    }
                }
            }
        }
    }
    None
}

/// The characters of a string, in order.
pub fn chars_of(s: &str) -> (r: Vec<char>)
    ensures
        r@ == s@,
{
    let n = s.unicode_len();
    let mut out: Vec<char> = Vec::new();
    let mut i: usize = 0;
    while i < n
        invariant
            n == s@.len(),
            0 <= i <= n,
            out@ =~= s@.take(i as int),
        decreases n - i,
    {
        out.push(s.get_char(i));
        i = i + 1;
        proof {
            assert(out@ =~= s@.take(i as int));
        }
    }
    proof {
        assert(s@.take(n as int) =~= s@);
    }
    out
}

/// Parse one input string.
pub fn parse_pattern_str(s: &str) -> (r: Option<AddressPattern>)
    ensures
        r == spec_parse_pattern(s@),
{
    let cs = chars_of(s);
    parse_pattern(&cs)
}

} // verus!

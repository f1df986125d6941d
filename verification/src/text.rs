//! Socket addresses as text. One of the IPv4 form is four octets in decimal
//! with dots between them, a colon, and the port in decimal, as in
//! `143.25.122.51:8333`. One of the IPv6 form has the address in square
//! brackets, as in `[2001:db8::1]:8333`.

use crate::net::{
    is_mapped, lemma_ip_of_octets, lemma_low, lemma_octets, lemma_same_quad, low, octet_of,
    SocketAddr,
};
use crate::text6::{
    address_text, body_number, first, law_address_text, lemma_first, parse_body, push_address,
};
use vstd::prelude::*;
use vstd::slice::slice_subrange;

verus! {

/// The byte `.`, which stands between the octets.
pub const DOT: u8 = 46;

/// The byte `:`, which stands before the port.
pub const COLON: u8 = 58;

/// The byte `[`, which stands before an address of the IPv6 form.
pub const OPEN: u8 = 91;

/// The byte `]`, which stands after an address of the IPv6 form.
pub const CLOSE: u8 = 93;

/// The byte `%`, which stands before the scope of an address.
pub const PERCENT: u8 = 37;

/// The byte `0`, the first of the ten digits.
pub const ZERO: u8 = 48;

/// Whether the byte is a decimal digit.
pub open spec fn is_digit(b: u8) -> bool {
    ZERO <= b <= ZERO + 9
}

/// Whether every byte is a decimal digit.
pub open spec fn all_digits(s: Seq<u8>) -> bool {
    forall|i: int| 0 <= i < s.len() ==> is_digit(#[trigger] s[i])
}

/// The number that the digits spell in decimal; zeros in front count for
/// nothing.
pub open spec fn number(digits: Seq<u8>) -> nat
    decreases digits.len(),
{
    if digits.len() == 0 {
        0
    } else {
        number(digits.drop_last()) * 10 + (digits.last() - ZERO) as nat
    }
}

/// The number in decimal, with no zero in front.
pub open spec fn decimal(n: nat) -> Seq<u8>
    decreases n,
{
    if n < 10 {
        seq![(ZERO + n) as u8]
    } else {
        decimal(n / 10).push((ZERO + n % 10) as u8)
    }
}

/// Whether `s` is the text of the octet `v`: one to three digits that spell
/// `v`, with no zero in front of another digit, and `v` is 255 at most.
pub open spec fn octet_text(s: Seq<u8>, v: int) -> bool {
    &&& 1 <= s.len() <= 3
    &&& all_digits(s)
    &&& s.len() > 1 ==> s[0] != ZERO
    &&& number(s) == v
    &&& v <= 255
}

/// Whether `s` is a text of the port `v`: one or more digits that spell
/// `v`. Zeros in front are taken.
pub open spec fn port_text(s: Seq<u8>, v: int) -> bool {
    &&& 1 <= s.len()
    &&& all_digits(s)
    &&& number(s) == v
    &&& v <= 65535
}

/// Whether `s` is a text of the scope `v`: one or more digits that spell
/// `v`. Zeros in front are taken.
pub open spec fn scope_text(s: Seq<u8>, v: int) -> bool {
    &&& 1 <= s.len()
    &&& all_digits(s)
    &&& number(s) == v
    &&& v <= 0xffff_ffff
}

/// Whether `line` spells the address `addr`, with the dots at the places
/// `i1`, `i2` and `i3` and the colon at the place `i4`.
pub open spec fn spells_at(line: Seq<u8>, addr: SocketAddr, i1: int, i2: int, i3: int, i4: int) -> bool {
    &&& 0 <= i1 < i2 < i3 < i4 < line.len()
    &&& line[i1] == DOT
    &&& line[i2] == DOT
    &&& line[i3] == DOT
    &&& line[i4] == COLON
    &&& octet_text(line.subrange(0, i1), octet_of(low(addr.ip), 0))
    &&& octet_text(line.subrange(i1 + 1, i2), octet_of(low(addr.ip), 1))
    &&& octet_text(line.subrange(i2 + 1, i3), octet_of(low(addr.ip), 2))
    &&& octet_text(line.subrange(i3 + 1, i4), octet_of(low(addr.ip), 3))
    &&& port_text(line.subrange(i4 + 1, line.len() as int), addr.port as int)
}

/// Whether `line` spells the address `addr` of the IPv4 form: the four
/// octets, each followed by a dot but the last, which is followed by a colon
/// and the port.
pub open spec fn spells_v4(line: Seq<u8>, addr: SocketAddr) -> bool {
    &&& !addr.v6
    &&& addr.scope == 0
    &&& is_mapped(addr.ip)
    &&& exists|i1: int, i2: int, i3: int, i4: int| spells_at(line, addr, i1, i2, i3, i4)
}

/// Whether `line` spells the address `addr` of the IPv6 form: a bracket,
/// the text of the address, a closing bracket, a colon and the port. Before
/// the closing bracket a percent sign and the scope may stand; without them
/// the scope is zero.
pub open spec fn spells_v6(line: Seq<u8>, addr: SocketAddr) -> bool {
    let close = first(line, CLOSE);
    let inner = line.subrange(1, close);
    let cut = first(inner, PERCENT);
    &&& addr.v6
    &&& line.len() > 0
    &&& line[0] == OPEN
    &&& 0 < close
    &&& close + 1 < line.len()
    &&& line[close + 1] == COLON
    &&& body_number(inner.take(cut)) == Some(addr.ip as int)
    &&& if cut < inner.len() {
        scope_text(inner.skip(cut + 1), addr.scope as int)
    } else {
        addr.scope == 0
    }
    &&& port_text(line.subrange(close + 2, line.len() as int), addr.port as int)
}

/// Whether `line` spells the address `addr`.
pub open spec fn spells(line: Seq<u8>, addr: SocketAddr) -> bool {
    if addr.v6 {
        spells_v6(line, addr)
    } else {
        spells_v4(line, addr)
    }
}

/// The text of the scope of an address: nothing where the scope is zero,
/// else a percent sign and the scope in decimal.
pub open spec fn scope_part(scope: u32) -> Seq<u8> {
    if scope == 0 {
        Seq::empty()
    } else {
        seq![PERCENT] + decimal(scope as nat)
    }
}

/// The text of the address. Of the IPv4 form: the octets and the port in
/// decimal with no zeros in front. Of the IPv6 form: in brackets the text
/// of the address and the scope, if it is not zero, then the port.
#[verifier::opaque]
pub open spec fn text_of(addr: SocketAddr) -> Seq<u8> {
    if addr.v6 {
        seq![OPEN] + address_text(addr.ip as int) + scope_part(addr.scope) + seq![CLOSE, COLON]
            + decimal(addr.port as nat)
    } else {
        decimal(octet_of(low(addr.ip), 0) as nat) + seq![DOT] + decimal(
            octet_of(low(addr.ip), 1) as nat,
        ) + seq![DOT] + decimal(octet_of(low(addr.ip), 2) as nat) + seq![DOT] + decimal(
            octet_of(low(addr.ip), 3) as nat,
        ) + seq![COLON] + decimal(addr.port as nat)
    }
}

/// The end of the digits that start at `start`: the place of the first byte
/// at or after `start` that is no digit, or the length of the line.
pub open spec fn run_end(line: Seq<u8>, start: int) -> int
    decreases line.len() - start,
{
    if 0 <= start < line.len() && is_digit(line[start]) {
        run_end(line, start + 1)
    } else {
        start
    }
}

/// Digits that run from `start` to `end` and no further end at `run_end`.
pub proof fn lemma_run_end(line: Seq<u8>, start: int, end: int)
    requires
        0 <= start <= end <= line.len(),
        all_digits(line.subrange(start, end)),
        end == line.len() || !is_digit(line[end]),
    ensures
        run_end(line, start) == end,
    decreases end - start,
{
    if start < end {
        assert(line.subrange(start, end)[0] == line[start]);
        assert forall|i: int| 0 <= i < end - (start + 1) implies is_digit(
            #[trigger] line.subrange(start + 1, end)[i],
        ) by {
            assert(line.subrange(start + 1, end)[i] == line.subrange(start, end)[i + 1]);
        }
        lemma_run_end(line, start + 1, end);
    }
}

/// One more digit at the end: ten times the number so far, and the digit.
pub proof fn lemma_number_step(line: Seq<u8>, start: int, end: int)
    requires
        0 <= start <= end < line.len(),
    ensures
        number(line.subrange(start, end + 1)) == number(line.subrange(start, end)) * 10 + (line[end]
            - ZERO) as nat,
{
    assert(line.subrange(start, end + 1).drop_last() =~= line.subrange(start, end));
}

/// The digits of a text spell no less than the digits of its beginning.
pub proof fn lemma_number_grows(s: Seq<u8>, k: int)
    requires
        all_digits(s),
        0 <= k <= s.len(),
    ensures
        number(s.subrange(0, k)) <= number(s),
    decreases s.len(),
{
    if k < s.len() {
        let init = s.drop_last();
        assert(init.subrange(0, k) =~= s.subrange(0, k));
        assert(is_digit(s[s.len() - 1]));
        assert forall|i: int| 0 <= i < init.len() implies is_digit(#[trigger] init[i]) by {
            assert(init[i] == s[i]);
        }
        lemma_number_grows(init, k);
    } else {
        assert(s.subrange(0, k) =~= s);
    }
}

/// The decimal text of a number is made of digits, has no zero in front of
/// another digit, and spells the number.
pub proof fn lemma_decimal(n: nat)
    ensures
        decimal(n).len() >= 1,
        all_digits(decimal(n)),
        decimal(n).len() > 1 ==> decimal(n)[0] != ZERO,
        number(decimal(n)) == n,
        n < 10 ==> decimal(n).len() == 1,
        10 <= n < 100 ==> decimal(n).len() == 2,
        100 <= n < 1000 ==> decimal(n).len() == 3,
        n > 0 ==> decimal(n)[0] != ZERO,
    decreases n,
{
    if n < 10 {
        let s = decimal(n);
        assert(s.drop_last() =~= Seq::<u8>::empty());
        assert(number(s.drop_last()) == 0);
        assert(s.last() == (ZERO + n) as u8);
    } else {
        lemma_decimal(n / 10);
        let s = decimal(n);
        let init = decimal(n / 10);
        assert(s.drop_last() =~= init);
        assert(s[0] == init[0]);
        assert forall|i: int| 0 <= i < s.len() implies is_digit(#[trigger] s[i]) by {
            if i < init.len() {
                assert(s[i] == init[i]);
            }
        }
    }
}

/// Find the end of the digits that start at `start`.
fn digits_end(line: &[u8], start: usize) -> (end: usize)
    requires
        start <= line.len(),
    ensures
        start <= end <= line.len(),
        end == run_end(line@, start as int),
        all_digits(line@.subrange(start as int, end as int)),
        end == line.len() || !is_digit(line@[end as int]),
{
    let mut end = start;
    while end < line.len() && line[end] >= ZERO && line[end] <= ZERO + 9
        invariant
            start <= end <= line.len(),
            run_end(line@, start as int) == run_end(line@, end as int),
            all_digits(line@.subrange(start as int, end as int)),
        decreases line.len() - end,
    {
        proof {
            let next = line@.subrange(start as int, end + 1);
            assert forall|i: int| 0 <= i < next.len() implies is_digit(#[trigger] next[i]) by {
                if i < end - start {
                    assert(next[i] == line@.subrange(start as int, end as int)[i]);
                }
            }
        }
        end += 1;
    }
    end
}

/// The number that the digits from `start` to `end` spell, as far as it is
/// `limit` at most.
fn read_number(line: &[u8], start: usize, end: usize, limit: u64) -> (n: Option<u64>)
    requires
        start <= end <= line.len(),
        all_digits(line@.subrange(start as int, end as int)),
        limit <= 0xffff_ffff,
    ensures
        match n {
            Some(n) => n == number(line@.subrange(start as int, end as int)) && n <= limit,
            None => number(line@.subrange(start as int, end as int)) > limit,
        },
{
    let ghost digits = line@.subrange(start as int, end as int);
    let mut n: u64 = 0;
    let mut at = start;
    assert(line@.subrange(start as int, start as int) =~= Seq::<u8>::empty());
    while at < end
        invariant
            start <= at <= end <= line.len(),
            digits == line@.subrange(start as int, end as int),
            all_digits(digits),
            limit <= 0xffff_ffff,
            n <= limit,
            n == number(line@.subrange(start as int, at as int)),
        decreases end - at,
    {
        proof {
            lemma_number_step(line@, start as int, at as int);
            assert(is_digit(digits[at - start]));
            assert(digits[at - start] == line@[at as int]);
        }
        let digit: u64 = (line[at] - ZERO) as u64;
        let next: u64 = n * 10 + digit;
        if next > limit {
            proof {
                assert(digits.subrange(0, at + 1 - start) =~= line@.subrange(
                    start as int,
                    at + 1,
                ));
                lemma_number_grows(digits, at + 1 - start);
            }
            return None;
        }
        n = next;
        at += 1;
    }
    Some(n)
}

/// Read a scope that stands from `start` to `end`: one or more digits that
/// spell a number of 32 bits.
fn read_scope(line: &[u8], start: usize, end: usize) -> (scope: Option<u32>)
    requires
        start <= end <= line.len(),
    ensures
        match scope {
            Some(v) => scope_text(line@.subrange(start as int, end as int), v as int),
            None => forall|v: int| !scope_text(line@.subrange(start as int, end as int), v),
        },
{
    let ghost text = line@.subrange(start as int, end as int);
    let stop = digits_end(line, start);
    if stop < end {
        assert(text[stop - start] == line@[stop as int]);
        return None;
    }
    if end == start {
        return None;
    }
    proof {
        assert forall|i: int| 0 <= i < text.len() implies is_digit(#[trigger] text[i]) by {
            assert(text[i] == line@.subrange(start as int, stop as int)[i]);
        }
    }
    match read_number(line, start, end, 0xffff_ffff) {
        Some(v) => Some(v as u32),
        None => None,
    }
}

/// Read an octet that starts at `start`: the digits from there on, which
/// must be one to three, spell 255 at most, and have no zero in front of
/// another digit.
fn read_octet(line: &[u8], start: usize) -> (octet: Option<(u8, usize)>)
    requires
        start <= line.len(),
    ensures
        match octet {
            Some((v, end)) => {
                &&& end == run_end(line@, start as int)
                &&& start < end <= line.len()
                &&& octet_text(line@.subrange(start as int, end as int), v as int)
            },
            None => forall|v: int|
                !octet_text(
                    line@.subrange(start as int, run_end(line@, start as int)),
                    v,
                ),
        },
{
    let end = digits_end(line, start);
    let ghost digits = line@.subrange(start as int, end as int);
    if end == start || end - start > 3 {
        return None;
    }
    if end - start > 1 && line[start] == ZERO {
        assert(digits[0] == line@[start as int]);
        return None;
    }
    match read_number(line, start, end, 255) {
        Some(v) => Some((v as u8, end)),
        None => None,
    }
}

/// Read a port that starts at `start` and goes to the end of the line: one
/// or more digits that spell 65535 at most.
fn read_port(line: &[u8], start: usize) -> (port: Option<u16>)
    requires
        start <= line.len(),
    ensures
        match port {
            Some(v) => port_text(line@.subrange(start as int, line.len() as int), v as int),
            None => forall|v: int| !port_text(line@.subrange(start as int, line.len() as int), v),
        },
{
    let end = digits_end(line, start);
    let ghost rest = line@.subrange(start as int, line.len() as int);
    if end < line.len() {
        assert(rest[end - start] == line@[end as int]);
        return None;
    }
    if end == start {
        return None;
    }
    match read_number(line, start, end, 0xffff) {
        Some(v) => Some(v as u16),
        None => None,
    }
}

/// Where a line spells an address, the dots and the colon stand where the
/// runs of digits end.
pub proof fn lemma_places(line: Seq<u8>, addr: SocketAddr, i1: int, i2: int, i3: int, i4: int)
    requires
        spells_at(line, addr, i1, i2, i3, i4),
    ensures
        i1 == run_end(line, 0),
        i2 == run_end(line, i1 + 1),
        i3 == run_end(line, i2 + 1),
        i4 == run_end(line, i3 + 1),
        line.len() == run_end(line, i4 + 1),
{
    lemma_run_end(line, 0, i1);
    lemma_run_end(line, i1 + 1, i2);
    lemma_run_end(line, i2 + 1, i3);
    lemma_run_end(line, i3 + 1, i4);
    lemma_run_end(line, i4 + 1, line.len() as int);
}

/// An address of the IPv4 form is the one that its four octets and its
/// port make.
pub proof fn lemma_same_octets(a: SocketAddr, b: SocketAddr)
    requires
        !a.v6 && is_mapped(a.ip) && a.scope == 0,
        !b.v6 && is_mapped(b.ip) && b.scope == 0,
        forall|i: int| 0 <= i < 4 ==> octet_of(low(a.ip), i) == octet_of(low(b.ip), i),
        a.port == b.port,
    ensures
        a == b,
{
    assert(octet_of(low(a.ip), 0) == octet_of(low(b.ip), 0));
    assert(octet_of(low(a.ip), 1) == octet_of(low(b.ip), 1));
    assert(octet_of(low(a.ip), 2) == octet_of(low(b.ip), 2));
    assert(octet_of(low(a.ip), 3) == octet_of(low(b.ip), 3));
    lemma_same_quad(low(a.ip), low(b.ip));
    lemma_low(a.ip);
    lemma_low(b.ip);
}

/// A line spells one address at most.
pub proof fn law_one_address(line: Seq<u8>, a: SocketAddr, b: SocketAddr)
    requires
        spells(line, a),
        spells(line, b),
    ensures
        a == b,
{
    if !a.v6 {
        let (i1, i2, i3, i4) = choose|i1: int, i2: int, i3: int, i4: int|
            spells_at(line, a, i1, i2, i3, i4);
        lemma_places(line, a, i1, i2, i3, i4);
        assert(is_digit(line.subrange(0, i1)[0]));
        assert(line[0] != OPEN);
        let (j1, j2, j3, j4) = choose|j1: int, j2: int, j3: int, j4: int|
            spells_at(line, b, j1, j2, j3, j4);
        lemma_places(line, b, j1, j2, j3, j4);
        lemma_same_octets(a, b);
    } else if !b.v6 {
        let (j1, j2, j3, j4) = choose|j1: int, j2: int, j3: int, j4: int|
            spells_at(line, b, j1, j2, j3, j4);
        assert(is_digit(line.subrange(0, j1)[0]));
    }
}

/// The text of an address spells the address. No byte of it ends a line,
/// and its last byte is a digit.
pub proof fn law_text_spells(addr: SocketAddr)
    requires
        addr.wf(),
    ensures
        spells(text_of(addr), addr),
        text_of(addr).len() >= 1,
        forall|i: int| 0 <= i < text_of(addr).len() ==> (#[trigger] text_of(addr)[i]) != 10,
        is_digit(text_of(addr).last()),
{
    reveal(text_of);
    let p = decimal(addr.port as nat);
    lemma_decimal(addr.port as nat);
    let line = text_of(addr);
    if addr.v6 {
        let body = address_text(addr.ip as int);
        let zone = scope_part(addr.scope);
        law_address_text(addr.ip as int);
        lemma_decimal(addr.scope as nat);
        let cut = body.len() as int;
        let close = 1 + cut + zone.len();
        let inner = body + zone;
        assert forall|i: int| 0 <= i < zone.len() implies (#[trigger] zone[i]) != CLOSE && zone[i]
            != 10 && (i > 0 ==> is_digit(zone[i])) by {
            if i > 0 {
                assert(zone[i] == decimal(addr.scope as nat)[i - 1]);
            }
        }
        assert forall|i: int| 0 <= i < close implies line[i] != CLOSE by {
            if 0 < i <= cut {
                assert(line[i] == body[i - 1]);
            } else if i > cut {
                assert(line[i] == zone[i - cut - 1]);
            }
        }
        assert(line[close] == CLOSE);
        lemma_first(line, CLOSE, close);
        assert(line.subrange(1, close) =~= inner);
        assert forall|i: int| 0 <= i < cut implies inner[i] != PERCENT by {
            assert(inner[i] == body[i]);
        }
        if addr.scope != 0 {
            assert(inner[cut] == PERCENT);
            assert(inner.skip(cut + 1) =~= decimal(addr.scope as nat));
        }
        lemma_first(inner, PERCENT, cut);
        assert(inner.take(cut) =~= body);
        assert(line.subrange(close + 2, line.len() as int) =~= p);
        assert forall|i: int| 0 <= i < line.len() implies (#[trigger] line[i]) != 10 by {
            if 0 < i <= cut {
                assert(line[i] == body[i - 1]);
            } else if cut < i < close {
                assert(line[i] == zone[i - cut - 1]);
            } else if i > close + 1 {
                assert(line[i] == p[i - close - 2]);
            }
        }
        assert(line.last() == p.last());
    } else {
        let a = decimal(octet_of(low(addr.ip), 0) as nat);
        let b = decimal(octet_of(low(addr.ip), 1) as nat);
        let c = decimal(octet_of(low(addr.ip), 2) as nat);
        let d = decimal(octet_of(low(addr.ip), 3) as nat);
        lemma_ip_of_octets(low(addr.ip));
        lemma_decimal(octet_of(low(addr.ip), 0) as nat);
        lemma_decimal(octet_of(low(addr.ip), 1) as nat);
        lemma_decimal(octet_of(low(addr.ip), 2) as nat);
        lemma_decimal(octet_of(low(addr.ip), 3) as nat);
        let i1 = a.len() as int;
        let i2 = i1 + 1 + b.len();
        let i3 = i2 + 1 + c.len();
        let i4 = i3 + 1 + d.len();
        assert(line.subrange(0, i1) =~= a);
        assert(line.subrange(i1 + 1, i2) =~= b);
        assert(line.subrange(i2 + 1, i3) =~= c);
        assert(line.subrange(i3 + 1, i4) =~= d);
        assert(line.subrange(i4 + 1, line.len() as int) =~= p);
        assert(line[i1] == DOT && line[i2] == DOT && line[i3] == DOT && line[i4] == COLON);
        assert(spells_at(line, addr, i1, i2, i3, i4));
        assert forall|i: int| 0 <= i < line.len() implies (#[trigger] line[i]) != 10 by {
            if i < i1 {
                assert(line[i] == a[i]);
            } else if i1 < i < i2 {
                assert(line[i] == b[i - i1 - 1]);
            } else if i2 < i < i3 {
                assert(line[i] == c[i - i2 - 1]);
            } else if i3 < i < i4 {
                assert(line[i] == d[i - i3 - 1]);
            } else if i4 < i {
                assert(line[i] == p[i - i4 - 1]);
            }
        }
        assert(line.last() == p.last());
    }
}

/// Whether `s` spells the IPv4 address with the number `v`, with the
/// dots at the places `i1`, `i2` and `i3`.
pub open spec fn quad_at(s: Seq<u8>, v: u32, i1: int, i2: int, i3: int) -> bool {
    &&& 0 <= i1 < i2 < i3 < s.len()
    &&& s[i1] == DOT
    &&& s[i2] == DOT
    &&& s[i3] == DOT
    &&& octet_text(s.subrange(0, i1), octet_of(v, 0))
    &&& octet_text(s.subrange(i1 + 1, i2), octet_of(v, 1))
    &&& octet_text(s.subrange(i2 + 1, i3), octet_of(v, 2))
    &&& octet_text(s.subrange(i3 + 1, s.len() as int), octet_of(v, 3))
}

/// Whether `s` spells the IPv4 address with the number `v`: four octets
/// with dots between them.
pub open spec fn quad_text(s: Seq<u8>, v: u32) -> bool {
    exists|i1: int, i2: int, i3: int| quad_at(s, v, i1, i2, i3)
}

/// Whether `s` spells an IPv4 address.
pub open spec fn is_quad(s: Seq<u8>) -> bool {
    exists|v: u32| quad_text(s, v)
}

/// The number of the IPv4 address that `s` spells.
pub open spec fn quad_value(s: Seq<u8>) -> u32 {
    choose|v: u32| quad_text(s, v)
}

/// The text of the IPv4 address with the number `v`: the octets in
/// decimal with no zeros in front, and dots between them.
pub open spec fn quad_text_of(v: u32) -> Seq<u8> {
    decimal(octet_of(v, 0) as nat) + seq![DOT] + decimal(octet_of(v, 1) as nat) + seq![DOT]
        + decimal(octet_of(v, 2) as nat) + seq![DOT] + decimal(octet_of(v, 3) as nat)
}

/// The text of an IPv4 address spells the address, and is made of digits
/// and dots.
pub proof fn lemma_quad_text(v: u32)
    ensures
        quad_text(quad_text_of(v), v),
        quad_text_of(v).len() >= 7,
        forall|i: int|
            0 <= i < quad_text_of(v).len() ==> is_digit(#[trigger] quad_text_of(v)[i])
                || quad_text_of(v)[i] == DOT,
{
    let a = decimal(octet_of(v, 0) as nat);
    let b = decimal(octet_of(v, 1) as nat);
    let c = decimal(octet_of(v, 2) as nat);
    let d = decimal(octet_of(v, 3) as nat);
    lemma_ip_of_octets(v);
    lemma_decimal(octet_of(v, 0) as nat);
    lemma_decimal(octet_of(v, 1) as nat);
    lemma_decimal(octet_of(v, 2) as nat);
    lemma_decimal(octet_of(v, 3) as nat);
    let s = quad_text_of(v);
    let i1 = a.len() as int;
    let i2 = i1 + 1 + b.len();
    let i3 = i2 + 1 + c.len();
    assert(s.subrange(0, i1) =~= a);
    assert(s.subrange(i1 + 1, i2) =~= b);
    assert(s.subrange(i2 + 1, i3) =~= c);
    assert(s.subrange(i3 + 1, s.len() as int) =~= d);
    assert(s[i1] == DOT && s[i2] == DOT && s[i3] == DOT);
    assert(quad_at(s, v, i1, i2, i3));
    assert forall|i: int| 0 <= i < s.len() implies is_digit(#[trigger] s[i]) || s[i] == DOT by {
        if i < i1 {
            assert(s[i] == a[i]);
        } else if i1 < i < i2 {
            assert(s[i] == b[i - i1 - 1]);
        } else if i2 < i < i3 {
            assert(s[i] == c[i - i2 - 1]);
        } else if i3 < i {
            assert(s[i] == d[i - i3 - 1]);
        }
    }
}

/// Write the IPv4 address with the number `v` at the end of the text.
pub fn push_quad(text: &mut Vec<u8>, v: u32)
    ensures
        final(text)@ == old(text)@ + quad_text_of(v),
{
    proof {
        lemma_ip_of_octets(v);
    }
    push_decimal(text, v / 0x100_0000);
    text.push(DOT);
    push_decimal(text, v / 0x1_0000 % 0x100);
    text.push(DOT);
    push_decimal(text, v / 0x100 % 0x100);
    text.push(DOT);
    push_decimal(text, v % 0x100);
    proof {
        assert(final(text)@ =~= old(text)@ + quad_text_of(v));
    }
}

/// Where a text spells an IPv4 address, the dots stand where the runs of
/// digits end.
pub proof fn lemma_quad_places(s: Seq<u8>, v: u32, i1: int, i2: int, i3: int)
    requires
        quad_at(s, v, i1, i2, i3),
    ensures
        i1 == run_end(s, 0),
        i2 == run_end(s, i1 + 1),
        i3 == run_end(s, i2 + 1),
        s.len() == run_end(s, i3 + 1),
{
    lemma_run_end(s, 0, i1);
    lemma_run_end(s, i1 + 1, i2);
    lemma_run_end(s, i2 + 1, i3);
    lemma_run_end(s, i3 + 1, s.len() as int);
}

/// A text spells one IPv4 address at most.
pub proof fn lemma_one_quad(s: Seq<u8>, v: u32, w: u32)
    requires
        quad_text(s, v),
        quad_text(s, w),
    ensures
        v == w,
        quad_value(s) == v,
        is_quad(s),
{
    lemma_quad_same(s, v, w);
    lemma_quad_same(s, v, quad_value(s));
}

/// A text spells one IPv4 address at most.
proof fn lemma_quad_same(s: Seq<u8>, v: u32, w: u32)
    requires
        quad_text(s, v),
        quad_text(s, w),
    ensures
        v == w,
{
    let (i1, i2, i3) = choose|i1: int, i2: int, i3: int| quad_at(s, v, i1, i2, i3);
    let (j1, j2, j3) = choose|j1: int, j2: int, j3: int| quad_at(s, w, j1, j2, j3);
    lemma_quad_places(s, v, i1, i2, i3);
    lemma_quad_places(s, w, j1, j2, j3);
    lemma_same_quad(v, w);
}

/// Read an IPv4 address from a text that holds it and nothing else.
pub fn parse_quad(s: &[u8]) -> (quad: Option<u32>)
    ensures
        match quad {
            Some(v) => quad_text(s@, v),
            None => forall|v: u32| !quad_text(s@, v),
        },
{
    let ghost e1 = run_end(s@, 0);
    let ghost e2 = run_end(s@, e1 + 1);
    let ghost e3 = run_end(s@, e2 + 1);
    proof {
        assert forall|v: u32, i1: int, i2: int, i3: int| #[trigger]
            quad_at(s@, v, i1, i2, i3) implies i1 == e1 && i2 == e2 && i3 == e3 && s.len()
            == run_end(s@, e3 + 1) by {
            lemma_quad_places(s@, v, i1, i2, i3);
        }
    }
    let (a, end) = match read_octet(s, 0) {
        Some(found) => found,
        None => {
            return None;
        },
    };
    if end >= s.len() || s[end] != DOT {
        return None;
    }
    let (b, end) = match read_octet(s, end + 1) {
        Some(found) => found,
        None => {
            return None;
        },
    };
    if end >= s.len() || s[end] != DOT {
        return None;
    }
    let (c, end) = match read_octet(s, end + 1) {
        Some(found) => found,
        None => {
            return None;
        },
    };
    if end >= s.len() || s[end] != DOT {
        return None;
    }
    let (d, end) = match read_octet(s, end + 1) {
        Some(found) => found,
        None => {
            return None;
        },
    };
    if end != s.len() {
        return None;
    }
    let a: u32 = a as u32;
    let b: u32 = b as u32;
    let c: u32 = c as u32;
    let d: u32 = d as u32;
    let v: u32 = a * 0x100_0000 + b * 0x1_0000 + c * 0x100 + d;
    proof {
        lemma_octets(v, a, b, c, d);
        assert(quad_at(s@, v, e1, e2, e3));
    }
    Some(v)
}

/// Read a socket address from a line of text. The line must hold the
/// address and nothing else.
pub fn parse(line: &[u8]) -> (addr: Option<SocketAddr>)
    ensures
        match addr {
            Some(addr) => spells(line@, addr) && addr.wf(),
            None => forall|addr: SocketAddr| !spells(line@, addr),
        },
{
    if line.len() > 0 && line[0] == OPEN {
        let addr = parse_v6(line);
        proof {
            assert forall|addr: SocketAddr| !spells_v4(line@, addr) by {
                if spells_v4(line@, addr) {
                    let (i1, i2, i3, i4) = choose|i1: int, i2: int, i3: int, i4: int|
                        spells_at(line@, addr, i1, i2, i3, i4);
                    assert(is_digit(line@.subrange(0, i1)[0]));
                }
            }
        }
        addr
    } else {
        parse_v4(line)
    }
}

/// Read a socket address of the IPv6 form from a line that begins with a
/// bracket.
fn parse_v6(line: &[u8]) -> (addr: Option<SocketAddr>)
    requires
        line.len() > 0,
        line@[0] == OPEN,
    ensures
        match addr {
            Some(addr) => spells_v6(line@, addr),
            None => forall|addr: SocketAddr| !spells_v6(line@, addr),
        },
{
    let mut close: usize = 1;
    while close < line.len() && line[close] != CLOSE
        invariant
            1 <= close <= line.len(),
            forall|i: int| 0 <= i < close ==> line@[i] != CLOSE,
        decreases line.len() - close,
    {
        close += 1;
    }
    proof {
        lemma_first(line@, CLOSE, close as int);
    }
    if close >= line.len() || line.len() - close < 2 || line[close + 1] != COLON {
        return None;
    }
    let ghost inner = line@.subrange(1, close as int);
    let mut cut: usize = 1;
    while cut < close && line[cut] != PERCENT
        invariant
            1 <= cut <= close <= line.len(),
            inner == line@.subrange(1, close as int),
            forall|i: int| 0 <= i < cut - 1 ==> inner[i] != PERCENT,
        decreases close - cut,
    {
        proof {
            assert(inner[cut - 1] == line@[cut as int]);
        }
        cut += 1;
    }
    proof {
        if cut < close {
            assert(inner[cut - 1] == line@[cut as int]);
        }
        lemma_first(inner, PERCENT, cut - 1);
        assert(inner.take(cut - 1) =~= line@.subrange(1, cut as int));
        if cut < close {
            assert(inner.skip(cut - 1 + 1) =~= line@.subrange(cut + 1, close as int));
        }
    }
    let ip = match parse_body(slice_subrange(line, 1, cut)) {
        Some(ip) => ip,
        None => {
            return None;
        },
    };
    let scope = if cut < close {
        match read_scope(line, cut + 1, close) {
            Some(scope) => scope,
            None => {
                return None;
            },
        }
    } else {
        0
    };
    let port = match read_port(line, close + 2) {
        Some(port) => port,
        None => {
            return None;
        },
    };
    Some(SocketAddr::scoped(ip, port, scope))
}

/// Read a socket address of the IPv4 form from a line of text.
fn parse_v4(line: &[u8]) -> (addr: Option<SocketAddr>)
    ensures
        match addr {
            Some(addr) => spells_v4(line@, addr) && addr.wf(),
            None => forall|addr: SocketAddr| !spells_v4(line@, addr),
        },
{
    let ghost e1 = run_end(line@, 0);
    let ghost e2 = run_end(line@, e1 + 1);
    let ghost e3 = run_end(line@, e2 + 1);
    let ghost e4 = run_end(line@, e3 + 1);
    proof {
        assert forall|addr: SocketAddr, i1: int, i2: int, i3: int, i4: int| #[trigger]
            spells_at(line@, addr, i1, i2, i3, i4) implies i1 == e1 && i2 == e2 && i3 == e3 && i4
            == e4 by {
            lemma_places(line@, addr, i1, i2, i3, i4);
        }
    }
    let (a, end) = match read_octet(line, 0) {
        Some(found) => found,
        None => {
            return None;
        },
    };
    if end >= line.len() || line[end] != DOT {
        return None;
    }
    let (b, end) = match read_octet(line, end + 1) {
        Some(found) => found,
        None => {
            return None;
        },
    };
    if end >= line.len() || line[end] != DOT {
        return None;
    }
    let (c, end) = match read_octet(line, end + 1) {
        Some(found) => found,
        None => {
            return None;
        },
    };
    if end >= line.len() || line[end] != DOT {
        return None;
    }
    let (d, end) = match read_octet(line, end + 1) {
        Some(found) => found,
        None => {
            return None;
        },
    };
    if end >= line.len() || line[end] != COLON {
        return None;
    }
    let port = match read_port(line, end + 1) {
        Some(found) => found,
        None => {
            return None;
        },
    };
    let addr = SocketAddr::from_octets(a, b, c, d, port);
    proof {
        assert(spells_at(line@, addr, e1, e2, e3, e4));
    }
    Some(addr)
}

/// Write the number in decimal at the end of the text.
fn push_decimal(text: &mut Vec<u8>, n: u32)
    ensures
        final(text)@ == old(text)@ + decimal(n as nat),
    decreases n,
{
    if n >= 10 {
        push_decimal(text, n / 10);
    }
    text.push(ZERO + (n % 10) as u8);
    proof {
        assert(final(text)@ =~= old(text)@ + decimal(n as nat));
    }
}

/// Write the address at the end of the text.
pub fn render(text: &mut Vec<u8>, addr: &SocketAddr)
    ensures
        final(text)@ == old(text)@ + text_of(*addr),
{
    if addr.v6 {
        text.push(OPEN);
        push_address(text, addr.ip);
        if addr.scope != 0 {
            text.push(PERCENT);
            push_decimal(text, addr.scope);
        }
        text.push(CLOSE);
        text.push(COLON);
        push_decimal(text, addr.port as u32);
    } else {
        let octets = addr.octets();
        push_decimal(text, octets[0] as u32);
        text.push(DOT);
        push_decimal(text, octets[1] as u32);
        text.push(DOT);
        push_decimal(text, octets[2] as u32);
        text.push(DOT);
        push_decimal(text, octets[3] as u32);
        text.push(COLON);
        push_decimal(text, addr.port as u32);
    }
    proof {
        reveal(text_of);
        assert(final(text)@ =~= old(text)@ + text_of(*addr));
    }
}

} // verus!

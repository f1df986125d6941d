//! IPv6 addresses as text: eight groups of up to four hexadecimal digits
//! with colons between them, as in `2001:db8:85a3:8d3:1319:8a2e:370:7348`.
//! One run of groups that are zero may be left out; two colons stand in its
//! place, as in `2001:db8::1`. The last two groups may be written as an IPv4
//! address, as in `::ffff:1.2.3.4`.

use crate::net::{lemma_low, MAPPED};
use crate::text::{
    is_digit, is_quad, lemma_one_quad, lemma_quad_text, parse_quad, push_quad, quad_at, quad_text,
    quad_text_of, quad_value, COLON, DOT, ZERO,
};
use vstd::prelude::*;
use vstd::slice::slice_subrange;

verus! {

/// Whether the byte is a hexadecimal digit, of either case.
pub open spec fn is_hex(b: u8) -> bool {
    is_digit(b) || 97 <= b <= 102 || 65 <= b <= 70
}

/// What the hexadecimal digit counts.
pub open spec fn hex_value(b: u8) -> int {
    if is_digit(b) {
        b - ZERO
    } else if 97 <= b <= 102 {
        b - 87
    } else {
        b - 55
    }
}

/// The number that the hexadecimal digits spell.
pub open spec fn hex_number(digits: Seq<u8>) -> int
    decreases digits.len(),
{
    if digits.len() == 0 {
        0
    } else {
        hex_number(digits.drop_last()) * 16 + hex_value(digits.last())
    }
}

/// Whether `s` is the text of a group: one to four hexadecimal digits.
pub open spec fn group_text(s: Seq<u8>) -> bool {
    &&& 1 <= s.len() <= 4
    &&& forall|i: int| 0 <= i < s.len() ==> is_hex(#[trigger] s[i])
}

/// The place of the first byte `b` in `s`, or the length of `s` where
/// there is none.
pub open spec fn first(s: Seq<u8>, b: u8) -> int
    decreases s.len(),
{
    if s.len() == 0 || s[0] == b {
        0
    } else {
        1 + first(s.drop_first(), b)
    }
}

/// The fields of the text: what stands before, between and after its
/// colons. A text without a colon is one field.
pub open spec fn fields(s: Seq<u8>) -> Seq<Seq<u8>>
    decreases s.len(),
{
    let end = first(s, COLON);
    if 0 <= end < s.len() {
        seq![s.take(end)] + fields(s.skip(end + 1))
    } else {
        seq![s]
    }
}

/// The groups that the fields spell, where each of them is the text of a
/// group.
pub open spec fn groups_of(fs: Seq<Seq<u8>>) -> Option<Seq<int>>
    decreases fs.len(),
{
    if fs.len() == 0 {
        Some(Seq::empty())
    } else if group_text(fs.last()) {
        match groups_of(fs.drop_last()) {
            Some(gs) => Some(gs.push(hex_number(fs.last()))),
            None => None,
        }
    } else {
        None
    }
}

/// The groups that the fields spell, where each of them is the text of a
/// group, but the last may spell an IPv4 address, which makes two groups.
pub open spec fn units_of(fs: Seq<Seq<u8>>) -> Option<Seq<int>> {
    if fs.len() > 0 && is_quad(fs.last()) {
        match groups_of(fs.drop_last()) {
            Some(gs) => Some(
                gs.push(quad_value(fs.last()) as int / 0x1_0000).push(
                    quad_value(fs.last()) as int % 0x1_0000,
                ),
            ),
            None => None,
        }
    } else {
        groups_of(fs)
    }
}

/// The place of the first field that is empty, or the number of fields
/// where none is.
pub open spec fn first_empty(fs: Seq<Seq<u8>>) -> int
    decreases fs.len(),
{
    if fs.len() == 0 || fs[0].len() == 0 {
        0
    } else {
        1 + first_empty(fs.drop_first())
    }
}

/// So many groups that are zero.
pub open spec fn zeros(n: int) -> Seq<int> {
    Seq::new(n as nat, |i: int| 0int)
}

/// The fields that follow the two colons, where the first empty field is
/// at the place `j`: the two colons stand at the beginning, at the end, or
/// between two groups, and nowhere else is a field empty.
pub open spec fn after_gap(fs: Seq<Seq<u8>>, j: int) -> Option<Seq<Seq<u8>>> {
    let n = fs.len() as int;
    if j == 0 {
        if n >= 3 && fs[1].len() == 0 {
            if n == 3 && fs[2].len() == 0 {
                Some(Seq::empty())
            } else {
                Some(fs.skip(2))
            }
        } else {
            None
        }
    } else if j + 2 == n && fs[n - 1].len() == 0 {
        Some(Seq::empty())
    } else if j + 1 < n {
        Some(fs.skip(j + 1))
    } else {
        None
    }
}

/// The eight groups that the text of an address spells: the text has eight
/// groups with colons between them, or fewer and two colons in the place of
/// one or more groups that are zero. An IPv4 address may stand for the last
/// two groups, but not before the two colons.
pub open spec fn body_groups(body: Seq<u8>) -> Option<Seq<int>> {
    let fs = fields(body);
    let j = first_empty(fs);
    if j >= fs.len() {
        match units_of(fs) {
            Some(gs) => if gs.len() == 8 {
                Some(gs)
            } else {
                None
            },
            None => None,
        }
    } else {
        match (groups_of(fs.take(j)), after_gap(fs, j)) {
            (Some(head), Some(rest)) => match units_of(rest) {
                Some(tail) => if head.len() + tail.len() <= 7 {
                    Some(head + zeros(8 - head.len() - tail.len()) + tail)
                } else {
                    None
                },
                None => None,
            },
            _ => None,
        }
    }
}

/// The number that the groups make, the first counting most.
pub open spec fn number_of(gs: Seq<int>) -> int
    decreases gs.len(),
{
    if gs.len() == 0 {
        0
    } else {
        number_of(gs.drop_last()) * 0x1_0000 + gs.last()
    }
}

/// The number of the address that the text spells, if it spells one.
pub open spec fn body_number(body: Seq<u8>) -> Option<int> {
    match body_groups(body) {
        Some(gs) => Some(number_of(gs)),
        None => None,
    }
}

/// The hexadecimal digit that counts `d`, in lower case.
pub open spec fn hex_digit(d: int) -> u8 {
    if d < 10 {
        (ZERO + d) as u8
    } else {
        (87 + d) as u8
    }
}

/// The number in hexadecimal, in lower case and with no zero in front.
pub open spec fn hex(n: int) -> Seq<u8>
    decreases n,
{
    if n < 16 {
        seq![hex_digit(n)]
    } else {
        hex(n / 16).push(hex_digit(n % 16))
    }
}

/// The last `n` groups of the address with the number `ip`.
pub open spec fn groups(ip: int, n: nat) -> Seq<int>
    decreases n,
{
    if n == 0 {
        Seq::empty()
    } else {
        groups(ip / 0x1_0000, (n - 1) as nat).push(ip % 0x1_0000)
    }
}

/// The first byte `b` stands where no byte before is `b`.
pub proof fn lemma_first(s: Seq<u8>, b: u8, at: int)
    requires
        0 <= at <= s.len(),
        forall|i: int| 0 <= i < at ==> s[i] != b,
        at == s.len() || s[at] == b,
    ensures
        first(s, b) == at,
    decreases at,
{
    if at > 0 {
        let rest = s.drop_first();
        assert forall|i: int| 0 <= i < at - 1 implies rest[i] != b by {
            assert(rest[i] == s[i + 1]);
        }
        lemma_first(rest, b, at - 1);
    }
}

/// The fields of a text that goes on after a colon, where no colon stands
/// before that one: the beginning, and the fields of the rest.
pub proof fn lemma_fields_front(s: Seq<u8>, at: int)
    requires
        0 <= at < s.len(),
        forall|i: int| 0 <= i < at ==> s[i] != COLON,
        s[at] == COLON,
    ensures
        fields(s) == seq![s.take(at)] + fields(s.skip(at + 1)),
{
    lemma_first(s, COLON, at);
}

/// A text without a colon is one field.
pub proof fn lemma_fields_one(s: Seq<u8>)
    requires
        forall|i: int| 0 <= i < s.len() ==> s[i] != COLON,
    ensures
        fields(s) == seq![s],
{
    lemma_first(s, COLON, s.len() as int);
}

/// A colon and a text without a colon, put at the end, are one more field.
pub proof fn lemma_fields_push(s: Seq<u8>, h: Seq<u8>)
    requires
        forall|i: int| 0 <= i < h.len() ==> h[i] != COLON,
    ensures
        fields(s + seq![COLON] + h) == fields(s).push(h),
    decreases s.len(),
{
    let whole = s + seq![COLON] + h;
    let end = first(s, COLON);
    lemma_first_bounds(s, COLON);
    if end < s.len() {
        assert forall|i: int| 0 <= i < end implies whole[i] != COLON by {
            assert(whole[i] == s[i]);
        }
        assert(whole[end] == s[end]);
        lemma_fields_front(whole, end);
        assert(whole.take(end) =~= s.take(end));
        assert(whole.skip(end + 1) =~= s.skip(end + 1) + seq![COLON] + h);
        lemma_fields_push(s.skip(end + 1), h);
        assert(fields(s) =~= seq![s.take(end)] + fields(s.skip(end + 1)));
        assert(fields(whole) =~= fields(s).push(h));
    } else {
        assert forall|i: int| 0 <= i < s.len() implies whole[i] != COLON by {
            assert(whole[i] == s[i]);
        }
        assert(whole[s.len() as int] == COLON);
        lemma_fields_front(whole, s.len() as int);
        assert(whole.take(s.len() as int) =~= s);
        assert(whole.skip(s.len() as int + 1) =~= h);
        lemma_fields_one(h);
        assert(fields(s) =~= seq![s]);
        assert(fields(whole) =~= fields(s).push(h));
    }
}

/// The first byte `b` stands within the text or at its end, and no byte
/// before it is `b`.
pub proof fn lemma_first_bounds(s: Seq<u8>, b: u8)
    ensures
        0 <= first(s, b) <= s.len(),
        first(s, b) < s.len() ==> s[first(s, b)] == b,
        forall|i: int| 0 <= i < first(s, b) ==> s[i] != b,
    decreases s.len(),
{
    if s.len() > 0 && s[0] != b {
        let rest = s.drop_first();
        lemma_first_bounds(rest, b);
        assert forall|i: int| 0 <= i < first(s, b) implies s[i] != b by {
            if i > 0 {
                assert(s[i] == rest[i - 1]);
            }
        }
    }
}

/// Where no field is empty, the first empty field is none of them.
pub proof fn lemma_none_empty(fs: Seq<Seq<u8>>)
    requires
        forall|i: int| 0 <= i < fs.len() ==> (#[trigger] fs[i]).len() > 0,
    ensures
        first_empty(fs) == fs.len(),
    decreases fs.len(),
{
    if fs.len() > 0 {
        let rest = fs.drop_first();
        assert forall|i: int| 0 <= i < rest.len() implies (#[trigger] rest[i]).len() > 0 by {
            assert(rest[i] == fs[i + 1]);
        }
        lemma_none_empty(rest);
    }
}

/// The first empty field stands where no field before is empty.
pub proof fn lemma_first_empty(fs: Seq<Seq<u8>>, at: int)
    requires
        0 <= at <= fs.len(),
        forall|i: int| 0 <= i < at ==> (#[trigger] fs[i]).len() > 0,
        at == fs.len() || fs[at].len() == 0,
    ensures
        first_empty(fs) == at,
    decreases at,
{
    if at > 0 {
        let rest = fs.drop_first();
        assert forall|i: int| 0 <= i < at - 1 implies (#[trigger] rest[i]).len() > 0 by {
            assert(rest[i] == fs[i + 1]);
        }
        lemma_first_empty(rest, at - 1);
    }
}

/// The hexadecimal text of a number below 65536 is the text of a group,
/// has no colon, and spells the number.
pub proof fn lemma_hex(n: int)
    requires
        0 <= n < 0x1_0000,
    ensures
        group_text(hex(n)),
        hex_number(hex(n)) == n,
        forall|i: int| 0 <= i < hex(n).len() ==> (#[trigger] hex(n)[i]) != COLON && hex(n)[i] != 93,
{
    lemma_hex_digits(n);
}

/// The hexadecimal text of a number is made of hexadecimal digits, spells
/// the number, and is as long as the number asks for.
pub proof fn lemma_hex_digits(n: int)
    requires
        0 <= n,
    ensures
        hex(n).len() >= 1,
        forall|i: int| 0 <= i < hex(n).len() ==> is_hex(#[trigger] hex(n)[i]) && hex(n)[i] != COLON && hex(n)[i] != 93,
        hex_number(hex(n)) == n,
        n < 0x10 ==> hex(n).len() == 1,
        0x10 <= n < 0x100 ==> hex(n).len() == 2,
        0x100 <= n < 0x1000 ==> hex(n).len() == 3,
        0x1000 <= n < 0x1_0000 ==> hex(n).len() == 4,
    decreases n,
{
    let s = hex(n);
    if n < 16 {
        assert(s.drop_last() =~= Seq::<u8>::empty());
        assert(hex_number(s.drop_last()) == 0);
        assert(s.last() == hex_digit(n));
    } else {
        lemma_hex_digits(n / 16);
        let init = hex(n / 16);
        assert(s.drop_last() =~= init);
        assert(s.last() == hex_digit(n % 16));
        assert forall|i: int| 0 <= i < s.len() implies is_hex(#[trigger] s[i]) && s[i] != COLON
            && s[i] != 93 by {
            if i < init.len() {
                assert(s[i] == init[i]);
            }
        }
    }
}

/// The text of a group spells no IPv4 address: it has no dot.
pub proof fn lemma_group_is_no_quad(s: Seq<u8>)
    requires
        group_text(s),
    ensures
        !is_quad(s),
{
    if is_quad(s) {
        let v = choose|v: u32| quad_text(s, v);
        let (i1, i2, i3) = choose|i1: int, i2: int, i3: int| quad_at(s, v, i1, i2, i3);
        assert(is_hex(s[i1]));
    }
}

/// So many groups count below this number: 65536 to the power of `n`.
pub open spec fn limit(n: nat) -> int
    decreases n,
{
    if n == 0 {
        1
    } else {
        limit((n - 1) as nat) * 0x1_0000
    }
}

/// The number without its last `n` groups.
pub open spec fn shifted(ip: int, n: nat) -> int
    decreases n,
{
    if n == 0 {
        ip
    } else {
        shifted(ip / 0x1_0000, (n - 1) as nat)
    }
}

/// The last `n` groups of a number make the number without what stands
/// before them.
pub proof fn lemma_number_groups(ip: int, n: nat)
    requires
        0 <= ip,
    ensures
        number_of(groups(ip, n)) == ip - shifted(ip, n) * limit(n),
        groups(ip, n).len() == n,
        forall|i: int| 0 <= i < n ==> 0 <= #[trigger] groups(ip, n)[i] < 0x1_0000,
    decreases n,
{
    if n > 0 {
        let up = ip / 0x1_0000;
        let before = groups(up, (n - 1) as nat);
        lemma_number_groups(up, (n - 1) as nat);
        assert(groups(ip, n).drop_last() =~= before);
        let a = shifted(up, (n - 1) as nat);
        let b = limit((n - 1) as nat);
        assert(a * b * 0x1_0000 == a * (b * 0x1_0000)) by (nonlinear_arith);
        assert((up - a * b) * 0x1_0000 == up * 0x1_0000 - a * b * 0x1_0000) by (nonlinear_arith);
        assert forall|i: int| 0 <= i < n implies 0 <= #[trigger] groups(ip, n)[i] < 0x1_0000 by {
            if i < n - 1 {
                assert(groups(ip, n)[i] == before[i]);
            }
        }
    }
}

/// Nothing stands before the eight groups of a number of 128 bits.
pub proof fn lemma_shifted_out(ip: int)
    requires
        0 <= ip <= u128::MAX,
    ensures
        shifted(ip, 8) == 0,
{
    reveal_with_fuel(shifted, 9);
    let q1 = ip / 0x1_0000;
    let q2 = q1 / 0x1_0000;
    let q3 = q2 / 0x1_0000;
    let q4 = q3 / 0x1_0000;
    let q5 = q4 / 0x1_0000;
    let q6 = q5 / 0x1_0000;
    let q7 = q6 / 0x1_0000;
    assert(q1 < 0x1_0000_0000_0000_0000_0000_0000_0000);
    assert(q2 < 0x1_0000_0000_0000_0000_0000_0000);
    assert(q3 < 0x1_0000_0000_0000_0000_0000);
    assert(q4 < 0x1_0000_0000_0000_0000);
    assert(q5 < 0x1_0000_0000_0000);
    assert(q6 < 0x1_0000_0000);
    assert(q7 < 0x1_0000);
    assert(q7 / 0x1_0000 == 0);
}

/// Whether the bounds cut the text into its fields: for each field, where
/// it begins and where it ends.
pub open spec fn cut(body: Seq<u8>, bounds: Seq<(usize, usize)>) -> bool {
    &&& bounds.len() == fields(body).len()
    &&& forall|k: int|
        0 <= k < bounds.len() ==> {
            &&& (#[trigger] bounds[k]).0 <= bounds[k].1 <= body.len()
            &&& fields(body)[k] == body.subrange(bounds[k].0 as int, bounds[k].1 as int)
        }
}

/// The groups as numbers without bounds.
pub open spec fn ints(gs: Seq<u16>) -> Seq<int> {
    gs.map_values(|g: u16| g as int)
}

/// Where the beginning of the fields spells no groups, the whole does not.
pub proof fn lemma_groups_prefix(fs: Seq<Seq<u8>>, k: int)
    requires
        0 <= k <= fs.len(),
        groups_of(fs.take(k)) is None,
    ensures
        groups_of(fs) is None,
    decreases fs.len() - k,
{
    if k < fs.len() {
        assert(fs.drop_last().take(k) =~= fs.take(k));
        lemma_groups_prefix(fs.drop_last(), k);
    } else {
        assert(fs.take(k) =~= fs);
    }
}

/// Cut the text into its fields.
fn split(body: &[u8]) -> (bounds: Vec<(usize, usize)>)
    ensures
        cut(body@, bounds@),
        bounds.len() >= 1,
{
    let mut bounds: Vec<(usize, usize)> = Vec::new();
    let mut at: usize = 0;
    let mut open = true;
    let ghost mut found: Seq<Seq<u8>> = Seq::empty();
    assert(body@.skip(0) =~= body@);
    while open
        invariant
            at <= body.len(),
            found.len() == bounds.len(),
            forall|k: int|
                0 <= k < bounds.len() ==> {
                    &&& (#[trigger] bounds[k]).0 <= bounds[k].1 <= body.len()
                    &&& found[k] == body@.subrange(bounds[k].0 as int, bounds[k].1 as int)
                },
            open ==> fields(body@) == found + fields(body@.skip(at as int)),
            !open ==> fields(body@) == found && bounds.len() >= 1,
        decreases
                body.len() - at + if open {
                    1int
                } else {
                    0int
                },
    {
        let ghost rest = body@.skip(at as int);
        let mut end = at;
        while end < body.len() && body[end] != COLON
            invariant
                at <= end <= body.len(),
                forall|i: int| at <= i < end ==> body@[i] != COLON,
            decreases body.len() - end,
        {
            end += 1;
        }
        proof {
            assert forall|i: int| 0 <= i < end - at implies rest[i] != COLON by {
                assert(rest[i] == body@[at + i]);
            }
            lemma_first(rest, COLON, end - at);
            if end < body.len() {
                assert(rest.take(end - at) =~= body@.subrange(at as int, end as int));
                assert(rest.skip(end - at + 1) =~= body@.skip(end + 1));
                assert(fields(body@) =~= found.push(body@.subrange(at as int, end as int))
                    + fields(body@.skip(end + 1)));
            } else {
                assert(rest =~= body@.subrange(at as int, end as int));
                assert(fields(body@) =~= found.push(body@.subrange(at as int, end as int)));
            }
            found = found.push(body@.subrange(at as int, end as int));
        }
        bounds.push((at, end));
        if end < body.len() {
            at = end + 1;
        } else {
            open = false;
        }
    }
    bounds
}

/// Read a group: one to four hexadecimal digits from `start` to `end`.
fn read_group(body: &[u8], start: usize, end: usize) -> (group: Option<u16>)
    requires
        start <= end <= body.len(),
    ensures
        match group {
            Some(g) => group_text(body@.subrange(start as int, end as int)) && g == hex_number(
                body@.subrange(start as int, end as int),
            ),
            None => !group_text(body@.subrange(start as int, end as int)),
        },
{
    let ghost text = body@.subrange(start as int, end as int);
    if end == start || end - start > 4 {
        return None;
    }
    let mut g: u16 = 0;
    let mut at = start;
    assert(body@.subrange(start as int, start as int) =~= Seq::<u8>::empty());
    while at < end
        invariant
            start <= at <= end <= body.len(),
            end - start <= 4,
            text == body@.subrange(start as int, end as int),
            g == hex_number(body@.subrange(start as int, at as int)),
            g < limit16((at - start) as nat),
            forall|i: int| 0 <= i < at - start ==> is_hex(#[trigger] text[i]),
        decreases end - at,
    {
        let b = body[at];
        proof {
            assert(text[at - start] == b);
            assert(body@.subrange(start as int, at + 1).drop_last() =~= body@.subrange(
                start as int,
                at as int,
            ));
            reveal_with_fuel(limit16, 5);
        }
        let d: u16 = if b >= ZERO && b <= ZERO + 9 {
            (b - ZERO) as u16
        } else if b >= 97 && b <= 102 {
            (b - 87) as u16
        } else if b >= 65 && b <= 70 {
            (b - 55) as u16
        } else {
            return None;
        };
        g = g * 16 + d;
        at += 1;
    }
    Some(g)
}

/// So many hexadecimal digits count below this number: 16 to the power of
/// `n`.
pub open spec fn limit16(n: nat) -> int
    decreases n,
{
    if n == 0 {
        1
    } else {
        limit16((n - 1) as nat) * 16
    }
}

/// Read the groups that the fields from the place `from` to the place `to`
/// spell.
fn read_groups(body: &[u8], bounds: &Vec<(usize, usize)>, from: usize, to: usize) -> (groups:
    Option<Vec<u16>>)
    requires
        cut(body@, bounds@),
        from <= to <= bounds.len(),
    ensures
        match groups {
            Some(gs) => groups_of(fields(body@).subrange(from as int, to as int)) == Some(
                ints(gs@),
            ),
            None => groups_of(fields(body@).subrange(from as int, to as int)) is None,
        },
{
    let ghost fs = fields(body@);
    let ghost part = fs.subrange(from as int, to as int);
    let mut gs: Vec<u16> = Vec::new();
    let mut k = from;
    assert(fs.subrange(from as int, from as int) =~= Seq::<Seq<u8>>::empty());
    assert(ints(gs@) =~= Seq::<int>::empty());
    while k < to
        invariant
            cut(body@, bounds@),
            fs == fields(body@),
            part == fs.subrange(from as int, to as int),
            from <= k <= to <= bounds.len(),
            groups_of(fs.subrange(from as int, k as int)) == Some(ints(gs@)),
        decreases to - k,
    {
        let (start, end) = bounds[k];
        proof {
            assert(fs.subrange(from as int, k + 1).drop_last() =~= fs.subrange(
                from as int,
                k as int,
            ));
            assert(fs.subrange(from as int, k + 1).last() == fs[k as int]);
            assert(part.take(k + 1 - from) =~= fs.subrange(from as int, k + 1));
        }
        match read_group(body, start, end) {
            Some(g) => {
                proof {
                    assert(ints(gs@.push(g)) =~= ints(gs@).push(g as int));
                }
                gs.push(g);
            },
            None => {
                proof {
                    lemma_groups_prefix(part, k + 1 - from);
                }
                return None;
            },
        }
        k += 1;
    }
    proof {
        assert(fs.subrange(from as int, to as int) =~= part);
    }
    Some(gs)
}

/// Read the groups that the fields from the place `from` to the place `to`
/// spell, the last of which may spell an IPv4 address.
fn read_units(body: &[u8], bounds: &Vec<(usize, usize)>, from: usize, to: usize) -> (groups:
    Option<Vec<u16>>)
    requires
        cut(body@, bounds@),
        from <= to <= bounds.len(),
    ensures
        match groups {
            Some(gs) => units_of(fields(body@).subrange(from as int, to as int)) == Some(
                ints(gs@),
            ),
            None => units_of(fields(body@).subrange(from as int, to as int)) is None,
        },
{
    let ghost part = fields(body@).subrange(from as int, to as int);
    if to > from {
        let (start, end) = bounds[to - 1];
        proof {
            assert(part.last() == fields(body@)[to - 1]);
            assert(part.drop_last() =~= fields(body@).subrange(from as int, to - 1));
        }
        match parse_quad(slice_subrange(body, start, end)) {
            Some(quad) => {
                proof {
                    lemma_one_quad(part.last(), quad, quad);
                }
                match read_groups(body, bounds, from, to - 1) {
                    Some(mut gs) => {
                        let ghost before = gs@;
                        gs.push((quad / 0x1_0000) as u16);
                        gs.push((quad % 0x1_0000) as u16);
                        proof {
                            assert(ints(gs@) =~= ints(before).push(quad as int / 0x1_0000).push(
                                quad as int % 0x1_0000,
                            ));
                        }
                        Some(gs)
                    },
                    None => None,
                }
            },
            None => {
                proof {
                    assert(!is_quad(part.last())) by {
                        if is_quad(part.last()) {
                            let v = choose|v: u32| quad_text(part.last(), v);
                            assert(quad_text(part.last(), v));
                        }
                    }
                }
                read_groups(body, bounds, from, to)
            },
        }
    } else {
        read_groups(body, bounds, from, to)
    }
}

/// The number that eight groups make.
fn join(gs: &Vec<u16>) -> (ip: u128)
    requires
        gs.len() == 8,
    ensures
        ip == number_of(ints(gs@)),
{
    let mut ip: u128 = 0;
    let mut k: usize = 0;
    assert(ints(gs@).take(0) =~= Seq::<int>::empty());
    while k < 8
        invariant
            gs.len() == 8,
            k <= 8,
            ip == number_of(ints(gs@).take(k as int)),
            ip < limit(k as nat),
        decreases 8 - k,
    {
        proof {
            reveal_with_fuel(limit, 9);
            assert(ints(gs@).take(k + 1).drop_last() =~= ints(gs@).take(k as int));
            assert(ints(gs@).take(k + 1).last() == gs@[k as int]);
        }
        ip = ip * 0x1_0000 + gs[k] as u128;
        k += 1;
    }
    proof {
        assert(ints(gs@).take(8) =~= ints(gs@));
    }
    ip
}

/// Find the first field that is empty.
fn find_gap(body: &[u8], bounds: &Vec<(usize, usize)>) -> (j: usize)
    requires
        cut(body@, bounds@),
    ensures
        j == first_empty(fields(body@)),
        j <= bounds.len(),
{
    let n = bounds.len();
    let mut j: usize = 0;
    while j < n && bounds[j].0 < bounds[j].1
        invariant
            cut(body@, bounds@),
            n == bounds.len(),
            j <= n,
            forall|i: int| 0 <= i < j ==> (#[trigger] fields(body@)[i]).len() > 0,
        decreases n - j,
    {
        j += 1;
    }
    proof {
        lemma_first_empty(fields(body@), j as int);
    }
    j
}

/// Find where the fields after the two colons begin, where the first
/// empty field is at the place `j`.
fn find_rest(body: &[u8], bounds: &Vec<(usize, usize)>, j: usize) -> (from: Option<usize>)
    requires
        cut(body@, bounds@),
        j < bounds.len(),
    ensures
        match from {
            Some(from) => from <= bounds.len() && after_gap(fields(body@), j as int) == Some(
                fields(body@).subrange(from as int, bounds.len() as int),
            ),
            None => after_gap(fields(body@), j as int) is None,
        },
{
    let n = bounds.len();
    let ghost fs = fields(body@);
    proof {
        assert(fs.subrange(n as int, n as int) =~= Seq::<Seq<u8>>::empty());
        if n >= 2 {
            assert(fs.subrange(2, n as int) =~= fs.skip(2));
        }
        assert(fs.subrange(j + 1, n as int) =~= fs.skip(j + 1));
    }
    if j == 0 {
        if n >= 3 && bounds[1].0 == bounds[1].1 {
            if n == 3 && bounds[2].0 == bounds[2].1 {
                Some(n)
            } else {
                Some(2)
            }
        } else {
            None
        }
    } else if n - j == 2 && bounds[n - 1].0 == bounds[n - 1].1 {
        Some(n)
    } else if n - j > 1 {
        Some(j + 1)
    } else {
        None
    }
}

/// The eight groups that `head`, groups that are zero, and `tail` make.
fn fill(head: &Vec<u16>, tail: &Vec<u16>) -> (gs: Vec<u16>)
    requires
        head.len() + tail.len() <= 7,
    ensures
        gs.len() == 8,
        ints(gs@) == ints(head@) + zeros(8 - head.len() - tail.len()) + ints(tail@),
{
    let mut gs: Vec<u16> = Vec::new();
    let mut k: usize = 0;
    while k < head.len()
        invariant
            k <= head.len(),
            gs@ == head@.take(k as int),
        decreases head.len() - k,
    {
        gs.push(head[k]);
        proof {
            assert(gs@ =~= head@.take(k + 1));
        }
        k += 1;
    }
    proof {
        assert(head@.take(head.len() as int) =~= head@);
    }
    let gap = 8 - head.len() - tail.len();
    let mut k: usize = 0;
    while k < gap
        invariant
            k <= gap,
            gs@ == head@ + Seq::new(k as nat, |i: int| 0u16),
        decreases gap - k,
    {
        gs.push(0);
        proof {
            assert(gs@ =~= head@ + Seq::new((k + 1) as nat, |i: int| 0u16));
        }
        k += 1;
    }
    let mut k: usize = 0;
    while k < tail.len()
        invariant
            k <= tail.len(),
            gs@ == head@ + Seq::new(gap as nat, |i: int| 0u16) + tail@.take(k as int),
        decreases tail.len() - k,
    {
        gs.push(tail[k]);
        proof {
            assert(gs@ =~= head@ + Seq::new(gap as nat, |i: int| 0u16) + tail@.take(k + 1));
        }
        k += 1;
    }
    proof {
        assert(tail@.take(tail.len() as int) =~= tail@);
        assert(ints(gs@) =~= ints(head@) + zeros(gap as int) + ints(tail@));
    }
    gs
}

/// Read the address that the text spells: its number, where the text
/// spells an address.
pub fn parse_body(body: &[u8]) -> (ip: Option<u128>)
    ensures
        match ip {
            Some(ip) => body_number(body@) == Some(ip as int),
            None => body_number(body@) is None,
        },
{
    let bounds = split(body);
    let n = bounds.len();
    let ghost fs = fields(body@);
    let j = find_gap(body, &bounds);
    proof {
        assert(fs.subrange(0, n as int) =~= fs);
        assert(fs.subrange(0, j as int) =~= fs.take(j as int));
    }
    if j == n {
        match read_units(body, &bounds, 0, n) {
            Some(gs) => {
                if gs.len() == 8 {
                    Some(join(&gs))
                } else {
                    None
                }
            },
            None => None,
        }
    } else {
        let from = match find_rest(body, &bounds, j) {
            Some(from) => from,
            None => {
                return None;
            },
        };
        let head = match read_groups(body, &bounds, 0, j) {
            Some(head) => head,
            None => {
                return None;
            },
        };
        let tail = match read_units(body, &bounds, from, n) {
            Some(tail) => tail,
            None => {
                return None;
            },
        };
        if head.len() > 7 || tail.len() > 7 - head.len() {
            return None;
        }
        let gs = fill(&head, &tail);
        Some(join(&gs))
    }
}

/// Write the number in hexadecimal at the end of the text.
fn push_hex(text: &mut Vec<u8>, n: u16)
    ensures
        final(text)@ == old(text)@ + hex(n as int),
    decreases n,
{
    if n >= 16 {
        push_hex(text, n / 16);
    }
    let d: u8 = (n % 16) as u8;
    text.push(
        if d < 10 {
            ZERO + d
        } else {
            87 + d
        },
    );
    proof {
        assert(final(text)@ =~= old(text)@ + hex(n as int));
    }
}

/// The texts, with colons between them.
pub open spec fn joined(fs: Seq<Seq<u8>>) -> Seq<u8>
    decreases fs.len(),
{
    if fs.len() == 0 {
        Seq::empty()
    } else if fs.len() == 1 {
        fs[0]
    } else {
        joined(fs.drop_last()) + seq![COLON] + fs.last()
    }
}

/// The texts of the groups, each in hexadecimal.
pub open spec fn texts(gs: Seq<int>) -> Seq<Seq<u8>> {
    gs.map_values(|g: int| hex(g))
}

/// How many groups from the place `i` on are zero, one after another.
pub open spec fn run_len(gs: Seq<int>, i: int) -> int
    decreases gs.len() - i,
{
    if 0 <= i < gs.len() && gs[i] == 0 {
        1 + run_len(gs, i + 1)
    } else {
        0
    }
}

/// The longest run of groups that are zero, of those that begin at the
/// place `i` or after it, and the first of them where several are as long:
/// where it begins, and how long it is.
pub open spec fn longest(gs: Seq<int>, i: int) -> (int, int)
    decreases gs.len() - i,
{
    if 0 <= i < gs.len() {
        let later = longest(gs, i + 1);
        if run_len(gs, i) >= later.1 {
            (i, run_len(gs, i))
        } else {
            later
        }
    } else {
        (i, 0)
    }
}

/// The fields of a text with two colons: the texts before them, an empty
/// field, and the texts after them; where there are no texts before or
/// after, an empty field stands for them.
pub open spec fn gap_fields(head: Seq<Seq<u8>>, tail: Seq<Seq<u8>>) -> Seq<Seq<u8>> {
    (if head.len() == 0 {
        seq![Seq::<u8>::empty()]
    } else {
        head
    }) + seq![Seq::<u8>::empty()] + (if tail.len() == 0 {
        seq![Seq::<u8>::empty()]
    } else {
        tail
    })
}

/// The text of the address with the number `ip`. An address that an IPv4
/// address is mapped to is `::ffff:` and the IPv4 address. Of any other the
/// groups are written in hexadecimal with colons between them; where two or
/// more groups in a row are zero, two colons stand in the place of the
/// longest such run, the first of the longest.
pub open spec fn address_text(ip: int) -> Seq<u8> {
    let gs = groups(ip, 8);
    let run = longest(gs, 0);
    if MAPPED <= ip <= MAPPED + 0xffff_ffff {
        joined(
            seq![
                Seq::<u8>::empty(),
                Seq::<u8>::empty(),
                hex(0xffff),
                quad_text_of((ip - MAPPED) as u32),
            ],
        )
    } else if run.1 >= 2 {
        joined(gap_fields(texts(gs.take(run.0)), texts(gs.skip(run.0 + run.1))))
    } else {
        joined(texts(gs))
    }
}

/// A run of zeros ends within the groups, and is made of zeros.
pub proof fn lemma_run_len(gs: Seq<int>, i: int)
    requires
        0 <= i <= gs.len(),
    ensures
        0 <= run_len(gs, i) <= gs.len() - i,
        forall|k: int| i <= k < i + run_len(gs, i) ==> gs[k] == 0,
    decreases gs.len() - i,
{
    if i < gs.len() && gs[i] == 0 {
        lemma_run_len(gs, i + 1);
    }
}

/// The longest run is a run of zeros within the groups.
pub proof fn lemma_longest(gs: Seq<int>, i: int)
    requires
        0 <= i <= gs.len(),
    ensures
        i <= longest(gs, i).0 <= gs.len(),
        0 <= longest(gs, i).1,
        longest(gs, i).0 + longest(gs, i).1 <= gs.len(),
        forall|k: int|
            longest(gs, i).0 <= k < longest(gs, i).0 + longest(gs, i).1 ==> gs[k] == 0,
    decreases gs.len() - i,
{
    if i < gs.len() {
        lemma_longest(gs, i + 1);
        lemma_run_len(gs, i);
    }
}

/// The fields of texts that are joined by colons are the texts, where no
/// text has a colon.
pub proof fn lemma_fields_joined(fs: Seq<Seq<u8>>)
    requires
        fs.len() >= 1,
        forall|k: int, i: int|
            0 <= k < fs.len() && 0 <= i < fs[k].len() ==> (#[trigger] fs[k][i]) != COLON,
    ensures
        fields(joined(fs)) == fs,
    decreases fs.len(),
{
    if fs.len() == 1 {
        lemma_fields_one(fs[0]);
        assert(fields(joined(fs)) =~= fs);
    } else {
        let init = fs.drop_last();
        assert forall|k: int, i: int|
            0 <= k < init.len() && 0 <= i < init[k].len() implies (#[trigger] init[k][i])
            != COLON by {
            assert(init[k] == fs[k]);
        }
        lemma_fields_joined(init);
        assert forall|i: int| 0 <= i < fs.last().len() implies fs.last()[i] != COLON by {
            assert(fs.last() == fs[fs.len() - 1]);
        }
        lemma_fields_push(joined(init), fs.last());
        assert(fields(joined(fs)) =~= fs);
    }
}

/// Texts joined by colons, and more texts joined to them.
pub proof fn lemma_joined_append(a: Seq<Seq<u8>>, b: Seq<Seq<u8>>)
    requires
        a.len() >= 1,
        b.len() >= 1,
    ensures
        joined(a + b) == joined(a) + seq![COLON] + joined(b),
    decreases b.len(),
{
    let ab = a + b;
    if b.len() == 1 {
        assert(ab.drop_last() =~= a);
        assert(ab.last() == b[0]);
    } else {
        lemma_joined_append(a, b.drop_last());
        assert(ab.drop_last() =~= a + b.drop_last());
        assert(ab.last() == b.last());
        assert(joined(ab) =~= joined(a) + seq![COLON] + joined(b));
    }
}

/// The text with two colons: what stands before them, the two colons, and
/// what stands after them.
pub proof fn lemma_joined_gap(head: Seq<Seq<u8>>, tail: Seq<Seq<u8>>)
    ensures
        joined(gap_fields(head, tail)) == joined(head) + seq![COLON, COLON] + joined(tail),
{
    let none = seq![Seq::<u8>::empty()];
    let h = if head.len() == 0 {
        none
    } else {
        head
    };
    let t = if tail.len() == 0 {
        none
    } else {
        tail
    };
    assert(joined(none) =~= Seq::<u8>::empty());
    lemma_joined_append(h, none);
    lemma_joined_append(h + none, t);
    assert(joined(gap_fields(head, tail)) =~= joined(head) + seq![COLON, COLON] + joined(tail));
}

/// The texts of groups spell the groups, and none of them is empty or has
/// a colon or a bracket.
pub proof fn lemma_groups_texts(gs: Seq<int>)
    requires
        forall|i: int| 0 <= i < gs.len() ==> 0 <= #[trigger] gs[i] < 0x1_0000,
    ensures
        groups_of(texts(gs)) == Some(gs),
        units_of(texts(gs)) == Some(gs),
        forall|k: int| 0 <= k < gs.len() ==> (#[trigger] texts(gs)[k]).len() > 0,
        forall|k: int, i: int|
            0 <= k < gs.len() && 0 <= i < texts(gs)[k].len() ==> (#[trigger] texts(gs)[k][i])
                != COLON && texts(gs)[k][i] != 93 && texts(gs)[k][i] != 37 && texts(gs)[k][i]
                != 10,
    decreases gs.len(),
{
    let fs = texts(gs);
    if gs.len() > 0 {
        let init = gs.drop_last();
        lemma_groups_texts(init);
        lemma_hex(gs.last());
        lemma_hex_digits(gs.last());
        lemma_group_is_no_quad(hex(gs.last()));
        assert(fs.drop_last() =~= texts(init));
        assert(fs.last() == hex(gs.last()));
        assert(init.push(gs.last()) =~= gs);
        assert forall|k: int| 0 <= k < gs.len() implies (#[trigger] fs[k]).len() > 0 by {
            if k < gs.len() - 1 {
                assert(fs[k] == texts(init)[k]);
            }
        }
        assert forall|k: int, i: int| 0 <= k < gs.len() && 0 <= i < fs[k].len() implies (
        #[trigger] fs[k][i]) != COLON && fs[k][i] != 93 && fs[k][i] != 37 && fs[k][i] != 10 by {
            if k < gs.len() - 1 {
                assert(fs[k] == texts(init)[k]);
                assert(texts(init)[k][i] != COLON);
            } else {
                assert(is_hex(hex(gs.last())[i]));
            }
        }
    }
}

/// No byte of texts joined by colons is a bracket, a percent sign or the
/// end of a line, where no byte of the texts is.
pub proof fn lemma_joined_bytes(fs: Seq<Seq<u8>>)
    requires
        forall|k: int, i: int|
            0 <= k < fs.len() && 0 <= i < fs[k].len() ==> (#[trigger] fs[k][i]) != 93 && fs[k][i]
                != 37 && fs[k][i] != 10,
    ensures
        forall|i: int|
            0 <= i < joined(fs).len() ==> (#[trigger] joined(fs)[i]) != 93 && joined(fs)[i] != 37
                && joined(fs)[i] != 10,
    decreases fs.len(),
{
    if fs.len() > 1 {
        let init = fs.drop_last();
        assert forall|k: int, i: int| 0 <= k < init.len() && 0 <= i < init[k].len() implies (
        #[trigger] init[k][i]) != 93 && init[k][i] != 37 && init[k][i] != 10 by {
            assert(init[k] == fs[k]);
        }
        lemma_joined_bytes(init);
        let text = joined(fs);
        let before = joined(init);
        assert forall|i: int| 0 <= i < text.len() implies (#[trigger] text[i]) != 93 && text[i]
            != 37 && text[i] != 10 by {
            if i < before.len() {
                assert(text[i] == before[i]);
            } else if i > before.len() {
                assert(text[i] == fs[fs.len() - 1][i - before.len() - 1]);
            }
        }
    } else if fs.len() == 1 {
        assert forall|i: int| 0 <= i < joined(fs).len() implies (#[trigger] joined(fs)[i]) != 93
            && joined(fs)[i] != 37 && joined(fs)[i] != 10 by {
            assert(joined(fs)[i] == fs[0][i]);
        }
    }
}

/// Whether no byte of the text is a bracket, a percent sign or the end of
/// a line.
pub open spec fn plain(text: Seq<u8>) -> bool {
    forall|i: int|
        0 <= i < text.len() ==> (#[trigger] text[i]) != 93 && text[i] != 37 && text[i] != 10
}

/// The text `::ffff:` with an IPv4 address spells the address that the
/// IPv4 address is mapped to.
proof fn lemma_text_mapped(v: u32)
    ensures
        body_number(
            joined(
                seq![Seq::<u8>::empty(), Seq::<u8>::empty(), hex(0xffff), quad_text_of(v)],
            ),
        ) == Some(MAPPED + v),
        plain(
            joined(seq![Seq::<u8>::empty(), Seq::<u8>::empty(), hex(0xffff), quad_text_of(v)]),
        ),
{
    let none = Seq::<u8>::empty();
    let q = quad_text_of(v);
    let fs = seq![none, none, hex(0xffff), q];
    lemma_quad_text(v);
    lemma_one_quad(q, v, v);
    lemma_hex(0xffff);
    lemma_hex_digits(0xffff);
    assert forall|k: int, i: int| 0 <= k < fs.len() && 0 <= i < fs[k].len() implies (
    #[trigger] fs[k][i]) != COLON && fs[k][i] != 93 && fs[k][i] != 37 && fs[k][i] != 10 by {
        if k == 2 {
            assert(is_hex(hex(0xffff)[i]));
        } else if k == 3 {
            assert(is_digit(q[i]) || q[i] == DOT);
        }
    }
    lemma_fields_joined(fs);
    lemma_joined_bytes(fs);
    lemma_first_empty(fs, 0);
    let rest = fs.skip(2);
    assert(rest.last() == q);
    assert(rest.drop_last() =~= seq![hex(0xffff)]);
    assert(seq![hex(0xffff)].drop_last() =~= Seq::<Seq<u8>>::empty());
    assert(groups_of(Seq::<Seq<u8>>::empty()) == Some(Seq::<int>::empty()));
    assert(groups_of(seq![hex(0xffff)]) == Some(Seq::<int>::empty().push(0xffff)));
    assert(fs.take(0) =~= Seq::<Seq<u8>>::empty());
    let tail = Seq::<int>::empty().push(0xffff).push(v as int / 0x1_0000).push(
        v as int % 0x1_0000,
    );
    assert(units_of(rest) == Some(tail));
    assert(after_gap(fs, 0) == Some(rest));
    let all = Seq::<int>::empty() + zeros(5) + tail;
    assert(body_groups(joined(fs)) == Some(all));
    lemma_mapped_number(all, v as int);
}

/// The text of groups with two colons in the place of a run of zeros
/// spells the groups.
proof fn lemma_text_gap(gs: Seq<int>, start: int, len: int)
    requires
        gs.len() == 8,
        forall|i: int| 0 <= i < 8 ==> 0 <= #[trigger] gs[i] < 0x1_0000,
        0 <= start,
        1 <= len,
        start + len <= 8,
        forall|k: int| start <= k < start + len ==> gs[k] == 0,
    ensures
        body_groups(joined(gap_fields(texts(gs.take(start)), texts(gs.skip(start + len)))))
            == Some(gs),
        plain(joined(gap_fields(texts(gs.take(start)), texts(gs.skip(start + len))))),
{
    let head = gs.take(start);
    let tail = gs.skip(start + len);
    let fs = gap_fields(texts(head), texts(tail));
    lemma_groups_texts(head);
    lemma_groups_texts(tail);
    assert forall|k: int, i: int| 0 <= k < fs.len() && 0 <= i < fs[k].len() implies (
    #[trigger] fs[k][i]) != COLON && fs[k][i] != 93 && fs[k][i] != 37 && fs[k][i] != 10 by {
        if k < head.len() {
            assert(fs[k] == texts(head)[k]);
            assert(texts(head)[k][i] != COLON);
        } else if tail.len() > 0 && head.len() > 0 && k > head.len() {
            assert(fs[k] == texts(tail)[k - head.len() - 1]);
            assert(texts(tail)[k - head.len() - 1][i] != COLON);
        } else if tail.len() > 0 && head.len() == 0 && k > 1 {
            assert(fs[k] == texts(tail)[k - 2]);
            assert(texts(tail)[k - 2][i] != COLON);
        }
    }
    lemma_fields_joined(fs);
    lemma_joined_bytes(fs);
    assert forall|k: int| 0 <= k < head.len() implies (#[trigger] fs[k]).len() > 0 by {
        assert(fs[k] == texts(head)[k]);
    }
    lemma_first_empty(fs, head.len() as int);
    assert(fs.take(head.len() as int) =~= texts(head));
    let rest = if tail.len() == 0 {
        Seq::<Seq<u8>>::empty()
    } else {
        texts(tail)
    };
    if tail.len() > 0 {
        if head.len() == 0 {
            assert(fs.skip(2) =~= texts(tail));
            assert(fs[2] == texts(tail)[0]);
        } else {
            assert(fs.skip(head.len() as int + 1) =~= texts(tail));
            assert(fs[fs.len() - 1] == texts(tail)[tail.len() - 1]);
        }
    }
    assert(after_gap(fs, head.len() as int) == Some(rest));
    assert(units_of(rest) == Some(tail));
    assert(head + zeros(8 - head.len() - tail.len()) + tail =~= gs);
}

/// The text of eight groups spells the groups.
proof fn lemma_text_full(gs: Seq<int>)
    requires
        gs.len() == 8,
        forall|i: int| 0 <= i < 8 ==> 0 <= #[trigger] gs[i] < 0x1_0000,
    ensures
        body_groups(joined(texts(gs))) == Some(gs),
        plain(joined(texts(gs))),
{
    let fs = texts(gs);
    lemma_groups_texts(gs);
    lemma_fields_joined(fs);
    lemma_joined_bytes(fs);
    lemma_none_empty(fs);
}

/// The text of an address spells the address, and no byte of it is a
/// bracket, a percent sign or the end of a line.
pub proof fn law_address_text(ip: int)
    requires
        0 <= ip <= u128::MAX,
    ensures
        body_number(address_text(ip)) == Some(ip),
        plain(address_text(ip)),
{
    let gs = groups(ip, 8);
    lemma_number_groups(ip, 8);
    lemma_shifted_out(ip);
    if MAPPED <= ip <= MAPPED + 0xffff_ffff {
        lemma_text_mapped((ip - MAPPED) as u32);
    } else {
        let run = longest(gs, 0);
        lemma_longest(gs, 0);
        if run.1 >= 2 {
            lemma_text_gap(gs, run.0, run.1);
        } else {
            lemma_text_full(gs);
        }
    }
}

/// The number that five groups that are zero, the group `ffff` and the two
/// halves of an IPv4 address make.
proof fn lemma_mapped_number(all: Seq<int>, v: int)
    requires
        0 <= v <= 0xffff_ffff,
        all == Seq::<int>::empty() + zeros(5) + Seq::<int>::empty().push(0xffff).push(
            v / 0x1_0000,
        ).push(v % 0x1_0000),
    ensures
        number_of(all) == MAPPED + v,
{
    reveal_with_fuel(number_of, 9);
    let a7 = all.drop_last();
    let a6 = a7.drop_last();
    let a5 = a6.drop_last();
    let a4 = a5.drop_last();
    let a3 = a4.drop_last();
    let a2 = a3.drop_last();
    let a1 = a2.drop_last();
    assert(all.len() == 8);
    assert(all.last() == v % 0x1_0000);
    assert(a7.last() == v / 0x1_0000);
    assert(a6.last() == 0xffff);
    assert(a5.last() == 0 && a4.last() == 0 && a3.last() == 0 && a2.last() == 0 && a1.last() == 0);
    assert(a1.drop_last() =~= Seq::<int>::empty());
}

/// The eight groups of the address with the number `ip`, and of the number
/// its last `n` groups.
fn groups_vec(ip: u128, n: u8) -> (gs: Vec<u16>)
    ensures
        ints(gs@) == groups(ip as int, n as nat),
        gs.len() == n,
    decreases n,
{
    if n == 0 {
        let gs: Vec<u16> = Vec::new();
        assert(ints(gs@) =~= groups(ip as int, 0));
        gs
    } else {
        let mut gs = groups_vec(ip / 0x1_0000, n - 1);
        let ghost before = gs@;
        gs.push((ip % 0x1_0000) as u16);
        proof {
            assert(ints(gs@) =~= ints(before).push(ip as int % 0x1_0000));
        }
        gs
    }
}

/// Find the longest run of groups that are zero, and the first of the
/// longest.
fn find_run(gs: &Vec<u16>) -> (run: (usize, usize))
    requires
        gs.len() == 8,
    ensures
        run.0 == longest(ints(gs@), 0).0,
        run.1 == longest(ints(gs@), 0).1,
        run.0 + run.1 <= 8,
{
    let mut i: usize = 8;
    let mut here: usize = 0;
    let mut best: (usize, usize) = (8, 0);
    proof {
        lemma_longest(ints(gs@), 0);
    }
    while i > 0
        invariant
            gs.len() == 8,
            i <= 8,
            here == run_len(ints(gs@), i as int),
            here <= 8 - i,
            best.0 == longest(ints(gs@), i as int).0,
            best.1 == longest(ints(gs@), i as int).1,
            best.1 <= 8,
        decreases i,
    {
        i -= 1;
        proof {
            assert(ints(gs@)[i as int] == gs@[i as int]);
            lemma_run_len(ints(gs@), i as int);
        }
        if gs[i] == 0 {
            here += 1;
        } else {
            here = 0;
        }
        if here >= best.1 {
            best = (i, here);
        }
    }
    best
}

/// Write the groups from the place `from` to the place `to` at the end of
/// the text, with colons between them.
fn push_joined(text: &mut Vec<u8>, gs: &Vec<u16>, from: usize, to: usize)
    requires
        from <= to <= gs.len(),
    ensures
        final(text)@ == old(text)@ + joined(texts(ints(gs@).subrange(from as int, to as int))),
{
    let mut k = from;
    assert(texts(ints(gs@).subrange(from as int, from as int)) =~= Seq::<Seq<u8>>::empty());
    while k < to
        invariant
            from <= k <= to <= gs.len(),
            text@ == old(text)@ + joined(texts(ints(gs@).subrange(from as int, k as int))),
        decreases to - k,
    {
        let ghost before = texts(ints(gs@).subrange(from as int, k as int));
        let ghost after = texts(ints(gs@).subrange(from as int, k + 1));
        proof {
            assert(after.drop_last() =~= before);
            assert(after.last() == hex(gs@[k as int] as int));
        }
        if k > from {
            text.push(COLON);
        }
        push_hex(text, gs[k]);
        proof {
            assert(text@ =~= old(text)@ + joined(after));
        }
        k += 1;
    }
}

/// Write the text of the address with the number `ip` at the end of the
/// text.
pub fn push_address(text: &mut Vec<u8>, ip: u128)
    ensures
        final(text)@ == old(text)@ + address_text(ip as int),
{
    if MAPPED <= ip && ip <= MAPPED + 0xffff_ffff {
        text.push(COLON);
        text.push(COLON);
        text.push(102);
        text.push(102);
        text.push(102);
        text.push(102);
        text.push(COLON);
        push_quad(text, (ip - MAPPED) as u32);
        proof {
            let none = Seq::<u8>::empty();
            let q = quad_text_of((ip - MAPPED) as u32);
            let fs = seq![none, none, hex(0xffff), q];
            reveal_with_fuel(hex, 5);
            reveal_with_fuel(joined, 5);
            assert(hex(0xffff) =~= seq![102u8, 102u8, 102u8, 102u8]);
            assert(fs.drop_last() =~= seq![none, none, hex(0xffff)]);
            assert(fs.drop_last().drop_last() =~= seq![none, none]);
            assert(fs.drop_last().drop_last().drop_last() =~= seq![none]);
            assert(joined(fs) =~= seq![COLON, COLON, 102u8, 102u8, 102u8, 102u8, COLON] + q);
            assert(final(text)@ =~= old(text)@ + address_text(ip as int));
        }
    } else {
        let gs = groups_vec(ip, 8);
        let run = find_run(&gs);
        let ghost all = ints(gs@);
        if run.1 >= 2 {
            push_joined(text, &gs, 0, run.0);
            text.push(COLON);
            text.push(COLON);
            push_joined(text, &gs, run.0 + run.1, 8);
            proof {
                assert(all.subrange(0, run.0 as int) =~= all.take(run.0 as int));
                assert(all.subrange(run.0 + run.1, 8) =~= all.skip(run.0 + run.1));
                lemma_joined_gap(
                    texts(all.take(run.0 as int)),
                    texts(all.skip(run.0 + run.1)),
                );
                assert(final(text)@ =~= old(text)@ + address_text(ip as int));
            }
        } else {
            push_joined(text, &gs, 0, 8);
            proof {
                assert(all.subrange(0, 8) =~= all);
            }
        }
    }
}

} // verus!

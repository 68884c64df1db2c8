//! MAC addresses in text ("AA:BB:CC:DD:EE:FF") and interface names in the
//! fixed-size fields that the kernel's interface requests take.

use vstd::prelude::*;
use crate::protocol::ETH_ALEN;
use vstd::string::StringSliceAdditionalSpecFns;

verus! {

/// The byte `:`.
pub open spec fn colon() -> u8 {
    0x3A
}

/// The position of the first `:` in `b`, or `b.len()` if there is none.
pub open spec fn first_colon(b: Seq<u8>) -> int
    decreases b.len(),
{
    if b.len() == 0 {
        0
    } else if b[0] == colon() {
        0
    } else {
        1 + first_colon(b.drop_first())
    }
}

/// `first_colon` is the one position up to which no byte is a `:` and at
/// which `b` ends or holds a `:`.
pub proof fn lemma_first_colon(b: Seq<u8>, k: int)
    ensures
        0 <= first_colon(b) <= b.len(),
        forall|j: int| 0 <= j < first_colon(b) ==> b[j] != colon(),
        first_colon(b) < b.len() ==> b[first_colon(b)] == colon(),
        (0 <= k <= b.len() && (forall|j: int| 0 <= j < k ==> b[j] != colon()) && (k < b.len()
            ==> b[k] == colon())) ==> first_colon(b) == k,
    decreases b.len(),
{
    if b.len() > 0 && b[0] != colon() {
        lemma_first_colon(b.drop_first(), k - 1);
        assert forall|j: int| 0 <= j < first_colon(b) implies b[j] != colon() by {
            if j > 0 {
                assert(b[j] == b.drop_first()[j - 1]);
            }
        }
        if 0 <= k <= b.len() && (forall|j: int| 0 <= j < k ==> b[j] != colon()) && (k < b.len()
            ==> b[k] == colon()) {
            assert(k > 0);
            assert forall|j: int| 0 <= j < k - 1 implies b.drop_first()[j] != colon() by {
                assert(b.drop_first()[j] == b[j + 1]);
            }
        }
    }
}

/// The pieces of `b` between `:` separators, in order, as `str::split(':')`
/// gives them: one more piece than there are separators.
pub open spec fn split_colons(b: Seq<u8>) -> Seq<Seq<u8>>
    decreases b.len(),
{
    let k = first_colon(b);
    if k >= b.len() {
        seq![b]
    } else {
        proof { lemma_first_colon(b, 0); }
        seq![b.take(k)] + split_colons(b.skip(k + 1))
    }
}

/// The value of a hexadecimal digit (either case), if `c` is one.
pub open spec fn hex_digit_value(c: u8) -> Option<nat> {
    if 0x30 <= c <= 0x39 {
        Some((c - 0x30) as nat)
    } else if 0x61 <= c <= 0x66 {
        Some((c - 0x61 + 10) as nat)
    } else if 0x41 <= c <= 0x46 {
        Some((c - 0x41 + 10) as nat)
    } else {
        None
    }
}

/// The value of a string of hexadecimal digits, if every byte is one.
pub open spec fn hex_digits_value(d: Seq<u8>) -> Option<nat>
    decreases d.len(),
{
    if d.len() == 0 {
        Some(0)
    } else {
        match (hex_digits_value(d.drop_last()), hex_digit_value(d.last())) {
            (Some(a), Some(x)) => Some(a * 16 + x),
            _ => None,
        }
    }
}

/// The byte that `u8::from_str_radix(f, 16)` reads from `f`: an optional
/// leading `+`, then at least one hexadecimal digit, with a value of at most
/// 255.
pub open spec fn hex_byte(f: Seq<u8>) -> Option<u8> {
    let digits = if f.len() > 0 && f[0] == 0x2Bu8 {
        f.drop_first()
    } else {
        f
    };
    if digits.len() == 0 {
        None
    } else {
        match hex_digits_value(digits) {
            Some(v) => if v <= 255 {
                Some(v as u8)
            } else {
                None
            },
            None => None,
        }
    }
}

/// The address that the text `b` spells: exactly six `:`-separated fields,
/// each a hexadecimal byte.
pub open spec fn mac_of_text(b: Seq<u8>) -> Option<Seq<u8>> {
    let fields = split_colons(b);
    if fields.len() == ETH_ALEN && forall|i: int| 0 <= i < ETH_ALEN ==> (#[trigger] hex_byte(
        fields[i],
    )) is Some {
        Some(Seq::new(ETH_ALEN as nat, |i: int| hex_byte(fields[i]).unwrap()))
    } else {
        None
    }
}

/// A string of hexadecimal digits has a value only if each of its prefixes
/// has one, and no prefix's value exceeds the whole's.
pub proof fn lemma_hex_prefix(d: Seq<u8>, i: int)
    requires
        0 <= i <= d.len(),
        hex_digits_value(d) is Some,
    ensures
        hex_digits_value(d.take(i)) is Some,
        hex_digits_value(d.take(i)).unwrap() <= hex_digits_value(d).unwrap(),
    decreases d.len(),
{
    if i == d.len() {
        assert(d.take(i) =~= d);
    } else {
        lemma_hex_prefix(d.drop_last(), i);
        assert(d.drop_last().take(i) =~= d.take(i));
    }
}

/// Read the hexadecimal byte in `b[start..end]`, as `u8::from_str_radix`
/// with radix 16 does.
fn parse_hex_u8(b: &[u8], start: usize, end: usize) -> (r: Option<u8>)
    requires
        start <= end <= b.len(),
    ensures
        r == hex_byte(b@.subrange(start as int, end as int)),
{
    let ghost f = b@.subrange(start as int, end as int);
    let mut s = start;
    if s < end && b[s] == 0x2B {
        s = s + 1;
    }
    let ghost digits = b@.subrange(s as int, end as int);
    assert(digits =~= (if f.len() > 0 && f[0] == 0x2Bu8 { f.drop_first() } else { f }));
    if s == end {
        return None;
    }
    let mut acc: u32 = 0;
    let mut i = s;
    assert(digits.take(0) =~= Seq::<u8>::empty());
    while i < end
        invariant
            s <= i <= end <= b.len(),
            digits == b@.subrange(s as int, end as int),
            f == b@.subrange(start as int, end as int),
            digits =~= (if f.len() > 0 && f[0] == 0x2Bu8 { f.drop_first() } else { f }),
            digits.len() > 0,
            hex_digits_value(digits.take(i - s)) == Some(acc as nat),
            acc <= 255,
        decreases end - i,
    {
        let c = b[i];
        let x: u32 = if 0x30 <= c && c <= 0x39 {
            (c - 0x30) as u32
        } else if 0x61 <= c && c <= 0x66 {
            (c - 0x61 + 10) as u32
        } else if 0x41 <= c && c <= 0x46 {
            (c - 0x41 + 10) as u32
        } else {
            proof {
                assert(digits.take(i - s + 1).drop_last() =~= digits.take(i - s));
                assert(digits.take(i - s + 1).last() == c);
                if hex_digits_value(digits) is Some {
                    lemma_hex_prefix(digits, i - s + 1);
                }
            }
            return None;
        };
        acc = acc * 16 + x;
        i = i + 1;
        proof {
            assert(digits.take(i - s).drop_last() =~= digits.take(i - s - 1));
            assert(digits.take(i - s).last() == c);
        }
        if acc > 255 {
            proof {
                if hex_digits_value(digits) is Some {
                    lemma_hex_prefix(digits, i - s);
                }
            }
            return None;
        }
    }
    assert(digits.take(i - s) =~= digits);
    Some(acc as u8)
}

/// Parse "AA:BB:CC:DD:EE:FF" into six bytes: `None` unless the text has
/// exactly six `:`-separated fields, each a hexadecimal byte as
/// `u8::from_str_radix(field, 16)` reads it.
pub fn parse_mac(s: &str) -> (r: Option<[u8; 6]>)
    ensures
        r matches Some(m) ==> mac_of_text(s.spec_bytes()) == Some(m@),
        r is None ==> mac_of_text(s.spec_bytes()) is None,
{
    let b = s.as_bytes();
    let ghost text = b@;
    let mut mac: [u8; 6] = [0u8; 6];
    let mut count: usize = 0;
    let mut start: usize = 0;
    let ghost mut done: Seq<Seq<u8>> = Seq::empty();
    assert(text.skip(0) =~= text);
    assert(done + split_colons(text) =~= split_colons(text));
    loop
        invariant_except_break
            split_colons(text) == done + split_colons(text.skip(start as int)),
        invariant
            text == b@,
            text == s.spec_bytes(),
            start <= b.len(),
            count == done.len(),
            count <= ETH_ALEN,
            forall|j: int| 0 <= j < count ==> hex_byte(#[trigger] done[j]) == Some(mac@[j]),
        ensures
            split_colons(text) == done,
        decreases b.len() - start,
    {
        let mut end = start;
        while end < b.len() && b[end] != 0x3A
            invariant
                start <= end <= b.len(),
                forall|j: int| start <= j < end ==> b@[j] != colon(),
            decreases b.len() - end,
        {
            end = end + 1;
        }
        let ghost rest = text.skip(start as int);
        proof {
            lemma_first_colon(rest, end - start);
            assert forall|j: int| 0 <= j < end - start implies rest[j] != colon() by {
                assert(rest[j] == b@[start + j]);
            }
            if end < b.len() {
                assert(rest[end - start] == b@[end as int]);
            }
            assert(first_colon(rest) == end - start);
            assert(rest.take(end - start) =~= text.subrange(start as int, end as int));
            if end < b.len() {
                assert(rest.skip(end - start + 1) =~= text.skip(end + 1));
            } else {
                assert(rest.take(end - start) =~= rest);
            }
        }
        if count == ETH_ALEN {
            proof {
                assert(split_colons(text).len() == done.len() + split_colons(rest).len());
                assert(split_colons(text).len() > ETH_ALEN);
            }
            return None;
        }
        let v = match parse_hex_u8(b, start, end) {
            Some(v) => v,
            None => {
                proof {
                    assert(split_colons(rest)[0] == text.subrange(start as int, end as int));
                    assert(split_colons(text)[count as int] == split_colons(rest)[0]);
                    assert(hex_byte(split_colons(text)[count as int]) is None);
                }
                return None;
            },
        };
        mac[count] = v;
        proof {
            done = done.push(text.subrange(start as int, end as int));
        }
        count = count + 1;
        if end == b.len() {
            proof {
                assert(split_colons(text) =~= done);
            }
            break;
        }
        proof {
            assert(split_colons(text) =~= done + split_colons(text.skip(end + 1)));
        }
        start = end + 1;
    }
    if count != ETH_ALEN {
        assert(split_colons(s.spec_bytes()).len() != ETH_ALEN);
        return None;
    }
    proof {
        assert(Seq::new(ETH_ALEN as nat, |i: int| hex_byte(split_colons(text)[i]).unwrap()) =~= mac@);
    }
    Some(mac)
}

/// The hexadecimal digit for a value below 16, in upper or lower case.
pub open spec fn hex_digit(v: u8, upper: bool) -> u8 {
    if v < 10 {
        (0x30 + v) as u8
    } else if upper {
        (0x41 + v - 10) as u8
    } else {
        (0x61 + v - 10) as u8
    }
}

/// A byte as two hexadecimal digits, as `{:02X}` (upper case) or `{:02x}`
/// writes it.
pub open spec fn hex_pair(b: u8, upper: bool) -> Seq<u8> {
    seq![hex_digit(b / 16, upper), hex_digit(b % 16, upper)]
}

/// The usual text of a six-byte MAC address: two hexadecimal digits per
/// byte, separated by `:`.
pub open spec fn mac_text(m: Seq<u8>, upper: bool) -> Seq<u8> {
    hex_pair(m[0], upper) + seq![colon()] + hex_pair(m[1], upper) + seq![colon()] + hex_pair(m[2], upper)
        + seq![colon()] + hex_pair(m[3], upper) + seq![colon()] + hex_pair(m[4], upper) + seq![colon()]
        + hex_pair(m[5], upper)
}

proof fn lemma_hex_pair(b: u8, upper: bool)
    ensures
        hex_byte(hex_pair(b, upper)) == Some(b),
        forall|j: int| 0 <= j < 2 ==> hex_pair(b, upper)[j] != colon(),
{
    let p = hex_pair(b, upper);
    assert(hex_digit_value(p[0]) == Some((b / 16) as nat));
    assert(hex_digit_value(p[1]) == Some((b % 16) as nat));
    assert(p.drop_last().drop_last() =~= Seq::<u8>::empty());
    assert(hex_digits_value(p.drop_last().drop_last()) == Some(0nat));
    assert(p.drop_last().last() == p[0]);
    assert(hex_digits_value(p.drop_last()) == Some((b / 16) as nat));
    assert(hex_digits_value(p) == Some(b as nat));
}

proof fn lemma_split_field(a: Seq<u8>, rest: Seq<u8>)
    requires
        forall|j: int| 0 <= j < a.len() ==> a[j] != colon(),
    ensures
        split_colons(a + seq![colon()] + rest) == seq![a] + split_colons(rest),
        split_colons(a) == seq![a],
{
    let t = a + seq![colon()] + rest;
    lemma_first_colon(t, a.len() as int);
    assert(t.take(a.len() as int) =~= a);
    assert(t.skip(a.len() + 1int) =~= rest);
    lemma_first_colon(a, a.len() as int);
}

/// The text of any MAC address, with upper- or lower-case digits, parses
/// back to that address.
pub proof fn lemma_mac_text_roundtrip(m: Seq<u8>, upper: bool)
    requires
        m.len() == ETH_ALEN,
    ensures
        mac_of_text(mac_text(m, upper)) == Some(m),
{
    let p = Seq::new(6nat, |i: int| hex_pair(m[i], upper));
    let c = seq![colon()];
    let r5 = p[5];
    let r4 = p[4] + c + r5;
    let r3 = p[3] + c + r4;
    let r2 = p[2] + c + r3;
    let r1 = p[1] + c + r2;
    let r0 = p[0] + c + r1;
    assert(mac_text(m, upper) =~= r0);
    assert forall|i: int| 0 <= i < 6 implies hex_byte(#[trigger] p[i]) == Some(m[i])
        && forall|j: int| 0 <= j < p[i].len() ==> p[i][j] != colon() by {
        lemma_hex_pair(m[i], upper);
    }
    lemma_split_field(p[5], Seq::empty());
    lemma_split_field(p[4], r5);
    lemma_split_field(p[3], r4);
    lemma_split_field(p[2], r3);
    lemma_split_field(p[1], r2);
    lemma_split_field(p[0], r1);
    let fields = split_colons(r0);
    assert(fields =~= p);
    assert(Seq::new(ETH_ALEN as nat, |i: int| hex_byte(fields[i]).unwrap()) =~= m);
}

proof fn lemma_filter_single(x: u8)
    ensures
        seq![x].filter(|c: u8| c == colon()) == (if x == colon() { seq![x] } else { Seq::<u8>::empty() }),
{
    reveal(Seq::filter);
    assert(seq![x].drop_last() =~= Seq::<u8>::empty());
    assert(Seq::<u8>::empty().filter(|c: u8| c == colon()) =~= Seq::<u8>::empty());
}

proof fn lemma_no_colon_count(a: Seq<u8>)
    requires
        forall|j: int| 0 <= j < a.len() ==> a[j] != colon(),
    ensures
        a.filter(|c: u8| c == colon()).len() == 0,
    decreases a.len(),
{
    reveal(Seq::filter);
    if a.len() > 0 {
        lemma_no_colon_count(a.drop_last());
    }
}

/// The text is cut into one more piece than it holds `:` bytes.
proof fn lemma_split_count(b: Seq<u8>)
    ensures
        split_colons(b).len() == b.filter(|c: u8| c == colon()).len() + 1,
    decreases b.len(),
{
    let k = first_colon(b);
    lemma_first_colon(b, 0);
    if k >= b.len() {
        lemma_no_colon_count(b);
    } else {
        let head = b.take(k);
        let tail = b.skip(k + 1);
        assert(b =~= head + seq![colon()] + tail);
        Seq::filter_distributes_over_add(head + seq![colon()], tail, |c: u8| c == colon());
        Seq::filter_distributes_over_add(head, seq![colon()], |c: u8| c == colon());
        lemma_no_colon_count(head);
        lemma_filter_single(colon());
        lemma_split_count(tail);
    }
}

/// Text that parses as a MAC address holds exactly five `:` bytes: six
/// fields, no more and no fewer.
pub proof fn lemma_mac_text_has_five_colons(b: Seq<u8>)
    ensures
        mac_of_text(b) is Some ==> b.filter(|c: u8| c == 0x3Au8).len() == 5,
{
    lemma_split_count(b);
    assert((|c: u8| c == colon()) == (|c: u8| c == 0x3Au8));
}

proof fn lemma_hex_digits_only(d: Seq<u8>)
    requires
        hex_digits_value(d) is Some,
    ensures
        forall|i: int| 0 <= i < d.len() ==> {
            let c = #[trigger] d[i];
            0x30 <= c <= 0x39 || 0x41 <= c <= 0x46 || 0x61 <= c <= 0x66
        },
    decreases d.len(),
{
    if d.len() > 0 {
        lemma_hex_digits_only(d.drop_last());
        assert forall|i: int| 0 <= i < d.len() implies {
            let c = #[trigger] d[i];
            0x30 <= c <= 0x39 || 0x41 <= c <= 0x46 || 0x61 <= c <= 0x66
        } by {
            if i < d.len() - 1 {
                assert(d[i] == d.drop_last()[i]);
            }
        }
    }
}

/// A field reads as a byte only if it is not empty and every byte of it is a
/// hexadecimal digit (0-9, A-F, a-f), but for one leading `+`; and a single
/// digit reads as its own value.
pub proof fn lemma_hex_byte_digits(f: Seq<u8>, c: u8)
    ensures
        hex_byte(f) is Some ==> f.len() > 0 && forall|i: int| 0 <= i < f.len() ==> {
            let x = #[trigger] f[i];
            (i == 0 && x == 0x2Bu8) || 0x30 <= x <= 0x39 || 0x41 <= x <= 0x46 || 0x61 <= x <= 0x66
        },
        0x30 <= c <= 0x39 ==> hex_byte(seq![c]) == Some((c - 0x30) as u8),
        0x41 <= c <= 0x46 ==> hex_byte(seq![c]) == Some((c - 0x41 + 10) as u8),
        0x61 <= c <= 0x66 ==> hex_byte(seq![c]) == Some((c - 0x61 + 10) as u8),
{
    if hex_byte(f) is Some {
        let digits = if f.len() > 0 && f[0] == 0x2Bu8 { f.drop_first() } else { f };
        lemma_hex_digits_only(digits);
        assert forall|i: int| 0 <= i < f.len() implies {
            let x = #[trigger] f[i];
            (i == 0 && x == 0x2Bu8) || 0x30 <= x <= 0x39 || 0x41 <= x <= 0x46 || 0x61 <= x <= 0x66
        } by {
            if f.len() > 0 && f[0] == 0x2Bu8 {
                if i > 0 {
                    assert(f[i] == digits[i - 1]);
                }
            } else {
                assert(f[i] == digits[i]);
            }
        }
    }
    let s = seq![c];
    assert(s.drop_last() =~= Seq::<u8>::empty());
    assert(hex_digits_value(s.drop_last()) == Some(0nat));
}

proof fn lemma_hex_prefix_bound(d: Seq<u8>, j: int)
    requires
        1 <= j <= d.len(),
        hex_digits_value(d) is Some,
    ensures
        hex_digits_value(d.take(j)).unwrap() >= hex_digits_value(d.take(1)).unwrap() * pow16(j - 1),
    decreases j,
{
    lemma_hex_prefix(d, j);
    lemma_hex_prefix(d, 1);
    if j == 1 {
        assert(pow16(0) == 1);
    } else {
        lemma_hex_prefix_bound(d, j - 1);
        lemma_hex_prefix(d, j - 1);
        let p = d.take(j);
        assert(p.drop_last() =~= d.take(j - 1));
        let a = hex_digits_value(d.take(1)).unwrap();
        let b = hex_digits_value(d.take(j - 1)).unwrap();
        let c = hex_digits_value(d.take(j)).unwrap();
        assert(c >= b * 16);
        assert(c >= a * pow16(j - 1)) by (nonlinear_arith)
            requires c >= b * 16, b >= a * pow16(j - 2), pow16(j - 1) == pow16(j - 2) * 16, a >= 0;
    }
}

/// Sixteen to the power `k`.
pub open spec fn pow16(k: int) -> nat
    decreases k,
{
    if k <= 0 {
        1
    } else {
        16 * pow16(k - 1)
    }
}

/// A field of three or more digits (after an optional `+`) whose first digit
/// is not zero stands for at least 256, so it does not read as a byte.
pub proof fn lemma_hex_byte_overflow(f: Seq<u8>)
    ensures
        ({
            let digits = if f.len() > 0 && f[0] == 0x2Bu8 {
                f.drop_first()
            } else {
                f
            };
            digits.len() >= 3 && (0x31 <= digits[0] <= 0x39 || 0x41 <= digits[0] <= 0x46 || 0x61
                <= digits[0] <= 0x66) ==> hex_byte(f) is None
        }),
{
    let digits = if f.len() > 0 && f[0] == 0x2Bu8 { f.drop_first() } else { f };
    if digits.len() >= 3 && (0x31 <= digits[0] <= 0x39 || 0x41 <= digits[0] <= 0x46 || 0x61 <= digits[0]
        <= 0x66) && hex_digits_value(digits) is Some {
        lemma_hex_prefix_bound(digits, 3);
        lemma_hex_prefix(digits, 3);
        let one = digits.take(1);
        assert(one.drop_last() =~= Seq::<u8>::empty());
        assert(hex_digits_value(one.drop_last()) == Some(0nat));
        assert(one.last() == digits[0]);
        assert(hex_digit_value(digits[0]) is Some && hex_digit_value(digits[0]).unwrap() >= 1);
        assert(hex_digits_value(one).unwrap() >= 1);
        assert(pow16(2) == 256) by {
            reveal_with_fuel(pow16, 3);
        }
        let a = hex_digits_value(one).unwrap();
        let c = hex_digits_value(digits.take(3)).unwrap();
        assert(c >= 256) by (nonlinear_arith)
            requires c >= a * 256, a >= 1;
        assert(hex_digits_value(digits).unwrap() >= 256);
    }
}

/// Copy an interface name into a fixed-size name field, as
/// `strncpy(dst, name, dst.len() - 1)` followed by a terminating NUL: at most
/// `dst.len() - 1` bytes of the name, and NUL bytes over the whole rest of the
/// field, its last byte included.
pub fn copy_ifname(dst: &mut [u8], name: &str)
    requires
        old(dst).len() >= 1,
    ensures
        ({
            let n = if name.spec_bytes().len() < old(dst).len() - 1 {
                name.spec_bytes().len() as int
            } else {
                old(dst).len() - 1
            };
            final(dst)@ == name.spec_bytes().take(n) + Seq::new((old(dst).len() - n) as nat, |i: int| 0u8)
        }),
{
    let bytes = name.as_bytes();
    let len = if bytes.len() < dst.len() - 1 { bytes.len() } else { dst.len() - 1 };
    let mut i: usize = 0;
    while i < dst.len()
        invariant
            i <= dst.len(),
            len < dst.len(),
            len <= bytes.len(),
            dst@.len() == old(dst)@.len(),
            forall|j: int| 0 <= j < i && j < len ==> dst@[j] == bytes@[j],
            forall|j: int| len <= j < i ==> dst@[j] == 0u8,
        decreases dst.len() - i,
    {
        if i < len {
            dst[i] = bytes[i];
        } else {
            dst[i] = 0;
        }
        i = i + 1;
    }
    assert(dst@ =~= bytes@.take(len as int) + Seq::new((dst@.len() - len) as nat, |i: int| 0u8));
}

} // verus!

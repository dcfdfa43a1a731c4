//! Internet addresses as text.

use vstd::prelude::*;

use crate::encoding::hex_value;
use crate::numbers::{
    decimal_is_digits, decimal_text, digits_are_the_number_in_decimal, digits_value,
};
use crate::text::{
    char_views, chars_of, joined, joined_texts_are_the_pieces, one_of, part, pieces,
    pieces_give_the_text_back, split_at, whole_text_is_one_piece,
};

verus! {

/// An internet address as a number.
#[derive(Clone, Copy, Debug, PartialEq, Eq, Structural)]
pub enum IpAddr {
    V4(u32),
    V6(u128),
}

/// The number that one part of a dotted address stands for: up to three digits,
/// none of them a leading zero, and no more than 255.
pub open spec fn octet(s: Seq<char>) -> Option<int> {
    if !(1 <= s.len() <= 3) || (s.len() > 1 && s[0] == '0') {
        None
    } else {
        match digits_value(s) {
            Some(n) => if n <= 255 {
                Some(n as int)
            } else {
                None
            },
            None => None,
        }
    }
}

/// The address that four dotted parts stand for.
pub open spec fn dotted(s: Seq<char>) -> Option<int> {
    let parts = pieces(s, one_of(seq!['.']));
    if parts.len() == 4 && octet(parts[0]) is Some && octet(parts[1]) is Some && octet(parts[2])
        is Some && octet(parts[3]) is Some {
        Some(
            octet(parts[0])->0 * 16777216 + octet(parts[1])->0 * 65536 + octet(parts[2])->0 * 256
                + octet(parts[3])->0,
        )
    } else {
        None
    }
}

/// The number that hexadecimal digits stand for.
pub open spec fn hex_number(s: Seq<char>) -> Option<int>
    decreases s.len(),
{
    if s.len() == 0 {
        Some(0)
    } else {
        match (hex_number(s.drop_last()), hex_value(s.last())) {
            (Some(front), Some(last)) => Some(front * 16 + last),
            _ => None,
        }
    }
}

/// The number that one group stands for: up to four hexadecimal digits.
pub open spec fn group(s: Seq<char>) -> Option<int> {
    if 1 <= s.len() <= 4 {
        hex_number(s)
    } else {
        None
    }
}

/// The groups that texts stand for, if each of them does.
pub open spec fn group_list(parts: Seq<Seq<char>>) -> Option<Seq<int>>
    decreases parts.len(),
{
    if parts.len() == 0 {
        Some(Seq::empty())
    } else {
        match (group_list(parts.drop_last()), group(parts.last())) {
            (Some(front), Some(last)) => Some(front.push(last)),
            _ => None,
        }
    }
}

/// The groups between colons, of which the last two may be a dotted address.
pub open spec fn groups(s: Seq<char>, dotted_end: bool) -> Option<Seq<int>> {
    if s.len() == 0 {
        Some(Seq::empty())
    } else {
        let parts = pieces(s, one_of(seq![':']));
        match dotted(parts.last()) {
            Some(address) => if dotted_end {
                match group_list(parts.drop_last()) {
                    Some(front) => Some(front.push(address / 65536).push(address % 65536)),
                    None => None,
                }
            } else {
                None
            },
            None => group_list(parts),
        }
    }
}

/// Where the first two colons in a row stand.
pub open spec fn double_colon(s: Seq<char>) -> Option<int>
    decreases s.len(),
{
    if s.len() < 2 {
        None
    } else {
        match double_colon(s.drop_last()) {
            Some(i) => Some(i),
            None => if s[s.len() - 2] == ':' && s[s.len() - 1] == ':' {
                Some(s.len() - 2)
            } else {
                None
            },
        }
    }
}

/// Eight groups as one number.
pub open spec fn groups_number(g: Seq<int>) -> int {
    g[0] * 0x1_0000_0000_0000_0000_0000_0000_0000 + g[1] * 0x1_0000_0000_0000_0000_0000_0000 + g[2]
        * 0x1_0000_0000_0000_0000_0000 + g[3] * 0x1_0000_0000_0000_0000 + g[4] * 0x1_0000_0000_0000
        + g[5] * 0x1_0000_0000 + g[6] * 0x1_0000 + g[7]
}

/// Groups with zeros between the front and the back, eight in all.
pub open spec fn filled(front: Seq<int>, back: Seq<int>) -> Seq<int> {
    front + Seq::new((8 - front.len() - back.len()) as nat, |i: int| 0int) + back
}

/// The address that groups between colons stand for. Two colons in a row stand
/// for at least one group of zeros.
pub open spec fn coloned(s: Seq<char>) -> Option<int> {
    match double_colon(s) {
        None => match groups(s, true) {
            Some(g) => if g.len() == 8 {
                Some(groups_number(g))
            } else {
                None
            },
            None => None,
        },
        Some(at) => match (groups(s.take(at), false), groups(s.skip(at + 2), true)) {
            (Some(front), Some(back)) => if front.len() + back.len() <= 7 {
                Some(groups_number(filled(front, back)))
            } else {
                None
            },
            _ => None,
        },
    }
}

fn read_octet(chars: &Vec<char>) -> (r: Option<u32>)
    ensures
        octet(chars@) == (match r {
            Some(n) => Some(n as int),
            None => None,
        }),
        r matches Some(n) ==> n <= 255,
{
    let len: usize = chars.len();
    if len < 1 || len > 3 || (len > 1 && chars[0] == '0') {
        return None;
    }
    let mut value: u32 = 0;
    let mut i: usize = 0;
    assert(chars@.take(0) =~= Seq::<char>::empty());
    while i < len
        invariant
            i <= len,
            len == chars@.len(),
            len <= 3,
            digits_value(chars@.take(i as int)) == Some(value as nat),
            i == 0 ==> value == 0,
            i == 1 ==> value <= 9,
            i == 2 ==> value <= 99,
            i == 3 ==> value <= 999,
        decreases len - i,
    {
        let c = chars[i];
        proof {
            assert(chars@.take(i + 1).drop_last() =~= chars@.take(i as int));
            assert(chars@.take(i + 1).last() == c);
        }
        if c < '0' || c > '9' {
            proof {
                lemma_digits_spoiled(chars@, i + 1);
            }
            return None;
        }
        value = value * 10 + (c as u32 - 0x30);
        i += 1;
    }
    assert(chars@.take(i as int) =~= chars@);
    if value <= 255 {
        Some(value)
    } else {
        None
    }
}

proof fn lemma_digits_spoiled(s: Seq<char>, n: int)
    requires
        0 <= n <= s.len(),
        digits_value(s.take(n)) is None,
    ensures
        digits_value(s) is None,
    decreases s.len() - n,
{
    if n == s.len() {
        assert(s.take(n) =~= s);
    } else {
        assert(s.take(n + 1).drop_last() =~= s.take(n));
        lemma_digits_spoiled(s, n + 1);
    }
}

/// The address that four dotted parts stand for.
pub fn read_dotted(chars: &Vec<char>) -> (r: Option<u32>)
    ensures
        dotted(chars@) == (match r {
            Some(n) => Some(n as int),
            None => None,
        }),
{
    let separators: [char; 1] = ['.'];
    let parts = split_at(chars.as_slice(), &separators);
    assert(separators@ =~= seq!['.']);
    let ghost views = char_views(parts@);
    if parts.len() != 4 {
        return None;
    }
    assert(views[0] == parts@[0]@ && views[1] == parts@[1]@ && views[2] == parts@[2]@ && views[3]
        == parts@[3]@);
    match (
        read_octet(&parts[0]),
        read_octet(&parts[1]),
        read_octet(&parts[2]),
        read_octet(&parts[3]),
    ) {
        (Some(a), Some(b), Some(c), Some(d)) => Some(a * 16777216 + b * 65536 + c * 256 + d),
        _ => None,
    }
}

fn read_group(chars: &Vec<char>) -> (r: Option<u16>)
    ensures
        group(chars@) == (match r {
            Some(n) => Some(n as int),
            None => None,
        }),
{
    let len: usize = chars.len();
    if len < 1 || len > 4 {
        return None;
    }
    let mut value: u32 = 0;
    let mut i: usize = 0;
    assert(chars@.take(0) =~= Seq::<char>::empty());
    while i < len
        invariant
            i <= len,
            len == chars@.len(),
            len <= 4,
            hex_number(chars@.take(i as int)) == Some(value as int),
            i == 0 ==> value == 0,
            i == 1 ==> value <= 0xf,
            i == 2 ==> value <= 0xff,
            i == 3 ==> value <= 0xfff,
            i == 4 ==> value <= 0xffff,
        decreases len - i,
    {
        let c = chars[i];
        proof {
            assert(chars@.take(i + 1).drop_last() =~= chars@.take(i as int));
            assert(chars@.take(i + 1).last() == c);
        }
        let digit: u32 = if '0' <= c && c <= '9' {
            c as u32 - 0x30
        } else if 'a' <= c && c <= 'f' {
            c as u32 - 0x61 + 10
        } else if 'A' <= c && c <= 'F' {
            c as u32 - 0x41 + 10
        } else {
            proof {
                lemma_hex_spoiled(chars@, i + 1);
            }
            return None;
        };
        value = value * 16 + digit;
        i += 1;
    }
    assert(chars@.take(i as int) =~= chars@);
    Some(value as u16)
}

proof fn lemma_hex_spoiled(s: Seq<char>, n: int)
    requires
        0 <= n <= s.len(),
        hex_number(s.take(n)) is None,
    ensures
        hex_number(s) is None,
    decreases s.len() - n,
{
    if n == s.len() {
        assert(s.take(n) =~= s);
    } else {
        assert(s.take(n + 1).drop_last() =~= s.take(n));
        lemma_hex_spoiled(s, n + 1);
    }
}

/// The numbers of a vector.
pub open spec fn numbers(v: Seq<u16>) -> Seq<int> {
    Seq::new(v.len(), |i: int| v[i] as int)
}

fn read_group_list(parts: &Vec<Vec<char>>, count: usize) -> (r: Option<Vec<u16>>)
    requires
        count <= parts@.len(),
    ensures
        group_list(char_views(parts@).take(count as int)) == (match r {
            Some(g) => Some(numbers(g@)),
            None => None,
        }),
{
    let ghost views = char_views(parts@);
    let mut out: Vec<u16> = Vec::new();
    let mut i: usize = 0;
    assert(views.take(0) =~= Seq::<Seq<char>>::empty());
    assert(numbers(out@) =~= Seq::<int>::empty());
    while i < count
        invariant
            i <= count <= parts@.len(),
            views == char_views(parts@),
            group_list(views.take(i as int)) == Some(numbers(out@)),
        decreases count - i,
    {
        let ghost before = numbers(out@);
        proof {
            assert(views[i as int] == parts@[i as int]@);
            assert(views.take(i + 1).drop_last() =~= views.take(i as int));
            assert(views.take(i + 1).last() == views[i as int]);
        }
        match read_group(&parts[i]) {
            Some(g) => {
                out.push(g);
                assert(numbers(out@) =~= before.push(g as int));
            },
            None => {
                proof {
                    lemma_groups_spoiled(views.take(count as int), i + 1);
                }
                return None;
            },
        }
        i += 1;
    }
    Some(out)
}

proof fn lemma_groups_spoiled(parts: Seq<Seq<char>>, n: int)
    requires
        0 <= n <= parts.len(),
        group_list(parts.take(n)) is None,
    ensures
        group_list(parts) is None,
    decreases parts.len() - n,
{
    if n == parts.len() {
        assert(parts.take(n) =~= parts);
    } else {
        assert(parts.take(n + 1).drop_last() =~= parts.take(n));
        lemma_groups_spoiled(parts, n + 1);
    }
}

fn read_groups(chars: &Vec<char>, dotted_end: bool) -> (r: Option<Vec<u16>>)
    ensures
        groups(chars@, dotted_end) == (match r {
            Some(g) => Some(numbers(g@)),
            None => None,
        }),
{
    if chars.len() == 0 {
        let none: Vec<u16> = Vec::new();
        assert(numbers(none@) =~= Seq::<int>::empty());
        return Some(none);
    }
    let separators: [char; 1] = [':'];
    let parts = split_at(chars.as_slice(), &separators);
    assert(separators@ =~= seq![':']);
    let ghost views = char_views(parts@);
    let count: usize = parts.len();
    assert(views.last() == parts@[count - 1]@);
    match read_dotted(&parts[count - 1]) {
        Some(address) => {
            if !dotted_end {
                return None;
            }
            assert(views.drop_last() =~= views.take(count - 1));
            match read_group_list(&parts, count - 1) {
                Some(front) => {
                    let mut out = front;
                    let ghost before = numbers(out@);
                    out.push((address / 65536) as u16);
                    out.push((address % 65536) as u16);
                    assert(numbers(out@) =~= before.push(address as int / 65536).push(
                        address as int % 65536,
                    ));
                    Some(out)
                },
                None => None,
            }
        },
        None => {
            assert(views.take(count as int) =~= views);
            read_group_list(&parts, count)
        },
    }
}

fn find_double_colon(chars: &Vec<char>) -> (r: Option<usize>)
    ensures
        double_colon(chars@) == (match r {
            Some(i) => Some(i as int),
            None => None,
        }),
        r matches Some(i) ==> i + 2 <= chars@.len(),
{
    let mut i: usize = 0;
    if chars.len() < 2 {
        return None;
    }
    while i + 1 < chars.len()
        invariant
            i + 1 <= chars.len(),
            double_colon(chars@.take(i + 1)) is None,
        decreases chars.len() - i,
    {
        let ghost next = chars@.take(i + 2);
        proof {
            assert(next.drop_last() =~= chars@.take(i + 1));
            assert(next[next.len() - 2] == chars@[i as int]);
            assert(next[next.len() - 1] == chars@[i + 1]);
        }
        if chars[i] == ':' && chars[i + 1] == ':' {
            proof {
                lemma_double_colon_stays(chars@, i + 2);
            }
            return Some(i);
        }
        i += 1;
    }
    assert(chars@.take(i + 1) =~= chars@);
    None
}

proof fn lemma_double_colon_stays(s: Seq<char>, n: int)
    requires
        0 <= n <= s.len(),
        double_colon(s.take(n)) is Some,
    ensures
        double_colon(s) == double_colon(s.take(n)),
    decreases s.len() - n,
{
    if n == s.len() {
        assert(s.take(n) =~= s);
    } else {
        assert(s.take(n + 1).drop_last() =~= s.take(n));
        lemma_double_colon_stays(s, n + 1);
    }
}

fn number_of(g: &Vec<u16>) -> (r: u128)
    requires
        g@.len() == 8,
    ensures
        r == groups_number(numbers(g@)),
{
    let high: u128 = g[0] as u128 * 0x1_0000_0000_0000 + g[1] as u128 * 0x1_0000_0000 + g[2] as u128
        * 0x1_0000 + g[3] as u128;
    let low: u128 = g[4] as u128 * 0x1_0000_0000_0000 + g[5] as u128 * 0x1_0000_0000 + g[6] as u128
        * 0x1_0000 + g[7] as u128;
    high * 0x1_0000_0000_0000_0000 + low
}

/// The address that groups between colons stand for.
pub fn read_coloned(chars: &Vec<char>) -> (r: Option<u128>)
    ensures
        coloned(chars@) == (match r {
            Some(n) => Some(n as int),
            None => None,
        }),
{
    match find_double_colon(chars) {
        None => match read_groups(chars, true) {
            Some(g) => {
                if g.len() == 8 {
                    Some(number_of(&g))
                } else {
                    None
                }
            },
            None => None,
        },
        Some(at) => {
            let total: usize = chars.len();
            let head = part(chars.as_slice(), 0, at);
            let tail = part(chars.as_slice(), at + 2, total);
            assert(head@ =~= chars@.take(at as int));
            assert(tail@ =~= chars@.skip(at + 2));
            match (read_groups(&head, false), read_groups(&tail, true)) {
                (Some(front), Some(back)) => {
                    let given: usize = front.len();
                    let ending: usize = back.len();
                    if given > 7 || ending > 7 || given + ending > 7 {
                        return None;
                    }
                    let ghost before = numbers(front@);
                    let ghost after = numbers(back@);
                    let mut all = front;
                    while all.len() < 8 - ending
                        invariant
                            ending <= 7,
                            given == before.len(),
                            given + ending <= 7,
                            given <= all@.len() <= 8 - ending,
                            numbers(all@) == before + Seq::new(
                                (all@.len() - given) as nat,
                                |i: int| 0int,
                            ),
                        decreases 8 - ending - all@.len(),
                    {
                        let ghost shorter = numbers(all@);
                        all.push(0);
                        assert(numbers(all@) =~= shorter.push(0));
                        assert(numbers(all@) =~= before + Seq::new(
                            (all@.len() - given) as nat,
                            |i: int| 0int,
                        ));
                    }
                    let ghost padded = numbers(all@);
                    let mut k: usize = 0;
                    assert(padded =~= padded + after.take(0));
                    while k < ending
                        invariant
                            k <= ending,
                            ending == back@.len(),
                            after == numbers(back@),
                            all@.len() == padded.len() + k,
                            numbers(all@) == padded + after.take(k as int),
                        decreases ending - k,
                    {
                        let ghost shorter = numbers(all@);
                        all.push(back[k]);
                        assert(numbers(all@) =~= shorter.push(after[k as int]));
                        k += 1;
                        assert(numbers(all@) =~= padded + after.take(k as int));
                    }
                    proof {
                        assert(after.take(ending as int) =~= after);
                        assert(numbers(all@) =~= filled(before, after));
                    }
                    Some(number_of(&all))
                },
                _ => None,
            }
        },
    }
}

/// The address that a text stands for: dotted, or between colons.
pub open spec fn address_of(s: Seq<char>) -> Option<IpAddr> {
    match dotted(s) {
        Some(n) => Some(IpAddr::V4(n as u32)),
        None => match coloned(s) {
            Some(n) => Some(IpAddr::V6(n as u128)),
            None => None,
        },
    }
}

/// The address that a text stands for.
pub fn parse_address(text: &str) -> (r: Option<IpAddr>)
    ensures
        r == address_of(text@),
{
    let chars = chars_of(text);
    match read_dotted(&chars) {
        Some(n) => Some(IpAddr::V4(n)),
        None => match read_coloned(&chars) {
            Some(n) => Some(IpAddr::V6(n)),
            None => None,
        },
    }
}

/// A part of a dotted address is a number up to 255 in decimal, and nothing else.
pub proof fn dotted_part_is_decimal(s: Seq<char>, n: int)
    ensures
        octet(s) == Some(n) <==> 0 <= n <= 255 && s == decimal_text(n as nat),
{
    if octet(s) == Some(n) {
        digits_are_the_number_in_decimal(s);
    }
    if 0 <= n <= 255 && s == decimal_text(n as nat) {
        decimal_is_digits(n as nat);
    }
}

/// An address as four numbers in decimal with dots between them.
pub open spec fn dotted_text(n: int) -> Seq<char> {
    joined(
        seq![
            decimal_text((n / 16777216) as nat),
            decimal_text((n / 65536 % 256) as nat),
            decimal_text((n / 256 % 256) as nat),
            decimal_text((n % 256) as nat),
        ],
        '.',
    )
}

proof fn lemma_no_dot(s: Seq<char>)
    requires
        digits_value(s) is Some,
    ensures
        !s.contains('.'),
        !s.contains(':'),
    decreases s.len(),
{
    if s.len() > 0 {
        lemma_no_dot(s.drop_last());
        assert forall|i: int| 0 <= i < s.len() implies s[i] != '.' && s[i] != ':' by {
            if i < s.len() - 1 {
                assert(s.drop_last()[i] == s[i]);
                assert(s.drop_last().contains(s[i]));
            }
        }
    }
}

proof fn lemma_four_bytes(w: int, x: int, y: int, z: int, n: int)
    requires
        0 <= w <= 255,
        0 <= x <= 255,
        0 <= y <= 255,
        0 <= z <= 255,
        n == w * 16777216 + x * 65536 + y * 256 + z,
    ensures
        n / 16777216 == w,
        n / 65536 % 256 == x,
        n / 256 % 256 == y,
        n % 256 == z,
        0 <= n <= 0xffff_ffff,
{
    assert(n / 256 == w * 65536 + x * 256 + y);
    assert(n / 65536 == w * 256 + x);
}

proof fn lemma_read_dotted(s: Seq<char>, n: int)
    requires
        dotted(s) == Some(n),
    ensures
        0 <= n <= 0xffff_ffff,
        s == dotted_text(n),
{
    let parts = pieces(s, one_of(seq!['.']));
    let w = octet(parts[0])->0;
    let x = octet(parts[1])->0;
    let y = octet(parts[2])->0;
    let z = octet(parts[3])->0;
    dotted_part_is_decimal(parts[0], w);
    dotted_part_is_decimal(parts[1], x);
    dotted_part_is_decimal(parts[2], y);
    dotted_part_is_decimal(parts[3], z);
    lemma_four_bytes(w, x, y, z, n);
    pieces_give_the_text_back(s, '.');
    assert(parts =~= seq![
        decimal_text(w as nat),
        decimal_text(x as nat),
        decimal_text(y as nat),
        decimal_text(z as nat),
    ]);
}

proof fn lemma_write_dotted(n: int)
    requires
        0 <= n <= 0xffff_ffff,
    ensures
        dotted(dotted_text(n)) == Some(n),
{
    let a = n / 16777216;
    let b = n / 65536 % 256;
    let c = n / 256 % 256;
    let d = n % 256;
    assert(0 <= a <= 255 && 0 <= b <= 255 && 0 <= c <= 255 && 0 <= d <= 255);
    assert(n == a * 16777216 + b * 65536 + c * 256 + d) by {
        assert(n / 65536 == n / 256 / 256);
        assert(n / 16777216 == n / 65536 / 256);
    }
    let texts = seq![
        decimal_text(a as nat),
        decimal_text(b as nat),
        decimal_text(c as nat),
        decimal_text(d as nat),
    ];
    assert forall|k: int| 0 <= k < 4 implies !(#[trigger] texts[k]).contains('.') by {
        decimal_is_digits(a as nat);
        decimal_is_digits(b as nat);
        decimal_is_digits(c as nat);
        decimal_is_digits(d as nat);
        lemma_no_dot(texts[k]);
    }
    joined_texts_are_the_pieces(texts, '.');
    dotted_part_is_decimal(texts[0], a);
    dotted_part_is_decimal(texts[1], b);
    dotted_part_is_decimal(texts[2], c);
    dotted_part_is_decimal(texts[3], d);
}

/// A dotted address is read exactly where it is the text of the address.
pub proof fn dotted_address_is_its_text(s: Seq<char>, n: int)
    ensures
        dotted(s) == Some(n) <==> 0 <= n <= 0xffff_ffff && s == dotted_text(n),
{
    if dotted(s) == Some(n) {
        lemma_read_dotted(s, n);
    }
    if 0 <= n <= 0xffff_ffff && s == dotted_text(n) {
        lemma_write_dotted(n);
    }
}

/// A group of a longer address is up to four hexadecimal digits, each worth sixteen times
/// the next.
pub proof fn group_is_hexadecimal(s: Seq<char>)
    ensures
        group(s) is Some <==> 1 <= s.len() <= 4 && forall|i: int|
            0 <= i < s.len() ==> hex_value(#[trigger] s[i]) is Some,
        group(s) is Some && s.len() == 1 ==> group(s)->0 == hex_value(s[0])->0,
        group(s) is Some && s.len() == 2 ==> group(s)->0 == 16 * hex_value(s[0])->0 + hex_value(
            s[1],
        )->0,
        group(s) is Some && s.len() == 3 ==> group(s)->0 == 256 * hex_value(s[0])->0 + 16
            * hex_value(s[1])->0 + hex_value(s[2])->0,
        group(s) is Some && s.len() == 4 ==> group(s)->0 == 4096 * hex_value(s[0])->0 + 256
            * hex_value(s[1])->0 + 16 * hex_value(s[2])->0 + hex_value(s[3])->0,
{
    lemma_hex_number(s);
    reveal_with_fuel(hex_number, 5);
}

proof fn lemma_hex_number(s: Seq<char>)
    ensures
        hex_number(s) is Some <==> forall|i: int|
            0 <= i < s.len() ==> hex_value(#[trigger] s[i]) is Some,
    decreases s.len(),
{
    if s.len() > 0 {
        let front = s.drop_last();
        lemma_hex_number(front);
        assert forall|i: int| 0 <= i < front.len() implies #[trigger] front[i] == s[i] by {}
        if hex_number(s) is Some {
            assert forall|i: int| 0 <= i < s.len() implies hex_value(#[trigger] s[i]) is Some by {
                if i < front.len() {
                    assert(hex_value(front[i]) is Some);
                }
            }
        }
        if forall|i: int| 0 <= i < s.len() ==> hex_value(#[trigger] s[i]) is Some {
            assert forall|i: int| 0 <= i < front.len() implies hex_value(#[trigger] front[i])
                is Some by {
                assert(hex_value(s[i]) is Some);
            }
            assert(hex_value(s[s.len() - 1]) is Some);
        }
    }
}

/// Texts that are groups of a longer address.
pub open spec fn all_groups(parts: Seq<Seq<char>>) -> bool {
    forall|k: int| 0 <= k < parts.len() ==> group(#[trigger] parts[k]) is Some
}

/// What each of the groups stands for.
pub open spec fn group_values(parts: Seq<Seq<char>>) -> Seq<int> {
    parts.map_values(|p: Seq<char>| group(p)->0)
}

/// No two colons stand in a row.
spec fn colons_apart(s: Seq<char>) -> bool {
    forall|i: int| 0 <= i < s.len() - 1 ==> !(#[trigger] s[i] == ':' && s[i + 1] == ':')
}

proof fn lemma_group_plain(s: Seq<char>)
    requires
        group(s) is Some,
    ensures
        s.len() > 0,
        !s.contains(':'),
        !s.contains('.'),
        dotted(s) is None,
{
    lemma_hex_number(s);
    assert forall|i: int| 0 <= i < s.len() implies s[i] != ':' && s[i] != '.' by {
        assert(hex_value(s[i]) is Some);
    }
    whole_text_is_one_piece(s, one_of(seq!['.']));
}

proof fn lemma_group_list(parts: Seq<Seq<char>>)
    requires
        all_groups(parts),
    ensures
        group_list(parts) == Some(group_values(parts)),
    decreases parts.len(),
{
    if parts.len() > 0 {
        let front = parts.drop_last();
        assert forall|k: int| 0 <= k < front.len() implies group(#[trigger] front[k]) is Some by {
            assert(front[k] == parts[k]);
        }
        lemma_group_list(front);
        assert(group(parts[parts.len() - 1]) is Some);
        assert(group_values(front).push(group(parts.last())->0) =~= group_values(parts));
    } else {
        assert(group_values(parts) =~= Seq::<int>::empty());
    }
}

proof fn lemma_joined_groups(parts: Seq<Seq<char>>)
    requires
        all_groups(parts),
    ensures
        colons_apart(joined(parts, ':')),
        joined(parts, ':').len() > 0 <==> parts.len() > 0,
        parts.len() > 0 ==> joined(parts, ':')[0] != ':' && joined(parts, ':').last() != ':',
    decreases parts.len(),
{
    if parts.len() > 0 {
        let last = parts[parts.len() - 1];
        lemma_group_plain(last);
        assert(!last.contains(':'));
        assert forall|i: int| 0 <= i < last.len() implies last[i] != ':' by {
            assert(last.contains(last[i]));
        }
        if parts.len() > 1 {
            let front = parts.drop_last();
            assert forall|k: int| 0 <= k < front.len() implies group(#[trigger] front[k])
                is Some by {
                assert(front[k] == parts[k]);
            }
            lemma_joined_groups(front);
            let head = joined(front, ':');
            let all = joined(parts, ':');
            assert(all == head.push(':') + last);
            assert forall|i: int| 0 <= i < all.len() - 1 implies !(#[trigger] all[i] == ':'
                && all[i + 1] == ':') by {
                if i < head.len() - 1 {
                    assert(!(head[i] == ':' && head[i + 1] == ':'));
                } else if i == head.len() - 1 {
                    assert(head[i] != ':');
                } else if i >= head.len() {
                    assert(all[i + 1] == last[i - head.len()]);
                }
            }
        }
    }
}

proof fn lemma_no_double_colon(s: Seq<char>)
    requires
        colons_apart(s),
    ensures
        double_colon(s) is None,
    decreases s.len(),
{
    if s.len() >= 2 {
        let short = s.drop_last();
        assert forall|i: int| 0 <= i < short.len() - 1 implies !(#[trigger] short[i] == ':'
            && short[i + 1] == ':') by {
            assert(!(s[i] == ':' && s[i + 1] == ':'));
        }
        lemma_no_double_colon(short);
        let i = s.len() - 2;
        assert(!(s[i] == ':' && s[i + 1] == ':'));
    }
}

proof fn lemma_first_double_colon(a: Seq<char>, b: Seq<char>)
    requires
        colons_apart(a),
        a.len() > 0 ==> a.last() != ':',
    ensures
        double_colon(a + seq![':', ':'] + b) == Some(a.len() as int),
    decreases b.len(),
{
    let all = a + seq![':', ':'] + b;
    if b.len() > 0 {
        assert(all.drop_last() =~= a + seq![':', ':'] + b.drop_last());
        lemma_first_double_colon(a, b.drop_last());
    } else {
        let short = all.drop_last();
        assert(short =~= a.push(':'));
        assert forall|i: int| 0 <= i < short.len() - 1 implies !(#[trigger] short[i] == ':'
            && short[i + 1] == ':') by {
            if i < a.len() - 1 {
                assert(!(a[i] == ':' && a[i + 1] == ':'));
            } else {
                assert(short[i] == a.last());
            }
        }
        lemma_no_double_colon(short);
        assert(all[all.len() - 2] == ':' && all[all.len() - 1] == ':');
    }
}

proof fn lemma_groups_read(parts: Seq<Seq<char>>, dotted_end: bool)
    requires
        all_groups(parts),
    ensures
        groups(joined(parts, ':'), dotted_end) == Some(group_values(parts)),
{
    lemma_joined_groups(parts);
    lemma_group_list(parts);
    if parts.len() > 0 {
        assert forall|k: int| 0 <= k < parts.len() implies !(#[trigger] parts[k]).contains(':') by {
            lemma_group_plain(parts[k]);
        }
        joined_texts_are_the_pieces(parts, ':');
        assert(group(parts[parts.len() - 1]) is Some);
        lemma_group_plain(parts.last());
    } else {
        assert(group_values(parts) =~= Seq::<int>::empty());
    }
}

/// Eight groups between colons are an address, and fewer or more are none.
pub proof fn eight_groups_are_an_address(parts: Seq<Seq<char>>)
    requires
        parts.len() > 0,
        all_groups(parts),
    ensures
        coloned(joined(parts, ':')) == (if parts.len() == 8 {
            Some(groups_number(group_values(parts)))
        } else {
            None
        }),
{
    lemma_joined_groups(parts);
    lemma_no_double_colon(joined(parts, ':'));
    lemma_groups_read(parts, true);
}

/// Two colons in a row stand for as many groups of zeros as are missing to eight, and for
/// one at least.
pub proof fn two_colons_stand_for_zeros(front: Seq<Seq<char>>, back: Seq<Seq<char>>)
    requires
        all_groups(front),
        all_groups(back),
    ensures
        coloned(joined(front, ':') + seq![':', ':'] + joined(back, ':')) == (if front.len()
            + back.len() <= 7 {
            Some(
                groups_number(
                    group_values(front) + Seq::new(
                        (8 - front.len() - back.len()) as nat,
                        |i: int| 0int,
                    ) + group_values(back),
                ),
            )
        } else {
            None
        }),
{
    let a = joined(front, ':');
    let b = joined(back, ':');
    let all = a + seq![':', ':'] + b;
    lemma_joined_groups(front);
    lemma_first_double_colon(a, b);
    lemma_groups_read(front, false);
    lemma_groups_read(back, true);
    assert(all.take(a.len() as int) =~= a);
    assert(all.skip(a.len() as int + 2) =~= b);
}

/// Each group of an address is worth 65536 times the next.
pub proof fn groups_make_up_the_number(g: Seq<int>)
    requires
        g.len() == 8,
    ensures
        groups_number(g) == ((((((g[0] * 65536 + g[1]) * 65536 + g[2]) * 65536 + g[3]) * 65536
            + g[4]) * 65536 + g[5]) * 65536 + g[6]) * 65536 + g[7],
{
}

} // verus!

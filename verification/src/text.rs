//! The text form of blocks and sets: how `a.b.c.d/p` is written and read,
//! and the messages of the errors.

use vstd::prelude::*;
use vstd::string::*;
use vstd::slice::slice_subrange;

use crate::cidr::{host_mask, Cidr};
use crate::error::Error;
use crate::fcidr::{covered, Fcidr};

verus! {

/// The character that stands for a decimal digit.
pub open spec fn digit_char(d: nat) -> char {
    (48 + d) as char
}

/// A number in decimal, without leading zeros.
pub open spec fn decimal_text(n: nat) -> Seq<char>
    decreases n,
{
    if n < 10 {
        seq![digit_char(n)]
    } else {
        decimal_text(n / 10).push(digit_char(n % 10))
    }
}

/// The four octets of an address, the highest first.
pub open spec fn octets(address: u32) -> Seq<u8> {
    seq![
        ((address >> 24) & 0xff) as u8,
        ((address >> 16) & 0xff) as u8,
        ((address >> 8) & 0xff) as u8,
        (address & 0xff) as u8,
    ]
}

/// An address as a dotted quad: its four octets in decimal, with a dot
/// between them.
pub open spec fn address_text(address: u32) -> Seq<char> {
    decimal_text(octets(address)[0] as nat) + seq!['.'] + decimal_text(octets(address)[1] as nat)
        + seq!['.'] + decimal_text(octets(address)[2] as nat) + seq!['.'] + decimal_text(
        octets(address)[3] as nat,
    )
}

/// A block as `a.b.c.d/p`.
pub open spec fn cidr_text(network: u32, prefix: u8) -> Seq<char> {
    address_text(network) + seq!['/'] + decimal_text(prefix as nat)
}

/// What is said of a prefix that is longer than 32 bits.
pub open spec fn invalid_prefix_text(prefix: u8) -> Seq<char> {
    "network prefix '"@ + decimal_text(prefix as nat) + "' must be 32 or less"@
}

/// What is said of an address that has bits set below the prefix.
pub open spec fn invalid_network_text(network: u32, prefix: u8) -> Seq<char> {
    "network address '"@ + address_text(network) + "' must be clear after the first "@
        + decimal_text(prefix as nat) + " bits"@
}

fn digit_text(d: u8) -> (r: &'static str)
    requires
        d < 10,
    ensures
        r@ == seq![digit_char(d as nat)],
{
    proof {
        reveal_strlit("0");
        reveal_strlit("1");
        reveal_strlit("2");
        reveal_strlit("3");
        reveal_strlit("4");
        reveal_strlit("5");
        reveal_strlit("6");
        reveal_strlit("7");
        reveal_strlit("8");
        reveal_strlit("9");
    }
    let r = match d {
        0 => "0",
        1 => "1",
        2 => "2",
        3 => "3",
        4 => "4",
        5 => "5",
        6 => "6",
        7 => "7",
        8 => "8",
        _ => "9",
    };
    assert(r@ =~= seq![digit_char(d as nat)]);
    r
}

/// Writes a number in decimal at the end of the text.
pub(crate) fn push_decimal(out: &mut String, n: u8)
    ensures
        final(out)@ == old(out)@ + decimal_text(n as nat),
{
    proof {
        reveal_with_fuel(decimal_text, 3);
    }
    if n >= 100 {
        out.append(digit_text(n / 100));
    }
    if n >= 10 {
        out.append(digit_text((n / 10) % 10));
    }
    out.append(digit_text(n % 10));
    assert(out@ =~= old(out)@ + decimal_text(n as nat));
}

/// Writes an address as a dotted quad at the end of the text.
pub(crate) fn push_address(out: &mut String, address: u32)
    ensures
        final(out)@ == old(out)@ + address_text(address),
{
    proof {
        reveal_strlit(".");
        assert((address >> 24) & 0xff <= 0xff) by (bit_vector);
        assert((address >> 16) & 0xff <= 0xff) by (bit_vector);
        assert((address >> 8) & 0xff <= 0xff) by (bit_vector);
        assert(address & 0xff <= 0xff) by (bit_vector);
    }
    push_decimal(out, ((address >> 24) & 0xff) as u8);
    out.append(".");
    push_decimal(out, ((address >> 16) & 0xff) as u8);
    out.append(".");
    push_decimal(out, ((address >> 8) & 0xff) as u8);
    out.append(".");
    push_decimal(out, (address & 0xff) as u8);
    assert(out@ =~= old(out)@ + address_text(address));
}

pub(crate) fn invalid_prefix_message(prefix: u8) -> (r: String)
    ensures
        r@ == invalid_prefix_text(prefix),
{
    let mut out = String::from_str("network prefix '");
    push_decimal(&mut out, prefix);
    out.append("' must be 32 or less");
    out
}

pub(crate) fn invalid_network_message(network: u32, prefix: u8) -> (r: String)
    ensures
        r@ == invalid_network_text(network, prefix),
{
    let mut out = String::from_str("network address '");
    push_address(&mut out, network);
    out.append("' must be clear after the first ");
    push_decimal(&mut out, prefix);
    out.append(" bits");
    out
}

impl Cidr {
    /// The block as `a.b.c.d/p`.
    pub open spec fn text(&self) -> Seq<char> {
        cidr_text(self.network(), self.prefix())
    }

    /// The block as `a.b.c.d/p`, with the octets and the prefix in decimal.
    pub fn to_string(&self) -> (r: String)
        ensures
            r@ == self.text(),
    {
        proof {
            reveal_strlit("/");
        }
        let mut out = String::new();
        push_address(&mut out, self.network());
        out.append("/");
        push_decimal(&mut out, self.prefix());
        assert(out@ =~= self.text());
        out
    }
}

/// Whether the character is a decimal digit.
pub open spec fn is_digit(c: char) -> bool {
    '0' <= c && c <= '9'
}

/// The number that a decimal digit stands for.
pub open spec fn digit_value(c: char) -> nat {
    (c as nat - 48) as nat
}

/// The number that a run of decimal digits stands for.
pub open spec fn decimal_value(s: Seq<char>) -> nat
    decreases s.len(),
{
    if s.len() == 0 {
        0
    } else {
        decimal_value(s.drop_last()) * 10 + digit_value(s.last())
    }
}

/// Whether every character of the text is a decimal digit.
pub open spec fn all_digits(s: Seq<char>) -> bool {
    forall|i: int| 0 <= i < s.len() ==> is_digit(#[trigger] s[i])
}

/// The number up to 255 that the text is: one or more decimal digits, and
/// nothing else. Leading zeros are taken.
pub open spec fn number(s: Seq<char>) -> Option<u8> {
    if s.len() > 0 && all_digits(s) && decimal_value(s) <= 255 {
        Some(decimal_value(s) as u8)
    } else {
        None
    }
}

/// Whether `i` is where `c` first stands in the text at or after `from`, or
/// the length of the text if it stands nowhere there.
pub open spec fn is_position(s: Seq<char>, c: char, from: int, i: int) -> bool {
    &&& from <= i <= s.len()
    &&& forall|j: int| from <= j < i ==> #[trigger] s[j] != c
    &&& i < s.len() ==> s[i] == c
}

/// Where `c` first stands in the text at or after `from`; the length of the
/// text if it stands nowhere there.
pub open spec fn position(s: Seq<char>, c: char, from: int) -> int {
    choose|i: int| is_position(s, c, from, i)
}

/// The address that has the four octets, the highest first.
pub open spec fn join_octets(a: u8, b: u8, c: u8, d: u8) -> u32 {
    ((a as u32) << 24) | ((b as u32) << 16) | ((c as u32) << 8) | (d as u32)
}

/// The address that a dotted quad stands for: four numbers up to 255 with a
/// dot between them.
pub open spec fn address(s: Seq<char>) -> Option<u32> {
    let n = s.len() as int;
    let d1 = position(s, '.', 0);
    let d2 = position(s, '.', d1 + 1);
    let d3 = position(s, '.', d2 + 1);
    if d1 < n && d2 < n && d3 < n {
        match (
            number(s.subrange(0, d1)),
            number(s.subrange(d1 + 1, d2)),
            number(s.subrange(d2 + 1, d3)),
            number(s.subrange(d3 + 1, n)),
        ) {
            (Some(a), Some(b), Some(c), Some(d)) => Some(join_octets(a, b, c, d)),
            _ => None,
        }
    } else {
        None
    }
}

/// The address and the prefix that a text of the form `a.b.c.d/p` names:
/// a dotted quad before the first slash and a number up to 255 after it.
/// Any other text names none.
pub open spec fn parsed(s: Seq<char>) -> Option<(u32, u8)> {
    let n = s.len() as int;
    let slash = position(s, '/', 0);
    if slash < n {
        match (address(s.subrange(0, slash)), number(s.subrange(slash + 1, n))) {
            (Some(network), Some(prefix)) => Some((network, prefix)),
            _ => None,
        }
    } else {
        None
    }
}

/// The block that a text names, if it names an address and a prefix that make
/// a block.
pub open spec fn read(s: Seq<char>) -> Option<Cidr> {
    match parsed(s) {
        Some((network, prefix)) => if prefix <= 32 && network & host_mask(prefix) == 0 {
            Some(Cidr::of(network, prefix))
        } else {
            None
        },
        None => None,
    }
}

/// Whether a text, read from the left, shows a character that is no digit
/// while the digits before it still stand for a number up to 255.
pub open spec fn shows_other_character(s: Seq<char>) -> bool {
    exists|k: int|
        0 <= k < s.len() && all_digits(#[trigger] s.take(k)) && !is_digit(s[k]) && decimal_value(
            s.take(k),
        ) <= 255
}

/// What is said of a text that is no number up to 255: that it is empty,
/// that it holds a character that is no digit, or that the number is too
/// large, whichever is met first from the left.
pub open spec fn number_fault_text(s: Seq<char>) -> Seq<char> {
    if s.len() == 0 {
        "cannot parse integer from empty string"@
    } else if shows_other_character(s) {
        "invalid digit found in string"@
    } else {
        "number too large to fit in target type"@
    }
}

/// What is said of a text that is not of the form `a.b.c.d/p`: that the slash
/// is missing, that what stands before it is no address, or what is wrong
/// with the number after it, in this order.
pub open spec fn parse_fault_text(s: Seq<char>) -> Seq<char> {
    let n = s.len() as int;
    let slash = position(s, '/', 0);
    if slash >= n {
        "missing network prefix delimiter"@
    } else if address(s.subrange(0, slash)) is None {
        "invalid IPv4 address syntax"@
    } else {
        number_fault_text(s.subrange(slash + 1, n))
    }
}

/// Whether `e` is the error that a text which names no block is refused
/// with: `Parse` with its message where the text is not of the form
/// `a.b.c.d/p`, else the error that says which part is wrong.
pub open spec fn refused(s: Seq<char>, e: Error) -> bool {
    match parsed(s) {
        Some((network, prefix)) => Cidr::built(network, prefix, Err(e)),
        None => e matches Error::Parse(text) && text@ == parse_fault_text(s),
    }
}

/// The blocks that the texts name, in their order.
pub open spec fn read_all(texts: Seq<String>) -> Seq<Cidr> {
    Seq::new(texts.len(), |i: int| read(texts[i]@).unwrap())
}

/// Whether the text at `k` is the first that names no block.
pub open spec fn first_unreadable(texts: Seq<String>, k: int) -> bool {
    &&& 0 <= k < texts.len()
    &&& read(texts[k]@) is None
    &&& forall|j: int| 0 <= j < k ==> read(#[trigger] texts[j]@) is Some
}

/// A text has one first position of a character only.
pub proof fn lemma_position(s: Seq<char>, c: char, from: int, i: int)
    requires
        is_position(s, c, from, i),
    ensures
        position(s, c, from) == i,
{
    let k = position(s, c, from);
    assert(is_position(s, c, from, k));
    if k < i {
        assert(s[k] == c);
    }
    if i < k {
        assert(s[i] == c);
    }
}

/// The digits at the start of a text stand for no more than the whole text.
pub proof fn lemma_decimal_grows(s: Seq<char>, k: int)
    requires
        0 <= k <= s.len(),
    ensures
        decimal_value(s.take(k)) <= decimal_value(s),
    decreases s.len(),
{
    if k == s.len() {
        assert(s.take(k) =~= s);
    } else {
        lemma_decimal_grows(s.drop_last(), k);
        assert(s.drop_last().take(k) =~= s.take(k));
    }
}

/// A decimal digit is written as a digit character that stands for it.
pub proof fn lemma_digit(d: nat)
    requires
        d < 10,
    ensures
        is_digit(digit_char(d)),
        digit_value(digit_char(d)) == d,
        digit_char(d) != '.',
        digit_char(d) != '/',
{
}

/// A number written in decimal is one or more digits that stand for it.
pub proof fn lemma_decimal(n: nat)
    ensures
        decimal_text(n).len() > 0,
        all_digits(decimal_text(n)),
        decimal_value(decimal_text(n)) == n,
    decreases n,
{
    reveal_with_fuel(decimal_value, 2);
    if n < 10 {
        lemma_digit(n);
        assert(decimal_text(n).drop_last() =~= Seq::<char>::empty());
    } else {
        lemma_decimal(n / 10);
        lemma_digit(n % 10);
        assert(decimal_text(n).drop_last() =~= decimal_text(n / 10));
    }
}

/// Where a field of the text starts at `from`, holds no `c`, and is followed
/// by `c` or by the end of the text, the first `c` at or after `from` stands
/// right after the field.
pub proof fn lemma_field(s: Seq<char>, c: char, from: int, field: Seq<char>)
    requires
        0 <= from,
        from + field.len() <= s.len(),
        s.subrange(from, from + field.len()) == field,
        forall|i: int| 0 <= i < field.len() ==> #[trigger] field[i] != c,
        from + field.len() < s.len() ==> s[from + field.len()] == c,
    ensures
        position(s, c, from) == from + field.len(),
{
    assert forall|j: int| from <= j < from + field.len() implies #[trigger] s[j] != c by {
        assert(s[j] == field[j - from]);
    }
    lemma_position(s, c, from, from + field.len());
}

/// The four octets of an address make up the address.
pub proof fn lemma_octets(address: u32)
    ensures
        join_octets(
            octets(address)[0],
            octets(address)[1],
            octets(address)[2],
            octets(address)[3],
        ) == address,
{
    assert((((((address >> 24) & 0xff) as u8) as u32) << 24) | (((((address >> 16) & 0xff) as u8)
        as u32) << 16) | (((((address >> 8) & 0xff) as u8) as u32) << 8) | (((address & 0xff) as u8)
        as u32) == address) by (bit_vector);
}

/// A dotted quad is read back as the address it was written from, and holds
/// digits and dots only.
pub proof fn lemma_address(a: u32)
    ensures
        address(address_text(a)) == Some(a),
        forall|i: int|
            0 <= i < address_text(a).len() ==> is_digit(#[trigger] address_text(a)[i])
                || address_text(a)[i] == '.',
{
    let o = octets(a);
    let f0 = decimal_text(o[0] as nat);
    let f1 = decimal_text(o[1] as nat);
    let f2 = decimal_text(o[2] as nat);
    let f3 = decimal_text(o[3] as nat);
    lemma_decimal(o[0] as nat);
    lemma_decimal(o[1] as nat);
    lemma_decimal(o[2] as nat);
    lemma_decimal(o[3] as nat);
    lemma_octets(a);
    let t = address_text(a);
    let d1 = f0.len() as int;
    let d2 = d1 + 1 + f1.len();
    let d3 = d2 + 1 + f2.len();
    let n = d3 + 1 + f3.len();
    assert(t.len() == n);
    assert(t.subrange(0, d1) =~= f0);
    assert(t[d1] == '.');
    assert(t.subrange(d1 + 1, d2) =~= f1);
    assert(t[d2] == '.');
    assert(t.subrange(d2 + 1, d3) =~= f2);
    assert(t[d3] == '.');
    assert(t.subrange(d3 + 1, n) =~= f3);
    lemma_field(t, '.', 0, f0);
    lemma_field(t, '.', d1 + 1, f1);
    lemma_field(t, '.', d2 + 1, f2);
    assert forall|i: int| 0 <= i < t.len() implies is_digit(#[trigger] t[i]) || t[i] == '.' by {
        if i < d1 {
            assert(t[i] == f0[i]);
        } else if d1 < i < d2 {
            assert(t[i] == f1[i - d1 - 1]);
        } else if d2 < i < d3 {
            assert(t[i] == f2[i - d2 - 1]);
        } else if d3 < i {
            assert(t[i] == f3[i - d3 - 1]);
        }
    }
}

/// A block that is written as text is read back as the same block.
pub proof fn lemma_read_text(cidr: Cidr)
    requires
        cidr.wf(),
    ensures
        read(cidr.text()) == Some(cidr),
{
    let a = address_text(cidr.network());
    let p = decimal_text(cidr.prefix() as nat);
    let t = cidr.text();
    lemma_address(cidr.network());
    lemma_decimal(cidr.prefix() as nat);
    let slash = a.len() as int;
    assert(t.len() == slash + 1 + p.len());
    assert(t.subrange(0, slash) =~= a);
    assert(t[slash] == '/');
    assert(t.subrange(slash + 1, t.len() as int) =~= p);
    lemma_field(t, '/', 0, a);
    Cidr::lemma_of(cidr.network(), cidr.prefix());
    cidr.lemma_same(Cidr::of(cidr.network(), cidr.prefix()));
}

/// The characters of a text.
fn chars_of(s: &str) -> (r: Vec<char>)
    ensures
        r@ == s@,
{
    let n = s.unicode_len();
    let mut out: Vec<char> = Vec::new();
    let mut i: usize = 0;
    if s.is_ascii() {
        while i < n
            invariant
                s.is_ascii(),
                n == s@.len(),
                i <= n,
                out@ == s@.take(i as int),
            decreases n - i,
        {
            let b = s.get_ascii(i);
            out.push(b as char);
            assert(out@ =~= s@.take(i + 1));
            i += 1;
        }
    } else {
        while i < n
            invariant
                n == s@.len(),
                i <= n,
                out@ == s@.take(i as int),
            decreases n - i,
        {
            out.push(s.get_char(i));
            assert(out@ =~= s@.take(i + 1));
            i += 1;
        }
    }
    assert(s@.take(n as int) =~= s@);
    out
}

/// Finds where `c` first stands at or after `from`.
fn find(s: &[char], c: char, from: usize) -> (r: usize)
    requires
        from <= s@.len(),
    ensures
        r == position(s@, c, from as int),
        from <= r <= s@.len(),
        r < s@.len() ==> s@[r as int] == c,
{
    let n = s.len();
    let mut i = from;
    while i < n
        invariant
            n == s@.len(),
            from <= i <= n,
            forall|j: int| from <= j < i ==> #[trigger] s@[j] != c,
        decreases n - i,
    {
        if s[i] == c {
            proof {
                lemma_position(s@, c, from as int, i as int);
            }
            return i;
        }
        i += 1;
    }
    proof {
        lemma_position(s@, c, from as int, i as int);
    }
    i
}

/// Reads a number up to 255 written in decimal digits, or says why the text
/// is none.
fn read_number(s: &[char]) -> (r: Result<u8, String>)
    ensures
        match r {
            Ok(value) => number(s@) == Some(value),
            Err(text) => number(s@) is None && text@ == number_fault_text(s@),
        },
{
    let n = s.len();
    if n == 0 {
        return Err(String::from_str("cannot parse integer from empty string"));
    }
    let mut value: u32 = 0;
    let mut i: usize = 0;
    while i < n
        invariant
            n == s@.len(),
            i <= n,
            all_digits(s@.take(i as int)),
            value == decimal_value(s@.take(i as int)),
            value <= 255,
        decreases n - i,
    {
        let c = s[i];
        if c < '0' || c > '9' {
            assert(!is_digit(s@[i as int]));
            assert(shows_other_character(s@));
            return Err(String::from_str("invalid digit found in string"));
        }
        proof {
            assert(s@.take(i + 1).drop_last() =~= s@.take(i as int));
            assert(s@.take(i + 1).last() == s@[i as int]);
            lemma_decimal_grows(s@, i + 1);
        }
        value = value * 10 + (c as u32 - 48);
        if value > 255 {
            proof {
                assert forall|k: int|
                    0 <= k < s@.len() && all_digits(#[trigger] s@.take(k)) && !is_digit(
                        s@[k],
                    ) implies decimal_value(s@.take(k)) > 255 by {
                    if k <= i {
                        assert(s@.take(i + 1)[k] == s@[k]);
                    } else {
                        lemma_decimal_grows(s@.take(k), i + 1);
                        assert(s@.take(k).take(i + 1) =~= s@.take(i + 1));
                    }
                }
            }
            return Err(String::from_str("number too large to fit in target type"));
        }
        assert(all_digits(s@.take(i + 1))) by {
            assert forall|j: int| 0 <= j < i + 1 implies is_digit(#[trigger] s@.take(i + 1)[j]) by {
                if j < i {
                    assert(s@.take(i as int)[j] == s@[j]);
                }
            }
        }
        i += 1;
    }
    assert(s@.take(n as int) =~= s@);
    Ok(value as u8)
}

/// Reads an address written as a dotted quad.
fn read_address(s: &[char]) -> (r: Option<u32>)
    ensures
        r == address(s@),
{
    let n = s.len();
    let d1 = find(s, '.', 0);
    if d1 >= n {
        return None;
    }
    let d2 = find(s, '.', d1 + 1);
    if d2 >= n {
        return None;
    }
    let d3 = find(s, '.', d2 + 1);
    if d3 >= n {
        return None;
    }
    let a = match read_number(slice_subrange(s, 0, d1)) {
        Ok(value) => value,
        Err(_) => {
            return None;
        },
    };
    let b = match read_number(slice_subrange(s, d1 + 1, d2)) {
        Ok(value) => value,
        Err(_) => {
            return None;
        },
    };
    let c = match read_number(slice_subrange(s, d2 + 1, d3)) {
        Ok(value) => value,
        Err(_) => {
            return None;
        },
    };
    let d = match read_number(slice_subrange(s, d3 + 1, n)) {
        Ok(value) => value,
        Err(_) => {
            return None;
        },
    };
    Some(((a as u32) << 24) | ((b as u32) << 16) | ((c as u32) << 8) | (d as u32))
}

impl Cidr {
    /// Reads a block written as `a.b.c.d/p`. A text of that form gives what
    /// `new` gives for the address and the prefix it names; a text of
    /// another form is a `Parse` error that says what is wrong with it.
    pub fn parse(s: &str) -> (r: Result<Cidr, Error>)
        ensures
            match r {
                Ok(cidr) => cidr.wf() && read(s@) == Some(cidr),
                Err(e) => read(s@) is None && refused(s@, e),
            },
    {
        let chars = chars_of(s);
        let all = chars.as_slice();
        let n = all.len();
        let slash = find(all, '/', 0);
        if slash >= n {
            return Err(Error::Parse(String::from_str("missing network prefix delimiter")));
        }
        let network = match read_address(slice_subrange(all, 0, slash)) {
            Some(address) => address,
            None => {
                return Err(Error::Parse(String::from_str("invalid IPv4 address syntax")));
            },
        };
        let prefix = match read_number(slice_subrange(all, slash + 1, n)) {
            Ok(value) => value,
            Err(text) => {
                return Err(Error::Parse(text));
            },
        };
        Cidr::new(network, prefix)
    }
}

impl Fcidr {
    /// The blocks of the set as texts of the form `a.b.c.d/p`, from the
    /// lowest to the highest.
    pub fn to_strings(&self) -> (r: Vec<String>)
        requires
            self.wf(),
        ensures
            r@.len() == self.cover().len(),
            forall|i: int| 0 <= i < r@.len() ==> (#[trigger] r@[i])@ == self.cover()[i].text(),
    {
        let cidrs = self.to_cidrs();
        let mut out: Vec<String> = Vec::new();
        let mut k: usize = 0;
        while k < cidrs.len()
            invariant
                k <= cidrs.len(),
                cidrs@ == self.cover(),
                out@.len() == k,
                forall|i: int| 0 <= i < k ==> (#[trigger] out@[i])@ == self.cover()[i].text(),
            decreases cidrs.len() - k,
        {
            out.push(cidrs[k].to_string());
            k += 1;
        }
        out
    }

    /// The set of the blocks that the texts name: each text is read and its
    /// block put into a set that starts empty. The first text that names no
    /// block ends the reading with its error.
    pub fn from_strings(texts: &Vec<String>) -> (r: Result<Fcidr, Error>)
        ensures
            match r {
                Ok(set) => {
                    &&& set.wf()
                    &&& forall|i: int| 0 <= i < texts@.len() ==> read(#[trigger] texts@[i]@) is Some
                    &&& set@ == covered(read_all(texts@))
                },
                Err(e) => exists|k: int| #[trigger]
                    first_unreadable(texts@, k) && refused(texts@[k]@, e),
            },
    {
        let mut cidrs: Vec<Cidr> = Vec::new();
        let mut k: usize = 0;
        while k < texts.len()
            invariant
                k <= texts.len(),
                cidrs@.len() == k,
                forall|i: int| 0 <= i < k ==> read(#[trigger] texts@[i]@) == Some(cidrs@[i]),
                forall|i: int| 0 <= i < k ==> (#[trigger] cidrs@[i]).wf(),
            decreases texts.len() - k,
        {
            match Cidr::parse(texts[k].as_str()) {
                Ok(cidr) => {
                    cidrs.push(cidr);
                },
                Err(e) => {
                    assert(first_unreadable(texts@, k as int));
                    return Err(e);
                },
            }
            k += 1;
        }
        assert(cidrs@ =~= read_all(texts@));
        Ok(Fcidr::from_cidrs(&cidrs))
    }
}

impl Fcidr {
    /// A set that is written as texts and read back from them is the same
    /// set, trie for trie: `texts` stands for what `to_strings` gives of this
    /// set, `again` for what `from_strings` makes of them.
    pub proof fn lemma_text_round_trip(&self, texts: Seq<String>, again: &Fcidr)
        requires
            self.wf(),
            again.wf(),
            texts.len() == self.cover().len(),
            forall|i: int|
                0 <= i < texts.len() ==> (#[trigger] texts[i])@ == self.cover()[i].text(),
            again@ == covered(read_all(texts)),
        ensures
            forall|i: int| 0 <= i < texts.len() ==> read(#[trigger] texts[i]@) is Some,
            read_all(texts) == self.cover(),
            *again == *self,
    {
        assert forall|i: int| 0 <= i < texts.len() implies read(#[trigger] texts[i]@) == Some(
            self.cover()[i],
        ) by {
            self.lemma_cover_wf(i);
            lemma_read_text(self.cover()[i]);
        }
        assert(read_all(texts) =~= self.cover());
        self.lemma_rebuilt(again);
    }
}

impl core::str::FromStr for Cidr {
    type Err = Error;

    /// Reads a block written as `a.b.c.d/p`, as [`Cidr::parse`] does: the
    /// block that the text names, or the error that says what is wrong with
    /// the text.
    fn from_str(s: &str) -> (r: Result<Cidr, Error>)
        ensures
            match r {
                Ok(cidr) => cidr.wf() && read(s@) == Some(cidr),
                Err(e) => read(s@) is None && refused(s@, e),
            },
    {
        Cidr::parse(s)
    }
}

} // verus!

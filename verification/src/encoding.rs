//! Byte-level encodings shared by scripts, transactions and descriptors:
//! little-endian integers, Bitcoin's compact size, and lower-case hex.

use vstd::prelude::*;

verus! {

/// The `width` low-order bytes of `value`, least significant first.
pub open spec fn le_bytes(value: nat, width: nat) -> Seq<u8>
    decreases width,
{
    if width == 0 {
        Seq::empty()
    } else {
        seq![(value % 256) as u8] + le_bytes(value / 256, (width - 1) as nat)
    }
}

pub proof fn lemma_le_bytes_len(value: nat, width: nat)
    ensures
        le_bytes(value, width).len() == width,
    decreases width,
{
    if width > 0 {
        lemma_le_bytes_len(value / 256, (width - 1) as nat);
    }
}

/// The number that `bytes` spell, least significant byte first.
pub open spec fn le_value(bytes: Seq<u8>) -> nat
    decreases bytes.len(),
{
    if bytes.len() == 0 {
        0
    } else {
        bytes[0] as nat + 256 * le_value(bytes.skip(1))
    }
}

/// Appends `value` as `width` little-endian bytes.
pub fn push_le(out: &mut Vec<u8>, value: u64, width: usize)
    requires
        width <= 8,
    ensures
        final(out)@ == old(out)@ + le_bytes(value as nat, width as nat),
{
    let ghost start = out@;
    let mut rest = value;
    let mut i: usize = 0;
    while i < width
        invariant
            i <= width,
            out@ + le_bytes(rest as nat, (width - i) as nat) == start + le_bytes(
                value as nat,
                width as nat,
            ),
        decreases width - i,
    {
        let ghost before = out@;
        out.push((rest % 256) as u8);
        assert(before + le_bytes(rest as nat, (width - i) as nat) =~= out@ + le_bytes(
            (rest / 256) as nat,
            (width - i - 1) as nat,
        ));
        rest = rest / 256;
        i += 1;
    }
    assert(out@ + le_bytes(rest as nat, 0) =~= out@);
}

/// Bitcoin's variable-length count: one byte below 0xfd, else a marker byte
/// and the number in 2, 4 or 8 little-endian bytes, the shortest that holds it.
pub open spec fn compact_size(n: nat) -> Seq<u8> {
    if n < 0xfd {
        seq![n as u8]
    } else if n <= 0xffff {
        seq![0xfdu8] + le_bytes(n, 2)
    } else if n <= 0xffff_ffff {
        seq![0xfeu8] + le_bytes(n, 4)
    } else {
        seq![0xffu8] + le_bytes(n, 8)
    }
}

pub proof fn lemma_compact_size_len(n: nat)
    ensures
        1 <= compact_size(n).len() <= 9,
{
    lemma_le_bytes_len(n, 2);
    lemma_le_bytes_len(n, 4);
    lemma_le_bytes_len(n, 8);
}

/// Appends the compact size of `n`.
pub fn push_compact_size(out: &mut Vec<u8>, n: u64)
    ensures
        final(out)@ == old(out)@ + compact_size(n as nat),
{
    let ghost start = out@;
    if n < 0xfd {
        out.push(n as u8);
    } else if n <= 0xffff {
        out.push(0xfd);
        push_le(out, n, 2);
    } else if n <= 0xffff_ffff {
        out.push(0xfe);
        push_le(out, n, 4);
    } else {
        out.push(0xff);
        push_le(out, n, 8);
    }
    assert(out@ =~= start + compact_size(n as nat));
}

/// Appends a copy of `bytes`.
pub fn push_bytes(out: &mut Vec<u8>, bytes: &[u8])
    ensures
        final(out)@ == old(out)@ + bytes@,
{
    let ghost start = out@;
    let mut i: usize = 0;
    while i < bytes.len()
        invariant
            i <= bytes@.len(),
            out@ == start + bytes@.take(i as int),
        decreases bytes@.len() - i,
    {
        out.push(bytes[i]);
        assert(out@ =~= start + bytes@.take(i + 1));
        i += 1;
    }
    assert(bytes@.take(bytes@.len() as int) =~= bytes@);
}

/// Whether two byte strings are equal.
pub fn bytes_equal(a: &[u8], b: &[u8]) -> (r: bool)
    ensures
        r == (a@ == b@),
{
    if a.len() != b.len() {
        return false;
    }
    let mut i: usize = 0;
    while i < a.len()
        invariant
            i <= a@.len(),
            a@.len() == b@.len(),
            a@.take(i as int) == b@.take(i as int),
        decreases a@.len() - i,
    {
        if a[i] != b[i] {
            return false;
        }
        assert(a@.take(i + 1) =~= a@.take(i as int).push(a@[i as int]));
        assert(b@.take(i + 1) =~= b@.take(i as int).push(b@[i as int]));
        i += 1;
    }
    assert(a@.take(a@.len() as int) =~= a@);
    assert(b@.take(b@.len() as int) =~= b@);
    true
}

/// The lower-case hex digit of a value below 16, as an ASCII byte.
pub open spec fn hex_digit(nibble: u8) -> u8 {
    if nibble < 10 {
        (0x30 + nibble) as u8
    } else {
        (0x57 + nibble) as u8
    }
}

/// The value of a lower-case hex digit; upper case is not a digit here.
pub open spec fn hex_value(digit: u8) -> Option<u8> {
    if 0x30 <= digit <= 0x39 {
        Some((digit - 0x30) as u8)
    } else if 0x61 <= digit <= 0x66 {
        Some((digit - 0x57) as u8)
    } else {
        None
    }
}

/// Two lower-case hex digits for each byte, high nibble first.
pub open spec fn hex_text(bytes: Seq<u8>) -> Seq<u8> {
    Seq::new(
        2 * bytes.len(),
        |i: int|
            if i % 2 == 0 {
                hex_digit(bytes[i / 2] / 16)
            } else {
                hex_digit(bytes[i / 2] % 16)
            },
    )
}

/// Whether `text` is an even number of lower-case hex digits.
pub open spec fn is_hex_text(text: Seq<u8>) -> bool {
    &&& text.len() % 2 == 0
    &&& forall|i: int| 0 <= i < text.len() ==> (#[trigger] hex_value(text[i])) is Some
}

/// The bytes that `text` spells, where it is hex text.
pub open spec fn hex_bytes(text: Seq<u8>) -> Option<Seq<u8>> {
    if is_hex_text(text) {
        Some(
            Seq::new(
                text.len() / 2,
                |i: int| (16 * hex_value(text[2 * i]).unwrap() + hex_value(text[2 * i + 1]).unwrap()) as u8,
            ),
        )
    } else {
        None
    }
}

/// Decoding what was encoded gives the bytes back.
pub proof fn lemma_hex_round_trip(bytes: Seq<u8>)
    ensures
        hex_bytes(hex_text(bytes)) == Some(bytes),
{
    let text = hex_text(bytes);
    assert forall|i: int| 0 <= i < text.len() implies (#[trigger] hex_value(text[i])) is Some by {
        let b = bytes[i / 2];
        assert(b / 16 < 16 && b % 16 < 16);
    }
    assert(is_hex_text(text));
    let back = hex_bytes(text).unwrap();
    assert(back.len() == bytes.len());
    assert forall|i: int| 0 <= i < bytes.len() implies back[i] == bytes[i] by {
        let b = bytes[i];
        assert((2 * i) % 2 == 0 && (2 * i) / 2 == i);
        assert((2 * i + 1) % 2 == 1 && (2 * i + 1) / 2 == i);
        assert(text[2 * i] == hex_digit(b / 16));
        assert(text[2 * i + 1] == hex_digit(b % 16));
        assert(hex_value(hex_digit(b / 16)) == Some(b / 16));
        assert(hex_value(hex_digit(b % 16)) == Some(b % 16));
        assert(16 * (b / 16) + b % 16 == b);
    }
    assert(back =~= bytes);
}

/// Hex text has one spelling: encoding what was decoded gives the text back.
pub proof fn lemma_hex_canonical(text: Seq<u8>)
    requires
        is_hex_text(text),
    ensures
        hex_text(hex_bytes(text).unwrap()) == text,
{
    let bytes = hex_bytes(text).unwrap();
    let again = hex_text(bytes);
    assert(again.len() == text.len());
    assert forall|i: int| 0 <= i < text.len() implies again[i] == text[i] by {
        let k = i / 2;
        let hi = hex_value(text[2 * k]).unwrap();
        let lo = hex_value(text[2 * k + 1]).unwrap();
        assert(hex_value(text[2 * k]) is Some);
        assert(hex_value(text[2 * k + 1]) is Some);
        assert(hi < 16 && lo < 16);
        assert(bytes[k] == 16 * hi + lo);
        assert((16 * hi + lo) / 16 == hi);
        assert((16 * hi + lo) % 16 == lo);
        assert(hex_digit(hi) == text[2 * k]);
        assert(hex_digit(lo) == text[2 * k + 1]);
    }
    assert(again =~= text);
}

fn hex_digit_of(nibble: u8) -> (r: u8)
    requires
        nibble < 16,
    ensures
        r == hex_digit(nibble),
{
    if nibble < 10 {
        0x30 + nibble
    } else {
        0x57 + nibble
    }
}

fn hex_value_of(digit: u8) -> (r: Option<u8>)
    ensures
        r == hex_value(digit),
{
    if 0x30 <= digit && digit <= 0x39 {
        Some(digit - 0x30)
    } else if 0x61 <= digit && digit <= 0x66 {
        Some(digit - 0x57)
    } else {
        None
    }
}

/// Encodes `bytes` as lower-case hex, in ASCII.
pub fn hex_encode(bytes: &[u8]) -> (text: Vec<u8>)
    ensures
        text@ == hex_text(bytes@),
{
    let mut text: Vec<u8> = Vec::new();
    let mut i: usize = 0;
    while i < bytes.len()
        invariant
            i <= bytes@.len(),
            text@.len() == 2 * i,
            forall|j: int| 0 <= j < text@.len() ==> text@[j] == hex_text(bytes@)[j],
        decreases bytes@.len() - i,
    {
        let b = bytes[i];
        assert((2 * i) % 2 == 0 && (2 * i) / 2 == i) by (nonlinear_arith);
        assert((2 * i + 1) % 2 == 1 && (2 * i + 1) / 2 == i) by (nonlinear_arith);
        text.push(hex_digit_of(b / 16));
        text.push(hex_digit_of(b % 16));
        i += 1;
    }
    assert(text@ =~= hex_text(bytes@));
    text
}

/// Decodes lower-case hex; `None` where `text` is not hex text.
pub fn hex_decode(text: &[u8]) -> (bytes: Option<Vec<u8>>)
    ensures
        match hex_bytes(text@) {
            Some(b) => bytes is Some && bytes.unwrap()@ == b,
            None => bytes is None,
        },
{
    if text.len() % 2 != 0 {
        return None;
    }
    let mut bytes: Vec<u8> = Vec::new();
    let mut i: usize = 0;
    while i < text.len()
        invariant
            i <= text@.len(),
            i % 2 == 0,
            text@.len() % 2 == 0,
            bytes@.len() == i / 2,
            forall|j: int| 0 <= j < i ==> (#[trigger] hex_value(text@[j])) is Some,
            forall|k: int|
                0 <= k < bytes@.len() ==> bytes@[k] == (16 * hex_value(text@[2 * k]).unwrap()
                    + hex_value(text@[2 * k + 1]).unwrap()) as u8,
        decreases text@.len() - i,
    {
        let hi = hex_value_of(text[i]);
        let lo = hex_value_of(text[i + 1]);
        match (hi, lo) {
            (Some(h), Some(l)) => {
                bytes.push(16 * h + l);
            },
            _ => {
                assert(hex_value(text@[i as int]) is None || hex_value(text@[i + 1]) is None);
                return None;
            },
        }
        i += 2;
    }
    assert(is_hex_text(text@));
    assert(bytes@ =~= hex_bytes(text@).unwrap());
    Some(bytes)
}

} // verus!

verus! {

/// The contents of each of a list of byte vectors.
pub open spec fn byte_strings(items: Seq<Vec<u8>>) -> Seq<Seq<u8>> {
    items.map_values(|item: Vec<u8>| item@)
}

/// A copy of `bytes`.
pub fn copy_bytes(bytes: &[u8]) -> (copy: Vec<u8>)
    ensures
        copy@ == bytes@,
{
    let mut copy: Vec<u8> = Vec::new();
    push_bytes(&mut copy, bytes);
    assert(copy@ =~= bytes@);
    copy
}

/// A copy of a list of byte vectors.
pub fn copy_byte_strings(items: &Vec<Vec<u8>>) -> (copy: Vec<Vec<u8>>)
    ensures
        byte_strings(copy@) == byte_strings(items@),
{
    let mut copy: Vec<Vec<u8>> = Vec::new();
    let mut i: usize = 0;
    while i < items.len()
        invariant
            i <= items@.len(),
            copy@.len() == i,
            forall|j: int| 0 <= j < i ==> (#[trigger] copy@[j])@ == items@[j]@,
        decreases items@.len() - i,
    {
        copy.push(copy_bytes(items[i].as_slice()));
        i += 1;
    }
    assert(byte_strings(copy@) =~= byte_strings(items@));
    copy
}

} // verus!

verus! {

/// Whether every byte is an ASCII code.
pub open spec fn is_ascii_bytes(bytes: Seq<u8>) -> bool {
    forall|i: int| 0 <= i < bytes.len() ==> #[trigger] bytes[i] < 128
}

/// The codes of a text of ASCII characters.
pub open spec fn ascii_bytes(text: Seq<char>) -> Seq<u8> {
    Seq::new(text.len(), |i: int| text[i] as u8)
}

/// The characters of a sequence of ASCII codes.
pub open spec fn ascii_text(bytes: Seq<u8>) -> Seq<char> {
    Seq::new(bytes.len(), |i: int| bytes[i] as char)
}

/// The codes of an ASCII text spell the text.
pub proof fn lemma_ascii_text_of_bytes(text: Seq<char>)
    requires
        vstd::utf8::is_ascii_chars(text),
    ensures
        ascii_text(ascii_bytes(text)) == text,
        is_ascii_bytes(ascii_bytes(text)),
{
    assert forall|i: int| 0 <= i < text.len() implies ascii_text(ascii_bytes(text))[i]
        == text[i] by {
        let c = text[i];
        assert('\0' <= c <= '\u{7f}');
        assert((c as u8) as char == c);
    }
    assert(ascii_text(ascii_bytes(text)) =~= text);
    assert forall|i: int| 0 <= i < text.len() implies #[trigger] ascii_bytes(text)[i] < 128 by {
        let c = text[i];
        assert('\0' <= c <= '\u{7f}');
    }
}

/// The text of ASCII codes has those codes.
pub proof fn lemma_ascii_bytes_of_text(bytes: Seq<u8>)
    requires
        is_ascii_bytes(bytes),
    ensures
        ascii_bytes(ascii_text(bytes)) == bytes,
        vstd::utf8::is_ascii_chars(ascii_text(bytes)),
{
    assert forall|i: int| 0 <= i < bytes.len() implies ascii_bytes(ascii_text(bytes))[i]
        == bytes[i] by {
        let b = bytes[i];
        assert(b < 128);
        assert((b as char) as u8 == b);
    }
    assert(ascii_bytes(ascii_text(bytes)) =~= bytes);
    assert forall|i: int| 0 <= i < bytes.len() implies '\0' <= #[trigger] ascii_text(bytes)[i]
        <= '\u{7f}' by {
        let b = bytes[i];
        assert(b < 128);
    }
}

/// `String::from_utf8` of std on ASCII codes: the string whose characters have
/// those codes, one for one.
#[verifier::external_body]
pub(crate) fn ascii_string(bytes: Vec<u8>) -> (text: String)
    requires
        is_ascii_bytes(bytes@),
    ensures
        text@ == ascii_text(bytes@),
{
    String::from_utf8(bytes).unwrap_or_default()
}

} // verus!

verus! {

/// Whether `a` comes before `b` in the order of the dictionary, byte by byte.
pub open spec fn bytes_less(a: Seq<u8>, b: Seq<u8>) -> bool
    decreases a.len(),
{
    if b.len() == 0 {
        false
    } else if a.len() == 0 {
        true
    } else if a[0] != b[0] {
        a[0] < b[0]
    } else {
        bytes_less(a.skip(1), b.skip(1))
    }
}

/// Whether `a` comes before `b` in the order of the dictionary.
pub fn is_bytes_less(a: &[u8], b: &[u8]) -> (less: bool)
    ensures
        less == bytes_less(a@, b@),
{
    let mut i: usize = 0;
    assert(a@.skip(0) =~= a@ && b@.skip(0) =~= b@);
    while i < a.len() && i < b.len()
        invariant
            i <= a@.len(),
            i <= b@.len(),
            bytes_less(a@.skip(i as int), b@.skip(i as int)) == bytes_less(a@, b@),
        decreases a@.len() - i,
    {
        assert(a@.skip(i as int)[0] == a@[i as int] && b@.skip(i as int)[0] == b@[i as int]);
        if a[i] != b[i] {
            return a[i] < b[i];
        }
        assert(a@.skip(i as int).skip(1) =~= a@.skip(i + 1));
        assert(b@.skip(i as int).skip(1) =~= b@.skip(i + 1));
        i += 1;
    }
    i < b.len()
}

} // verus!

verus! {

/// Writing the number that bytes spell, in as many bytes, gives the bytes.
pub proof fn lemma_le_bytes_of_le_value(bytes: Seq<u8>)
    ensures
        le_bytes(le_value(bytes), bytes.len()) == bytes,
    decreases bytes.len(),
{
    if bytes.len() > 0 {
        let rest = bytes.skip(1);
        lemma_le_bytes_of_le_value(rest);
        let v = le_value(bytes);
        assert(v == bytes[0] as nat + 256 * le_value(rest));
        assert(v % 256 == bytes[0] as nat && v / 256 == le_value(rest)) by (nonlinear_arith)
            requires
                v == bytes[0] as nat + 256 * le_value(rest),
                bytes[0] < 256,
        ;
        assert(le_bytes(v, bytes.len()) =~= bytes);
    } else {
        assert(le_bytes(le_value(bytes), 0) =~= bytes);
    }
}

/// 256 to the power of `n`.
pub open spec fn pow256(n: nat) -> nat
    decreases n,
{
    if n == 0 {
        1
    } else {
        256 * pow256((n - 1) as nat)
    }
}

/// The number that `n` bytes spell is below 256 to the power of `n`.
pub proof fn lemma_le_value_bound(bytes: Seq<u8>)
    ensures
        le_value(bytes) < pow256(bytes.len()),
    decreases bytes.len(),
{
    if bytes.len() > 0 {
        lemma_le_value_bound(bytes.skip(1));
    }
}

/// A number below 256 to the power of `width` is read back as it was written.
pub proof fn lemma_le_round_trip(value: nat, width: nat)
    requires
        value < pow256(width),
    ensures
        le_value(le_bytes(value, width)) == value,
    decreases width,
{
    if width > 0 {
        let rest = le_bytes(value / 256, (width - 1) as nat);
        assert(value / 256 < pow256((width - 1) as nat)) by (nonlinear_arith)
            requires
                value < 256 * pow256((width - 1) as nat),
        ;
        lemma_le_round_trip(value / 256, (width - 1) as nat);
        assert(le_bytes(value, width).skip(1) =~= rest);
        assert(value == value % 256 + 256 * (value / 256)) by (nonlinear_arith);
    }
}

/// The powers of 256 that the formats use.
pub proof fn lemma_pow256_values()
    ensures
        pow256(2) == 0x1_0000,
        pow256(4) == 0x1_0000_0000,
        pow256(8) == 0x1_0000_0000_0000_0000,
{
    reveal_with_fuel(pow256, 9);
}

/// The two bytes at `at` as a number, least significant first.
pub fn read_u16_le(bytes: &[u8], at: usize) -> (value: u64)
    requires
        at + 2 <= bytes@.len(),
    ensures
        value == le_value(bytes@.subrange(at as int, at + 2)),
        value < 0x1_0000,
{
    let ghost part = bytes@.subrange(at as int, at + 2);
    let total = bytes.len();
    proof {
        reveal_with_fuel(le_value, 3);
        assert(part.skip(1)[0] == part[1]);
        assert(part.skip(1).skip(1).len() == 0);
    }
    bytes[at] as u64 + 256 * (bytes[at + 1] as u64)
}

/// The four bytes at `at` as a number, least significant first.
pub fn read_u32_le(bytes: &[u8], at: usize) -> (value: u64)
    requires
        at + 4 <= bytes@.len(),
    ensures
        value == le_value(bytes@.subrange(at as int, at + 4)),
        value < 0x1_0000_0000,
{
    let ghost part = bytes@.subrange(at as int, at + 4);
    let total = bytes.len();
    let low = read_u16_le(bytes, at);
    let high = read_u16_le(bytes, at + 2);
    proof {
        lemma_le_value_split(part, 2);
        assert(part.take(2) =~= bytes@.subrange(at as int, at + 2));
        assert(part.skip(2) =~= bytes@.subrange(at + 2, at + 4));
        lemma_pow256_values();
    }
    low + 0x1_0000 * high
}

/// The eight bytes at `at` as a number, least significant first.
pub fn read_u64_le(bytes: &[u8], at: usize) -> (value: u64)
    requires
        at + 8 <= bytes@.len(),
    ensures
        value == le_value(bytes@.subrange(at as int, at + 8)),
{
    let ghost part = bytes@.subrange(at as int, at + 8);
    let total = bytes.len();
    let low = read_u32_le(bytes, at);
    let high = read_u32_le(bytes, at + 4);
    proof {
        lemma_le_value_split(part, 4);
        assert(part.take(4) =~= bytes@.subrange(at as int, at + 4));
        assert(part.skip(4) =~= bytes@.subrange(at + 4, at + 8));
        lemma_pow256_values();
    }
    low + 0x1_0000_0000 * high
}

/// The number that bytes spell, from the numbers of a lower and a higher part.
pub proof fn lemma_le_value_split(bytes: Seq<u8>, at: int)
    requires
        0 <= at <= bytes.len(),
    ensures
        le_value(bytes) == le_value(bytes.take(at)) + pow256(at as nat) * le_value(bytes.skip(at)),
    decreases at,
{
    if at == 0 {
        assert(bytes.skip(0) =~= bytes);
        assert(bytes.take(0).len() == 0);
        assert(pow256(0) * le_value(bytes) == le_value(bytes)) by (nonlinear_arith)
            requires
                pow256(0) == 1,
        ;
    } else {
        let rest = bytes.skip(1);
        lemma_le_value_split(rest, at - 1);
        assert(rest.take(at - 1) =~= bytes.take(at).skip(1));
        assert(rest.skip(at - 1) =~= bytes.skip(at));
        assert(bytes.take(at)[0] == bytes[0]);
        let low = le_value(rest.take(at - 1));
        let high = le_value(bytes.skip(at));
        let p = pow256((at - 1) as nat);
        assert(le_value(rest) == low + p * high);
        assert(le_value(bytes) == bytes[0] as nat + 256 * le_value(rest));
        assert(le_value(bytes.take(at)) == bytes[0] as nat + 256 * low);
        assert(pow256(at as nat) == 256 * p);
        assert(256 * (low + p * high) == 256 * low + (256 * p) * high) by (nonlinear_arith);
    }
}

/// The count at the start of `bytes`, with the number of bytes it takes.
/// A count that could have been written shorter is refused.
pub open spec fn parse_compact_size(bytes: Seq<u8>) -> Option<(nat, nat)> {
    if bytes.len() == 0 {
        None
    } else if bytes[0] < 0xfd {
        Some((bytes[0] as nat, 1))
    } else if bytes[0] == 0xfd {
        if bytes.len() < 3 || le_value(bytes.subrange(1, 3)) < 0xfd {
            None
        } else {
            Some((le_value(bytes.subrange(1, 3)), 3))
        }
    } else if bytes[0] == 0xfe {
        if bytes.len() < 5 || le_value(bytes.subrange(1, 5)) <= 0xffff {
            None
        } else {
            Some((le_value(bytes.subrange(1, 5)), 5))
        }
    } else {
        if bytes.len() < 9 || le_value(bytes.subrange(1, 9)) <= 0xffff_ffff {
            None
        } else {
            Some((le_value(bytes.subrange(1, 9)), 9))
        }
    }
}

/// A count that was written is read back, whatever follows it.
pub proof fn lemma_parse_compact_size_of(n: nat, rest: Seq<u8>)
    requires
        n <= u64::MAX,
    ensures
        parse_compact_size(compact_size(n) + rest) == Some((n, compact_size(n).len())),
{
    let bytes = compact_size(n) + rest;
    lemma_pow256_values();
    lemma_le_bytes_len(n, 2);
    lemma_le_bytes_len(n, 4);
    lemma_le_bytes_len(n, 8);
    if n < 0xfd {
    } else if n <= 0xffff {
        assert(bytes.subrange(1, 3) =~= le_bytes(n, 2));
        lemma_le_round_trip(n, 2);
    } else if n <= 0xffff_ffff {
        assert(bytes.subrange(1, 5) =~= le_bytes(n, 4));
        lemma_le_round_trip(n, 4);
    } else {
        assert(bytes.subrange(1, 9) =~= le_bytes(n, 8));
        lemma_le_round_trip(n, 8);
    }
}

/// A count that is read was written so, and in no other way.
pub proof fn lemma_compact_size_of_parse(bytes: Seq<u8>)
    requires
        parse_compact_size(bytes) is Some,
    ensures
        ({
            let (n, used) = parse_compact_size(bytes).unwrap();
            &&& n <= u64::MAX
            &&& 1 <= used <= bytes.len()
            &&& bytes.take(used as int) == compact_size(n)
        }),
{
    let (n, used) = parse_compact_size(bytes).unwrap();
    lemma_pow256_values();
    if bytes[0] < 0xfd {
        assert(bytes.take(1) =~= compact_size(n));
    } else if bytes[0] == 0xfd {
        lemma_le_value_bound(bytes.subrange(1, 3));
        lemma_le_bytes_of_le_value(bytes.subrange(1, 3));
        assert(bytes.take(3) =~= seq![0xfdu8] + bytes.subrange(1, 3));
    } else if bytes[0] == 0xfe {
        lemma_le_value_bound(bytes.subrange(1, 5));
        lemma_le_bytes_of_le_value(bytes.subrange(1, 5));
        assert(bytes.take(5) =~= seq![0xfeu8] + bytes.subrange(1, 5));
    } else {
        lemma_le_value_bound(bytes.subrange(1, 9));
        lemma_le_bytes_of_le_value(bytes.subrange(1, 9));
        assert(bytes.take(9) =~= seq![0xffu8] + bytes.subrange(1, 9));
    }
}

/// Reads the count at `at`: the count and the number of bytes it takes.
pub fn read_compact_size(bytes: &[u8], at: usize) -> (r: Option<(u64, usize)>)
    requires
        at <= bytes@.len(),
    ensures
        match parse_compact_size(bytes@.skip(at as int)) {
            Some((n, used)) => r == Some((n as u64, used as usize)) && n <= u64::MAX && at + used
                <= bytes@.len(),
            None => r is None,
        },
{
    let rest = bytes.len() - at;
    let ghost tail = bytes@.skip(at as int);
    if rest == 0 {
        return None;
    }
    let first = bytes[at];
    assert(tail[0] == first);
    if first < 0xfd {
        Some((first as u64, 1))
    } else if first == 0xfd {
        if rest < 3 {
            return None;
        }
        assert(tail.subrange(1, 3) =~= bytes@.subrange(at + 1, at + 3));
        let n = read_u16_le(bytes, at + 1);
        if n < 0xfd {
            None
        } else {
            Some((n, 3))
        }
    } else if first == 0xfe {
        if rest < 5 {
            return None;
        }
        assert(tail.subrange(1, 5) =~= bytes@.subrange(at + 1, at + 5));
        let n = read_u32_le(bytes, at + 1);
        if n <= 0xffff {
            None
        } else {
            Some((n, 5))
        }
    } else {
        if rest < 9 {
            return None;
        }
        assert(tail.subrange(1, 9) =~= bytes@.subrange(at + 1, at + 9));
        let n = read_u64_le(bytes, at + 1);
        if n <= 0xffff_ffff {
            None
        } else {
            Some((n, 9))
        }
    }
}

} // verus!

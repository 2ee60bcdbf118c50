use vstd::prelude::*;
use vstd::utf8::{encode_utf8, has_width_4_encoding, is_scalar};

verus! {

/// The device's serial number, as the board reports it: the RP2040 has no unique id of its
/// own, so every board reports the same value.
pub fn read_serial() -> (r: u32)
    ensures
        r == 0xeeee_eeee,
{
    0xeeee_eeee
}

/// The fixed-capacity string of `heapless`, which the USB descriptors are built from.
#[verifier::external_type_specification]
#[verifier::external_body]
pub struct ExHeaplessString<const N: usize>(heapless::String<N>);

/// The characters held by a 64-byte `heapless` string.
pub uninterp spec fn serial_chars(s: heapless::String<64>) -> Seq<char>;

/// Relies on `heapless::String::new`: the string starts empty.
#[verifier::external_body]
fn empty_string() -> (r: heapless::String<64>)
    ensures
        serial_chars(r) == Seq::<char>::empty(),
{
    heapless::String::new()
}

/// Relies on `heapless::String::push`: the character's UTF-8 bytes are appended when they fit
/// in the 64 bytes of capacity; otherwise it fails and the string is left as it was.
#[verifier::external_body]
fn push_char(s: &mut heapless::String<64>, c: char) -> (r: Result<(), ()>)
    ensures
        encode_utf8(serial_chars(*old(s))).len() + encode_utf8(seq![c]).len() <= 64 ==> r is Ok
            && serial_chars(*final(s)) == serial_chars(*old(s)).push(c),
        encode_utf8(serial_chars(*old(s))).len() + encode_utf8(seq![c]).len() > 64 ==> r is Err
            && serial_chars(*final(s)) == serial_chars(*old(s)),
{
    s.push(c)
}

/// Relies on `core::char::from_u32`: it gives the character with that code point, when the
/// value is a Unicode scalar value.
pub assume_specification[ core::char::from_u32 ](i: u32) -> (r: Option<char>)
    ensures
        r is Some <==> is_scalar(i),
        r is Some ==> r->Some_0 == i as char,
;

/// `text` after appending the characters of `more` one by one, each only when its bytes still
/// fit in 64 bytes.
pub open spec fn fill(text: Seq<char>, more: Seq<char>) -> Seq<char>
    decreases more.len(),
{
    if more.len() == 0 {
        text
    } else {
        let next = if encode_utf8(text).len() + encode_utf8(seq![more[0]]).len() <= 64 {
            text.push(more[0])
        } else {
            text
        };
        fill(next, more.drop_first())
    }
}

/// The Aegean numeral for `b` times ten to the power `p`, for `b` from 1 to 9 and `p` from 0
/// to 4.
pub open spec fn numeral(p: int, b: int) -> char {
    ((0x10107 + 9 * p + b - 1) as u32) as char
}

/// Ten to the power `p`.
pub open spec fn place(p: int) -> int
    decreases p,
{
    if p <= 0 {
        1
    } else {
        10 * place(p - 1)
    }
}

/// The numerals that write digit `d` in place `p`: none for zero, the numeral of that digit
/// otherwise, except that nine is written as eight and one.
pub open spec fn digit_numerals(p: int, d: int) -> Seq<char> {
    if d == 0 {
        seq![]
    } else if d == 9 {
        seq![numeral(p, 8), numeral(p, 1)]
    } else {
        seq![numeral(p, d)]
    }
}

/// The numerals for the places of `n` from the ten-thousands down to place `p`.
pub open spec fn numerals_down_to(n: int, p: int) -> Seq<char>
    decreases 5 - p,
{
    if p >= 5 {
        seq![]
    } else {
        numerals_down_to(n, p + 1) + digit_numerals(p, (n / place(p)) % 10)
    }
}

/// `n` written in Aegean numerals, largest place first.
pub open spec fn aegean(n: int) -> Seq<char> {
    numerals_down_to(n, 0)
}

/// The character with code point `cp`.
fn code_point(cp: u32) -> (c: char)
    requires
        0x10000 <= cp <= 0x10FFFF,
    ensures
        c == cp as char,
{
    assert(has_width_4_encoding(cp));
    match core::char::from_u32(cp) {
        Some(c) => c,
        None => {
            assert(false);
            ' '
        },
    }
}

/// Appends `c` when its bytes still fit.
fn push_if_fits(result: &mut heapless::String<64>, c: char)
    ensures
        serial_chars(*final(result)) == fill(serial_chars(*old(result)), seq![c]),
{
    let _ = push_char(result, c);
    proof {
        let t = serial_chars(*old(result));
        assert(seq![c].drop_first() =~= Seq::<char>::empty());
        assert(seq![c][0] == c);
        let next = if encode_utf8(t).len() + encode_utf8(seq![c]).len() <= 64 {
            t.push(c)
        } else {
            t
        };
        assert(fill(next, Seq::<char>::empty()) == next);
    }
}

/// Appends `target` in Aegean numerals to `result`, largest place first; a numeral that no
/// longer fits in the 64 bytes is left out.
pub fn aegean_u16(target: u16, result: &mut heapless::String<64>)
    ensures
        serial_chars(*final(result)) == fill(serial_chars(*old(result)), aegean(target as int)),
{
    let ghost start = serial_chars(*old(result));
    let mut place_value: u16 = 10000;
    let mut i: u32 = 0;
    proof {
        reveal_with_fuel(place, 5);
        assert(place(0) == 1 && place(1) == 10 && place(2) == 100 && place(3) == 1000 && place(4)
            == 10000);
    }
    while i < 5
        invariant
            i <= 5,
            place(0) == 1 && place(1) == 10 && place(2) == 100 && place(3) == 1000 && place(4)
                == 10000,
            i < 5 ==> place_value as int == place(4 - i),
            serial_chars(*result) == fill(start, numerals_down_to(target as int, 5 - i)),
        decreases 5 - i,
    {
        let p: u32 = 4 - i;
        let d: u16 = (target / place_value) % 10;
        let ghost head = numerals_down_to(target as int, p + 1);
        let ghost digits = digit_numerals(p as int, d as int);
        assert(numerals_down_to(target as int, p as int) == head + digits);
        if d == 9 {
            let eight = code_point(0x10107 + 9 * p + 7);
            let one = code_point(0x10107 + 9 * p);
            push_if_fits(result, eight);
            push_if_fits(result, one);
            proof {
                lemma_fill_concat(start, head, seq![eight]);
                lemma_fill_concat(start, head + seq![eight], seq![one]);
                assert(head + digits =~= head + seq![eight] + seq![one]);
            }
        } else if d > 0 {
            let c = code_point(0x10107 + 9 * p + (d as u32) - 1);
            push_if_fits(result, c);
            proof {
                lemma_fill_concat(start, head, seq![c]);
                assert(head + digits =~= head + seq![c]);
            }
        } else {
            assert(head + digits =~= head);
        }
        place_value = place_value / 10;
        i = i + 1;
    }
}

/// The serial number as the USB descriptors show it: the upper and the lower 16 bits, each in
/// Aegean numerals, with a space between them; what does not fit in 64 bytes is left out.
pub fn aegean_u32(value: u32) -> (r: heapless::String<64>)
    ensures
        serial_chars(r) == fill(
            Seq::<char>::empty(),
            aegean((value / 0x10000) as int) + seq![' '] + aegean((value % 0x10000) as int),
        ),
{
    let mut result = empty_string();
    let high: u16 = (value / 0x10000) as u16;
    let low: u16 = (value % 0x10000) as u16;
    aegean_u16(high, &mut result);
    push_if_fits(&mut result, ' ');
    aegean_u16(low, &mut result);
    proof {
        let e = Seq::<char>::empty();
        let a = aegean(high as int);
        let b = aegean(low as int);
        lemma_fill_concat(e, a, seq![' ']);
        lemma_fill_concat(e, a + seq![' '], b);
    }
    result
}

proof fn lemma_fill_concat(text: Seq<char>, a: Seq<char>, b: Seq<char>)
    ensures
        fill(text, a + b) == fill(fill(text, a), b),
    decreases a.len(),
{
    if a.len() == 0 {
        assert(a + b =~= b);
    } else {
        let next = if encode_utf8(text).len() + encode_utf8(seq![a[0]]).len() <= 64 {
            text.push(a[0])
        } else {
            text
        };
        assert((a + b).drop_first() =~= a.drop_first() + b);
        assert((a + b)[0] == a[0]);
        lemma_fill_concat(next, a.drop_first(), b);
    }
}

} // verus!

//! Text building blocks: decimal and hexadecimal notation, and the list
//! layout `[a, b, c]` used by the canonical transaction text.
use vstd::prelude::*;

verus! {

/// The decimal digit character for a value below ten.
pub open spec fn digit_char(d: nat) -> char {
    ((48 + d) as u8) as char
}

/// The lower-case hexadecimal digit character for a value below sixteen.
pub open spec fn hex_digit_char(d: nat) -> char {
    if d < 10 {
        digit_char(d)
    } else {
        ((87 + d) as u8) as char
    }
}

/// Decimal notation of a natural number, most significant digit first,
/// without leading zeros (zero is written `0`).
pub open spec fn decimal(n: nat) -> Seq<char>
    decreases n,
{
    if n < 10 {
        seq![digit_char(n)]
    } else {
        decimal(n / 10).push(digit_char(n % 10))
    }
}

/// Lower-case hexadecimal notation of a byte string: two digits per byte,
/// high nibble first.
pub open spec fn hex_lower(bytes: Seq<u8>) -> Seq<char>
    decreases bytes.len(),
{
    if bytes.len() == 0 {
        Seq::empty()
    } else {
        let b: u8 = bytes.last();
        hex_lower(bytes.drop_last()).push(hex_digit_char((b / 16) as nat)).push(
            hex_digit_char((b % 16) as nat),
        )
    }
}

/// Items separated by `", "`.
pub open spec fn join_items(items: Seq<Seq<char>>) -> Seq<char>
    decreases items.len(),
{
    if items.len() == 0 {
        Seq::empty()
    } else if items.len() == 1 {
        items[0]
    } else {
        join_items(items.drop_last()) + ", "@ + items.last()
    }
}

/// The list layout `[a, b, c]`.
pub open spec fn list_text(items: Seq<Seq<char>>) -> Seq<char> {
    "["@ + join_items(items) + "]"@
}

/// The decimal notation of every byte.
pub open spec fn byte_texts(bytes: Seq<u8>) -> Seq<Seq<char>> {
    Seq::new(bytes.len(), |i: int| decimal(bytes[i] as nat))
}

/// A byte string in list layout, such as `[1, 22, 255]`.
pub open spec fn bytes_text(bytes: Seq<u8>) -> Seq<char> {
    list_text(byte_texts(bytes))
}

/// Appends one character to a string.
#[verifier::external_body]
pub(crate) fn push_char(s: &mut String, c: char)
    ensures
        final(s)@ == old(s)@.push(c),
{
    s.push(c);
}

fn hex_digit(d: u8) -> (c: char)
    requires
        d < 16,
    ensures
        c == hex_digit_char(d as nat),
{
    if d < 10 {
        let b: u8 = 48u8 + d;
        b as char
    } else {
        let b: u8 = 87u8 + d;
        b as char
    }
}

/// Appends the decimal notation of `n`.
pub fn push_decimal(s: &mut String, n: u128)
    ensures
        final(s)@ == old(s)@ + decimal(n as nat),
    decreases n,
{
    if n >= 10 {
        push_decimal(s, n / 10);
    }
    let d: u8 = (n % 10) as u8;
    let c: char = hex_digit(d);
    push_char(s, c);
    assert(final(s)@ =~= old(s)@ + decimal(n as nat));
}

/// The lower-case hexadecimal notation of `bytes`.
pub fn to_hex_lower(bytes: &[u8]) -> (r: String)
    ensures
        r@ == hex_lower(bytes@),
{
    let mut r: String = String::new();
    let n: usize = bytes.len();
    let mut i: usize = 0;
    while i < n
        invariant
            n == bytes@.len(),
            i <= n,
            r@ == hex_lower(bytes@.take(i as int)),
        decreases n - i,
    {
        let b: u8 = bytes[i];
        let hi: char = hex_digit(b / 16);
        let lo: char = hex_digit(b % 16);
        push_char(&mut r, hi);
        push_char(&mut r, lo);
        assert(bytes@.take(i + 1).drop_last() =~= bytes@.take(i as int));
        i = i + 1;
    }
    assert(bytes@.take(n as int) =~= bytes@);
    r
}

/// Appends a byte string in list layout.
pub fn push_bytes_text(s: &mut String, bytes: &Vec<u8>)
    ensures
        final(s)@ == old(s)@ + bytes_text(bytes@),
{
    let ghost start: Seq<char> = s@;
    s.append("[");
    let n: usize = bytes.len();
    let mut i: usize = 0;
    while i < n
        invariant
            n == bytes@.len(),
            i <= n,
            s@ == start + "["@ + join_items(byte_texts(bytes@).take(i as int)),
        decreases n - i,
    {
        if i > 0 {
            s.append(", ");
        }
        push_decimal(s, bytes[i] as u128);
        proof {
            let t: Seq<Seq<char>> = byte_texts(bytes@).take(i + 1);
            assert(t.drop_last() =~= byte_texts(bytes@).take(i as int));
            if i > 0 {
                assert(s@ =~= start + "["@ + join_items(t));
            } else {
                assert(join_items(byte_texts(bytes@).take(0)) =~= Seq::<char>::empty());
                assert(s@ =~= start + "["@ + join_items(t));
            }
        }
        i = i + 1;
    }
    s.append("]");
    assert(byte_texts(bytes@).take(n as int) =~= byte_texts(bytes@));
    assert(s@ =~= start + bytes_text(bytes@));
}

/// Every character of the hexadecimal notation is an ASCII character, and
/// there are two of them per byte.
pub proof fn lemma_hex_lower_shape(bytes: Seq<u8>)
    ensures
        hex_lower(bytes).len() == 2 * bytes.len(),
        vstd::utf8::is_ascii_chars(hex_lower(bytes)),
    decreases bytes.len(),
{
    if bytes.len() > 0 {
        lemma_hex_lower_shape(bytes.drop_last());
        let b: u8 = bytes.last();
        let hi: char = hex_digit_char((b / 16) as nat);
        let lo: char = hex_digit_char((b % 16) as nat);
        assert('\0' <= hi <= '\u{7f}');
        assert('\0' <= lo <= '\u{7f}');
        let h: Seq<char> = hex_lower(bytes);
        assert forall|i: int| 0 <= i < h.len() implies '\0' <= #[trigger] h[i] <= '\u{7f}' by {
            if i < h.len() - 2 {
                assert(h[i] == hex_lower(bytes.drop_last())[i]);
            }
        }
    }
}

} // verus!

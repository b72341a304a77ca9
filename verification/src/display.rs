//! Text renderings of data for viewing: bytes in binary, 16-bit blocks in decimal.
use crate::text::{decimal, push_char, push_decimal};
use vstd::prelude::*;

verus! {

/// What is shown for no data.
pub const EMPTY_VIEW: &'static str = "(пусто)";

/// A byte as eight binary digits, most significant first (`{:08b}`).
pub open spec fn binary8(b: u8) -> Seq<char> {
    Seq::new(8, |k: int| if (b >> ((7 - k) as u8)) & 1u8 == 1u8 { '1' } else { '0' })
}

/// The first `n` bytes, each in binary followed by a space, with a line
/// break after every fourth byte except the last one.
pub open spec fn binary_rows(data: Seq<u8>, n: nat) -> Seq<char>
    decreases n,
{
    if n == 0 {
        Seq::empty()
    } else {
        let i = n - 1;
        binary_rows(data, i as nat) + binary8(data[i]) + seq![' '] + if n % 4 == 0 && i != data.len()
            - 1 {
            seq!['\n']
        } else {
            Seq::empty()
        }
    }
}

/// The binary view of data: `(пусто)` for no data.
pub open spec fn binary_view(data: Seq<u8>) -> Seq<char> {
    if data.len() == 0 {
        EMPTY_VIEW@
    } else {
        binary_rows(data, data.len())
    }
}

/// The first `n` blocks in decimal, separated by spaces, with a line break in
/// place of the space after every twelfth block.
pub open spec fn decimal_rows(blocks: Seq<u16>, n: nat) -> Seq<char>
    decreases n,
{
    if n == 0 {
        Seq::empty()
    } else {
        let i = n - 1;
        block_separator(decimal_rows(blocks, i as nat) + decimal(blocks[i] as nat), blocks.len(), n)
    }
}

/// The separator after the `n`-th of `len` items: none after the last, a line
/// break after every twelfth, a space otherwise.
pub open spec fn block_separator(s: Seq<char>, len: nat, n: nat) -> Seq<char> {
    if n == len {
        s
    } else if n % 12 == 0 {
        s.push('\n')
    } else {
        s.push(' ')
    }
}

/// The decimal view of 16-bit blocks: `(пусто)` for no blocks.
pub open spec fn decimal_view(blocks: Seq<u16>) -> Seq<char> {
    if blocks.len() == 0 {
        EMPTY_VIEW@
    } else {
        decimal_rows(blocks, blocks.len())
    }
}

/// Appends a byte as eight binary digits.
fn push_binary8(s: &mut String, b: u8)
    ensures
        final(s)@ == old(s)@ + binary8(b),
{
    let ghost start = s@;
    for k in 0..8u8
        invariant
            s@ == start + binary8(b).take(k as int),
    {
        let bit = (b >> (7 - k)) & 1;
        let c = if bit == 1 { '1' } else { '0' };
        push_char(s, c);
        assert(binary8(b).take(k + 1) =~= binary8(b).take(k as int).push(c));
    }
    assert(binary8(b).take(8) =~= binary8(b));
}

/// Renders bytes in binary, four to a line.
pub fn format_binary_view(data: &[u8]) -> (s: String)
    ensures
        s@ == binary_view(data@),
{
    if data.len() == 0 {
        return String::from_str(EMPTY_VIEW);
    }
    let mut result = String::new();
    for i in 0..data.len()
        invariant
            data@.len() > 0,
            result@ == binary_rows(data@, i as nat),
    {
        let ghost before = result@;
        push_binary8(&mut result, data[i]);
        push_char(&mut result, ' ');
        if (i + 1) % 4 == 0 && i != data.len() - 1 {
            push_char(&mut result, '\n');
        }
        assert(result@ =~= binary_rows(data@, (i + 1) as nat));
    }
    result
}

/// Renders 16-bit blocks in decimal, twelve to a line.
pub fn format_cipher_blocks_decimal(blocks: &[u16]) -> (s: String)
    ensures
        s@ == decimal_view(blocks@),
{
    if blocks.len() == 0 {
        return String::from_str(EMPTY_VIEW);
    }
    let mut out = String::new();
    for i in 0..blocks.len()
        invariant
            blocks@.len() > 0,
            out@ == decimal_rows(blocks@, i as nat),
    {
        push_decimal(&mut out, blocks[i] as u64);
        if i + 1 != blocks.len() {
            if (i + 1) % 12 == 0 {
                push_char(&mut out, '\n');
            } else {
                push_char(&mut out, ' ');
            }
        }
        assert(out@ =~= decimal_rows(blocks@, (i + 1) as nat));
    }
    out
}

} // verus!

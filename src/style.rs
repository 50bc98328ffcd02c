use vstd::prelude::*;
use crate::render::Color;

verus! {

/// ASCII decimal digits of `n`, most significant first, without leading zeros.
pub open spec fn decimal(n: nat) -> Seq<u8>
    decreases n,
{
    if n < 10 {
        seq![(48 + n) as u8]
    } else {
        decimal(n / 10) + seq![(48 + n % 10) as u8]
    }
}

/// The CSS text `rgb(R, G, B)` of a color, as ASCII bytes
/// (`r` 114, `g` 103, `b` 98, `(` 40, `,` 44, space 32, `)` 41).
pub open spec fn rgb_text(c: Color) -> Seq<u8> {
    seq![114u8, 103u8, 98u8, 40u8] + decimal(c.red as nat) + seq![44u8, 32u8] + decimal(
        c.green as nat,
    ) + seq![44u8, 32u8] + decimal(c.blue as nat) + seq![41u8]
}

fn push_decimal(out: &mut Vec<u8>, v: u8)
    ensures
        final(out)@ == old(out)@ + decimal(v as nat),
{
    let ghost before = out@;
    proof {
        reveal_with_fuel(decimal, 3);
    }
    if v >= 100 {
        out.push(48 + v / 100);
        out.push(48 + (v / 10) % 10);
        out.push(48 + v % 10);
        assert((v as nat / 10) / 10 == v / 100);
    } else if v >= 10 {
        out.push(48 + v / 10);
        out.push(48 + v % 10);
    } else {
        out.push(48 + v);
    }
    assert(out@ =~= before + decimal(v as nat));
}

/// The fill style of a color in the surface's styling convention: the
/// well-formed text `rgb(R, G, B)` with each channel in decimal.
pub fn fill_style(c: Color) -> (r: Vec<u8>)
    ensures
        r@ == rgb_text(c),
{
    let mut out: Vec<u8> = Vec::new();
    out.push(114u8);
    out.push(103u8);
    out.push(98u8);
    out.push(40u8);
    push_decimal(&mut out, c.red);
    out.push(44u8);
    out.push(32u8);
    push_decimal(&mut out, c.green);
    out.push(44u8);
    out.push(32u8);
    push_decimal(&mut out, c.blue);
    out.push(41u8);
    assert(out@ =~= rgb_text(c));
    out
}

} // verus!

//! The pointer-path result type and its textual form, which names the module
//! and offsets only, so that it stays meaningful across process restarts.

use vstd::prelude::*;

verus! {

pub const SPACE: u8 = 0x20;
pub const PLUS: u8 = 0x2b;
pub const MINUS: u8 = 0x2d;
pub const ZERO: u8 = 0x30;
pub const GREATER: u8 = 0x3e;
pub const LOWER_A: u8 = 0x61;
pub const LOWER_X: u8 = 0x78;

/// A chain of offsets from `module`'s base plus `base_offset`.
pub struct PointerPath {
    pub module: Vec<u8>,
    pub base_offset: usize,
    pub steps: Vec<i16>,
}

/// The lower-case hexadecimal digit for `d < 16`.
pub open spec fn hex_digit(d: nat) -> u8 {
    if d < 10 {
        (ZERO + d) as u8
    } else {
        (LOWER_A + d - 10) as u8
    }
}

/// `n` in hexadecimal, without leading zeros.
pub open spec fn hex_text(n: nat) -> Seq<u8>
    decreases n,
{
    if n < 16 {
        seq![hex_digit(n)]
    } else {
        hex_text(n / 16).push(hex_digit(n % 16))
    }
}

pub open spec fn arrow() -> Seq<u8> {
    seq![SPACE, MINUS, GREATER, SPACE]
}

pub open spec fn hex_prefix() -> Seq<u8> {
    seq![ZERO, LOWER_X]
}

/// A signed offset: its sign, then `0x` and its magnitude.
pub open spec fn offset_text(o: i16) -> Seq<u8> {
    let sign = if o < 0 { MINUS } else { PLUS };
    seq![sign] + hex_prefix() + hex_text((if o < 0 { -(o as int) } else { o as int }) as nat)
}

/// ` -> ` before each offset of `steps`.
pub open spec fn steps_text(steps: Seq<i16>) -> Seq<u8>
    decreases steps.len(),
{
    if steps.len() == 0 {
        Seq::empty()
    } else {
        steps_text(steps.drop_last()) + arrow() + offset_text(steps.last())
    }
}

/// `module+0xbase -> +0xo0 -> -0xo1 ...`
pub open spec fn path_text(module: Seq<u8>, base_offset: usize, steps: Seq<i16>) -> Seq<u8> {
    module + seq![PLUS] + hex_prefix() + hex_text(base_offset as nat) + steps_text(steps)
}

fn push_hex(n: u64, out: &mut Vec<u8>)
    ensures
        final(out)@ == old(out)@ + hex_text(n as nat),
    decreases n,
{
    let ghost before = out@;
    if n >= 16 {
        push_hex(n / 16, out);
    }
    let d = (n % 16) as u8;
    let c: u8 = if d < 10 { ZERO + d } else { LOWER_A + (d - 10) };
    out.push(c);
    assert(out@ =~= before + hex_text(n as nat));
}

fn push_offset(o: i16, out: &mut Vec<u8>)
    ensures
        final(out)@ == old(out)@ + offset_text(o),
{
    let ghost before = out@;
    let magnitude: u64 = if o < 0 { (0 - (o as i32)) as u64 } else { o as u64 };
    out.push(if o < 0 { MINUS } else { PLUS });
    out.push(ZERO);
    out.push(LOWER_X);
    push_hex(magnitude, out);
    assert(out@ =~= before + offset_text(o));
}

impl PointerPath {
    /// The textual form of the path.
    pub fn render(&self) -> (r: Vec<u8>)
        ensures
            r@ == path_text(self.module@, self.base_offset, self.steps@),
    {
        let mut out: Vec<u8> = Vec::new();
        out.extend_from_slice(self.module.as_slice());
        out.push(PLUS);
        out.push(ZERO);
        out.push(LOWER_X);
        push_hex(self.base_offset as u64, &mut out);
        let ghost head = self.module@ + seq![PLUS] + hex_prefix() + hex_text(self.base_offset as nat);
        assert(out@ =~= head);
        let mut i: usize = 0;
        assert(self.steps@.subrange(0, 0) =~= Seq::<i16>::empty());
        assert(head + Seq::empty() =~= head);
        while i < self.steps.len()
            invariant
                i <= self.steps@.len(),
                out@ == head + steps_text(self.steps@.subrange(0, i as int)),
            decreases self.steps@.len() - i,
        {
            let ghost before = out@;
            out.push(SPACE);
            out.push(MINUS);
            out.push(GREATER);
            out.push(SPACE);
            push_offset(self.steps[i], &mut out);
            let ghost s = self.steps@.subrange(0, i + 1);
            assert(s.drop_last() =~= self.steps@.subrange(0, i as int));
            assert(out@ =~= head + steps_text(s));
            i = i + 1;
        }
        assert(self.steps@.subrange(0, self.steps@.len() as int) =~= self.steps@);
        out
    }
}

} // verus!

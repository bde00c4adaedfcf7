//! `mo-fmt.toml`.

use vstd::prelude::*;
use crate::bytes::sb;

verus! {

/// Which syntax the output uses.
#[derive(Debug, Clone, Copy, PartialEq, Eq, Structural)]
pub enum Syntax {
    /// Keep the syntax as written.
    Preserve,
    /// Rewrite legacy syntax to the moc 2.0 forms. May change between minor versions while moc 2.0 is in beta.
    Moc2,
}

impl Default for Syntax {
    fn default() -> (r: Self)
        ensures
            r == Syntax::Preserve,
    {
        Syntax::Preserve
    }
}

/// Spaces per indentation level, from 1 to 16: anything wider is almost certainly a typo.
#[derive(Debug, Clone, Copy, PartialEq, Eq, Structural)]
pub struct IndentWidth(u8);

impl IndentWidth {
    pub const MAX: u8 = 16;

    #[verifier::type_invariant]
    spec fn in_range(self) -> bool {
        1 <= self.0 <= 16
    }

    /// The width, as a number.
    pub closed spec fn width(self) -> nat {
        self.0 as nat
    }

    pub fn get(self) -> (r: usize)
        ensures
            r == self.width(),
            1 <= r <= 16,
    {
        proof {
            use_type_invariant(&self);
        }
        self.0 as usize
    }

    /// The width `n`, or a message saying why it is out of range.
    pub fn try_from(n: i64) -> (r: Result<IndentWidth, String>)
        ensures
            1 <= n <= 16 <==> r is Ok,
            r matches Ok(w) ==> w.width() == n,
            r matches Err(m) ==> (vstd::utf8::valid_utf8(out_of_range_message(n as int))
                ==> m@ == vstd::utf8::decode_utf8(out_of_range_message(n as int))),
    {
        if 1 <= n && n <= 16 {
            return Ok(IndentWidth(n as u8));
        }
        let mut m: Vec<u8> = Vec::new();
        crate::bytes::append_str(&mut m, "indent-width must be between 1 and ");
        let mut max = crate::bytes::decimal_of(16);
        m.append(&mut max);
        crate::bytes::append_str(&mut m, ", not ");
        if n < 0 {
            crate::bytes::append_str(&mut m, "-");
            let magnitude: u64 = ((-(n + 1)) as u64) + 1;
            let mut d = crate::bytes::decimal_u64(magnitude);
            m.append(&mut d);
        } else {
            let mut d = crate::bytes::decimal_u64(n as u64);
            m.append(&mut d);
        }
        assert(m@ =~= out_of_range_message(n as int));
        Err(crate::bytes::string_from_bytes(m.as_slice()))
    }
}

/// An integer in decimal, with a `-` before a negative one.
pub open spec fn signed_decimal(n: int) -> Seq<u8> {
    if n < 0 {
        sb("-") + crate::bytes::decimal((-n) as nat)
    } else {
        crate::bytes::decimal(n as nat)
    }
}

/// Why a width is out of range.
pub open spec fn out_of_range_message(n: int) -> Seq<u8> {
    sb("indent-width must be between 1 and ") + crate::bytes::decimal(16) + sb(", not ") + signed_decimal(n)
}

impl Default for IndentWidth {
    fn default() -> (r: Self)
        ensures
            r.width() == 2,
    {
        IndentWidth(2)
    }
}

/// The settings of `mo-fmt.toml`.
#[derive(Debug, Clone, Copy, PartialEq, Eq, Structural)]
pub struct Config {
    pub syntax: Syntax,
    pub indent_width: IndentWidth,
}

impl Config {
    /// A configuration with these settings.
    pub fn new(syntax: Syntax, indent_width: IndentWidth) -> (r: Config)
        ensures
            r.syntax == syntax,
            r.indent_width == indent_width,
    {
        Config { syntax, indent_width }
    }
}

impl Default for Config {
    fn default() -> (r: Self)
        ensures
            r.syntax == Syntax::Preserve,
            r.indent_width.width() == 2,
    {
        Config { syntax: Syntax::Preserve, indent_width: IndentWidth::default() }
    }
}

} // verus!

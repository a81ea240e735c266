use vstd::prelude::*;

verus! {

/// The left-hand side of a field declaration: one bit, or a range of bits.
#[derive(Clone, Copy, Debug)]
pub enum BitSpec {
    Bit(u64),
    Range { from: Option<u64>, to: Option<u64>, closed: bool },
}

/// Why a bit specification names no bits.
#[derive(PartialEq, Eq, Structural, Debug, Clone, Copy)]
pub enum RangeError {
    /// The range has no lower bound.
    FromRequired,
    /// The range has no upper bound.
    ToRequired,
    /// The range holds no bit, or its width does not fit in 64 bits.
    Empty,
}

/// The offset and width that a range with both bounds names.
pub open spec fn range_span(from: u64, to: u64, closed: bool) -> (int, int) {
    if closed {
        (from as int, to - from + 1)
    } else {
        (from as int, to - from)
    }
}

/// The offset and width that a bit specification names, or why it names none.
pub open spec fn resolve_spec(b: BitSpec) -> Result<(int, int), RangeError> {
    match b {
        BitSpec::Bit(p) => Ok((p as int, 1)),
        BitSpec::Range { from, to, closed } => match from {
            None => Err(RangeError::FromRequired),
            Some(f) => match to {
                None => Err(RangeError::ToRequired),
                Some(t) => {
                    let (o, w) = range_span(f, t, closed);
                    if 1 <= w <= u64::MAX {
                        Ok((o, w))
                    } else {
                        Err(RangeError::Empty)
                    }
                },
            },
        },
    }
}

/// Resolves a bit specification into `(bit_offset, bit_width)`.
pub fn resolve(b: &BitSpec) -> (r: Result<(u64, u64), RangeError>)
    ensures
        match r {
            Ok((o, w)) => resolve_spec(*b) == Ok::<(int, int), RangeError>((o as int, w as int)),
            Err(e) => resolve_spec(*b) == Err::<(int, int), RangeError>(e),
        },
{
    match b {
        BitSpec::Bit(p) => Ok((*p, 1)),
        BitSpec::Range { from, to, closed } => match from {
            None => Err(RangeError::FromRequired),
            Some(f) => match to {
                None => Err(RangeError::ToRequired),
                Some(t) => {
                    if *t < *f {
                        Err(RangeError::Empty)
                    } else if *closed {
                        if *t - *f == u64::MAX {
                            Err(RangeError::Empty)
                        } else {
                            Ok((*f, *t - *f + 1))
                        }
                    } else if *t == *f {
                        Err(RangeError::Empty)
                    } else {
                        Ok((*f, *t - *f))
                    }
                },
            },
        },
    }
}

/// A single bit is one bit wide, at the declared position.
pub proof fn lemma_single_bit(p: u64)
    ensures
        resolve_spec(BitSpec::Bit(p)) == Ok::<(int, int), RangeError>((p as int, 1)),
{
}

/// `a..b` starts at `a` and is `b - a` wide; `a..=b` starts at `a` and is
/// `b - a + 1` wide (for ranges that hold a bit, with a width that fits in 64 bits).
pub proof fn lemma_range_span(a: u64, b: u64)
    ensures
        a < b ==> resolve_spec(BitSpec::Range { from: Some(a), to: Some(b), closed: false })
            == Ok::<(int, int), RangeError>((a as int, b - a)),
        a <= b && b - a < u64::MAX ==> resolve_spec(BitSpec::Range { from: Some(a), to: Some(b), closed: true })
            == Ok::<(int, int), RangeError>((a as int, b - a + 1)),
{
}

/// A range without a lower bound fails with `FromRequired`; one with a lower but
/// without an upper bound fails with `ToRequired`. Neither takes a default.
pub proof fn lemma_missing_bound(from: Option<u64>, to: Option<u64>, closed: bool)
    ensures
        from is None ==> resolve_spec(BitSpec::Range { from, to, closed }) == Err::<(int, int), RangeError>(RangeError::FromRequired),
        from is Some && to is None ==> resolve_spec(BitSpec::Range { from, to, closed }) == Err::<(int, int), RangeError>(RangeError::ToRequired),
{
}

} // verus!

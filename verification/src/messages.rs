//! What to tell of an error.

use vstd::prelude::*;
use crate::sstable::TableError;
use crate::store::StoreError;
use crate::vector::VectorError;

verus! {

/// The digit that stands for `d`.
pub open spec fn digit(d: nat) -> char {
    (48 + d) as char
}

/// A number in decimal.
pub open spec fn decimal(n: nat) -> Seq<char>
    decreases n,
{
    if n < 10 {
        seq![digit(n)]
    } else {
        decimal(n / 10).push(digit(n % 10))
    }
}

/// Appends a number in decimal.
fn put_decimal(out: &mut String, n: usize)
    ensures
        final(out)@ == old(out)@ + decimal(n as nat),
    decreases n,
{
    let c: char = (48u8 + (n % 10) as u8) as char;
    if n >= 10 {
        put_decimal(out, n / 10);
    }
    out.push(c);
    assert(out@ =~= old(out)@ + decimal(n as nat));
}

pub open spec fn vector_message(e: VectorError) -> Seq<char> {
    match e {
        VectorError::DimensionMismatch { expected, got } => "expected "@ + decimal(expected as nat)
            + "-dim vector, got "@ + decimal(got as nat),
    }
}

impl VectorError {
    /// What to tell of the error.
    pub fn message(&self) -> (r: String)
        ensures
            r@ == vector_message(*self),
    {
        match self {
            VectorError::DimensionMismatch { expected, got } => {
                let mut out: String = "expected ".to_owned();
                put_decimal(&mut out, *expected);
                out.append("-dim vector, got ");
                put_decimal(&mut out, *got);
                assert(out@ =~= vector_message(*self));
                out
            },
        }
    }
}

pub open spec fn table_message(e: TableError) -> Seq<char> {
    match e {
        TableError::TooSmall => "sstable too small"@,
        TableError::BadMagic => "bad sstable footer magic"@,
        TableError::OffsetsOutOfRange => "sstable footer offsets out of range"@,
        TableError::UnexpectedEof => "failed to fill whole buffer"@,
    }
}

impl TableError {
    /// What to tell of the error.
    pub fn message(&self) -> (r: String)
        ensures
            r@ == table_message(*self),
    {
        match self {
            TableError::TooSmall => "sstable too small".to_owned(),
            TableError::BadMagic => "bad sstable footer magic".to_owned(),
            TableError::OffsetsOutOfRange => "sstable footer offsets out of range".to_owned(),
            TableError::UnexpectedEof => "failed to fill whole buffer".to_owned(),
        }
    }
}

pub open spec fn store_message(e: StoreError) -> Seq<char> {
    match e {
        StoreError::Table(t) => table_message(t),
        StoreError::DamagedIndex => "sstable index is damaged"@,
        StoreError::DamagedFilter => "sstable filter is damaged"@,
        StoreError::Unordered => "sstable records are out of order"@,
        StoreError::SeqExhausted => "no sequence number is left"@,
    }
}

impl StoreError {
    /// What to tell of the error.
    pub fn message(&self) -> (r: String)
        ensures
            r@ == store_message(*self),
    {
        match self {
            StoreError::Table(t) => t.message(),
            StoreError::DamagedIndex => "sstable index is damaged".to_owned(),
            StoreError::DamagedFilter => "sstable filter is damaged".to_owned(),
            StoreError::Unordered => "sstable records are out of order".to_owned(),
            StoreError::SeqExhausted => "no sequence number is left".to_owned(),
        }
    }
}

/// The number that a sequence of digits stands for.
pub open spec fn reads_as(s: Seq<char>) -> nat
    decreases s.len(),
{
    if s.len() == 0 {
        0
    } else {
        10 * reads_as(s.drop_last()) + (s.last() as nat - '0' as nat) as nat
    }
}

/// A number in decimal reads back as the number; it is made of digits, and has no
/// zero in front of another.
pub proof fn law_decimal_reads_back(n: nat)
    ensures
        reads_as(decimal(n)) == n,
        decimal(n).len() > 0,
        forall|i: int| 0 <= i < decimal(n).len() ==> '0' <= #[trigger] decimal(n)[i] <= '9',
        n > 0 ==> decimal(n)[0] != '0',
    decreases n,
{
    if n < 10 {
        assert(decimal(n).drop_last() =~= Seq::<char>::empty());
        assert(reads_as(Seq::<char>::empty()) == 0);
    } else {
        law_decimal_reads_back(n / 10);
        assert(decimal(n).drop_last() =~= decimal(n / 10));
    }
}

/// The message of a vector of a wrong width tells both widths in decimal.
pub proof fn law_mismatch_message_tells_both_widths(expected: usize, got: usize) -> (r: (
    Seq<char>,
    Seq<char>,
))
    ensures
        vector_message(VectorError::DimensionMismatch { expected, got }) == "expected "@ + r.0
            + "-dim vector, got "@ + r.1,
        reads_as(r.0) == expected,
        reads_as(r.1) == got,
        forall|i: int| 0 <= i < r.0.len() ==> '0' <= #[trigger] r.0[i] <= '9',
        forall|i: int| 0 <= i < r.1.len() ==> '0' <= #[trigger] r.1[i] <= '9',
        expected > 0 ==> r.0[0] != '0',
        got > 0 ==> r.1[0] != '0',
{
    law_decimal_reads_back(expected as nat);
    law_decimal_reads_back(got as nat);
    (decimal(expected as nat), decimal(got as nat))
}

} // verus!

use vstd::prelude::*;

verus! {

/// The number of atomic units in one whole `Decimal` (10^18).
pub const DECIMAL_FRACTIONAL: u128 = 1_000_000_000_000_000_000u128;

/// Errors of checked arithmetic.
#[derive(Debug, Clone, Copy, PartialEq, Eq, Structural)]
pub enum MathError {
    Overflow,
    DivideByZero,
}

/// `floor(a * n / d)` over the integers.
pub open spec fn mul_div(a: int, n: int, d: int) -> int {
    a * n / d
}

/// The result of a checked `floor(a * n / d)` on 128-bit unsigned integers
/// whose intermediate product is computed without overflow.
pub open spec fn checked_mul_div_spec(a: u128, n: u128, d: u128) -> Result<u128, MathError> {
    if d == 0 {
        Err(MathError::DivideByZero)
    } else if mul_div(a as int, n as int, d as int) > u128::MAX {
        Err(MathError::Overflow)
    } else {
        Ok(mul_div(a as int, n as int, d as int) as u128)
    }
}

/// A fixed-point decimal with 18 fractional digits, held by its atomics
/// (the value times 10^18).
#[derive(Debug, Clone, Copy, PartialEq, Eq, Structural)]
pub struct Decimal {
    pub atomics: u128,
}

/// `cosmwasm_std::Uint128::checked_mul_floor` with a `cosmwasm_std::Decimal`
/// fraction: `floor(amount * atomics / 10^18)`, failing with `Overflow` when
/// the result does not fit in 128 bits (the denominator is never zero).
#[verifier::external_body]
pub(crate) fn uint_mul_floor_decimal(amount: u128, fraction: Decimal) -> (r: Result<u128, MathError>)
    ensures
        r == checked_mul_div_spec(amount, fraction.atomics, DECIMAL_FRACTIONAL),
{
    match cosmwasm_std::Uint128::new(amount).checked_mul_floor(cosmwasm_std::Decimal::raw(fraction.atomics)) {
        Ok(v) => Ok(v.u128()),
        Err(cosmwasm_std::CheckedMultiplyFractionError::DivideByZero(_)) => Err(MathError::DivideByZero),
        Err(cosmwasm_std::CheckedMultiplyFractionError::ConversionOverflow(_)) => Err(MathError::Overflow),
        Err(cosmwasm_std::CheckedMultiplyFractionError::Overflow(_)) => Err(MathError::Overflow),
    }
}

/// `cosmwasm_std::Uint128::checked_mul_floor` with a `(numerator,
/// denominator)` fraction: `floor(amount * numerator / denominator)`,
/// failing with `DivideByZero` on a zero denominator and with `Overflow` when
/// the result does not fit in 128 bits.
#[verifier::external_body]
pub(crate) fn uint_mul_floor_ratio(amount: u128, numerator: u128, denominator: u128) -> (r: Result<u128, MathError>)
    ensures
        r == checked_mul_div_spec(amount, numerator, denominator),
{
    match cosmwasm_std::Uint128::new(amount).checked_mul_floor((numerator, denominator)) {
        Ok(v) => Ok(v.u128()),
        Err(cosmwasm_std::CheckedMultiplyFractionError::DivideByZero(_)) => Err(MathError::DivideByZero),
        Err(cosmwasm_std::CheckedMultiplyFractionError::ConversionOverflow(_)) => Err(MathError::Overflow),
        Err(cosmwasm_std::CheckedMultiplyFractionError::Overflow(_)) => Err(MathError::Overflow),
    }
}

/// `cosmwasm_std::Decimal::checked_from_ratio`: the decimal with atomics
/// `floor(numerator * 10^18 / denominator)`.
#[verifier::external_body]
pub(crate) fn decimal_checked_from_ratio(numerator: u128, denominator: u128) -> (r: Result<Decimal, MathError>)
    ensures
        match checked_mul_div_spec(numerator, DECIMAL_FRACTIONAL, denominator) {
            Ok(v) => r == Ok::<Decimal, MathError>(Decimal { atomics: v }),
            Err(e) => r == Err::<Decimal, MathError>(e),
        },
{
    match cosmwasm_std::Decimal::checked_from_ratio(numerator, denominator) {
        Ok(v) => Ok(Decimal { atomics: v.atomics().u128() }),
        Err(cosmwasm_std::CheckedFromRatioError::DivideByZero) => Err(MathError::DivideByZero),
        Err(cosmwasm_std::CheckedFromRatioError::Overflow) => Err(MathError::Overflow),
    }
}

/// `cosmwasm_std::Decimal::checked_mul`: atomics
/// `floor(a.atomics * b.atomics / 10^18)`, failing with `Overflow` when they do
/// not fit in 128 bits.
#[verifier::external_body]
pub(crate) fn decimal_checked_mul(a: Decimal, b: Decimal) -> (r: Result<Decimal, MathError>)
    ensures
        match checked_mul_div_spec(a.atomics, b.atomics, DECIMAL_FRACTIONAL) {
            Ok(v) => r == Ok::<Decimal, MathError>(Decimal { atomics: v }),
            Err(e) => r == Err::<Decimal, MathError>(e),
        },
{
    match cosmwasm_std::Decimal::raw(a.atomics).checked_mul(cosmwasm_std::Decimal::raw(b.atomics)) {
        Ok(v) => Ok(Decimal { atomics: v.atomics().u128() }),
        Err(_) => Err(MathError::Overflow),
    }
}

/// `cosmwasm_std::Decimal::checked_div`: atomics
/// `floor(a.atomics * 10^18 / b.atomics)`, failing with `DivideByZero` when `b`
/// is zero and with `Overflow` when the result does not fit in 128 bits.
#[verifier::external_body]
pub(crate) fn decimal_checked_div(a: Decimal, b: Decimal) -> (r: Result<Decimal, MathError>)
    ensures
        match checked_mul_div_spec(a.atomics, DECIMAL_FRACTIONAL, b.atomics) {
            Ok(v) => r == Ok::<Decimal, MathError>(Decimal { atomics: v }),
            Err(e) => r == Err::<Decimal, MathError>(e),
        },
{
    match cosmwasm_std::Decimal::raw(a.atomics).checked_div(cosmwasm_std::Decimal::raw(b.atomics)) {
        Ok(v) => Ok(Decimal { atomics: v.atomics().u128() }),
        Err(cosmwasm_std::CheckedFromRatioError::DivideByZero) => Err(MathError::DivideByZero),
        Err(cosmwasm_std::CheckedFromRatioError::Overflow) => Err(MathError::Overflow),
    }
}

impl Decimal {
    /// The decimal zero.
    pub fn zero() -> (d: Decimal)
        ensures
            d.atomics == 0,
    {
        Decimal { atomics: 0 }
    }

    /// The decimal one.
    pub fn one() -> (d: Decimal)
        ensures
            d.atomics == DECIMAL_FRACTIONAL,
    {
        Decimal { atomics: DECIMAL_FRACTIONAL }
    }

    /// `x` percent.
    pub fn percent(x: u64) -> (d: Decimal)
        ensures
            d.atomics == x * 10_000_000_000_000_000,
    {
        Decimal { atomics: (x as u128) * 10_000_000_000_000_000u128 }
    }

    /// The decimal `numerator / denominator`, rounded down.
    pub fn checked_from_ratio(numerator: u128, denominator: u128) -> (r: Result<Decimal, MathError>)
        ensures
            match checked_mul_div_spec(numerator, DECIMAL_FRACTIONAL, denominator) {
                Ok(v) => r == Ok::<Decimal, MathError>(Decimal { atomics: v }),
                Err(e) => r == Err::<Decimal, MathError>(e),
            },
    {
        decimal_checked_from_ratio(numerator, denominator)
    }

    /// Sum of two decimals.
    pub fn checked_add(self, other: Decimal) -> (r: Result<Decimal, MathError>)
        ensures
            self.atomics + other.atomics <= u128::MAX ==> r == Ok::<Decimal, MathError>(
                Decimal { atomics: (self.atomics + other.atomics) as u128 },
            ),
            self.atomics + other.atomics > u128::MAX ==> r == Err::<Decimal, MathError>(MathError::Overflow),
    {
        match self.atomics.checked_add(other.atomics) {
            Some(v) => Ok(Decimal { atomics: v }),
            None => Err(MathError::Overflow),
        }
    }

    /// Difference of two decimals.
    pub fn checked_sub(self, other: Decimal) -> (r: Result<Decimal, MathError>)
        ensures
            other.atomics <= self.atomics ==> r == Ok::<Decimal, MathError>(
                Decimal { atomics: (self.atomics - other.atomics) as u128 },
            ),
            other.atomics > self.atomics ==> r == Err::<Decimal, MathError>(MathError::Overflow),
    {
        if other.atomics <= self.atomics {
            Ok(Decimal { atomics: self.atomics - other.atomics })
        } else {
            Err(MathError::Overflow)
        }
    }

    /// Product of two decimals, rounded down.
    pub fn checked_mul(self, other: Decimal) -> (r: Result<Decimal, MathError>)
        ensures
            match checked_mul_div_spec(self.atomics, other.atomics, DECIMAL_FRACTIONAL) {
                Ok(v) => r == Ok::<Decimal, MathError>(Decimal { atomics: v }),
                Err(e) => r == Err::<Decimal, MathError>(e),
            },
    {
        decimal_checked_mul(self, other)
    }

    /// Quotient of two decimals, rounded down.
    pub fn checked_div(self, other: Decimal) -> (r: Result<Decimal, MathError>)
        ensures
            match checked_mul_div_spec(self.atomics, DECIMAL_FRACTIONAL, other.atomics) {
                Ok(v) => r == Ok::<Decimal, MathError>(Decimal { atomics: v }),
                Err(e) => r == Err::<Decimal, MathError>(e),
            },
    {
        decimal_checked_div(self, other)
    }
}

/// `floor(amount * fraction)`.
pub fn checked_mul_floor(amount: u128, fraction: Decimal) -> (r: Result<u128, MathError>)
    ensures
        r == checked_mul_div_spec(amount, fraction.atomics, DECIMAL_FRACTIONAL),
{
    uint_mul_floor_decimal(amount, fraction)
}

} // verus!

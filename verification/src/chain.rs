use vstd::prelude::*;

verus! {

/// Nanoseconds in one second.
pub const NANOS_PER_SECOND: u64 = 1_000_000_000u64;

/// A point in time, in nanoseconds since the epoch.
#[derive(Debug, Clone, Copy, PartialEq, Eq, Structural)]
pub struct Timestamp {
    pub nanos: u64,
}

/// The time `seconds` after `t`, in nanoseconds.
pub open spec fn plus_seconds_spec(t: Timestamp, seconds: u64) -> int {
    t.nanos + seconds * NANOS_PER_SECOND
}

/// The time `seconds` before `t`, in nanoseconds.
pub open spec fn minus_seconds_spec(t: Timestamp, seconds: u64) -> int {
    t.nanos - seconds * NANOS_PER_SECOND
}

impl Timestamp {
    /// The time `seconds` after this one.
    pub fn plus_seconds(&self, seconds: u64) -> (t: Timestamp)
        requires
            plus_seconds_spec(*self, seconds) <= u64::MAX,
        ensures
            t.nanos == plus_seconds_spec(*self, seconds),
    {
        assert(seconds * NANOS_PER_SECOND <= u64::MAX);
        Timestamp { nanos: self.nanos + seconds * NANOS_PER_SECOND }
    }

    /// The time `seconds` before this one.
    pub fn minus_seconds(&self, seconds: u64) -> (t: Timestamp)
        requires
            0 <= minus_seconds_spec(*self, seconds),
            seconds * NANOS_PER_SECOND <= u64::MAX,
        ensures
            t.nanos == minus_seconds_spec(*self, seconds),
    {
        Timestamp { nanos: self.nanos - seconds * NANOS_PER_SECOND }
    }
}

/// The block a transaction executes in.
#[derive(Debug, Clone, Copy, PartialEq, Eq, Structural)]
pub struct BlockInfo {
    pub height: u64,
    pub time: Timestamp,
}

/// A point at which something expires.
#[derive(Debug, Clone, Copy, PartialEq, Eq, Structural)]
pub enum Expiration {
    AtHeight(u64),
    AtTime(Timestamp),
    Never,
}

/// A span of blocks or of seconds.
#[derive(Debug, Clone, Copy, PartialEq, Eq, Structural)]
pub enum Duration {
    Height(u64),
    Time(u64),
}

/// The number of blocks or seconds of `d`.
pub open spec fn duration_value(d: Duration) -> u64 {
    match d {
        Duration::Height(h) => h,
        Duration::Time(s) => s,
    }
}

/// Whether `e` has expired at `block`.
pub open spec fn is_expired_spec(e: Expiration, block: BlockInfo) -> bool {
    match e {
        Expiration::AtHeight(h) => block.height >= h,
        Expiration::AtTime(t) => block.time.nanos >= t.nanos,
        Expiration::Never => false,
    }
}

/// Whether `d` can be added to `block` without leaving the range of `u64`.
pub open spec fn after_fits(d: Duration, block: BlockInfo) -> bool {
    match d {
        Duration::Height(h) => block.height + h <= u64::MAX,
        Duration::Time(s) => plus_seconds_spec(block.time, s) <= u64::MAX,
    }
}

/// The expiration `d` after `block`.
pub open spec fn after_spec(d: Duration, block: BlockInfo) -> Expiration {
    match d {
        Duration::Height(h) => Expiration::AtHeight((block.height + h) as u64),
        Duration::Time(s) => Expiration::AtTime(Timestamp { nanos: plus_seconds_spec(block.time, s) as u64 }),
    }
}

impl Expiration {
    /// Whether this has expired at `block`.
    pub fn is_expired(&self, block: &BlockInfo) -> (b: bool)
        ensures
            b == is_expired_spec(*self, *block),
    {
        match self {
            Expiration::AtHeight(h) => block.height >= *h,
            Expiration::AtTime(t) => block.time.nanos >= t.nanos,
            Expiration::Never => false,
        }
    }
}

impl Duration {
    /// The expiration this long after `block`.
    pub fn after(&self, block: &BlockInfo) -> (e: Expiration)
        requires
            after_fits(*self, *block),
        ensures
            e == after_spec(*self, *block),
    {
        match self {
            Duration::Height(h) => Expiration::AtHeight(block.height + *h),
            Duration::Time(s) => Expiration::AtTime(block.time.plus_seconds(*s)),
        }
    }

    /// The number of blocks or seconds.
    pub fn value(&self) -> (v: u64)
        ensures
            v == duration_value(*self),
    {
        match self {
            Duration::Height(h) => *h,
            Duration::Time(s) => *s,
        }
    }
}

/// An amount of a native token.
#[derive(Debug, Clone, PartialEq, Eq)]
pub struct Coin {
    pub denom: String,
    pub amount: u128,
}

/// Why a payment was refused.
#[derive(Debug, Clone, PartialEq, Eq)]
pub enum PaymentError {
    NoFunds,
    MultipleDenoms,
    MissingDenom(String),
}

/// The single nonzero coin that `funds` must consist of.
pub open spec fn one_coin_spec(funds: Seq<Coin>) -> Result<Coin, PaymentError> {
    if funds.len() == 0 {
        Err(PaymentError::NoFunds)
    } else if funds.len() == 1 {
        if funds[0].amount == 0 {
            Err(PaymentError::NoFunds)
        } else {
            Ok(funds[0])
        }
    } else {
        Err(PaymentError::MultipleDenoms)
    }
}

/// Accepts exactly one nonzero coin.
pub fn one_coin(funds: &Vec<Coin>) -> (r: Result<Coin, PaymentError>)
    ensures
        match one_coin_spec(funds@) {
            Ok(d) => r matches Ok(c) && c.denom@ == d.denom@ && c.amount == d.amount,
            Err(e) => r == Err::<Coin, PaymentError>(e),
        },
{
    if funds.len() == 0 {
        Err(PaymentError::NoFunds)
    } else if funds.len() == 1 {
        let coin = &funds[0];
        if coin.amount == 0 {
            Err(PaymentError::NoFunds)
        } else {
            Ok(Coin { denom: coin.denom.clone(), amount: coin.amount })
        }
    } else {
        Err(PaymentError::MultipleDenoms)
    }
}

/// The amount paid, when `funds` are exactly one nonzero coin of `denom`.
pub fn must_pay(funds: &Vec<Coin>, denom: &String) -> (r: Result<u128, PaymentError>)
    ensures
        match one_coin_spec(funds@) {
            Ok(c) => if c.denom@ == denom@ {
                r == Ok::<u128, PaymentError>(c.amount)
            } else {
                r matches Err(PaymentError::MissingDenom(d)) && d@ == denom@
            },
            Err(e) => r == Err::<u128, PaymentError>(e),
        },
{
    let coin = one_coin(funds)?;
    if coin.denom != *denom {
        Err(PaymentError::MissingDenom(denom.clone()))
    } else {
        Ok(coin.amount)
    }
}

/// A transfer of native tokens.
#[derive(Debug)]
pub struct BankSend {
    pub to_address: String,
    pub coin: Coin,
}

} // verus!

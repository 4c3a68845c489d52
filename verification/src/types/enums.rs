//! The one-byte enumerations of the wire format.
use vstd::prelude::*;

verus! {

#[derive(Copy, Clone, PartialEq, Eq, Structural, Debug)]
pub enum Side {
    Bid,
    Ask,
}

#[derive(Copy, Clone, PartialEq, Eq, Structural, Debug)]
pub enum OrderType {
    Limit,
    Market,
}

#[derive(Copy, Clone, PartialEq, Eq, Structural, Debug)]
pub enum TimeInForce {
    /// Good till cancelled: an unfilled remainder rests on the book.
    GTC,
    /// Immediate or cancel: an unfilled remainder is rejected.
    IOC,
    /// Fill or kill: either the whole quantity fills or nothing does.
    FOK,
}

#[derive(Copy, Clone, PartialEq, Eq, Structural, Debug)]
pub enum RequestType {
    New,
    Cancel,
    Amend,
}

#[derive(Copy, Clone, PartialEq, Eq, Structural, Debug)]
pub enum RejectReason {
    /// Spot balance too low.
    InsufficientBalance,
    /// Margin requirement not met.
    InsufficientMargin,
    /// Position size limit reached.
    PositionLimitExceeded,
    /// Order rate too high.
    RateLimitExceeded,
    /// Price out of the valid range.
    InvalidPrice,
    /// Quantity zero or invalid.
    InvalidQuantity,
    /// Unknown trading pair.
    UnknownInstrument,
    /// No order with this intent hash exists.
    UnknownOrder,
    /// The system is overloaded.
    SystemAtCapacity,
    /// Not enough liquidity to fulfil the order.
    InsufficientLiquidity,
    /// An order with this intent hash is already resting. Readers of records do not
    /// know this reason.
    DuplicateIntent,
}

impl Side {
    /// The byte that stands for this value in a record.
    pub open spec fn code(self) -> u8 {
        match self {
            Side::Bid => 0,
            Side::Ask => 1,
        }
    }

    pub(crate) fn to_byte(self) -> (byte: u8)
        ensures
            byte == self.code(),
    {
        match self {
            Side::Bid => 0,
            Side::Ask => 1,
        }
    }

    /// The value that `byte` stands for, if it stands for one.
    pub(crate) fn from_byte(byte: u8) -> (r: Option<Side>)
        ensures
            match r {
                Some(v) => v.code() == byte,
                None => byte > 1,
            },
    {
        match byte {
            0 => Some(Side::Bid),
            1 => Some(Side::Ask),
            _ => None,
        }
    }
}

impl OrderType {
    /// The byte that stands for this value in a record.
    pub open spec fn code(self) -> u8 {
        match self {
            OrderType::Limit => 0,
            OrderType::Market => 1,
        }
    }

    pub(crate) fn to_byte(self) -> (byte: u8)
        ensures
            byte == self.code(),
    {
        match self {
            OrderType::Limit => 0,
            OrderType::Market => 1,
        }
    }

    /// The value that `byte` stands for, if it stands for one.
    pub(crate) fn from_byte(byte: u8) -> (r: Option<OrderType>)
        ensures
            match r {
                Some(v) => v.code() == byte,
                None => byte > 1,
            },
    {
        match byte {
            0 => Some(OrderType::Limit),
            1 => Some(OrderType::Market),
            _ => None,
        }
    }
}

impl TimeInForce {
    /// The byte that stands for this value in a record.
    pub open spec fn code(self) -> u8 {
        match self {
            TimeInForce::GTC => 0,
            TimeInForce::IOC => 1,
            TimeInForce::FOK => 2,
        }
    }

    pub(crate) fn to_byte(self) -> (byte: u8)
        ensures
            byte == self.code(),
    {
        match self {
            TimeInForce::GTC => 0,
            TimeInForce::IOC => 1,
            TimeInForce::FOK => 2,
        }
    }

    /// The value that `byte` stands for, if it stands for one.
    pub(crate) fn from_byte(byte: u8) -> (r: Option<TimeInForce>)
        ensures
            match r {
                Some(v) => v.code() == byte,
                None => byte > 2,
            },
    {
        match byte {
            0 => Some(TimeInForce::GTC),
            1 => Some(TimeInForce::IOC),
            2 => Some(TimeInForce::FOK),
            _ => None,
        }
    }
}

impl RejectReason {
    /// Readers of records know this reason.
    pub open spec fn readable(self) -> bool {
        self != RejectReason::DuplicateIntent
    }

    /// The byte that stands for this value in a record.
    pub open spec fn code(self) -> u8 {
        match self {
            RejectReason::InsufficientBalance => 0,
            RejectReason::InsufficientMargin => 1,
            RejectReason::PositionLimitExceeded => 2,
            RejectReason::RateLimitExceeded => 3,
            RejectReason::InvalidPrice => 4,
            RejectReason::InvalidQuantity => 5,
            RejectReason::UnknownInstrument => 6,
            RejectReason::UnknownOrder => 7,
            RejectReason::SystemAtCapacity => 8,
            RejectReason::InsufficientLiquidity => 9,
            RejectReason::DuplicateIntent => 10,
        }
    }

    pub(crate) fn to_byte(self) -> (byte: u8)
        ensures
            byte == self.code(),
    {
        match self {
            RejectReason::InsufficientBalance => 0,
            RejectReason::InsufficientMargin => 1,
            RejectReason::PositionLimitExceeded => 2,
            RejectReason::RateLimitExceeded => 3,
            RejectReason::InvalidPrice => 4,
            RejectReason::InvalidQuantity => 5,
            RejectReason::UnknownInstrument => 6,
            RejectReason::UnknownOrder => 7,
            RejectReason::SystemAtCapacity => 8,
            RejectReason::InsufficientLiquidity => 9,
            RejectReason::DuplicateIntent => 10,
        }
    }

    /// The readable value that `byte` stands for, if it stands for one.
    pub(crate) fn from_byte(byte: u8) -> (r: Option<RejectReason>)
        ensures
            match r {
                Some(v) => v.code() == byte && v.readable(),
                None => byte > 9,
            },
    {
        match byte {
            0 => Some(RejectReason::InsufficientBalance),
            1 => Some(RejectReason::InsufficientMargin),
            2 => Some(RejectReason::PositionLimitExceeded),
            3 => Some(RejectReason::RateLimitExceeded),
            4 => Some(RejectReason::InvalidPrice),
            5 => Some(RejectReason::InvalidQuantity),
            6 => Some(RejectReason::UnknownInstrument),
            7 => Some(RejectReason::UnknownOrder),
            8 => Some(RejectReason::SystemAtCapacity),
            9 => Some(RejectReason::InsufficientLiquidity),
            _ => None,
        }
    }
}

} // verus!

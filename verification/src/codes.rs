//! Response codes and query types, with their wire numbers.

use vstd::prelude::*;

verus! {

/// The response code carried in the low four bits of the second flag byte.
#[derive(Copy, Clone, Debug, PartialEq, Eq, Structural)]
pub enum ResultCode {
    NOERROR,
    FORMERR,
    SERVFAIL,
    NXDOMAIN,
    NOTIMP,
    REFUSED,
}

impl ResultCode {
    /// The code that a wire number stands for; numbers without a code read as `NOERROR`.
    pub open spec fn of_num(num: u8) -> ResultCode {
        match num {
            1 => ResultCode::FORMERR,
            2 => ResultCode::SERVFAIL,
            3 => ResultCode::NXDOMAIN,
            4 => ResultCode::NOTIMP,
            5 => ResultCode::REFUSED,
            _ => ResultCode::NOERROR,
        }
    }

    /// The wire number of a code.
    pub open spec fn num(self) -> u8 {
        match self {
            ResultCode::NOERROR => 0,
            ResultCode::FORMERR => 1,
            ResultCode::SERVFAIL => 2,
            ResultCode::NXDOMAIN => 3,
            ResultCode::NOTIMP => 4,
            ResultCode::REFUSED => 5,
        }
    }

    pub fn from(num: u8) -> (code: Self)
        ensures
            code == Self::of_num(num),
    {
        match num {
            1 => Self::FORMERR,
            2 => Self::SERVFAIL,
            3 => Self::NXDOMAIN,
            4 => Self::NOTIMP,
            5 => Self::REFUSED,
            _ => Self::NOERROR,
        }
    }

    pub fn to_num(&self) -> (num: u8)
        ensures
            num == self.num(),
            num <= 5,
    {
        match *self {
            Self::NOERROR => 0,
            Self::FORMERR => 1,
            Self::SERVFAIL => 2,
            Self::NXDOMAIN => 3,
            Self::NOTIMP => 4,
            Self::REFUSED => 5,
        }
    }

    /// Reading back the number of a code gives the code.
    pub proof fn lemma_of_num_num(code: ResultCode)
        ensures
            Self::of_num(code.num()) == code,
    {
    }
}

/// A record type: one of the five types the codec understands, or the raw number of another.
#[derive(PartialEq, Eq, Debug, Clone, Hash, Copy, Structural)]
pub enum QueryType {
    UNKNOWN(u16),
    A,
    NS,
    CNAME,
    MX,
    AAAA,
}

impl QueryType {
    /// The wire number of a type.
    pub open spec fn num(self) -> u16 {
        match self {
            QueryType::UNKNOWN(x) => x,
            QueryType::A => 1,
            QueryType::NS => 2,
            QueryType::CNAME => 5,
            QueryType::MX => 15,
            QueryType::AAAA => 28,
        }
    }

    /// The type that a wire number stands for.
    pub open spec fn of_num(num: u16) -> QueryType {
        match num {
            1 => QueryType::A,
            2 => QueryType::NS,
            5 => QueryType::CNAME,
            15 => QueryType::MX,
            28 => QueryType::AAAA,
            _ => QueryType::UNKNOWN(num),
        }
    }

    /// `UNKNOWN` carries a number that no named type has.
    pub open spec fn canonical(self) -> bool {
        self matches QueryType::UNKNOWN(x) ==> x != 1 && x != 2 && x != 5 && x != 15 && x != 28
    }

    pub fn to_num(&self) -> (num: u16)
        ensures
            num == self.num(),
    {
        match *self {
            Self::UNKNOWN(x) => x,
            Self::A => 1,
            Self::NS => 2,
            Self::CNAME => 5,
            Self::MX => 15,
            Self::AAAA => 28,
        }
    }

    pub fn from_num(num: u16) -> (qtype: Self)
        ensures
            qtype == Self::of_num(num),
            qtype.canonical(),
    {
        match num {
            1 => Self::A,
            2 => Self::NS,
            5 => Self::CNAME,
            15 => Self::MX,
            28 => Self::AAAA,
            _ => Self::UNKNOWN(num),
        }
    }

    /// Every number survives the way through its type and back.
    pub proof fn lemma_num_of_num(num: u16)
        ensures
            Self::of_num(num).num() == num,
            Self::of_num(num).canonical(),
    {
    }

    /// A type survives the way through its number and back exactly when it is canonical.
    pub proof fn lemma_of_num_num(qtype: QueryType)
        ensures
            Self::of_num(qtype.num()) == qtype <==> qtype.canonical(),
    {
    }
}

} // verus!

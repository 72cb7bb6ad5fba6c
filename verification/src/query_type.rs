use vstd::prelude::*;

verus! {

/// The type of record that a question asks for, or that a record holds.
#[derive(PartialEq, Eq, Debug, Clone, Hash, Copy, Structural)]
pub enum QueryType {
    /// A type this library has no name for, with its code.
    UNKNOWN(u16),
    /// An IPv4 address.
    A,
    /// A name server of a domain.
    NS,
    /// The canonical name of an alias.
    CNAME,
    /// A mail exchange of a domain.
    MX,
    /// An IPv6 address.
    AAAA,
}

impl QueryType {
    /// The code that stands for this type on the wire.
    pub open spec fn code(self) -> u16 {
        match self {
            QueryType::UNKNOWN(x) => x,
            QueryType::A => 1,
            QueryType::NS => 2,
            QueryType::CNAME => 5,
            QueryType::MX => 15,
            QueryType::AAAA => 28,
        }
    }

    /// The type that a code on the wire stands for.
    pub open spec fn of_code(num: u16) -> QueryType {
        if num == 1 {
            QueryType::A
        } else if num == 2 {
            QueryType::NS
        } else if num == 5 {
            QueryType::CNAME
        } else if num == 15 {
            QueryType::MX
        } else if num == 28 {
            QueryType::AAAA
        } else {
            QueryType::UNKNOWN(num)
        }
    }

    /// The code that stands for this type on the wire.
    pub fn to_num(&self) -> (num: u16)
        ensures
            num == self.code(),
    {
        match *self {
            QueryType::UNKNOWN(x) => x,
            QueryType::A => 1,
            QueryType::NS => 2,
            QueryType::CNAME => 5,
            QueryType::MX => 15,
            QueryType::AAAA => 28,
        }
    }

    /// The type that `num` stands for; a code without a name is kept in
    /// `UNKNOWN`.
    pub fn from_num(num: u16) -> (qtype: QueryType)
        ensures
            qtype == QueryType::of_code(num),
    {
        match num {
            1 => QueryType::A,
            2 => QueryType::NS,
            5 => QueryType::CNAME,
            15 => QueryType::MX,
            28 => QueryType::AAAA,
            _ => QueryType::UNKNOWN(num),
        }
    }

    /// Every code comes back from the type it stands for.
    pub proof fn lemma_code_round_trip(num: u16)
        ensures
            QueryType::of_code(num).code() == num,
    {
    }

    /// A type comes back from its code, unless it is an `UNKNOWN` that
    /// carries the code of a named type.
    pub proof fn lemma_type_round_trip(qtype: QueryType)
        requires
            qtype matches QueryType::UNKNOWN(x) ==> QueryType::of_code(x) == qtype,
        ensures
            QueryType::of_code(qtype.code()) == qtype,
    {
    }
}

} // verus!

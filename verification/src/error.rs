//! Error taxonomy. Decoders return [`Error::Format`] on any malformed input,
//! and every concurrency- or lock-related refusal has its own variant, so
//! callers can tell "retry later" from "corrupt file".
use vstd::prelude::*;
use vstd::string::*;

verus! {

/// Crate-wide result alias.
pub type Result<T, E = Error> = std::result::Result<T, E>;

/// All failure modes surfaced by the library.
#[derive(Debug)]
#[non_exhaustive]
pub enum Error {
    /// A file or byte stream failed structural validation.
    Format {
        /// What was malformed and where.
        message: String,
    },
    /// Another process holds the writer lock for this store directory.
    Locked,
    /// A bounded wait for internal capacity expired.
    Busy {
        /// Which capacity was exhausted.
        message: String,
    },
    /// The on-disk state is inconsistent in a way replay cannot repair.
    Corrupt {
        /// What invariant was violated.
        message: String,
    },
    /// A mutating operation was attempted on a read-only store handle.
    ReadOnly,
}

/// What an [`Error`] says, with its text as a sequence of characters.
pub enum Fault {
    Format(Seq<char>),
    Locked,
    Busy(Seq<char>),
    Corrupt(Seq<char>),
    ReadOnly,
}

impl View for Error {
    type V = Fault;

    open spec fn view(&self) -> Fault {
        match *self {
            Error::Format { message } => Fault::Format(message@),
            Error::Locked => Fault::Locked,
            Error::Busy { message } => Fault::Busy(message@),
            Error::Corrupt { message } => Fault::Corrupt(message@),
            Error::ReadOnly => Fault::ReadOnly,
        }
    }
}

impl Error {
    /// A structural-validation failure.
    pub fn format(message: &str) -> (e: Error)
        ensures
            e@ == Fault::Format(message@),
    {
        Error::Format { message: message.to_owned() }
    }

    /// A capacity-exhaustion refusal.
    pub fn busy(message: &str) -> (e: Error)
        ensures
            e@ == Fault::Busy(message@),
    {
        Error::Busy { message: message.to_owned() }
    }

    /// An unrepairable inconsistency.
    pub fn corrupt(message: &str) -> (e: Error)
        ensures
            e@ == Fault::Corrupt(message@),
    {
        Error::Corrupt { message: message.to_owned() }
    }
}

/// The decimal digit for `d < 10`.
pub open spec fn digit(d: nat) -> char {
    (48 + d) as char
}

/// `n` written in decimal, without leading zeros.
pub open spec fn decimal(n: nat) -> Seq<char>
    decreases n,
{
    if n < 10 {
        seq![digit(n)]
    } else {
        decimal(n / 10).push(digit(n % 10))
    }
}

fn digit_str(d: u64) -> (s: &'static str)
    requires
        d < 10,
    ensures
        s@ == seq![digit(d as nat)],
{
    proof {
        reveal_strlit("0");
        reveal_strlit("1");
        reveal_strlit("2");
        reveal_strlit("3");
        reveal_strlit("4");
        reveal_strlit("5");
        reveal_strlit("6");
        reveal_strlit("7");
        reveal_strlit("8");
        reveal_strlit("9");
    }
    match d {
        0 => "0",
        1 => "1",
        2 => "2",
        3 => "3",
        4 => "4",
        5 => "5",
        6 => "6",
        7 => "7",
        8 => "8",
        _ => "9",
    }
}

/// Append `n` in decimal to `out`.
pub fn push_decimal(out: &mut String, n: u64)
    ensures
        final(out)@ == old(out)@ + decimal(n as nat),
    decreases n,
{
    if n < 10 {
        out.append(digit_str(n));
    } else {
        let ghost before = out@;
        push_decimal(out, n / 10);
        out.append(digit_str(n % 10));
        assert(out@ =~= before + decimal(n as nat));
    }
}

} // verus!

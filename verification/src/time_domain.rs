//! The time-domain transform record: a single 16-bit field that Vorbis I
//! reserves at zero.

use vstd::prelude::*;

verus! {

use crate::bits::field;
use crate::reader::Reader;

#[derive(Debug, PartialEq, Eq, Clone, Copy)]
pub struct TimeDomainTransform {
    pub reserved: u16,
}

#[derive(Debug, PartialEq, Eq, Clone, Copy)]
pub enum TimeDomainError {
    Reserved(u16),
    EndOfData,
}

/// The time-domain transform grammar: one 16-bit field that must be zero.
pub open spec fn parse_time_domain(s: Seq<bool>) -> Result<
    (TimeDomainTransform, Seq<bool>),
    TimeDomainError,
> {
    if s.len() < 16 {
        Err(TimeDomainError::EndOfData)
    } else {
        let reserved = field(s, 16) as u16;
        if reserved != 0 {
            Err(TimeDomainError::Reserved(reserved))
        } else {
            Ok((TimeDomainTransform { reserved }, s.skip(16)))
        }
    }
}

impl TimeDomainTransform {
    /// Read one time-domain transform record from the stream.
    pub fn decode(reader: &mut Reader) -> (r: Result<TimeDomainTransform, TimeDomainError>)
        requires
            old(reader).wf(),
        ensures
            match r {
                Ok(t) => final(reader).wf() && parse_time_domain(old(reader).bits()) == Ok::<
                    _,
                    TimeDomainError,
                >((t, final(reader).bits())),
                Err(e) => parse_time_domain(old(reader).bits()) == Err::<
                    (TimeDomainTransform, Seq<bool>),
                    _,
                >(e),
            },
    {
        let reserved = match reader.read_u16(16) {
            Some(v) => v,
            None => {
                return Err(TimeDomainError::EndOfData);
            },
        };
        if reserved != 0 {
            return Err(TimeDomainError::Reserved(reserved));
        }
        Ok(TimeDomainTransform { reserved })
    }
}

} // verus!

//! The mode record: a block-size flag, two fields that Vorbis I pins to zero,
//! and the index of the mapping the mode selects.

use vstd::prelude::*;

verus! {

use crate::bits::field;
use crate::reader::Reader;

#[derive(Debug, PartialEq, Eq, Clone, Copy)]
pub struct Mode {
    pub blockflag: bool,
    pub window_type: u16,
    pub transform_type: u16,
    pub mapping: u8,
}

#[derive(Debug, PartialEq, Eq, Clone, Copy)]
pub enum ModeError {
    InvalidWindowType(u16),
    InvalidTransformType(u16),
    EndOfData,
}

/// The mode grammar: 1-bit block flag, 16-bit window type (must be zero),
/// 16-bit transform type (must be zero), 8-bit mapping index.
pub open spec fn parse_mode(s: Seq<bool>) -> Result<(Mode, Seq<bool>), ModeError> {
    if s.len() < 1 {
        Err(ModeError::EndOfData)
    } else {
        let blockflag = s[0];
        let s1 = s.skip(1);
        if s1.len() < 16 {
            Err(ModeError::EndOfData)
        } else {
            let window_type = field(s1, 16) as u16;
            let s2 = s1.skip(16);
            if window_type != 0 {
                Err(ModeError::InvalidWindowType(window_type))
            } else if s2.len() < 16 {
                Err(ModeError::EndOfData)
            } else {
                let transform_type = field(s2, 16) as u16;
                let s3 = s2.skip(16);
                if transform_type != 0 {
                    Err(ModeError::InvalidTransformType(transform_type))
                } else if s3.len() < 8 {
                    Err(ModeError::EndOfData)
                } else {
                    let mapping = field(s3, 8) as u8;
                    Ok((Mode { blockflag, window_type, transform_type, mapping }, s3.skip(8)))
                }
            }
        }
    }
}

impl Mode {
    /// Read one mode record from the stream.
    pub fn decode(reader: &mut Reader) -> (r: Result<Mode, ModeError>)
        requires
            old(reader).wf(),
        ensures
            match r {
                Ok(m) => final(reader).wf() && parse_mode(old(reader).bits()) == Ok::<
                    _,
                    ModeError,
                >((m, final(reader).bits())),
                Err(e) => parse_mode(old(reader).bits()) == Err::<(Mode, Seq<bool>), _>(e),
            },
    {
        let blockflag = match reader.read_bool() {
            Some(v) => v,
            None => {
                return Err(ModeError::EndOfData);
            },
        };
        let window_type = match reader.read_u16(16) {
            Some(v) => v,
            None => {
                return Err(ModeError::EndOfData);
            },
        };
        if window_type != 0 {
            return Err(ModeError::InvalidWindowType(window_type));
        }
        let transform_type = match reader.read_u16(16) {
            Some(v) => v,
            None => {
                return Err(ModeError::EndOfData);
            },
        };
        if transform_type != 0 {
            return Err(ModeError::InvalidTransformType(transform_type));
        }
        let mapping = match reader.read_u8(8) {
            Some(v) => v,
            None => {
                return Err(ModeError::EndOfData);
            },
        };
        Ok(Mode { blockflag, window_type, transform_type, mapping })
    }
}

} // verus!

//! The mapping record: how audio channels are routed through submaps, with
//! optional polar coupling. The stream carries a single audio channel here,
//! as the identification header is handled elsewhere.

use vstd::prelude::*;

verus! {

use crate::bits::field;
use crate::reader::Reader;
use crate::util::{ilog, ilog_spec};

/// The number of audio channels the coupling fields are sized against.
pub const AUDIO_CHANNELS: u8 = 1;

/// How many bits one coupling channel number occupies.
pub open spec fn coupling_bits() -> int {
    ilog_spec((AUDIO_CHANNELS - 1) as nat) as int
}

#[derive(Debug, PartialEq, Eq, Clone)]
pub struct Mapping {
    pub mapping_type: u16,
    pub submaps: u8,
    pub coupling_steps: u8,
    pub magnitude: Vec<u8>,
    pub angle: Vec<u8>,
    pub mux: Vec<u8>,
    pub submaps_vec: Vec<Submap>,
}

#[derive(Debug, PartialEq, Eq, Clone, Copy)]
pub struct Submap {
    pub floor: u8,
    pub residue: u8,
}

/// The mathematical content of a mapping record.
pub struct MappingModel {
    pub mapping_type: u16,
    pub submaps: u8,
    pub coupling_steps: u8,
    pub magnitude: Seq<u8>,
    pub angle: Seq<u8>,
    pub mux: Seq<u8>,
    pub submaps_vec: Seq<Submap>,
}

impl View for Mapping {
    type V = MappingModel;

    open spec fn view(&self) -> MappingModel {
        MappingModel {
            mapping_type: self.mapping_type,
            submaps: self.submaps,
            coupling_steps: self.coupling_steps,
            magnitude: self.magnitude@,
            angle: self.angle@,
            mux: self.mux@,
            submaps_vec: self.submaps_vec@,
        }
    }
}

#[derive(Debug, PartialEq, Eq, Clone, Copy)]
pub enum MappingError {
    InvalidMappingType(u16),
    PolarAngEqualsMag(u8, u8),
    PolarMagInvalid(u8),
    PolarAngInvalid(u8),
    Reserved(u8),
    MuxInvalid(u8),
    EndOfData,
}

/// `k` coupling pairs: magnitude and angle channel numbers, each of which
/// must name a distinct existing channel.
pub open spec fn parse_couplings(s: Seq<bool>, k: nat) -> Result<
    ((Seq<u8>, Seq<u8>), Seq<bool>),
    MappingError,
>
    decreases k,
{
    if k == 0 {
        Ok(((Seq::empty(), Seq::empty()), s))
    } else if s.len() < coupling_bits() {
        Err(MappingError::EndOfData)
    } else {
        let m = field(s, coupling_bits()) as u8;
        let s1 = s.skip(coupling_bits());
        if s1.len() < coupling_bits() {
            Err(MappingError::EndOfData)
        } else {
            let a = field(s1, coupling_bits()) as u8;
            let s2 = s1.skip(coupling_bits());
            if m == a {
                Err(MappingError::PolarAngEqualsMag(m, a))
            } else if m >= AUDIO_CHANNELS {
                Err(MappingError::PolarMagInvalid(m))
            } else if a >= AUDIO_CHANNELS {
                Err(MappingError::PolarAngInvalid(a))
            } else {
                match parse_couplings(s2, (k - 1) as nat) {
                    Ok(((mags, angs), rest)) => Ok(((seq![m] + mags, seq![a] + angs), rest)),
                    Err(e) => Err(e),
                }
            }
        }
    }
}

/// `k` 4-bit multiplex values, each below the submap count.
pub open spec fn parse_mux(s: Seq<bool>, k: nat, submaps: u8) -> Result<
    (Seq<u8>, Seq<bool>),
    MappingError,
>
    decreases k,
{
    if k == 0 {
        Ok((Seq::empty(), s))
    } else if s.len() < 4 {
        Err(MappingError::EndOfData)
    } else {
        let v = field(s, 4) as u8;
        if v >= submaps {
            Err(MappingError::MuxInvalid(v))
        } else {
            match parse_mux(s.skip(4), (k - 1) as nat, submaps) {
                Ok((tail, rest)) => Ok((seq![v] + tail, rest)),
                Err(e) => Err(e),
            }
        }
    }
}

/// One submap: an unused 8-bit time placeholder, then the floor and residue
/// numbers.
pub open spec fn parse_submap(s: Seq<bool>) -> Result<(Submap, Seq<bool>), MappingError> {
    if s.len() < 8 {
        Err(MappingError::EndOfData)
    } else {
        let s1 = s.skip(8);
        if s1.len() < 8 {
            Err(MappingError::EndOfData)
        } else {
            let floor = field(s1, 8) as u8;
            let s2 = s1.skip(8);
            if s2.len() < 8 {
                Err(MappingError::EndOfData)
            } else {
                let residue = field(s2, 8) as u8;
                Ok((Submap { floor, residue }, s2.skip(8)))
            }
        }
    }
}

/// `k` submaps in order.
pub open spec fn parse_submaps(s: Seq<bool>, k: nat) -> Result<
    (Seq<Submap>, Seq<bool>),
    MappingError,
>
    decreases k,
{
    if k == 0 {
        Ok((Seq::empty(), s))
    } else {
        match parse_submap(s) {
            Ok((sm, rest)) => match parse_submaps(rest, (k - 1) as nat) {
                Ok((tail, rest2)) => Ok((seq![sm] + tail, rest2)),
                Err(e) => Err(e),
            },
            Err(e) => Err(e),
        }
    }
}

/// The mapping grammar: a 16-bit type that must be zero; a flag deciding
/// whether a 4-bit submap count (stored one less) follows or one submap is
/// implied; a flag deciding whether coupling pairs follow, their count an
/// 8-bit field stored one less; a 2-bit reserved field that must be zero;
/// one 4-bit multiplex value per channel when there is more than one submap,
/// all zero otherwise; and the submap bodies.
pub open spec fn parse_mapping(s: Seq<bool>) -> Result<(MappingModel, Seq<bool>), MappingError> {
    if s.len() < 16 {
        Err(MappingError::EndOfData)
    } else {
        let mapping_type = field(s, 16) as u16;
        let s1 = s.skip(16);
        if mapping_type != 0 {
            Err(MappingError::InvalidMappingType(mapping_type))
        } else if s1.len() < 1 {
            Err(MappingError::EndOfData)
        } else {
            let submap_flag = s1[0];
            let s2 = s1.skip(1);
            if submap_flag && s2.len() < 4 {
                Err(MappingError::EndOfData)
            } else {
                let submaps = if submap_flag {
                    (field(s2, 4) + 1) as u8
                } else {
                    1u8
                };
                let s3 = if submap_flag {
                    s2.skip(4)
                } else {
                    s2
                };
                if s3.len() < 1 {
                    Err(MappingError::EndOfData)
                } else {
                    let coupling_flag = s3[0];
                    let s4 = s3.skip(1);
                    if coupling_flag && s4.len() < 8 {
                        Err(MappingError::EndOfData)
                    } else {
                        let steps = if coupling_flag {
                            field(s4, 8) + 1
                        } else {
                            0
                        };
                        let s5 = if coupling_flag {
                            s4.skip(8)
                        } else {
                            s4
                        };
                        match parse_couplings(s5, steps) {
                            Err(e) => Err(e),
                            Ok(((magnitude, angle), s6)) => {
                                if s6.len() < 2 {
                                    Err(MappingError::EndOfData)
                                } else {
                                    let reserved = field(s6, 2) as u8;
                                    let s7 = s6.skip(2);
                                    if reserved != 0 {
                                        Err(MappingError::Reserved(reserved))
                                    } else {
                                        let mux_parsed = if submaps > 1 {
                                            parse_mux(s7, AUDIO_CHANNELS as nat, submaps)
                                        } else {
                                            Ok((Seq::new(AUDIO_CHANNELS as nat, |i: int| 0u8), s7))
                                        };
                                        match mux_parsed {
                                            Err(e) => Err(e),
                                            Ok((mux, s8)) => {
                                                match parse_submaps(s8, submaps as nat) {
                                                    Err(e) => Err(e),
                                                    Ok((submaps_vec, s9)) => Ok(
                                                        (
                                                            MappingModel {
                                                                mapping_type,
                                                                submaps,
                                                                coupling_steps: steps as u8,
                                                                magnitude,
                                                                angle,
                                                                mux,
                                                                submaps_vec,
                                                            },
                                                            s9,
                                                        ),
                                                    ),
                                                }
                                            },
                                        }
                                    }
                                }
                            },
                        }
                    }
                }
            }
        }
    }
}

/// Read `k` coupling pairs.
fn read_couplings(reader: &mut Reader, k: u16) -> (r: Result<(Vec<u8>, Vec<u8>), MappingError>)
    requires
        old(reader).wf(),
    ensures
        match r {
            Ok(p) => final(reader).wf() && parse_couplings(old(reader).bits(), k as nat) == Ok::<
                _,
                MappingError,
            >(((p.0@, p.1@), final(reader).bits())),
            Err(e) => parse_couplings(old(reader).bits(), k as nat) == Err::<
                ((Seq<u8>, Seq<u8>), Seq<bool>),
                _,
            >(e),
        },
    decreases k,
{
    if k == 0 {
        let mags: Vec<u8> = Vec::new();
        let angs: Vec<u8> = Vec::new();
        return Ok((mags, angs));
    }
    let bits = ilog(AUDIO_CHANNELS as u32 - 1);
    let m = match reader.read_u8(bits) {
        Some(v) => v,
        None => {
            return Err(MappingError::EndOfData);
        },
    };
    let a = match reader.read_u8(bits) {
        Some(v) => v,
        None => {
            return Err(MappingError::EndOfData);
        },
    };
    if m == a {
        return Err(MappingError::PolarAngEqualsMag(m, a));
    }
    if m >= AUDIO_CHANNELS {
        return Err(MappingError::PolarMagInvalid(m));
    }
    if a >= AUDIO_CHANNELS {
        return Err(MappingError::PolarAngInvalid(a));
    }
    match read_couplings(reader, k - 1) {
        Ok((mut mags, mut angs)) => {
            let ghost mags0 = mags@;
            let ghost angs0 = angs@;
            mags.insert(0, m);
            angs.insert(0, a);
            proof {
                assert(mags@ =~= seq![m] + mags0);
                assert(angs@ =~= seq![a] + angs0);
            }
            Ok((mags, angs))
        },
        Err(e) => Err(e),
    }
}

/// Read `k` multiplex values for a stream with more than one submap.
fn read_mux(reader: &mut Reader, k: u8, submaps: u8) -> (r: Result<Vec<u8>, MappingError>)
    requires
        old(reader).wf(),
    ensures
        match r {
            Ok(v) => final(reader).wf() && parse_mux(old(reader).bits(), k as nat, submaps) == Ok::<
                _,
                MappingError,
            >((v@, final(reader).bits())),
            Err(e) => parse_mux(old(reader).bits(), k as nat, submaps) == Err::<
                (Seq<u8>, Seq<bool>),
                _,
            >(e),
        },
    decreases k,
{
    if k == 0 {
        let v: Vec<u8> = Vec::new();
        return Ok(v);
    }
    let x = match reader.read_u8(4) {
        Some(v) => v,
        None => {
            return Err(MappingError::EndOfData);
        },
    };
    if x >= submaps {
        return Err(MappingError::MuxInvalid(x));
    }
    match read_mux(reader, k - 1, submaps) {
        Ok(mut tail) => {
            let ghost tail0 = tail@;
            tail.insert(0, x);
            proof {
                assert(tail@ =~= seq![x] + tail0);
            }
            Ok(tail)
        },
        Err(e) => Err(e),
    }
}

/// Read `k` submaps.
fn read_submaps(reader: &mut Reader, k: u8) -> (r: Result<Vec<Submap>, MappingError>)
    requires
        old(reader).wf(),
    ensures
        match r {
            Ok(v) => final(reader).wf() && parse_submaps(old(reader).bits(), k as nat) == Ok::<
                _,
                MappingError,
            >((v@, final(reader).bits())),
            Err(e) => parse_submaps(old(reader).bits(), k as nat) == Err::<
                (Seq<Submap>, Seq<bool>),
                _,
            >(e),
        },
    decreases k,
{
    if k == 0 {
        let v: Vec<Submap> = Vec::new();
        return Ok(v);
    }
    let sm = match Submap::decode(reader) {
        Ok(v) => v,
        Err(e) => {
            return Err(e);
        },
    };
    match read_submaps(reader, k - 1) {
        Ok(mut tail) => {
            let ghost tail0 = tail@;
            tail.insert(0, sm);
            proof {
                assert(tail@ =~= seq![sm] + tail0);
            }
            Ok(tail)
        },
        Err(e) => Err(e),
    }
}

impl Submap {
    /// Read one submap: discard the time placeholder, keep the floor and
    /// residue numbers.
    pub fn decode(reader: &mut Reader) -> (r: Result<Submap, MappingError>)
        requires
            old(reader).wf(),
        ensures
            match r {
                Ok(sm) => final(reader).wf() && parse_submap(old(reader).bits()) == Ok::<
                    _,
                    MappingError,
                >((sm, final(reader).bits())),
                Err(e) => parse_submap(old(reader).bits()) == Err::<(Submap, Seq<bool>), _>(e),
            },
    {
        let _placeholder = match reader.read_u8(8) {
            Some(v) => v,
            None => {
                return Err(MappingError::EndOfData);
            },
        };
        let floor = match reader.read_u8(8) {
            Some(v) => v,
            None => {
                return Err(MappingError::EndOfData);
            },
        };
        let residue = match reader.read_u8(8) {
            Some(v) => v,
            None => {
                return Err(MappingError::EndOfData);
            },
        };
        Ok(Submap { floor, residue })
    }
}

impl Mapping {
    /// Read one mapping record from the stream.
    pub fn decode(reader: &mut Reader) -> (r: Result<Mapping, MappingError>)
        requires
            old(reader).wf(),
        ensures
            match r {
                Ok(m) => final(reader).wf() && parse_mapping(old(reader).bits()) == Ok::<
                    _,
                    MappingError,
                >((m@, final(reader).bits())),
                Err(e) => parse_mapping(old(reader).bits()) == Err::<
                    (MappingModel, Seq<bool>),
                    _,
                >(e),
            },
    {
        proof {
            vstd::arithmetic::power2::lemma2_to64();
        }
        let mapping_type = match reader.read_u16(16) {
            Some(v) => v,
            None => {
                return Err(MappingError::EndOfData);
            },
        };
        if mapping_type != 0 {
            return Err(MappingError::InvalidMappingType(mapping_type));
        }
        let submap_flag = match reader.read_bool() {
            Some(v) => v,
            None => {
                return Err(MappingError::EndOfData);
            },
        };
        let submaps = if submap_flag {
            match reader.read_u8(4) {
                Some(v) => v + 1,
                None => {
                    return Err(MappingError::EndOfData);
                },
            }
        } else {
            1
        };
        let coupling_flag = match reader.read_bool() {
            Some(v) => v,
            None => {
                return Err(MappingError::EndOfData);
            },
        };
        let mut coupling_steps: u8 = 0;
        let mut magnitude: Vec<u8> = Vec::new();
        let mut angle: Vec<u8> = Vec::new();
        if coupling_flag {
            let stored = match reader.read_u8(8) {
                Some(v) => v,
                None => {
                    return Err(MappingError::EndOfData);
                },
            };
            let steps: u16 = stored as u16 + 1;
            match read_couplings(reader, steps) {
                Ok((mags, angs)) => {
                    // A stream with a single audio channel cannot name two
                    // distinct coupling channels, so every coupling list is
                    // rejected before this point.
                    proof {
                        assert(false);
                    }
                    coupling_steps = steps as u8;
                    magnitude = mags;
                    angle = angs;
                },
                Err(e) => {
                    return Err(e);
                },
            }
        }
        let reserved = match reader.read_u8(2) {
            Some(v) => v,
            None => {
                return Err(MappingError::EndOfData);
            },
        };
        if reserved != 0 {
            return Err(MappingError::Reserved(reserved));
        }
        let mux = if submaps > 1 {
            match read_mux(reader, AUDIO_CHANNELS, submaps) {
                Ok(v) => v,
                Err(e) => {
                    return Err(e);
                },
            }
        } else {
            let mut v: Vec<u8> = Vec::new();
            let mut i: u8 = 0;
            while i < AUDIO_CHANNELS
                invariant
                    i <= AUDIO_CHANNELS,
                    v@ =~= Seq::new(i as nat, |j: int| 0u8),
                decreases AUDIO_CHANNELS - i,
            {
                v.push(0);
                i = i + 1;
                proof {
                    assert(v@ =~= Seq::new(i as nat, |j: int| 0u8));
                }
            }
            v
        };
        let submaps_vec = match read_submaps(reader, submaps) {
            Ok(v) => v,
            Err(e) => {
                return Err(e);
            },
        };
        Ok(Mapping { mapping_type, submaps, coupling_steps, magnitude, angle, mux, submaps_vec })
    }
}

} // verus!

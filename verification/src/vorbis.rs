//! The setup header: after the packet-type byte and the signature, six
//! count-prefixed record sequences in fixed order, a framing bit, and the
//! requirement that nothing but a partial byte is left over.

use vstd::prelude::*;

verus! {

use crate::bits::{bytes_bits, field};
use crate::reader::Reader;
use crate::codebook::{parse_codebook, Codebook, CodebookError, CodebookModel};
use crate::time_domain::{parse_time_domain, TimeDomainError, TimeDomainTransform};
use crate::floor::{parse_floor, Floor, FloorError, FloorModel};
use crate::residue::{parse_residue, Residue, ResidueError, ResidueModel};
use crate::mapping::{parse_mapping, Mapping, MappingError, MappingModel};
use crate::mode::{parse_mode, Mode, ModeError};

#[derive(Debug, PartialEq)]
pub struct SetupHeader {
    pub codebook_count: u16,
    pub codebooks: Vec<Codebook>,
    pub time_count: u8,
    pub time_domain_transforms: Vec<TimeDomainTransform>,
    pub floor_count: u8,
    pub floor_configurations: Vec<Floor>,
    pub residue_count: u8,
    pub residue_configurations: Vec<Residue>,
    pub mapping_count: u8,
    pub mapping_configurations: Vec<Mapping>,
    pub mode_count: u8,
    pub mode_configurations: Vec<Mode>,
    pub framing_flag: bool,
}

/// Codebook records as plain models.
pub open spec fn codebooks_view(v: Seq<Codebook>) -> Seq<CodebookModel> {
    Seq::new(v.len(), |i: int| v[i]@)
}

/// Floor records as plain models.
pub open spec fn floors_view(v: Seq<Floor>) -> Seq<FloorModel> {
    Seq::new(v.len(), |i: int| v[i]@)
}

/// Residue records as plain models.
pub open spec fn residues_view(v: Seq<Residue>) -> Seq<ResidueModel> {
    Seq::new(v.len(), |i: int| v[i]@)
}

/// Mapping records as plain models.
pub open spec fn mappings_view(v: Seq<Mapping>) -> Seq<MappingModel> {
    Seq::new(v.len(), |i: int| v[i]@)
}

/// The mathematical content of a setup header.
pub struct SetupHeaderModel {
    pub codebook_count: u16,
    pub codebooks: Seq<CodebookModel>,
    pub time_count: u8,
    pub time_domain_transforms: Seq<TimeDomainTransform>,
    pub floor_count: u8,
    pub floor_configurations: Seq<FloorModel>,
    pub residue_count: u8,
    pub residue_configurations: Seq<ResidueModel>,
    pub mapping_count: u8,
    pub mapping_configurations: Seq<MappingModel>,
    pub mode_count: u8,
    pub mode_configurations: Seq<Mode>,
    pub framing_flag: bool,
}

impl View for SetupHeader {
    type V = SetupHeaderModel;

    open spec fn view(&self) -> SetupHeaderModel {
        SetupHeaderModel {
            codebook_count: self.codebook_count,
            codebooks: codebooks_view(self.codebooks@),
            time_count: self.time_count,
            time_domain_transforms: self.time_domain_transforms@,
            floor_count: self.floor_count,
            floor_configurations: floors_view(self.floor_configurations@),
            residue_count: self.residue_count,
            residue_configurations: residues_view(self.residue_configurations@),
            mapping_count: self.mapping_count,
            mapping_configurations: mappings_view(self.mapping_configurations@),
            mode_count: self.mode_count,
            mode_configurations: self.mode_configurations@,
            framing_flag: self.framing_flag,
        }
    }
}

#[derive(Debug, PartialEq, Eq, Clone, Copy)]
pub enum SetupError {
    NotSetupPacket(u8),
    InvalidSignature([u8; 6]),
    Codebook(CodebookError),
    TimeDomain(TimeDomainError),
    Floor(FloorError),
    Residue(ResidueError),
    Mapping(MappingError),
    Mode(ModeError),
    TrailingDataOrMissingFramingBit,
    EndOfData,
}

/// `k` codebook records.
pub open spec fn parse_codebooks(s: Seq<bool>, k: nat) -> Result<
    (Seq<CodebookModel>, Seq<bool>),
    SetupError,
>
    decreases k,
{
    if k == 0 {
        Ok((Seq::empty(), s))
    } else {
        match parse_codebook(s) {
            Err(e) => Err(SetupError::Codebook(e)),
            Ok((c, rest)) => match parse_codebooks(rest, (k - 1) as nat) {
                Ok((tail, rest2)) => Ok((seq![c] + tail, rest2)),
                Err(e) => Err(e),
            },
        }
    }
}

/// `k` time-domain transform records.
pub open spec fn parse_time_domains(s: Seq<bool>, k: nat) -> Result<
    (Seq<TimeDomainTransform>, Seq<bool>),
    SetupError,
>
    decreases k,
{
    if k == 0 {
        Ok((Seq::empty(), s))
    } else {
        match parse_time_domain(s) {
            Err(e) => Err(SetupError::TimeDomain(e)),
            Ok((t, rest)) => match parse_time_domains(rest, (k - 1) as nat) {
                Ok((tail, rest2)) => Ok((seq![t] + tail, rest2)),
                Err(e) => Err(e),
            },
        }
    }
}

/// `k` floor records.
pub open spec fn parse_floors(s: Seq<bool>, k: nat) -> Result<
    (Seq<FloorModel>, Seq<bool>),
    SetupError,
>
    decreases k,
{
    if k == 0 {
        Ok((Seq::empty(), s))
    } else {
        match parse_floor(s) {
            Err(e) => Err(SetupError::Floor(e)),
            Ok((f, rest)) => match parse_floors(rest, (k - 1) as nat) {
                Ok((tail, rest2)) => Ok((seq![f] + tail, rest2)),
                Err(e) => Err(e),
            },
        }
    }
}

/// `k` residue records.
pub open spec fn parse_residues(s: Seq<bool>, k: nat) -> Result<
    (Seq<ResidueModel>, Seq<bool>),
    SetupError,
>
    decreases k,
{
    if k == 0 {
        Ok((Seq::empty(), s))
    } else {
        match parse_residue(s) {
            Err(e) => Err(SetupError::Residue(e)),
            Ok((r, rest)) => match parse_residues(rest, (k - 1) as nat) {
                Ok((tail, rest2)) => Ok((seq![r] + tail, rest2)),
                Err(e) => Err(e),
            },
        }
    }
}

/// `k` mapping records.
pub open spec fn parse_mappings(s: Seq<bool>, k: nat) -> Result<
    (Seq<MappingModel>, Seq<bool>),
    SetupError,
>
    decreases k,
{
    if k == 0 {
        Ok((Seq::empty(), s))
    } else {
        match parse_mapping(s) {
            Err(e) => Err(SetupError::Mapping(e)),
            Ok((m, rest)) => match parse_mappings(rest, (k - 1) as nat) {
                Ok((tail, rest2)) => Ok((seq![m] + tail, rest2)),
                Err(e) => Err(e),
            },
        }
    }
}

/// `k` mode records.
pub open spec fn parse_modes(s: Seq<bool>, k: nat) -> Result<(Seq<Mode>, Seq<bool>), SetupError>
    decreases k,
{
    if k == 0 {
        Ok((Seq::empty(), s))
    } else {
        match parse_mode(s) {
            Err(e) => Err(SetupError::Mode(e)),
            Ok((m, rest)) => match parse_modes(rest, (k - 1) as nat) {
                Ok((tail, rest2)) => Ok((seq![m] + tail, rest2)),
                Err(e) => Err(e),
            },
        }
    }
}

/// The setup-header grammar: the packet-type byte 5 and the six signature
/// bytes spelling "vorbis"; codebooks behind an 8-bit count stored one less;
/// transforms, floors, residues, mappings and modes each behind a 6-bit
/// count stored one less; a framing bit that must be set; and at most a
/// partial byte of padding after it.
pub open spec fn parse_setup(s: Seq<bool>) -> Result<(SetupHeaderModel, Seq<bool>), SetupError> {
    if s.len() < 8 {
        Err(SetupError::EndOfData)
    } else {
        let packet_type = field(s, 8) as u8;
        let s1 = s.skip(8);
        if packet_type != 5 {
            Err(SetupError::NotSetupPacket(packet_type))
        } else {
            parse_setup_signature(s1)
        }
    }
}

/// The six signature bytes, then the record sequences.
pub open spec fn parse_setup_signature(s: Seq<bool>) -> Result<
    (SetupHeaderModel, Seq<bool>),
    SetupError,
> {
    if s.len() < 48 {
        Err(SetupError::EndOfData)
    } else {
        let m0 = field(s, 8) as u8;
        let m1 = field(s.skip(8), 8) as u8;
        let m2 = field(s.skip(16), 8) as u8;
        let m3 = field(s.skip(24), 8) as u8;
        let m4 = field(s.skip(32), 8) as u8;
        let m5 = field(s.skip(40), 8) as u8;
        let s1 = s.skip(48);
        if !(m0 == 0x76 && m1 == 0x6F && m2 == 0x72 && m3 == 0x62 && m4 == 0x69 && m5 == 0x73) {
            Err(SetupError::InvalidSignature([m0, m1, m2, m3, m4, m5]))
        } else {
            parse_setup_records(s1)
        }
    }
}

/// The six record sequences, the framing bit, and the exhaustion check.
pub open spec fn parse_setup_records(s: Seq<bool>) -> Result<
    (SetupHeaderModel, Seq<bool>),
    SetupError,
> {
    if s.len() < 8 {
        Err(SetupError::EndOfData)
    } else {
        let codebook_count = (field(s, 8) + 1) as u16;
        match parse_codebooks(s.skip(8), codebook_count as nat) {
            Err(e) => Err(e),
            Ok((codebooks, s1)) => {
                if s1.len() < 6 {
                    Err(SetupError::EndOfData)
                } else {
                    let time_count = (field(s1, 6) + 1) as u8;
                    match parse_time_domains(s1.skip(6), time_count as nat) {
                        Err(e) => Err(e),
                        Ok((time_domain_transforms, s2)) => {
                            if s2.len() < 6 {
                                Err(SetupError::EndOfData)
                            } else {
                                let floor_count = (field(s2, 6) + 1) as u8;
                                match parse_floors(s2.skip(6), floor_count as nat) {
                                    Err(e) => Err(e),
                                    Ok((floor_configurations, s3)) => {
                                        if s3.len() < 6 {
                                            Err(SetupError::EndOfData)
                                        } else {
                                            let residue_count = (field(s3, 6) + 1) as u8;
                                            match parse_residues(
                                                s3.skip(6),
                                                residue_count as nat,
                                            ) {
                                                Err(e) => Err(e),
                                                Ok((residue_configurations, s4)) => {
                                                    parse_setup_tail(
                                                        s4,
                                                        codebook_count,
                                                        codebooks,
                                                        time_count,
                                                        time_domain_transforms,
                                                        floor_count,
                                                        floor_configurations,
                                                        residue_count,
                                                        residue_configurations,
                                                    )
                                                },
                                            }
                                        }
                                    },
                                }
                            }
                        },
                    }
                }
            },
        }
    }
}

/// The mappings, the modes, the framing bit and the exhaustion check.
pub open spec fn parse_setup_tail(
    s: Seq<bool>,
    codebook_count: u16,
    codebooks: Seq<CodebookModel>,
    time_count: u8,
    time_domain_transforms: Seq<TimeDomainTransform>,
    floor_count: u8,
    floor_configurations: Seq<FloorModel>,
    residue_count: u8,
    residue_configurations: Seq<ResidueModel>,
) -> Result<(SetupHeaderModel, Seq<bool>), SetupError> {
    if s.len() < 6 {
        Err(SetupError::EndOfData)
    } else {
        let mapping_count = (field(s, 6) + 1) as u8;
        match parse_mappings(s.skip(6), mapping_count as nat) {
            Err(e) => Err(e),
            Ok((mapping_configurations, s1)) => {
                if s1.len() < 6 {
                    Err(SetupError::EndOfData)
                } else {
                    let mode_count = (field(s1, 6) + 1) as u8;
                    match parse_modes(s1.skip(6), mode_count as nat) {
                        Err(e) => Err(e),
                        Ok((mode_configurations, s2)) => {
                            if s2.len() < 1 {
                                Err(SetupError::EndOfData)
                            } else if !s2[0] {
                                Err(SetupError::TrailingDataOrMissingFramingBit)
                            } else if s2.skip(1).len() >= 8 {
                                Err(SetupError::TrailingDataOrMissingFramingBit)
                            } else {
                                Ok(
                                    (
                                        SetupHeaderModel {
                                            codebook_count,
                                            codebooks,
                                            time_count,
                                            time_domain_transforms,
                                            floor_count,
                                            floor_configurations,
                                            residue_count,
                                            residue_configurations,
                                            mapping_count,
                                            mapping_configurations,
                                            mode_count,
                                            mode_configurations,
                                            framing_flag: true,
                                        },
                                        s2.skip(1),
                                    ),
                                )
                            }
                        },
                    }
                }
            },
        }
    }
}

/// Read `k` codebooks.
fn read_codebooks(reader: &mut Reader, k: u16) -> (r: Result<Vec<Codebook>, SetupError>)
    requires
        old(reader).wf(),
    ensures
        match r {
            Ok(v) => final(reader).wf() && parse_codebooks(old(reader).bits(), k as nat) == Ok::<
                _,
                SetupError,
            >((codebooks_view(v@), final(reader).bits())),
            Err(e) => parse_codebooks(old(reader).bits(), k as nat) == Err::<
                (Seq<CodebookModel>, Seq<bool>),
                _,
            >(e),
        },
    decreases k,
{
    if k == 0 {
        let v: Vec<Codebook> = Vec::new();
        proof {
            assert(codebooks_view(v@) =~= Seq::<CodebookModel>::empty());
        }
        return Ok(v);
    }
    let c = match Codebook::decode(reader) {
        Ok(c) => c,
        Err(e) => {
            return Err(SetupError::Codebook(e));
        },
    };
    let ghost cv = c@;
    let ghost cfull = c;
    match read_codebooks(reader, k - 1) {
        Ok(mut tail) => {
            let ghost tailv0 = tail@;
            let ghost tail0 = codebooks_view(tail@);
            tail.insert(0, c);
            proof {
                assert(tail@ =~= seq![cfull] + tailv0);
                assert(codebooks_view(tail@) =~= seq![cv] + tail0);
            }
            Ok(tail)
        },
        Err(e) => Err(e),
    }
}

/// Read `k` time-domain transforms.
fn read_time_domains(reader: &mut Reader, k: u8) -> (r: Result<
    Vec<TimeDomainTransform>,
    SetupError,
>)
    requires
        old(reader).wf(),
    ensures
        match r {
            Ok(v) => final(reader).wf() && parse_time_domains(old(reader).bits(), k as nat)
                == Ok::<_, SetupError>((v@, final(reader).bits())),
            Err(e) => parse_time_domains(old(reader).bits(), k as nat) == Err::<
                (Seq<TimeDomainTransform>, Seq<bool>),
                _,
            >(e),
        },
    decreases k,
{
    if k == 0 {
        let v: Vec<TimeDomainTransform> = Vec::new();
        return Ok(v);
    }
    let t = match TimeDomainTransform::decode(reader) {
        Ok(t) => t,
        Err(e) => {
            return Err(SetupError::TimeDomain(e));
        },
    };
    match read_time_domains(reader, k - 1) {
        Ok(mut tail) => {
            let ghost tail0 = tail@;
            tail.insert(0, t);
            proof {
                assert(tail@ =~= seq![t] + tail0);
            }
            Ok(tail)
        },
        Err(e) => Err(e),
    }
}

/// Read `k` floors.
fn read_floors(reader: &mut Reader, k: u8) -> (r: Result<Vec<Floor>, SetupError>)
    requires
        old(reader).wf(),
    ensures
        match r {
            Ok(v) => final(reader).wf() && parse_floors(old(reader).bits(), k as nat) == Ok::<
                _,
                SetupError,
            >((floors_view(v@), final(reader).bits())),
            Err(e) => parse_floors(old(reader).bits(), k as nat) == Err::<
                (Seq<FloorModel>, Seq<bool>),
                _,
            >(e),
        },
    decreases k,
{
    if k == 0 {
        let v: Vec<Floor> = Vec::new();
        proof {
            assert(floors_view(v@) =~= Seq::<FloorModel>::empty());
        }
        return Ok(v);
    }
    let f = match Floor::decode(reader) {
        Ok(f) => f,
        Err(e) => {
            return Err(SetupError::Floor(e));
        },
    };
    let ghost fv = f@;
    let ghost ffull = f;
    match read_floors(reader, k - 1) {
        Ok(mut tail) => {
            let ghost tailv0 = tail@;
            let ghost tail0 = floors_view(tail@);
            tail.insert(0, f);
            proof {
                assert(tail@ =~= seq![ffull] + tailv0);
                assert(floors_view(tail@) =~= seq![fv] + tail0);
            }
            Ok(tail)
        },
        Err(e) => Err(e),
    }
}

/// Read `k` residues.
fn read_residues(reader: &mut Reader, k: u8) -> (r: Result<Vec<Residue>, SetupError>)
    requires
        old(reader).wf(),
    ensures
        match r {
            Ok(v) => final(reader).wf() && parse_residues(old(reader).bits(), k as nat) == Ok::<
                _,
                SetupError,
            >((residues_view(v@), final(reader).bits())),
            Err(e) => parse_residues(old(reader).bits(), k as nat) == Err::<
                (Seq<ResidueModel>, Seq<bool>),
                _,
            >(e),
        },
    decreases k,
{
    if k == 0 {
        let v: Vec<Residue> = Vec::new();
        proof {
            assert(residues_view(v@) =~= Seq::<ResidueModel>::empty());
        }
        return Ok(v);
    }
    let x = match Residue::decode(reader) {
        Ok(x) => x,
        Err(e) => {
            return Err(SetupError::Residue(e));
        },
    };
    let ghost xv = x@;
    let ghost xfull = x;
    match read_residues(reader, k - 1) {
        Ok(mut tail) => {
            let ghost tailv0 = tail@;
            let ghost tail0 = residues_view(tail@);
            tail.insert(0, x);
            proof {
                assert(tail@ =~= seq![xfull] + tailv0);
                assert(residues_view(tail@) =~= seq![xv] + tail0);
            }
            Ok(tail)
        },
        Err(e) => Err(e),
    }
}

/// Read `k` mappings.
fn read_mappings(reader: &mut Reader, k: u8) -> (r: Result<Vec<Mapping>, SetupError>)
    requires
        old(reader).wf(),
    ensures
        match r {
            Ok(v) => final(reader).wf() && parse_mappings(old(reader).bits(), k as nat) == Ok::<
                _,
                SetupError,
            >((mappings_view(v@), final(reader).bits())),
            Err(e) => parse_mappings(old(reader).bits(), k as nat) == Err::<
                (Seq<MappingModel>, Seq<bool>),
                _,
            >(e),
        },
    decreases k,
{
    if k == 0 {
        let v: Vec<Mapping> = Vec::new();
        proof {
            assert(mappings_view(v@) =~= Seq::<MappingModel>::empty());
        }
        return Ok(v);
    }
    let m = match Mapping::decode(reader) {
        Ok(m) => m,
        Err(e) => {
            return Err(SetupError::Mapping(e));
        },
    };
    let ghost mv = m@;
    let ghost mfull = m;
    match read_mappings(reader, k - 1) {
        Ok(mut tail) => {
            let ghost tailv0 = tail@;
            let ghost tail0 = mappings_view(tail@);
            tail.insert(0, m);
            proof {
                assert(tail@ =~= seq![mfull] + tailv0);
                assert(mappings_view(tail@) =~= seq![mv] + tail0);
            }
            Ok(tail)
        },
        Err(e) => Err(e),
    }
}

/// Read `k` modes.
fn read_modes(reader: &mut Reader, k: u8) -> (r: Result<Vec<Mode>, SetupError>)
    requires
        old(reader).wf(),
    ensures
        match r {
            Ok(v) => final(reader).wf() && parse_modes(old(reader).bits(), k as nat) == Ok::<
                _,
                SetupError,
            >((v@, final(reader).bits())),
            Err(e) => parse_modes(old(reader).bits(), k as nat) == Err::<
                (Seq<Mode>, Seq<bool>),
                _,
            >(e),
        },
    decreases k,
{
    if k == 0 {
        let v: Vec<Mode> = Vec::new();
        return Ok(v);
    }
    let m = match Mode::decode(reader) {
        Ok(m) => m,
        Err(e) => {
            return Err(SetupError::Mode(e));
        },
    };
    match read_modes(reader, k - 1) {
        Ok(mut tail) => {
            let ghost tail0 = tail@;
            tail.insert(0, m);
            proof {
                assert(tail@ =~= seq![m] + tail0);
            }
            Ok(tail)
        },
        Err(e) => Err(e),
    }
}

impl SetupHeader {
    /// Decode one whole setup-header packet.
    #[verifier::loop_isolation(false)]
    pub fn from_bytes(packet: &[u8]) -> (r: Result<SetupHeader, SetupError>)
        requires
            packet@.len() * 8 <= usize::MAX,
        ensures
            match r {
                Ok(h) => parse_setup(bytes_bits(packet@)) matches Ok(p) && p.0 == h@,
                Err(e) => parse_setup(bytes_bits(packet@)) == Err::<
                    (SetupHeaderModel, Seq<bool>),
                    _,
                >(e),
            },
    {
        proof {
            vstd::arithmetic::power2::lemma2_to64();
        }
        let mut reader = Reader::new(packet);
        let packet_type = match reader.read_u8(8) {
            Some(x) => x,
            None => {
                return Err(SetupError::EndOfData);
            },
        };
        if packet_type != 5 {
            return Err(SetupError::NotSetupPacket(packet_type));
        }
        let ghost ssig = reader.bits();
        proof {
            assert(ssig.skip(0) =~= ssig);
        }
        let mut signature: [u8; 6] = [0; 6];
        let mut i: usize = 0;
        while i < 6
            invariant
                reader.wf(),
                i <= 6,
                ssig.len() >= 8 * i,
                reader.bits() == ssig.skip(8 * i as int),
                forall|j: int|
                    0 <= j < i ==> signature@[j] == field(ssig.skip(8 * j), 8) as u8,
            decreases 6 - i,
        {
            let b = match reader.read_u8(8) {
                Some(x) => x,
                None => {
                    return Err(SetupError::EndOfData);
                },
            };
            signature[i] = b;
            i = i + 1;
            proof {
                assert(ssig.skip(8 * (i - 1)).skip(8) =~= ssig.skip(8 * i as int));
            }
        }
        proof {
            assert(signature@[0] == field(ssig, 8) as u8);
            assert(signature@[1] == field(ssig.skip(8), 8) as u8);
            assert(signature@[2] == field(ssig.skip(16), 8) as u8);
            assert(signature@[3] == field(ssig.skip(24), 8) as u8);
            assert(signature@[4] == field(ssig.skip(32), 8) as u8);
            assert(signature@[5] == field(ssig.skip(40), 8) as u8);
        }
        if !(signature[0] == 0x76 && signature[1] == 0x6F && signature[2] == 0x72 && signature[3]
            == 0x62 && signature[4] == 0x69 && signature[5] == 0x73) {
            return Err(
                SetupError::InvalidSignature(
                    [
                        signature[0],
                        signature[1],
                        signature[2],
                        signature[3],
                        signature[4],
                        signature[5],
                    ],
                ),
            );
        }
        proof {
            assert(ssig.skip(0) =~= ssig);
        }
        let codebook_count: u16 = match reader.read_u8(8) {
            Some(x) => x as u16 + 1,
            None => {
                return Err(SetupError::EndOfData);
            },
        };
        let codebooks = match read_codebooks(&mut reader, codebook_count) {
            Ok(v) => v,
            Err(e) => {
                return Err(e);
            },
        };
        let time_count = match reader.read_u8(6) {
            Some(x) => x + 1,
            None => {
                return Err(SetupError::EndOfData);
            },
        };
        let time_domain_transforms = match read_time_domains(&mut reader, time_count) {
            Ok(v) => v,
            Err(e) => {
                return Err(e);
            },
        };
        let floor_count = match reader.read_u8(6) {
            Some(x) => x + 1,
            None => {
                return Err(SetupError::EndOfData);
            },
        };
        let floor_configurations = match read_floors(&mut reader, floor_count) {
            Ok(v) => v,
            Err(e) => {
                return Err(e);
            },
        };
        let residue_count = match reader.read_u8(6) {
            Some(x) => x + 1,
            None => {
                return Err(SetupError::EndOfData);
            },
        };
        let residue_configurations = match read_residues(&mut reader, residue_count) {
            Ok(v) => v,
            Err(e) => {
                return Err(e);
            },
        };
        let mapping_count = match reader.read_u8(6) {
            Some(x) => x + 1,
            None => {
                return Err(SetupError::EndOfData);
            },
        };
        let mapping_configurations = match read_mappings(&mut reader, mapping_count) {
            Ok(v) => v,
            Err(e) => {
                return Err(e);
            },
        };
        let mode_count = match reader.read_u8(6) {
            Some(x) => x + 1,
            None => {
                return Err(SetupError::EndOfData);
            },
        };
        let mode_configurations = match read_modes(&mut reader, mode_count) {
            Ok(v) => v,
            Err(e) => {
                return Err(e);
            },
        };
        let framing_flag = match reader.read_bool() {
            Some(x) => x,
            None => {
                return Err(SetupError::EndOfData);
            },
        };
        if !framing_flag {
            return Err(SetupError::TrailingDataOrMissingFramingBit);
        }
        if reader.bits_left() >= 8 {
            return Err(SetupError::TrailingDataOrMissingFramingBit);
        }
        Ok(
            SetupHeader {
                codebook_count,
                codebooks,
                time_count,
                time_domain_transforms,
                floor_count,
                floor_configurations,
                residue_count,
                residue_configurations,
                mapping_count,
                mapping_configurations,
                mode_count,
                mode_configurations,
                framing_flag,
            },
        )
    }
}

} // verus!

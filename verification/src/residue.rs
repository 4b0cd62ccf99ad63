//! The residue record: partitioning bounds, a classification count, and per
//! classification a cascade bitmask that tells which of eight passes carry a
//! codebook number.

use vstd::prelude::*;

verus! {

use crate::bits::field;
use crate::reader::Reader;

#[derive(Debug, PartialEq, Eq, Clone)]
pub struct Residue {
    pub residue_type: u16,
    pub begin: u32,
    pub end: u32,
    pub partition_size: u32,
    pub classifications: u8,
    pub classbook: u8,
    pub cascade: Vec<u8>,
    pub books: Vec<Vec<Option<u8>>>,
}

/// The book table of a residue record, as plain sequences.
pub open spec fn rows_view(v: Seq<Vec<Option<u8>>>) -> Seq<Seq<Option<u8>>> {
    Seq::new(v.len(), |i: int| v[i]@)
}

/// The mathematical content of a residue record.
pub struct ResidueModel {
    pub residue_type: u16,
    pub begin: u32,
    pub end: u32,
    pub partition_size: u32,
    pub classifications: u8,
    pub classbook: u8,
    pub cascade: Seq<u8>,
    pub books: Seq<Seq<Option<u8>>>,
}

impl View for Residue {
    type V = ResidueModel;

    open spec fn view(&self) -> ResidueModel {
        ResidueModel {
            residue_type: self.residue_type,
            begin: self.begin,
            end: self.end,
            partition_size: self.partition_size,
            classifications: self.classifications,
            classbook: self.classbook,
            cascade: self.cascade@,
            books: rows_view(self.books@),
        }
    }
}

#[derive(Debug, PartialEq, Eq, Clone, Copy)]
pub enum ResidueError {
    InvalidResidueType(u16),
    EndOfData,
}

/// One cascade entry: a 3-bit low part, then a flag that decides whether a
/// 5-bit high part follows; the entry is `high * 8 + low`.
pub open spec fn parse_cascade(s: Seq<bool>, k: nat) -> Result<(Seq<u8>, Seq<bool>), ResidueError>
    decreases k,
{
    if k == 0 {
        Ok((Seq::empty(), s))
    } else if s.len() < 3 {
        Err(ResidueError::EndOfData)
    } else {
        let low = field(s, 3);
        let s1 = s.skip(3);
        if s1.len() < 1 {
            Err(ResidueError::EndOfData)
        } else {
            let flag = s1[0];
            let s2 = s1.skip(1);
            if flag {
                if s2.len() < 5 {
                    Err(ResidueError::EndOfData)
                } else {
                    let elem = (field(s2, 5) * 8 + low) as u8;
                    match parse_cascade(s2.skip(5), (k - 1) as nat) {
                        Ok((tail, rest)) => Ok((seq![elem] + tail, rest)),
                        Err(e) => Err(e),
                    }
                }
            } else {
                let elem = low as u8;
                match parse_cascade(s2, (k - 1) as nat) {
                    Ok((tail, rest)) => Ok((seq![elem] + tail, rest)),
                    Err(e) => Err(e),
                }
            }
        }
    }
}

/// One row of the book table: for each of the eight passes, an 8-bit book
/// number exactly when the matching cascade bit is set.
pub open spec fn parse_book_row(s: Seq<bool>, c: u8, j: nat) -> Result<
    (Seq<Option<u8>>, Seq<bool>),
    ResidueError,
>
    decreases 8 - j,
{
    if j >= 8 {
        Ok((Seq::empty(), s))
    } else if c & (1u8 << (j as u8)) != 0 {
        if s.len() < 8 {
            Err(ResidueError::EndOfData)
        } else {
            let b = field(s, 8) as u8;
            match parse_book_row(s.skip(8), c, j + 1) {
                Ok((tail, rest)) => Ok((seq![Some(b)] + tail, rest)),
                Err(e) => Err(e),
            }
        }
    } else {
        match parse_book_row(s, c, j + 1) {
            Ok((tail, rest)) => Ok((seq![None::<u8>] + tail, rest)),
            Err(e) => Err(e),
        }
    }
}

/// The book table: one row per cascade entry, in order.
pub open spec fn parse_books(s: Seq<bool>, cascade: Seq<u8>) -> Result<
    (Seq<Seq<Option<u8>>>, Seq<bool>),
    ResidueError,
>
    decreases cascade.len(),
{
    if cascade.len() == 0 {
        Ok((Seq::empty(), s))
    } else {
        match parse_book_row(s, cascade[0], 0) {
            Ok((row, rest)) => match parse_books(rest, cascade.skip(1)) {
                Ok((rows, rest2)) => Ok((seq![row] + rows, rest2)),
                Err(e) => Err(e),
            },
            Err(e) => Err(e),
        }
    }
}

/// The residue grammar: a 16-bit type restricted to 0 through 2, three 24-bit
/// bounds (the partition size stored one less), a 6-bit classification count
/// stored one less, an 8-bit classbook, then the cascade and the book table.
pub open spec fn parse_residue(s: Seq<bool>) -> Result<(ResidueModel, Seq<bool>), ResidueError> {
    if s.len() < 16 {
        Err(ResidueError::EndOfData)
    } else {
        let residue_type = field(s, 16) as u16;
        let s1 = s.skip(16);
        if residue_type > 2 {
            Err(ResidueError::InvalidResidueType(residue_type))
        } else if s1.len() < 24 {
            Err(ResidueError::EndOfData)
        } else {
            let begin = field(s1, 24) as u32;
            let s2 = s1.skip(24);
            if s2.len() < 24 {
                Err(ResidueError::EndOfData)
            } else {
                let end = field(s2, 24) as u32;
                let s3 = s2.skip(24);
                if s3.len() < 24 {
                    Err(ResidueError::EndOfData)
                } else {
                    let partition_size = (field(s3, 24) + 1) as u32;
                    let s4 = s3.skip(24);
                    if s4.len() < 6 {
                        Err(ResidueError::EndOfData)
                    } else {
                        let classifications = (field(s4, 6) + 1) as u8;
                        let s5 = s4.skip(6);
                        if s5.len() < 8 {
                            Err(ResidueError::EndOfData)
                        } else {
                            let classbook = field(s5, 8) as u8;
                            let s6 = s5.skip(8);
                            match parse_cascade(s6, classifications as nat) {
                                Ok((cascade, s7)) => match parse_books(s7, cascade) {
                                    Ok((books, s8)) => Ok(
                                        (
                                            ResidueModel {
                                                residue_type,
                                                begin,
                                                end,
                                                partition_size,
                                                classifications,
                                                classbook,
                                                cascade,
                                                books,
                                            },
                                            s8,
                                        ),
                                    ),
                                    Err(e) => Err(e),
                                },
                                Err(e) => Err(e),
                            }
                        }
                    }
                }
            }
        }
    }
}

/// Read `k` cascade entries.
fn read_cascade(reader: &mut Reader, k: u8) -> (r: Result<Vec<u8>, ResidueError>)
    requires
        old(reader).wf(),
    ensures
        match r {
            Ok(v) => final(reader).wf() && parse_cascade(old(reader).bits(), k as nat) == Ok::<
                _,
                ResidueError,
            >((v@, final(reader).bits())),
            Err(e) => parse_cascade(old(reader).bits(), k as nat) == Err::<
                (Seq<u8>, Seq<bool>),
                _,
            >(e),
        },
    decreases k,
{
    if k == 0 {
        let v: Vec<u8> = Vec::new();
        return Ok(v);
    }
    let low = match reader.read_u8(3) {
        Some(v) => v,
        None => {
            return Err(ResidueError::EndOfData);
        },
    };
    let flag = match reader.read_bool() {
        Some(v) => v,
        None => {
            return Err(ResidueError::EndOfData);
        },
    };
    let high = if flag {
        match reader.read_u8(5) {
            Some(v) => v,
            None => {
                return Err(ResidueError::EndOfData);
            },
        }
    } else {
        0
    };
    proof {
        vstd::arithmetic::power2::lemma2_to64();
    }
    let elem = high * 8 + low;
    match read_cascade(reader, k - 1) {
        Ok(mut tail) => {
            let ghost tail0 = tail@;
            tail.insert(0, elem);
            proof {
                assert(tail@ =~= seq![elem] + tail0);
            }
            Ok(tail)
        },
        Err(e) => Err(e),
    }
}

/// Read one book-table row driven by the cascade entry `c`, starting at pass
/// `j`.
fn read_book_row(reader: &mut Reader, c: u8, j: u8) -> (r: Result<Vec<Option<u8>>, ResidueError>)
    requires
        old(reader).wf(),
        j <= 8,
    ensures
        match r {
            Ok(v) => final(reader).wf() && parse_book_row(old(reader).bits(), c, j as nat) == Ok::<
                _,
                ResidueError,
            >((v@, final(reader).bits())),
            Err(e) => parse_book_row(old(reader).bits(), c, j as nat) == Err::<
                (Seq<Option<u8>>, Seq<bool>),
                _,
            >(e),
        },
    decreases 8 - j,
{
    if j >= 8 {
        let v: Vec<Option<u8>> = Vec::new();
        return Ok(v);
    }
    let elem = if c & (1u8 << j) != 0 {
        match reader.read_u8(8) {
            Some(v) => Some(v),
            None => {
                return Err(ResidueError::EndOfData);
            },
        }
    } else {
        None
    };
    match read_book_row(reader, c, j + 1) {
        Ok(mut tail) => {
            let ghost tail0 = tail@;
            tail.insert(0, elem);
            proof {
                assert(tail@ =~= seq![elem] + tail0);
            }
            Ok(tail)
        },
        Err(e) => Err(e),
    }
}

/// Read the book-table rows for `cascade[i..]`.
fn read_books(reader: &mut Reader, cascade: &Vec<u8>, i: usize) -> (r: Result<
    Vec<Vec<Option<u8>>>,
    ResidueError,
>)
    requires
        old(reader).wf(),
        i <= cascade@.len(),
    ensures
        match r {
            Ok(v) => final(reader).wf() && parse_books(old(reader).bits(), cascade@.skip(i as int))
                == Ok::<_, ResidueError>((rows_view(v@), final(reader).bits())),
            Err(e) => parse_books(old(reader).bits(), cascade@.skip(i as int)) == Err::<
                (Seq<Seq<Option<u8>>>, Seq<bool>),
                _,
            >(e),
        },
    decreases cascade@.len() - i,
{
    if i == cascade.len() {
        let v: Vec<Vec<Option<u8>>> = Vec::new();
        proof {
            assert(cascade@.skip(i as int) =~= Seq::<u8>::empty());
            assert(rows_view(v@) =~= Seq::<Seq<Option<u8>>>::empty());
        }
        return Ok(v);
    }
    proof {
        assert(cascade@.skip(i as int)[0] == cascade@[i as int]);
        assert(cascade@.skip(i as int).skip(1) =~= cascade@.skip(i as int + 1));
    }
    let row = match read_book_row(reader, cascade[i], 0) {
        Ok(v) => v,
        Err(e) => {
            return Err(e);
        },
    };
    let ghost rowv = row@;
    let ghost rfull = row;
    match read_books(reader, cascade, i + 1) {
        Ok(mut rows) => {
            let ghost rowsv0 = rows@;
            let ghost rows0 = rows_view(rows@);
            rows.insert(0, row);
            proof {
                assert(rows@ =~= seq![rfull] + rowsv0);
                assert(rows_view(rows@) =~= seq![rowv] + rows0);
            }
            Ok(rows)
        },
        Err(e) => Err(e),
    }
}

impl Residue {
    /// Read one residue record from the stream.
    pub fn decode(reader: &mut Reader) -> (r: Result<Residue, ResidueError>)
        requires
            old(reader).wf(),
        ensures
            match r {
                Ok(res) => final(reader).wf() && parse_residue(old(reader).bits()) == Ok::<
                    _,
                    ResidueError,
                >((res@, final(reader).bits())),
                Err(e) => parse_residue(old(reader).bits()) == Err::<
                    (ResidueModel, Seq<bool>),
                    _,
                >(e),
            },
    {
        proof {
            vstd::arithmetic::power2::lemma2_to64();
        }
        let residue_type = match reader.read_u16(16) {
            Some(v) => v,
            None => {
                return Err(ResidueError::EndOfData);
            },
        };
        if residue_type > 2 {
            return Err(ResidueError::InvalidResidueType(residue_type));
        }
        let begin = match reader.read_u32(24) {
            Some(v) => v,
            None => {
                return Err(ResidueError::EndOfData);
            },
        };
        let end = match reader.read_u32(24) {
            Some(v) => v,
            None => {
                return Err(ResidueError::EndOfData);
            },
        };
        let partition_size = match reader.read_u32(24) {
            Some(v) => v + 1,
            None => {
                return Err(ResidueError::EndOfData);
            },
        };
        let classifications = match reader.read_u8(6) {
            Some(v) => v + 1,
            None => {
                return Err(ResidueError::EndOfData);
            },
        };
        let classbook = match reader.read_u8(8) {
            Some(v) => v,
            None => {
                return Err(ResidueError::EndOfData);
            },
        };
        let cascade = match read_cascade(reader, classifications) {
            Ok(v) => v,
            Err(e) => {
                return Err(e);
            },
        };
        proof {
            assert(cascade@.skip(0) =~= cascade@);
        }
        let books = match read_books(reader, &cascade, 0) {
            Ok(v) => v,
            Err(e) => {
                return Err(e);
            },
        };
        Ok(
            Residue {
                residue_type,
                begin,
                end,
                partition_size,
                classifications,
                classbook,
                cascade,
                books,
            },
        )
    }
}

} // verus!

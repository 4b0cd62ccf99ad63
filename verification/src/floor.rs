//! The floor record: a spectral-envelope configuration, either the order/rate
//! model (type zero) or the piecewise-linear curve over control points
//! (type one).

use vstd::prelude::*;

verus! {

use crate::bits::field;
use crate::reader::Reader;

#[derive(Debug, PartialEq, Eq, Clone)]
pub enum Floor {
    Zero(Floor0),
    One(Floor1),
}

#[derive(Debug, PartialEq, Eq, Clone)]
pub struct Floor0 {
    pub order: u8,
    pub rate: u16,
    pub bark_map_size: u16,
    pub amplitude_bits: u8,
    pub amplitude_offset: u8,
    pub number_of_books: u8,
    pub book_list: Vec<u8>,
}

#[derive(Debug, PartialEq, Eq, Clone)]
pub struct Floor1 {
    pub partitions: u8,
    pub partition_class_list: Vec<u8>,
    pub maximum_class: u8,
    pub classes: Vec<Class>,
    pub multiplier: u8,
    pub rangebits: u8,
    pub x_list: Vec<u32>,
}

#[derive(Debug, PartialEq, Eq, Clone)]
pub struct Class {
    pub dimensions: u8,
    pub subclasses: u8,
    pub masterbooks: Option<u8>,
    pub subclass_books: Vec<i32>,
}

/// The mathematical content of a type-zero floor.
pub struct Floor0Model {
    pub order: u8,
    pub rate: u16,
    pub bark_map_size: u16,
    pub amplitude_bits: u8,
    pub amplitude_offset: u8,
    pub number_of_books: u8,
    pub book_list: Seq<u8>,
}

/// The mathematical content of one type-one floor class.
pub struct ClassModel {
    pub dimensions: u8,
    pub subclasses: u8,
    pub masterbooks: Option<u8>,
    pub subclass_books: Seq<i32>,
}

/// The mathematical content of a type-one floor.
pub struct Floor1Model {
    pub partitions: u8,
    pub partition_class_list: Seq<u8>,
    pub maximum_class: u8,
    pub classes: Seq<ClassModel>,
    pub multiplier: u8,
    pub rangebits: u8,
    pub x_list: Seq<u32>,
}

/// The mathematical content of a floor record.
pub enum FloorModel {
    Zero(Floor0Model),
    One(Floor1Model),
}

impl View for Floor0 {
    type V = Floor0Model;

    open spec fn view(&self) -> Floor0Model {
        Floor0Model {
            order: self.order,
            rate: self.rate,
            bark_map_size: self.bark_map_size,
            amplitude_bits: self.amplitude_bits,
            amplitude_offset: self.amplitude_offset,
            number_of_books: self.number_of_books,
            book_list: self.book_list@,
        }
    }
}

impl View for Class {
    type V = ClassModel;

    open spec fn view(&self) -> ClassModel {
        ClassModel {
            dimensions: self.dimensions,
            subclasses: self.subclasses,
            masterbooks: self.masterbooks,
            subclass_books: self.subclass_books@,
        }
    }
}

/// A class vector as plain class models.
pub open spec fn classes_view(v: Seq<Class>) -> Seq<ClassModel> {
    Seq::new(v.len(), |i: int| v[i]@)
}

impl View for Floor1 {
    type V = Floor1Model;

    open spec fn view(&self) -> Floor1Model {
        Floor1Model {
            partitions: self.partitions,
            partition_class_list: self.partition_class_list@,
            maximum_class: self.maximum_class,
            classes: classes_view(self.classes@),
            multiplier: self.multiplier,
            rangebits: self.rangebits,
            x_list: self.x_list@,
        }
    }
}

impl View for Floor {
    type V = FloorModel;

    open spec fn view(&self) -> FloorModel {
        match self {
            Floor::Zero(f) => FloorModel::Zero(f@),
            Floor::One(f) => FloorModel::One(f@),
        }
    }
}

#[derive(Debug, PartialEq, Eq, Clone, Copy)]
pub enum FloorError {
    InvalidFloorType(u16),
    NoPartitionClasses,
    XListTooLong(usize),
    EndOfData,
}

/// `k` 8-bit book numbers.
pub open spec fn parse_book_list(s: Seq<bool>, k: nat) -> Result<(Seq<u8>, Seq<bool>), FloorError>
    decreases k,
{
    if k == 0 {
        Ok((Seq::empty(), s))
    } else if s.len() < 8 {
        Err(FloorError::EndOfData)
    } else {
        match parse_book_list(s.skip(8), (k - 1) as nat) {
            Ok((tail, rest)) => Ok((seq![field(s, 8) as u8] + tail, rest)),
            Err(e) => Err(e),
        }
    }
}

/// The type-zero floor grammar: six fixed-width fields (the book count stored
/// one less) followed by that many 8-bit book numbers.
pub open spec fn parse_floor0(s: Seq<bool>) -> Result<(Floor0Model, Seq<bool>), FloorError> {
    if s.len() < 8 {
        Err(FloorError::EndOfData)
    } else {
        let order = field(s, 8) as u8;
        let s1 = s.skip(8);
        if s1.len() < 16 {
            Err(FloorError::EndOfData)
        } else {
            let rate = field(s1, 16) as u16;
            let s2 = s1.skip(16);
            if s2.len() < 16 {
                Err(FloorError::EndOfData)
            } else {
                let bark_map_size = field(s2, 16) as u16;
                let s3 = s2.skip(16);
                if s3.len() < 6 {
                    Err(FloorError::EndOfData)
                } else {
                    let amplitude_bits = field(s3, 6) as u8;
                    let s4 = s3.skip(6);
                    if s4.len() < 8 {
                        Err(FloorError::EndOfData)
                    } else {
                        let amplitude_offset = field(s4, 8) as u8;
                        let s5 = s4.skip(8);
                        if s5.len() < 4 {
                            Err(FloorError::EndOfData)
                        } else {
                            let number_of_books = (field(s5, 4) + 1) as u8;
                            let s6 = s5.skip(4);
                            match parse_book_list(s6, number_of_books as nat) {
                                Ok((book_list, s7)) => Ok(
                                    (
                                        Floor0Model {
                                            order,
                                            rate,
                                            bark_map_size,
                                            amplitude_bits,
                                            amplitude_offset,
                                            number_of_books,
                                            book_list,
                                        },
                                        s7,
                                    ),
                                ),
                                Err(e) => Err(e),
                            }
                        }
                    }
                }
            }
        }
    }
}

/// `k` 4-bit class numbers.
pub open spec fn parse_class_list(s: Seq<bool>, k: nat) -> Result<(Seq<u8>, Seq<bool>), FloorError>
    decreases k,
{
    if k == 0 {
        Ok((Seq::empty(), s))
    } else if s.len() < 4 {
        Err(FloorError::EndOfData)
    } else {
        match parse_class_list(s.skip(4), (k - 1) as nat) {
            Ok((tail, rest)) => Ok((seq![field(s, 4) as u8] + tail, rest)),
            Err(e) => Err(e),
        }
    }
}

/// `k` subclass book numbers: 8-bit fields, each stored one more than its
/// value, so a raw zero decodes to the no-book sentinel minus one.
pub open spec fn parse_subclass_books(s: Seq<bool>, k: nat) -> Result<
    (Seq<i32>, Seq<bool>),
    FloorError,
>
    decreases k,
{
    if k == 0 {
        Ok((Seq::empty(), s))
    } else if s.len() < 8 {
        Err(FloorError::EndOfData)
    } else {
        match parse_subclass_books(s.skip(8), (k - 1) as nat) {
            Ok((tail, rest)) => Ok((seq![(field(s, 8) - 1) as i32] + tail, rest)),
            Err(e) => Err(e),
        }
    }
}

/// One class: dimensions (3 bits, stored one less), a 2-bit subclass count,
/// a masterbook exactly when that count is positive, then `2^subclasses`
/// subclass book numbers.
pub open spec fn parse_class(s: Seq<bool>) -> Result<(ClassModel, Seq<bool>), FloorError> {
    if s.len() < 3 {
        Err(FloorError::EndOfData)
    } else {
        let dimensions = (field(s, 3) + 1) as u8;
        let s1 = s.skip(3);
        if s1.len() < 2 {
            Err(FloorError::EndOfData)
        } else {
            let subclasses = field(s1, 2) as u8;
            let s2 = s1.skip(2);
            if subclasses > 0 {
                if s2.len() < 8 {
                    Err(FloorError::EndOfData)
                } else {
                    let masterbook = field(s2, 8) as u8;
                    let s3 = s2.skip(8);
                    match parse_subclass_books(s3, (1u8 << subclasses) as nat) {
                        Ok((subclass_books, s4)) => Ok(
                            (
                                ClassModel {
                                    dimensions,
                                    subclasses,
                                    masterbooks: Some(masterbook),
                                    subclass_books,
                                },
                                s4,
                            ),
                        ),
                        Err(e) => Err(e),
                    }
                }
            } else {
                match parse_subclass_books(s2, (1u8 << subclasses) as nat) {
                    Ok((subclass_books, s3)) => Ok(
                        (
                            ClassModel {
                                dimensions,
                                subclasses,
                                masterbooks: None,
                                subclass_books,
                            },
                            s3,
                        ),
                    ),
                    Err(e) => Err(e),
                }
            }
        }
    }
}

/// `k` classes in order.
pub open spec fn parse_classes(s: Seq<bool>, k: nat) -> Result<
    (Seq<ClassModel>, Seq<bool>),
    FloorError,
>
    decreases k,
{
    if k == 0 {
        Ok((Seq::empty(), s))
    } else {
        match parse_class(s) {
            Ok((c, rest)) => match parse_classes(rest, (k - 1) as nat) {
                Ok((tail, rest2)) => Ok((seq![c] + tail, rest2)),
                Err(e) => Err(e),
            },
            Err(e) => Err(e),
        }
    }
}

/// `k` curve positions, each `w` bits wide.
pub open spec fn parse_xvals(s: Seq<bool>, w: int, k: nat) -> Result<
    (Seq<u32>, Seq<bool>),
    FloorError,
>
    decreases k,
{
    if k == 0 {
        Ok((Seq::empty(), s))
    } else if s.len() < w {
        Err(FloorError::EndOfData)
    } else {
        match parse_xvals(s.skip(w), w, (k - 1) as nat) {
            Ok((tail, rest)) => Ok((seq![field(s, w) as u32] + tail, rest)),
            Err(e) => Err(e),
        }
    }
}

/// The tail of the x list: for every entry of the partition class list from
/// `i` on, as many `w`-bit positions as that entry's class has dimensions.
pub open spec fn parse_xlist(
    s: Seq<bool>,
    w: int,
    pcl: Seq<u8>,
    classes: Seq<ClassModel>,
    i: nat,
) -> Result<(Seq<u32>, Seq<bool>), FloorError>
    decreases pcl.len() - i,
{
    if i >= pcl.len() {
        Ok((Seq::empty(), s))
    } else {
        let dims = classes[pcl[i as int] as int].dimensions;
        match parse_xvals(s, w, dims as nat) {
            Ok((vals, rest)) => match parse_xlist(rest, w, pcl, classes, i + 1) {
                Ok((tail, rest2)) => Ok((vals + tail, rest2)),
                Err(e) => Err(e),
            },
            Err(e) => Err(e),
        }
    }
}

/// The largest entry of a class list.
pub open spec fn seq_max_u8(s: Seq<u8>) -> u8
    decreases s.len(),
{
    if s.len() == 0 {
        0
    } else if s.len() == 1 {
        s[0]
    } else {
        let m = seq_max_u8(s.skip(1));
        if s[0] >= m {
            s[0]
        } else {
            m
        }
    }
}

/// Every entry is at most the maximum.
pub proof fn lemma_seq_max_u8_ge(s: Seq<u8>, i: int)
    requires
        0 <= i < s.len(),
    ensures
        s[i] <= seq_max_u8(s),
    decreases s.len(),
{
    if s.len() > 1 && i > 0 {
        lemma_seq_max_u8_ge(s.skip(1), i - 1);
    }
}

/// A bound on every entry bounds the maximum.
pub proof fn lemma_seq_max_u8_bound(s: Seq<u8>, b: u8)
    requires
        s.len() > 0,
        forall|j: int| 0 <= j < s.len() ==> s[j] < b,
    ensures
        seq_max_u8(s) < b,
    decreases s.len(),
{
    if s.len() > 1 {
        assert(forall|j: int| 0 <= j < s.skip(1).len() ==> s.skip(1)[j] == s[j + 1]);
        lemma_seq_max_u8_bound(s.skip(1), b);
    }
}

/// Reading `k` classes yields `k` classes.
pub proof fn lemma_parse_classes_len(s: Seq<bool>, k: nat)
    ensures
        parse_classes(s, k) matches Ok(p) ==> p.0.len() == k,
    decreases k,
{
    if k > 0 {
        match parse_class(s) {
            Ok((c, rest)) => {
                lemma_parse_classes_len(rest, (k - 1) as nat);
            },
            Err(e) => {},
        }
    }
}

/// A class list read from 4-bit fields stays below 16, so its maximum does
/// too.
pub proof fn lemma_class_list_bounds(s: Seq<bool>, k: nat)
    ensures
        parse_class_list(s, k) matches Ok(p) ==> forall|j: int| 0 <= j < p.0.len() ==> p.0[j] < 16,
    decreases k,
{
    if k > 0 && s.len() >= 4 {
        lemma_class_list_bounds(s.skip(4), (k - 1) as nat);
        crate::bits::lemma_field_bound(s, 4);
        vstd::arithmetic::power2::lemma2_to64();
    }
}

/// The type-one floor grammar: a 5-bit partition count, that many 4-bit class
/// numbers (there must be at least one), one class per number up to their
/// maximum, a 2-bit multiplier stored one less, a 4-bit range width, and the
/// x list seeded with 0 and `2^rangebits` then extended class by class; more
/// than 65 positions is an error.
pub open spec fn parse_floor1(s: Seq<bool>) -> Result<(Floor1Model, Seq<bool>), FloorError> {
    if s.len() < 5 {
        Err(FloorError::EndOfData)
    } else {
        let partitions = field(s, 5) as u8;
        let s1 = s.skip(5);
        match parse_class_list(s1, partitions as nat) {
            Err(e) => Err(e),
            Ok((pcl, s2)) => {
                if partitions == 0 {
                    Err(FloorError::NoPartitionClasses)
                } else {
                    let maximum_class = seq_max_u8(pcl);
                    match parse_classes(s2, (maximum_class + 1) as nat) {
                        Err(e) => Err(e),
                        Ok((classes, s3)) => {
                            if s3.len() < 2 {
                                Err(FloorError::EndOfData)
                            } else {
                                let multiplier = (field(s3, 2) + 1) as u8;
                                let s4 = s3.skip(2);
                                if s4.len() < 4 {
                                    Err(FloorError::EndOfData)
                                } else {
                                    let rangebits = field(s4, 4) as u8;
                                    let s5 = s4.skip(4);
                                    match parse_xlist(s5, rangebits as int, pcl, classes, 0) {
                                        Err(e) => Err(e),
                                        Ok((vals, s6)) => {
                                            let x_list = seq![0u32, 1u32 << rangebits] + vals;
                                            if x_list.len() > 65 {
                                                Err(FloorError::XListTooLong(x_list.len() as usize))
                                            } else {
                                                Ok(
                                                    (
                                                        Floor1Model {
                                                            partitions,
                                                            partition_class_list: pcl,
                                                            maximum_class,
                                                            classes,
                                                            multiplier,
                                                            rangebits,
                                                            x_list,
                                                        },
                                                        s6,
                                                    ),
                                                )
                                            }
                                        },
                                    }
                                }
                            }
                        },
                    }
                }
            },
        }
    }
}

/// The floor grammar: a 16-bit type tag restricted to zero or one, then the
/// matching body.
pub open spec fn parse_floor(s: Seq<bool>) -> Result<(FloorModel, Seq<bool>), FloorError> {
    if s.len() < 16 {
        Err(FloorError::EndOfData)
    } else {
        let tag = field(s, 16) as u16;
        let s1 = s.skip(16);
        if tag == 0 {
            match parse_floor0(s1) {
                Ok((f, rest)) => Ok((FloorModel::Zero(f), rest)),
                Err(e) => Err(e),
            }
        } else if tag == 1 {
            match parse_floor1(s1) {
                Ok((f, rest)) => Ok((FloorModel::One(f), rest)),
                Err(e) => Err(e),
            }
        } else {
            Err(FloorError::InvalidFloorType(tag))
        }
    }
}


/// How many x-list positions the partition entries from `i` on demand: the
/// dimensions of each entry's class, summed.
pub open spec fn xlist_sum(pcl: Seq<u8>, classes: Seq<ClassModel>, i: nat) -> nat
    decreases pcl.len() - i,
{
    if i >= pcl.len() {
        0
    } else {
        (classes[pcl[i as int] as int].dimensions + xlist_sum(pcl, classes, i + 1)) as nat
    }
}

/// Reading `k` fixed-width positions yields `k` positions.
proof fn lemma_parse_xvals_len(s: Seq<bool>, w: int, k: nat)
    ensures
        parse_xvals(s, w, k) matches Ok(p) ==> p.0.len() == k,
    decreases k,
{
    if k > 0 && s.len() >= w {
        lemma_parse_xvals_len(s.skip(w), w, (k - 1) as nat);
    }
}

/// The x-list tail holds exactly the summed class dimensions.
proof fn lemma_parse_xlist_len(s: Seq<bool>, w: int, pcl: Seq<u8>, classes: Seq<ClassModel>, i: nat)
    ensures
        parse_xlist(s, w, pcl, classes, i) matches Ok(p) ==> p.0.len() == xlist_sum(
            pcl,
            classes,
            i,
        ),
    decreases pcl.len() - i,
{
    if i < pcl.len() {
        let dims = classes[pcl[i as int] as int].dimensions;
        lemma_parse_xvals_len(s, w, dims as nat);
        match parse_xvals(s, w, dims as nat) {
            Ok((vals, rest)) => {
                lemma_parse_xlist_len(rest, w, pcl, classes, i + 1);
            },
            Err(e) => {},
        }
    }
}

/// Every decoded type-one floor's x list holds the two seed positions plus
/// one position per dimension of each partition entry's class, and never
/// more than 65 in all.
pub proof fn lemma_floor1_xlist_shape(s: Seq<bool>)
    ensures
        parse_floor1(s) matches Ok(p) ==> p.0.x_list.len() <= 65 && p.0.x_list.len() == 2
            + xlist_sum(p.0.partition_class_list, p.0.classes, 0),
{
    if s.len() >= 5 {
        let partitions = field(s, 5) as u8;
        let s1 = s.skip(5);
        match parse_class_list(s1, partitions as nat) {
            Ok((pcl, s2)) => {
                if partitions != 0 {
                    let maximum_class = seq_max_u8(pcl);
                    match parse_classes(s2, (maximum_class + 1) as nat) {
                        Ok((classes, s3)) => {
                            if s3.len() >= 2 {
                                let s4 = s3.skip(2);
                                if s4.len() >= 4 {
                                    let rangebits = field(s4, 4) as u8;
                                    let s5 = s4.skip(4);
                                    lemma_parse_xlist_len(s5, rangebits as int, pcl, classes, 0);
                                }
                            }
                        },
                        Err(e) => {},
                    }
                }
            },
            Err(e) => {},
        }
    }
}

/// Read `k` 8-bit book numbers.
fn read_book_list(reader: &mut Reader, k: u8) -> (r: Result<Vec<u8>, FloorError>)
    requires
        old(reader).wf(),
    ensures
        match r {
            Ok(v) => final(reader).wf() && parse_book_list(old(reader).bits(), k as nat) == Ok::<
                _,
                FloorError,
            >((v@, final(reader).bits())),
            Err(e) => parse_book_list(old(reader).bits(), k as nat) == Err::<
                (Seq<u8>, Seq<bool>),
                _,
            >(e),
        },
    decreases k,
{
    if k == 0 {
        let v: Vec<u8> = Vec::new();
        return Ok(v);
    }
    let b = match reader.read_u8(8) {
        Some(v) => v,
        None => {
            return Err(FloorError::EndOfData);
        },
    };
    match read_book_list(reader, k - 1) {
        Ok(mut tail) => {
            let ghost tail0 = tail@;
            tail.insert(0, b);
            proof {
                assert(tail@ =~= seq![b] + tail0);
            }
            Ok(tail)
        },
        Err(e) => Err(e),
    }
}

/// Read `k` 4-bit class numbers.
fn read_class_list(reader: &mut Reader, k: u8) -> (r: Result<Vec<u8>, FloorError>)
    requires
        old(reader).wf(),
    ensures
        match r {
            Ok(v) => final(reader).wf() && parse_class_list(old(reader).bits(), k as nat) == Ok::<
                _,
                FloorError,
            >((v@, final(reader).bits())),
            Err(e) => parse_class_list(old(reader).bits(), k as nat) == Err::<
                (Seq<u8>, Seq<bool>),
                _,
            >(e),
        },
    decreases k,
{
    if k == 0 {
        let v: Vec<u8> = Vec::new();
        return Ok(v);
    }
    let b = match reader.read_u8(4) {
        Some(v) => v,
        None => {
            return Err(FloorError::EndOfData);
        },
    };
    match read_class_list(reader, k - 1) {
        Ok(mut tail) => {
            let ghost tail0 = tail@;
            tail.insert(0, b);
            proof {
                assert(tail@ =~= seq![b] + tail0);
            }
            Ok(tail)
        },
        Err(e) => Err(e),
    }
}

/// Read `k` subclass book numbers, each one less than its stored byte.
fn read_subclass_books(reader: &mut Reader, k: u8) -> (r: Result<Vec<i32>, FloorError>)
    requires
        old(reader).wf(),
    ensures
        match r {
            Ok(v) => final(reader).wf() && parse_subclass_books(old(reader).bits(), k as nat)
                == Ok::<_, FloorError>((v@, final(reader).bits())),
            Err(e) => parse_subclass_books(old(reader).bits(), k as nat) == Err::<
                (Seq<i32>, Seq<bool>),
                _,
            >(e),
        },
    decreases k,
{
    if k == 0 {
        let v: Vec<i32> = Vec::new();
        return Ok(v);
    }
    let b = match reader.read_u8(8) {
        Some(v) => v as i32 - 1,
        None => {
            return Err(FloorError::EndOfData);
        },
    };
    match read_subclass_books(reader, k - 1) {
        Ok(mut tail) => {
            let ghost tail0 = tail@;
            tail.insert(0, b);
            proof {
                assert(tail@ =~= seq![b] + tail0);
            }
            Ok(tail)
        },
        Err(e) => Err(e),
    }
}

/// Read one class.
fn read_class(reader: &mut Reader) -> (r: Result<Class, FloorError>)
    requires
        old(reader).wf(),
    ensures
        match r {
            Ok(c) => final(reader).wf() && parse_class(old(reader).bits()) == Ok::<_, FloorError>(
                (c@, final(reader).bits()),
            ),
            Err(e) => parse_class(old(reader).bits()) == Err::<(ClassModel, Seq<bool>), _>(e),
        },
{
    proof {
        vstd::arithmetic::power2::lemma2_to64();
    }
    let dimensions = match reader.read_u8(3) {
        Some(v) => v + 1,
        None => {
            return Err(FloorError::EndOfData);
        },
    };
    let subclasses = match reader.read_u8(2) {
        Some(v) => v,
        None => {
            return Err(FloorError::EndOfData);
        },
    };
    let masterbooks = if subclasses > 0 {
        match reader.read_u8(8) {
            Some(v) => Some(v),
            None => {
                return Err(FloorError::EndOfData);
            },
        }
    } else {
        None
    };
    let count = 1u8 << subclasses;
    let subclass_books = match read_subclass_books(reader, count) {
        Ok(v) => v,
        Err(e) => {
            return Err(e);
        },
    };
    Ok(Class { dimensions, subclasses, masterbooks, subclass_books })
}

/// Read `k` classes.
fn read_classes(reader: &mut Reader, k: u8) -> (r: Result<Vec<Class>, FloorError>)
    requires
        old(reader).wf(),
    ensures
        match r {
            Ok(v) => final(reader).wf() && parse_classes(old(reader).bits(), k as nat) == Ok::<
                _,
                FloorError,
            >((classes_view(v@), final(reader).bits())),
            Err(e) => parse_classes(old(reader).bits(), k as nat) == Err::<
                (Seq<ClassModel>, Seq<bool>),
                _,
            >(e),
        },
    decreases k,
{
    if k == 0 {
        let v: Vec<Class> = Vec::new();
        proof {
            assert(classes_view(v@) =~= Seq::<ClassModel>::empty());
        }
        return Ok(v);
    }
    let c = match read_class(reader) {
        Ok(v) => v,
        Err(e) => {
            return Err(e);
        },
    };
    let ghost cv = c@;
    let ghost cfull = c;
    match read_classes(reader, k - 1) {
        Ok(mut tail) => {
            let ghost tailv0 = tail@;
            let ghost tail0 = classes_view(tail@);
            tail.insert(0, c);
            proof {
                assert(tail@ =~= seq![cfull] + tailv0);
                assert(classes_view(tail@) =~= seq![cv] + tail0);
            }
            Ok(tail)
        },
        Err(e) => Err(e),
    }
}

/// Read `w`-bit curve positions, `k` of them.
fn read_xvals(reader: &mut Reader, w: u8, k: u8) -> (r: Result<Vec<u32>, FloorError>)
    requires
        old(reader).wf(),
        w < 16,
    ensures
        match r {
            Ok(v) => final(reader).wf() && parse_xvals(old(reader).bits(), w as int, k as nat)
                == Ok::<_, FloorError>((v@, final(reader).bits())),
            Err(e) => parse_xvals(old(reader).bits(), w as int, k as nat) == Err::<
                (Seq<u32>, Seq<bool>),
                _,
            >(e),
        },
    decreases k,
{
    if k == 0 {
        let v: Vec<u32> = Vec::new();
        return Ok(v);
    }
    let x = match reader.read_u32(w as u32) {
        Some(v) => v,
        None => {
            return Err(FloorError::EndOfData);
        },
    };
    match read_xvals(reader, w, k - 1) {
        Ok(mut tail) => {
            let ghost tail0 = tail@;
            tail.insert(0, x);
            proof {
                assert(tail@ =~= seq![x] + tail0);
            }
            Ok(tail)
        },
        Err(e) => Err(e),
    }
}

/// Read the x-list tail for `pcl[i..]`.
fn read_xlist(reader: &mut Reader, w: u8, pcl: &Vec<u8>, classes: &Vec<Class>, i: usize) -> (r:
    Result<Vec<u32>, FloorError>)
    requires
        old(reader).wf(),
        w < 16,
        i <= pcl@.len(),
        forall|j: int| 0 <= j < pcl@.len() ==> pcl@[j] < classes@.len(),
    ensures
        match r {
            Ok(v) => final(reader).wf() && parse_xlist(
                old(reader).bits(),
                w as int,
                pcl@,
                classes_view(classes@),
                i as nat,
            ) == Ok::<_, FloorError>((v@, final(reader).bits())),
            Err(e) => parse_xlist(
                old(reader).bits(),
                w as int,
                pcl@,
                classes_view(classes@),
                i as nat,
            ) == Err::<(Seq<u32>, Seq<bool>), _>(e),
        },
    decreases pcl@.len() - i,
{
    if i == pcl.len() {
        let v: Vec<u32> = Vec::new();
        return Ok(v);
    }
    let cls = pcl[i];
    let dims = classes[cls as usize].dimensions;
    proof {
        assert(classes_view(classes@)[pcl@[i as int] as int].dimensions == dims);
    }
    let mut row = match read_xvals(reader, w, dims) {
        Ok(v) => v,
        Err(e) => {
            return Err(e);
        },
    };
    let ghost row0 = row@;
    match read_xlist(reader, w, pcl, classes, i + 1) {
        Ok(mut tail) => {
            row.append(&mut tail);
            Ok(row)
        },
        Err(e) => Err(e),
    }
}

impl Floor0 {
    /// Read one type-zero floor body from the stream.
    pub fn decode(reader: &mut Reader) -> (r: Result<Floor0, FloorError>)
        requires
            old(reader).wf(),
        ensures
            match r {
                Ok(f) => final(reader).wf() && parse_floor0(old(reader).bits()) == Ok::<
                    _,
                    FloorError,
                >((f@, final(reader).bits())),
                Err(e) => parse_floor0(old(reader).bits()) == Err::<(Floor0Model, Seq<bool>), _>(e),
            },
    {
        proof {
            vstd::arithmetic::power2::lemma2_to64();
        }
        let order = match reader.read_u8(8) {
            Some(v) => v,
            None => {
                return Err(FloorError::EndOfData);
            },
        };
        let rate = match reader.read_u16(16) {
            Some(v) => v,
            None => {
                return Err(FloorError::EndOfData);
            },
        };
        let bark_map_size = match reader.read_u16(16) {
            Some(v) => v,
            None => {
                return Err(FloorError::EndOfData);
            },
        };
        let amplitude_bits = match reader.read_u8(6) {
            Some(v) => v,
            None => {
                return Err(FloorError::EndOfData);
            },
        };
        let amplitude_offset = match reader.read_u8(8) {
            Some(v) => v,
            None => {
                return Err(FloorError::EndOfData);
            },
        };
        let number_of_books = match reader.read_u8(4) {
            Some(v) => v + 1,
            None => {
                return Err(FloorError::EndOfData);
            },
        };
        let book_list = match read_book_list(reader, number_of_books) {
            Ok(v) => v,
            Err(e) => {
                return Err(e);
            },
        };
        Ok(
            Floor0 {
                order,
                rate,
                bark_map_size,
                amplitude_bits,
                amplitude_offset,
                number_of_books,
                book_list,
            },
        )
    }
}

impl Floor1 {
    /// Read one type-one floor body from the stream.
    pub fn decode(reader: &mut Reader) -> (r: Result<Floor1, FloorError>)
        requires
            old(reader).wf(),
        ensures
            match r {
                Ok(f) => final(reader).wf() && parse_floor1(old(reader).bits()) == Ok::<
                    _,
                    FloorError,
                >((f@, final(reader).bits())),
                Err(e) => parse_floor1(old(reader).bits()) == Err::<(Floor1Model, Seq<bool>), _>(e),
            },
    {
        proof {
            vstd::arithmetic::power2::lemma2_to64();
        }
        let partitions = match reader.read_u8(5) {
            Some(v) => v,
            None => {
                return Err(FloorError::EndOfData);
            },
        };
        let ghost s1 = reader.bits();
        let partition_class_list = match read_class_list(reader, partitions) {
            Ok(v) => v,
            Err(e) => {
                return Err(e);
            },
        };
        if partitions == 0 {
            return Err(FloorError::NoPartitionClasses);
        }
        proof {
            lemma_class_list_bounds(s1, partitions as nat);
            lemma_seq_max_u8_bound(partition_class_list@, 16);
        }
        let maximum_class = max_class_of(&partition_class_list);
        let ghost s2 = reader.bits();
        let classes = match read_classes(reader, maximum_class + 1) {
            Ok(v) => v,
            Err(e) => {
                return Err(e);
            },
        };
        let multiplier = match reader.read_u8(2) {
            Some(v) => v + 1,
            None => {
                return Err(FloorError::EndOfData);
            },
        };
        let rangebits = match reader.read_u8(4) {
            Some(v) => v,
            None => {
                return Err(FloorError::EndOfData);
            },
        };
        proof {
            lemma_parse_classes_len(s2, (maximum_class + 1) as nat);
            assert forall|j: int|
                0 <= j < partition_class_list@.len() implies partition_class_list@[j]
                < classes@.len() by {
                lemma_seq_max_u8_ge(partition_class_list@, j);
            }
        }
        let mut x_list: Vec<u32> = Vec::new();
        x_list.push(0);
        x_list.push(1u32 << rangebits);
        let ghost seed = x_list@;
        let mut vals = match read_xlist(reader, rangebits, &partition_class_list, &classes, 0) {
            Ok(v) => v,
            Err(e) => {
                return Err(e);
            },
        };
        let ghost valsv = vals@;
        x_list.append(&mut vals);
        proof {
            assert(x_list@ =~= seq![0u32, 1u32 << rangebits] + valsv);
        }
        if x_list.len() > 65 {
            return Err(FloorError::XListTooLong(x_list.len()));
        }
        Ok(
            Floor1 {
                partitions,
                partition_class_list,
                maximum_class,
                classes,
                multiplier,
                rangebits,
                x_list,
            },
        )
    }
}

/// The largest entry of a non-empty class list.
fn max_class_of(v: &Vec<u8>) -> (r: u8)
    requires
        v@.len() > 0,
    ensures
        r == seq_max_u8(v@),
{
    proof {
        assert(v@.skip(0) =~= v@);
    }
    max_class_from(v, 0)
}

/// The largest entry of `v[i..]`.
fn max_class_from(v: &Vec<u8>, i: usize) -> (r: u8)
    requires
        i < v@.len(),
    ensures
        r == seq_max_u8(v@.skip(i as int)),
    decreases v@.len() - i,
{
    proof {
        assert(v@.skip(i as int)[0] == v@[i as int]);
        if i + 1 < v@.len() {
            assert(v@.skip(i as int).skip(1) =~= v@.skip(i as int + 1));
        }
    }
    if i == v.len() - 1 {
        v[i]
    } else {
        let m = max_class_from(v, i + 1);
        if v[i] >= m {
            v[i]
        } else {
            m
        }
    }
}

impl Floor {
    /// Read one floor record, tag included, from the stream.
    pub fn decode(reader: &mut Reader) -> (r: Result<Floor, FloorError>)
        requires
            old(reader).wf(),
        ensures
            match r {
                Ok(f) => final(reader).wf() && parse_floor(old(reader).bits()) == Ok::<
                    _,
                    FloorError,
                >((f@, final(reader).bits())),
                Err(e) => parse_floor(old(reader).bits()) == Err::<(FloorModel, Seq<bool>), _>(e),
            },
    {
        let tag = match reader.read_u16(16) {
            Some(v) => v,
            None => {
                return Err(FloorError::EndOfData);
            },
        };
        if tag == 0 {
            match Floor0::decode(reader) {
                Ok(f) => Ok(Floor::Zero(f)),
                Err(e) => Err(e),
            }
        } else if tag == 1 {
            match Floor1::decode(reader) {
                Ok(f) => Ok(Floor::One(f)),
                Err(e) => Err(e),
            }
        } else {
            Err(FloorError::InvalidFloorType(tag))
        }
    }
}

} // verus!

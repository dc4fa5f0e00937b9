//! The data model: the two kinds of rows a directory holds, and the error type.
//!
//! `kind` and `source` stay plain text rather than enums, so the model never lies
//! about what a database can hold; the constants in [`kind`] and [`source`] name
//! the values in use without closing the set.
//!
//! Each exec type has a view, a row over `Seq<char>`, which the contracts speak of.

pub mod kind;
pub mod source;

use crate::text::{self, copy_text, push_int};
use vstd::prelude::*;
use vstd::string::*;

verus! {

/// A person.
#[derive(Debug, PartialEq)]
pub struct Person {
    pub id: i64,
    pub name: String,
    pub team: Option<String>,
    pub title: Option<String>,
    pub notes: Option<String>,
    /// ISO 8601, compared as text.
    pub created_at: String,
    pub updated_at: String,
}

/// What a [`Person`] holds.
#[verifier::ext_equal]
pub struct PersonRow {
    pub id: i64,
    pub name: Seq<char>,
    pub team: Option<Seq<char>>,
    pub title: Option<Seq<char>>,
    pub notes: Option<Seq<char>>,
    pub created_at: Seq<char>,
    pub updated_at: Seq<char>,
}

impl View for Person {
    type V = PersonRow;

    open spec fn view(&self) -> PersonRow {
        PersonRow {
            id: self.id,
            name: self.name@,
            team: self.team.deep_view(),
            title: self.title.deep_view(),
            notes: self.notes.deep_view(),
            created_at: self.created_at@,
            updated_at: self.updated_at@,
        }
    }
}

impl Clone for Person {
    fn clone(&self) -> (r: Person)
        ensures
            r == *self,
    {
        Person {
            id: self.id,
            name: self.name.clone(),
            team: copy_text(&self.team),
            title: copy_text(&self.title),
            notes: copy_text(&self.notes),
            created_at: self.created_at.clone(),
            updated_at: self.updated_at.clone(),
        }
    }
}

/// How sure an edge is, from nothing to certain.
///
/// A share of votes keeps its two numbers. Any other value is the bit pattern of
/// an IEEE 754 double, as the storage layer reads and writes it. `==` compares how
/// a value is held, so a share does not equal the double that it is stored as.
#[derive(Debug, Clone, Copy, PartialEq, Eq, Structural)]
pub enum Confidence {
    Share { votes: usize, total: usize },
    Double { bits: u64 },
}

/// The bit pattern of 1.0. The patterns of the doubles from 0.0 to 1.0 are the
/// numbers from zero to this one, in the same order.
pub const ONE_BITS: u64 = 0x3ff0_0000_0000_0000;

/// The bit pattern of -0.0, which equals 0.0.
pub const MINUS_ZERO_BITS: u64 = 0x8000_0000_0000_0000;

/// The bit pattern of positive infinity. The patterns between this one and that of
/// -0.0 are not numbers.
pub const INFINITY_BITS: u64 = 0x7ff0_0000_0000_0000;

/// The bit pattern of negative infinity. No larger pattern is a number.
pub const MINUS_INFINITY_BITS: u64 = 0xfff0_0000_0000_0000;

impl Confidence {
    /// Whether the value is a number. No votes of none are not.
    pub open spec fn number(self) -> bool {
        match self {
            Confidence::Share { votes, total } => votes > 0 || total > 0,
            Confidence::Double { bits } => bits <= INFINITY_BITS || MINUS_ZERO_BITS <= bits
                <= MINUS_INFINITY_BITS,
        }
    }

    /// Whether the value is a number.
    pub fn is_number(self) -> (r: bool)
        ensures
            r == self.number(),
    {
        match self {
            Confidence::Share { votes, total } => votes > 0 || total > 0,
            Confidence::Double { bits } => bits <= INFINITY_BITS || (MINUS_ZERO_BITS <= bits && bits
                <= MINUS_INFINITY_BITS),
        }
    }

    /// Whether the value lies in 0..=1.
    pub open spec fn in_range(self) -> bool {
        match self {
            Confidence::Share { votes, total } => 0 < total && votes <= total,
            Confidence::Double { bits } => bits <= ONE_BITS || bits == MINUS_ZERO_BITS,
        }
    }

    /// Whether the value lies in 0..=1.
    pub fn is_in_range(self) -> (r: bool)
        ensures
            r == self.in_range(),
    {
        match self {
            Confidence::Share { votes, total } => 0 < total && votes <= total,
            Confidence::Double { bits } => bits <= ONE_BITS || bits == MINUS_ZERO_BITS,
        }
    }
}

/// A directed edge between two people. A reporting line is one `kind` among many.
#[derive(Debug, PartialEq)]
pub struct Relationship {
    pub id: i64,
    pub from_id: i64,
    pub to_id: i64,
    pub kind: String,
    pub notes: Option<String>,
    pub confidence: Confidence,
    pub source: String,
    pub created_at: String,
}

/// What a [`Relationship`] holds.
#[verifier::ext_equal]
pub struct EdgeRow {
    pub id: i64,
    pub from_id: i64,
    pub to_id: i64,
    pub kind: Seq<char>,
    pub notes: Option<Seq<char>>,
    pub confidence: Confidence,
    pub source: Seq<char>,
    pub created_at: Seq<char>,
}

impl View for Relationship {
    type V = EdgeRow;

    open spec fn view(&self) -> EdgeRow {
        EdgeRow {
            id: self.id,
            from_id: self.from_id,
            to_id: self.to_id,
            kind: self.kind@,
            notes: self.notes.deep_view(),
            confidence: self.confidence,
            source: self.source@,
            created_at: self.created_at@,
        }
    }
}

impl Clone for Relationship {
    fn clone(&self) -> (r: Relationship)
        ensures
            r == *self,
    {
        Relationship {
            id: self.id,
            from_id: self.from_id,
            to_id: self.to_id,
            kind: self.kind.clone(),
            notes: copy_text(&self.notes),
            confidence: self.confidence,
            source: self.source.clone(),
            created_at: self.created_at.clone(),
        }
    }
}

/// Why the data forbids what was asked for.
#[derive(Debug, PartialEq)]
pub enum Refusal {
    /// As the text says.
    Told(String),
    /// A confidence that is not in 0..=1.
    OutOfRange(Confidence),
}

/// What a [`Refusal`] holds.
#[verifier::ext_equal]
pub enum RefusalView {
    Told(Seq<char>),
    OutOfRange(Confidence),
}

impl View for Refusal {
    type V = RefusalView;

    open spec fn view(&self) -> RefusalView {
        match *self {
            Refusal::Told(m) => RefusalView::Told(m@),
            Refusal::OutOfRange(c) => RefusalView::OutOfRange(c),
        }
    }
}

/// What can go wrong.
#[derive(Debug, PartialEq)]
pub enum OrgError {
    /// A constraint of the tables, or whatever the storage layer reports.
    Db(String),
    /// Reading or writing JSON during export and import.
    Json(String),
    /// A person id that does not exist.
    PersonNotFound(i64),
    /// The caller asked for something the data forbids, such as self-reporting.
    Invalid(Refusal),
}

/// What an [`OrgError`] holds.
#[verifier::ext_equal]
pub enum ErrorView {
    Db(Seq<char>),
    Json(Seq<char>),
    PersonNotFound(i64),
    Invalid(RefusalView),
}

impl View for OrgError {
    type V = ErrorView;

    open spec fn view(&self) -> ErrorView {
        match *self {
            OrgError::Db(m) => ErrorView::Db(m@),
            OrgError::Json(m) => ErrorView::Json(m@),
            OrgError::PersonNotFound(id) => ErrorView::PersonNotFound(id),
            OrgError::Invalid(why) => ErrorView::Invalid(why@),
        }
    }
}

/// The text that tells a user what went wrong; `number` is how a confidence that
/// is out of range reads.
pub open spec fn error_text(e: ErrorView, number: Seq<char>) -> Seq<char> {
    match e {
        ErrorView::Db(m) => "database error: "@ + m,
        ErrorView::Json(m) => "serialization error: "@ + m,
        ErrorView::PersonNotFound(id) => "no person with id "@ + text::decimal(id as int),
        ErrorView::Invalid(RefusalView::Told(m)) => "invalid operation: "@ + m,
        ErrorView::Invalid(RefusalView::OutOfRange(c)) => "invalid operation: confidence "@ + number
            + " out of range 0..1"@,
    }
}

impl OrgError {
    /// The text that tells a user what went wrong. `number` is how the confidence
    /// of [`Refusal::OutOfRange`] reads as a decimal number; the other errors do not
    /// use it.
    pub fn message(&self, number: &str) -> (r: String)
        ensures
            r@ == error_text(self@, number@),
    {
        let mut out: String = String::new();
        match self {
            OrgError::Db(m) => {
                out.append("database error: ");
                out.append(m.as_str());
            },
            OrgError::Json(m) => {
                out.append("serialization error: ");
                out.append(m.as_str());
            },
            OrgError::PersonNotFound(id) => {
                out.append("no person with id ");
                push_int(&mut out, *id);
            },
            OrgError::Invalid(Refusal::Told(m)) => {
                out.append("invalid operation: ");
                out.append(m.as_str());
            },
            OrgError::Invalid(Refusal::OutOfRange(_)) => {
                out.append("invalid operation: confidence ");
                out.append(number);
                out.append(" out of range 0..1");
            },
        }
        assert(out@ =~= error_text(self@, number@));
        out
    }
}

} // verus!

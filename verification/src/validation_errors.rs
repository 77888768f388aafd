//! Structured rejection reasons produced by the validation rules, and
//! their mathematical view.

use vstd::prelude::*;

verus! {

/// One rejection reason per validation rule, plus a technical-error
/// variant for store-level failures surfaced mid-validation.
#[derive(Debug)]
pub enum RelanotesValidationRejection {
    TechnicalError(String),
    TryingToMutateOtherSubgroup { current: i32, checking: i32 },
    EmptyName,
    LinkedToItself(i32),
    DuplicateRegularNode(String),
    StickyNoteWithoutOwner,
    InvalidStickyNoteOwner,
    DuplicateStickyNote(String),
    InheritedNodeWithoutOwner,
    InvalidInheritedNodeOwner,
    DuplicateInheritedNode(String),
    SymLinkWithName,
    SymLinkWithDescription,
    SymLinkWithoutOwner,
    InvalidSymLinkOwner,
    SymLinkToSameSubgroup,
}

/// Mathematical view of a rejection: payloads become `int` and
/// `Seq<char>`.
pub ghost enum RejectionV {
    TechnicalError(Seq<char>),
    TryingToMutateOtherSubgroup { current: int, checking: int },
    EmptyName,
    LinkedToItself(int),
    DuplicateRegularNode(Seq<char>),
    StickyNoteWithoutOwner,
    InvalidStickyNoteOwner,
    DuplicateStickyNote(Seq<char>),
    InheritedNodeWithoutOwner,
    InvalidInheritedNodeOwner,
    DuplicateInheritedNode(Seq<char>),
    SymLinkWithName,
    SymLinkWithDescription,
    SymLinkWithoutOwner,
    InvalidSymLinkOwner,
    SymLinkToSameSubgroup,
}

impl View for RelanotesValidationRejection {
    type V = RejectionV;

    open spec fn view(&self) -> RejectionV {
        match self {
            RelanotesValidationRejection::TechnicalError(s) => RejectionV::TechnicalError(s@),
            RelanotesValidationRejection::TryingToMutateOtherSubgroup { current, checking } => (
                RejectionV::TryingToMutateOtherSubgroup {
                    current: *current as int,
                    checking: *checking as int,
                }
            ),
            RelanotesValidationRejection::EmptyName => RejectionV::EmptyName,
            RelanotesValidationRejection::LinkedToItself(id) => (
                RejectionV::LinkedToItself(*id as int)
            ),
            RelanotesValidationRejection::DuplicateRegularNode(s) => (
                RejectionV::DuplicateRegularNode(s@)
            ),
            RelanotesValidationRejection::StickyNoteWithoutOwner => (
                RejectionV::StickyNoteWithoutOwner
            ),
            RelanotesValidationRejection::InvalidStickyNoteOwner => (
                RejectionV::InvalidStickyNoteOwner
            ),
            RelanotesValidationRejection::DuplicateStickyNote(s) => (
                RejectionV::DuplicateStickyNote(s@)
            ),
            RelanotesValidationRejection::InheritedNodeWithoutOwner => (
                RejectionV::InheritedNodeWithoutOwner
            ),
            RelanotesValidationRejection::InvalidInheritedNodeOwner => (
                RejectionV::InvalidInheritedNodeOwner
            ),
            RelanotesValidationRejection::DuplicateInheritedNode(s) => (
                RejectionV::DuplicateInheritedNode(s@)
            ),
            RelanotesValidationRejection::SymLinkWithName => RejectionV::SymLinkWithName,
            RelanotesValidationRejection::SymLinkWithDescription => (
                RejectionV::SymLinkWithDescription
            ),
            RelanotesValidationRejection::SymLinkWithoutOwner => RejectionV::SymLinkWithoutOwner,
            RelanotesValidationRejection::InvalidSymLinkOwner => RejectionV::InvalidSymLinkOwner,
            RelanotesValidationRejection::SymLinkToSameSubgroup => (
                RejectionV::SymLinkToSameSubgroup
            ),
        }
    }
}

/// The decimal digit as text.
pub open spec fn digit_seq(d: int) -> Seq<char> {
    if d == 0 {
        "0"@
    } else if d == 1 {
        "1"@
    } else if d == 2 {
        "2"@
    } else if d == 3 {
        "3"@
    } else if d == 4 {
        "4"@
    } else if d == 5 {
        "5"@
    } else if d == 6 {
        "6"@
    } else if d == 7 {
        "7"@
    } else if d == 8 {
        "8"@
    } else {
        "9"@
    }
}

/// The decimal text of a number, most significant digit first.
pub open spec fn dec_digits(n: nat) -> Seq<char>
    decreases n,
    via dec_digits_decreases
{
    if n < 10 {
        digit_seq(n as int)
    } else {
        dec_digits(n / 10) + digit_seq((n % 10) as int)
    }
}

#[via_fn]
proof fn dec_digits_decreases(n: nat) {
    if n >= 10 {
        vstd::arithmetic::div_mod::lemma_div_decreases(n as int, 10);
    }
}

/// The decimal text of an integer, with a leading minus sign below
/// zero.
pub open spec fn int_text(n: int) -> Seq<char> {
    if n < 0 {
        "-"@ + dec_digits((-n) as nat)
    } else {
        dec_digits(n as nat)
    }
}

/// The display text of a rejection, payloads included; the wording
/// is fixed per variant.
pub open spec fn rejection_text(r: RejectionV) -> Seq<char> {
    match r {
        RejectionV::TechnicalError(s) => "Technical Error "@ + s,
        RejectionV::TryingToMutateOtherSubgroup { current, checking } => (
            "Trying to mutate other subgroup ("@ + int_text(checking) + ")"@
        ),
        RejectionV::EmptyName => "The name is empty"@,
        RejectionV::LinkedToItself(id) => "Linked to itself ("@ + int_text(id) + ")"@,
        RejectionV::DuplicateRegularNode(s) => "Duplicate regular node ("@ + s + ")"@,
        RejectionV::StickyNoteWithoutOwner => "Sticky note without an owner"@,
        RejectionV::InvalidStickyNoteOwner => "Invalid sticky note owner"@,
        RejectionV::DuplicateStickyNote(s) => "Duplicate sticky note ("@ + s + ")"@,
        RejectionV::InheritedNodeWithoutOwner => "Inherited node without an owner"@,
        RejectionV::InvalidInheritedNodeOwner => "Invalid inherited node owner"@,
        RejectionV::DuplicateInheritedNode(s) => "Duplicate inherited node ("@ + s + ")"@,
        RejectionV::SymLinkWithName => "SymLink with a name"@,
        RejectionV::SymLinkWithDescription => "SymLink with a description"@,
        RejectionV::SymLinkWithoutOwner => "SymLink without an owner"@,
        RejectionV::InvalidSymLinkOwner => "Invalid SymLink owner"@,
        RejectionV::SymLinkToSameSubgroup => "SymLink targetting to the same group"@,
    }
}

/// The decimal text of a number.
fn dec_string(n: u64) -> (r: String)
    ensures
        r@ == dec_digits(n as nat),
    decreases n,
{
    if n < 10 {
        match n {
            0 => "0".to_owned(),
            1 => "1".to_owned(),
            2 => "2".to_owned(),
            3 => "3".to_owned(),
            4 => "4".to_owned(),
            5 => "5".to_owned(),
            6 => "6".to_owned(),
            7 => "7".to_owned(),
            8 => "8".to_owned(),
            _ => "9".to_owned(),
        }
    } else {
        proof {
            vstd::arithmetic::div_mod::lemma_div_decreases(n as int, 10);
        }
        let rest = dec_string(n / 10);
        let digit: &str = match n % 10 {
            0 => "0",
            1 => "1",
            2 => "2",
            3 => "3",
            4 => "4",
            5 => "5",
            6 => "6",
            7 => "7",
            8 => "8",
            _ => "9",
        };
        rest.concat(digit)
    }
}

/// The decimal text of a signed id.
fn i32_text(n: i32) -> (r: String)
    ensures
        r@ == int_text(n as int),
{
    let wide: i64 = n as i64;
    if wide < 0 {
        let mag: u64 = (-wide) as u64;
        proof {
            assert(mag as nat == (-(n as int)) as nat);
        }
        let minus: String = String::from_str("-");
        minus.concat(dec_string(mag).as_str())
    } else {
        dec_string(n as u64)
    }
}

impl RelanotesValidationRejection {
    /// The rejection's display text: a fixed wording per variant,
    /// with the offending name or id written in.
    pub fn message(&self) -> (r: String)
        ensures
            r@ == rejection_text(self@),
    {
        match self {
            RelanotesValidationRejection::TechnicalError(s) => (
                String::from_str("Technical Error ").concat(s.as_str())
            ),
            RelanotesValidationRejection::TryingToMutateOtherSubgroup { current: _, checking } => (
                String::from_str("Trying to mutate other subgroup (").concat(
                    i32_text(*checking).as_str(),
                ).concat(")")
            ),
            RelanotesValidationRejection::EmptyName => String::from_str("The name is empty"),
            RelanotesValidationRejection::LinkedToItself(id) => (
                String::from_str("Linked to itself (").concat(i32_text(*id).as_str()).concat(")")
            ),
            RelanotesValidationRejection::DuplicateRegularNode(s) => (
                String::from_str("Duplicate regular node (").concat(s.as_str()).concat(")")
            ),
            RelanotesValidationRejection::StickyNoteWithoutOwner => (
                String::from_str("Sticky note without an owner")
            ),
            RelanotesValidationRejection::InvalidStickyNoteOwner => (
                String::from_str("Invalid sticky note owner")
            ),
            RelanotesValidationRejection::DuplicateStickyNote(s) => (
                String::from_str("Duplicate sticky note (").concat(s.as_str()).concat(")")
            ),
            RelanotesValidationRejection::InheritedNodeWithoutOwner => (
                String::from_str("Inherited node without an owner")
            ),
            RelanotesValidationRejection::InvalidInheritedNodeOwner => (
                String::from_str("Invalid inherited node owner")
            ),
            RelanotesValidationRejection::DuplicateInheritedNode(s) => (
                String::from_str("Duplicate inherited node (").concat(s.as_str()).concat(")")
            ),
            RelanotesValidationRejection::SymLinkWithName => (
                String::from_str("SymLink with a name")
            ),
            RelanotesValidationRejection::SymLinkWithDescription => (
                String::from_str("SymLink with a description")
            ),
            RelanotesValidationRejection::SymLinkWithoutOwner => (
                String::from_str("SymLink without an owner")
            ),
            RelanotesValidationRejection::InvalidSymLinkOwner => (
                String::from_str("Invalid SymLink owner")
            ),
            RelanotesValidationRejection::SymLinkToSameSubgroup => (
                String::from_str("SymLink targetting to the same group")
            ),
        }
    }
}

} // verus!

//! Error taxonomy for parsing, store insertion and resolution.

use vstd::prelude::*;

use crate::chars::digits_of;
use crate::text::usize_string;

verus! {

/// Result carrying a single [`ErrAutoType`].
pub type ATResult<T> = Result<T, ErrAutoType>;

/// Result carrying every [`ErrAutoType`] found.
pub type ATVecResult<T> = Result<T, Vec<ErrAutoType>>;

/// The mathematical value of an error kind: the same variants, with the
/// text payloads as character sequences.
pub enum ErrKind {
    SequenceNotExist(Seq<char>),
    WrongSequenceArg(Seq<char>),
    InvalidKeyFormat(Seq<char>),
    KeyIsInSequences(Seq<char>),
    KeyCannotBeEmpty,
    UnknownSequence(Seq<char>),
    KeyIsInCombinations(Seq<char>),
    RangeMustNotBeEmpty(nat, nat),
    ArgumentMissing(Seq<char>),
    CyclicReference(Seq<char>),
}

/// Possible error kinds; each variant carries the value that caused it.
/// A range is carried as its two bounds.
#[derive(Debug)]
pub enum ErrType {
    SequenceNotExist(String),
    WrongSequenceArg(String),
    InvalidKeyFormat(String),
    KeyIsInSequences(String),
    KeyCannotBeEmpty,
    UnknownSequence(String),
    KeyIsInCombinations(String),
    RangeMustNotBeEmpty(usize, usize),
    ArgumentMissing(String),
    CyclicReference(String),
}

impl View for ErrType {
    type V = ErrKind;

    open spec fn view(&self) -> ErrKind {
        match self {
            ErrType::SequenceNotExist(s) => ErrKind::SequenceNotExist(s@),
            ErrType::WrongSequenceArg(s) => ErrKind::WrongSequenceArg(s@),
            ErrType::InvalidKeyFormat(s) => ErrKind::InvalidKeyFormat(s@),
            ErrType::KeyIsInSequences(s) => ErrKind::KeyIsInSequences(s@),
            ErrType::KeyCannotBeEmpty => ErrKind::KeyCannotBeEmpty,
            ErrType::UnknownSequence(s) => ErrKind::UnknownSequence(s@),
            ErrType::KeyIsInCombinations(s) => ErrKind::KeyIsInCombinations(s@),
            ErrType::RangeMustNotBeEmpty(a, b) => ErrKind::RangeMustNotBeEmpty(
                *a as nat,
                *b as nat,
            ),
            ErrType::ArgumentMissing(s) => ErrKind::ArgumentMissing(s@),
            ErrType::CyclicReference(s) => ErrKind::CyclicReference(s@),
        }
    }
}

impl PartialEq for ErrType {
    fn eq(&self, other: &Self) -> (r: bool) {
        match (self, other) {
            (ErrType::SequenceNotExist(a), ErrType::SequenceNotExist(b)) => *a == *b,
            (ErrType::WrongSequenceArg(a), ErrType::WrongSequenceArg(b)) => *a == *b,
            (ErrType::InvalidKeyFormat(a), ErrType::InvalidKeyFormat(b)) => *a == *b,
            (ErrType::KeyIsInSequences(a), ErrType::KeyIsInSequences(b)) => *a == *b,
            (ErrType::KeyCannotBeEmpty, ErrType::KeyCannotBeEmpty) => true,
            (ErrType::UnknownSequence(a), ErrType::UnknownSequence(b)) => *a == *b,
            (ErrType::KeyIsInCombinations(a), ErrType::KeyIsInCombinations(b)) => *a == *b,
            (ErrType::RangeMustNotBeEmpty(a, b), ErrType::RangeMustNotBeEmpty(c, d)) => *a == *c
                && *b == *d,
            (ErrType::ArgumentMissing(a), ErrType::ArgumentMissing(b)) => *a == *b,
            (ErrType::CyclicReference(a), ErrType::CyclicReference(b)) => *a == *b,
            _ => false,
        }
    }
}

impl vstd::std_specs::cmp::PartialEqSpecImpl for ErrType {
    open spec fn obeys_eq_spec() -> bool {
        true
    }

    open spec fn eq_spec(&self, other: &Self) -> bool {
        self@ == other@
    }
}

/// The mathematical value of a full error: its kind and the optional message.
pub struct ErrView {
    pub kind: ErrKind,
    pub message: Option<Seq<char>>,
}

/// Main error type: an [`ErrType`] with an optional additional message.
#[derive(Debug)]
pub struct ErrAutoType {
    pub err_type: ErrType,
    pub message: Option<String>,
}

impl View for ErrAutoType {
    type V = ErrView;

    open spec fn view(&self) -> ErrView {
        ErrView {
            kind: self.err_type@,
            message: match self.message {
                Some(ref m) => Some(m@),
                None => None,
            },
        }
    }
}

impl PartialEq for ErrAutoType {
    /// Two errors are the same error when their kinds agree; an added
    /// message does not distinguish them.
    fn eq(&self, other: &Self) -> (r: bool) {
        self.err_type == other.err_type
    }
}

impl vstd::std_specs::cmp::PartialEqSpecImpl for ErrAutoType {
    open spec fn obeys_eq_spec() -> bool {
        true
    }

    open spec fn eq_spec(&self, other: &Self) -> bool {
        self@.kind == other@.kind
    }
}

/// The sentence an error kind is reported with.
pub open spec fn kind_message(k: ErrKind) -> Seq<char> {
    match k {
        ErrKind::SequenceNotExist(s) => "Key \""@ + s + "\" not found"@,
        ErrKind::WrongSequenceArg(s) => "Sequence argument \""@ + s + "\" have wrong format"@,
        ErrKind::InvalidKeyFormat(s) => "Key \""@ + s + "\" have invalid format"@,
        ErrKind::KeyIsInSequences(s) => "Key \""@ + s + "\" is now in sequences"@,
        ErrKind::KeyCannotBeEmpty => "Key cannot be empty."@,
        ErrKind::UnknownSequence(s) => "Sequence \""@ + s + "\" is not registered"@,
        ErrKind::KeyIsInCombinations(s) => "Key \""@ + s + "\" is now in combinations."@,
        ErrKind::RangeMustNotBeEmpty(a, b) => "Range \""@ + digits_of(a) + ".."@ + digits_of(b)
            + "\" is empty."@,
        ErrKind::ArgumentMissing(s) => "Missing value for argument: "@ + s,
        ErrKind::CyclicReference(s) => "Combination \""@ + s + "\" is referenced in a cycle"@,
    }
}

/// The full report line of an error: its kind's sentence, with the
/// additional message, if any, appended after a space.
pub open spec fn error_message(v: ErrView) -> Seq<char> {
    match v.message {
        Some(m) => "Error: "@ + kind_message(v.kind) + " "@ + m,
        None => "Error: "@ + kind_message(v.kind),
    }
}

impl ErrType {
    /// The sentence this kind is reported with.
    pub fn to_message(&self) -> (r: String)
        ensures
            r@ == kind_message(self@),
    {
        let mut out = String::new();
        match self {
            ErrType::SequenceNotExist(s) => {
                out.append("Key \"");
                out.append(s.as_str());
                out.append("\" not found");
            },
            ErrType::WrongSequenceArg(s) => {
                out.append("Sequence argument \"");
                out.append(s.as_str());
                out.append("\" have wrong format");
            },
            ErrType::InvalidKeyFormat(s) => {
                out.append("Key \"");
                out.append(s.as_str());
                out.append("\" have invalid format");
            },
            ErrType::KeyIsInSequences(s) => {
                out.append("Key \"");
                out.append(s.as_str());
                out.append("\" is now in sequences");
            },
            ErrType::KeyCannotBeEmpty => {
                out.append("Key cannot be empty.");
            },
            ErrType::UnknownSequence(s) => {
                out.append("Sequence \"");
                out.append(s.as_str());
                out.append("\" is not registered");
            },
            ErrType::KeyIsInCombinations(s) => {
                out.append("Key \"");
                out.append(s.as_str());
                out.append("\" is now in combinations.");
            },
            ErrType::RangeMustNotBeEmpty(a, b) => {
                out.append("Range \"");
                let da = usize_string(*a);
                out.append(da.as_str());
                out.append("..");
                let db = usize_string(*b);
                out.append(db.as_str());
                out.append("\" is empty.");
            },
            ErrType::ArgumentMissing(s) => {
                out.append("Missing value for argument: ");
                out.append(s.as_str());
            },
            ErrType::CyclicReference(s) => {
                out.append("Combination \"");
                out.append(s.as_str());
                out.append("\" is referenced in a cycle");
            },
        }
        proof {
            assert(out@ =~= kind_message(self@));
        }
        out
    }
}

impl ErrAutoType {
    /// The full report line of this error, ready for printing.
    pub fn to_message(&self) -> (r: String)
        ensures
            r@ == error_message(self@),
    {
        let mut out = String::new();
        out.append("Error: ");
        let kind_text = self.err_type.to_message();
        out.append(kind_text.as_str());
        match &self.message {
            Some(m) => {
                out.append(" ");
                out.append(m.as_str());
            },
            None => {},
        }
        proof {
            assert(out@ =~= error_message(self@));
        }
        out
    }

    /// An error of the given kind, with no message.
    pub fn new(err_type: ErrType) -> (r: ErrAutoType)
        ensures
            r@.kind == err_type@,
            r@.message is None,
    {
        ErrAutoType { err_type, message: None }
    }

    /// An error of the given kind with an additional message.
    pub fn new_with_message(err_type: ErrType, msg: String) -> (r: ErrAutoType)
        ensures
            r@.kind == err_type@,
            r@.message == Some(msg@),
    {
        ErrAutoType { err_type, message: Some(msg) }
    }

    /// The kind of the error.
    pub fn get_type(&self) -> (r: &ErrType)
        ensures
            r@ == self@.kind,
    {
        &self.err_type
    }

    /// The additional message, if one was attached.
    pub fn get_message(&self) -> (r: Option<&String>)
        ensures
            match r {
                Some(m) => self@.message == Some(m@),
                None => self@.message is None,
            },
    {
        self.message.as_ref()
    }
}

} // verus!

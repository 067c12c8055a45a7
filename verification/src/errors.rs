//! The errors that are held against a module.
use vstd::prelude::*;

use crate::order::SortKey;
use crate::order::UniqueKey;
use crate::text::is_text_before;
use crate::text::lemma_text_before_irreflexive;
use crate::text::lemma_text_before_total;
use crate::text::lemma_text_before_transitive;
use crate::text::text_before;

verus! {

/// What is wrong.
#[derive(Debug, Clone, Copy, PartialEq, Eq, Structural)]
pub enum ErrorKind {
    /// A call of a function that is known and not safe.
    UnsafeFunctionCall,
    /// A call of a function that could not be bound.
    UnknownFunctionCall,
    /// A call of a method that could not be bound.
    UnknownMethodCall,
    /// A decorator that is known and not safe.
    UnsafeDecoratorCall,
    /// A decorator that could not be bound.
    UnknownDecoratorCall,
    /// A call that mutates an imported variable handed to it.
    ImportedVarArgument,
    /// Any other error, by its code, and whether a missing import could have caused it.
    Other { code: u16, from_missing_import: bool },
}

impl ErrorKind {
    /// Whether the error may be there only because an import was not resolved. A call that
    /// is not known to be safe may; an argument that a resolved callee mutates may not.
    pub open spec fn hangs_on_import(self) -> bool {
        match self {
            ErrorKind::ImportedVarArgument => false,
            ErrorKind::Other { code: _, from_missing_import } => from_missing_import,
            _ => true,
        }
    }

    /// The place of the kind in the order of the errors.
    pub open spec fn rank(self) -> int {
        match self {
            ErrorKind::UnsafeFunctionCall => 0,
            ErrorKind::UnknownFunctionCall => 1,
            ErrorKind::UnknownMethodCall => 2,
            ErrorKind::UnsafeDecoratorCall => 3,
            ErrorKind::UnknownDecoratorCall => 4,
            ErrorKind::ImportedVarArgument => 5,
            ErrorKind::Other { code, from_missing_import } => 6 + 2 * code + (if from_missing_import {
                1int
            } else {
                0int
            }),
        }
    }

    /// Whether the error may be there only because an import was not resolved.
    pub fn could_be_caused_by_missing_import(self) -> (r: bool)
        ensures
            r == self.hangs_on_import(),
    {
        match self {
            ErrorKind::ImportedVarArgument => false,
            ErrorKind::Other { code: _, from_missing_import } => from_missing_import,
            _ => true,
        }
    }

    fn rank_number(self) -> (r: u32)
        ensures
            r == self.rank(),
    {
        match self {
            ErrorKind::UnsafeFunctionCall => 0,
            ErrorKind::UnknownFunctionCall => 1,
            ErrorKind::UnknownMethodCall => 2,
            ErrorKind::UnsafeDecoratorCall => 3,
            ErrorKind::UnknownDecoratorCall => 4,
            ErrorKind::ImportedVarArgument => 5,
            ErrorKind::Other { code, from_missing_import } => 6 + 2 * (code as u32) + (
            if from_missing_import {
                1
            } else {
                0
            }),
        }
    }
}

proof fn lemma_rank_tells_apart(a: ErrorKind, b: ErrorKind)
    requires
        a.rank() == b.rank(),
    ensures
        a == b,
{
}

/// What an error records.
pub struct ErrorView {
    pub kind: ErrorKind,
    pub metadata: Seq<char>,
    pub parameterized_decorator: bool,
}

/// An error as a library's artifact keeps it.
#[derive(Debug, PartialEq, Eq)]
pub struct CachedError {
    pub kind: ErrorKind,
    /// The name that the error speaks of, for a call that of the callee.
    pub metadata: String,
    /// Whether the decorator is called with arguments.
    pub parameterized_decorator: bool,
}

impl View for CachedError {
    type V = ErrorView;

    open spec fn view(&self) -> ErrorView {
        ErrorView {
            kind: self.kind,
            metadata: self.metadata@,
            parameterized_decorator: self.parameterized_decorator,
        }
    }
}

/// Whether one error stands before another: by kind, then by name, then plain decorators
/// before parameterized ones.
pub open spec fn error_before(a: ErrorView, b: ErrorView) -> bool {
    if a.kind != b.kind {
        a.kind.rank() < b.kind.rank()
    } else if a.metadata != b.metadata {
        text_before(a.metadata, b.metadata)
    } else {
        !a.parameterized_decorator && b.parameterized_decorator
    }
}

impl SortKey for CachedError {
    type Key = ErrorView;

    open spec fn key(value: ErrorView) -> ErrorView {
        value
    }

    open spec fn before(a: ErrorView, b: ErrorView) -> bool {
        error_before(a, b)
    }

    proof fn irreflexive(a: ErrorView) {
        lemma_text_before_irreflexive(a.metadata);
    }

    proof fn transitive(a: ErrorView, b: ErrorView, c: ErrorView) {
        if a.kind == b.kind && b.kind == c.kind && a.metadata != b.metadata && b.metadata
            != c.metadata {
            lemma_text_before_transitive(a.metadata, b.metadata, c.metadata);
            lemma_text_before_irreflexive(a.metadata);
        }
    }

    proof fn total(a: ErrorView, b: ErrorView) {
        lemma_text_before_total(a.metadata, b.metadata);
        if a.kind.rank() == b.kind.rank() {
            lemma_rank_tells_apart(a.kind, b.kind);
        }
    }

    fn is_before(&self, other: &Self) -> (r: bool) {
        if self.kind != other.kind {
            self.kind.rank_number() < other.kind.rank_number()
        } else if self.metadata != other.metadata {
            is_text_before(self.metadata.as_str(), other.metadata.as_str())
        } else {
            !self.parameterized_decorator && other.parameterized_decorator
        }
    }
}

impl UniqueKey for CachedError {
    proof fn key_tells_apart(a: ErrorView, b: ErrorView) {
    }
}

/// An error as the analysis of a module reports it.
#[derive(Debug, PartialEq, Eq)]
pub struct SafetyError {
    pub kind: ErrorKind,
    pub metadata: String,
    pub parameterized_decorator: bool,
}

impl View for SafetyError {
    type V = ErrorView;

    open spec fn view(&self) -> ErrorView {
        ErrorView {
            kind: self.kind,
            metadata: self.metadata@,
            parameterized_decorator: self.parameterized_decorator,
        }
    }
}

impl CachedError {
    /// The error that the analysis would report.
    pub fn to_safety_error(&self) -> (r: SafetyError)
        ensures
            r@ == self@,
    {
        SafetyError {
            kind: self.kind,
            metadata: self.metadata.clone(),
            parameterized_decorator: self.parameterized_decorator,
        }
    }

    /// The record of an error that the analysis reported.
    pub fn from_safety_error(error: &SafetyError) -> (r: CachedError)
        ensures
            r@ == error@,
    {
        CachedError {
            kind: error.kind,
            metadata: error.metadata.clone(),
            parameterized_decorator: error.parameterized_decorator,
        }
    }
}

} // verus!

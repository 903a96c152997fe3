//! Diagnostic values: what the analysis hands to whoever renders messages.

use vstd::prelude::*;
pub use codespan_reporting::diagnostic::Severity;

verus! {

/// `codespan_reporting::diagnostic::Severity`: a plain enum of five levels
/// (`Bug`, `Error`, `Warning`, `Note`, `Help`), declared with its variants.
#[verifier::external_type_specification]
pub struct ExSeverity(codespan_reporting::diagnostic::Severity);

/// `Clone::clone` of `codespan_reporting::diagnostic::Severity`, which is
/// `Copy` and derives `Clone`: the copy is the same level.
pub assume_specification[ <codespan_reporting::diagnostic::Severity as Clone>::clone ](
    level: &codespan_reporting::diagnostic::Severity,
) -> (copy: codespan_reporting::diagnostic::Severity)
    ensures
        copy == *level,
;

/// A half-open byte range in a source file. The analysis never looks inside.
#[derive(Clone, Copy, Debug, PartialEq, Eq, Hash, Structural)]
pub struct Span {
    pub start: usize,
    pub end: usize,
}

/// Identifies the source file that the labels of a diagnostic point into.
#[derive(Clone, Copy, Debug, PartialEq, Eq, Hash, Structural)]
pub struct SourceFileId(pub u128);

#[derive(Clone, Copy, Debug, PartialEq, Eq, Hash, Structural)]
pub enum LabelStyle {
    Primary,
    Secondary,
}

/// An underlined region of source with a message. A label stores no file id:
/// all labels of one diagnostic point into the same file.
#[derive(Debug, PartialEq, Eq, Hash, Clone)]
pub struct Label {
    pub style: LabelStyle,
    pub span: Span,
    pub message: String,
}

/// The mathematical content of a [`Label`].
pub struct LabelView {
    pub style: LabelStyle,
    pub span: Span,
    pub message: Seq<char>,
}

impl View for Label {
    type V = LabelView;

    open spec fn view(&self) -> LabelView {
        LabelView { style: self.style, span: self.span, message: self.message@ }
    }
}

impl Label {
    /// Create a primary label with the given message. This will underline the
    /// given span with carets (`^^^^`).
    pub fn primary(span: Span, message: &str) -> (label: Self)
        ensures
            label@ == (LabelView { style: LabelStyle::Primary, span, message: message@ }),
    {
        Label { style: LabelStyle::Primary, span, message: message.to_owned() }
    }

    /// Create a secondary label with the given message. This will underline the
    /// given span with hyphens (`----`).
    pub fn secondary(span: Span, message: &str) -> (label: Self)
        ensures
            label@ == (LabelView { style: LabelStyle::Secondary, span, message: message@ }),
    {
        Label { style: LabelStyle::Secondary, span, message: message.to_owned() }
    }

    /// An independent copy of this label.
    pub fn duplicate(&self) -> (copy: Label)
        ensures
            copy@ == self@,
    {
        Label { style: self.style, span: self.span, message: self.message.clone() }
    }
}

/// One message for the user: a severity, a headline, labelled source regions
/// and free-text notes.
#[derive(Debug, PartialEq, Eq, Hash, Clone)]
pub struct Diagnostic {
    pub severity: Severity,
    pub message: String,
    pub labels: Vec<Label>,
    pub notes: Vec<String>,
}

/// The mathematical content of a [`Diagnostic`].
pub struct DiagnosticView {
    pub severity: Severity,
    pub message: Seq<char>,
    pub labels: Seq<LabelView>,
    pub notes: Seq<Seq<char>>,
}

/// The content of each label of a list.
pub open spec fn label_views(labels: Seq<Label>) -> Seq<LabelView> {
    Seq::new(labels.len(), |i: int| labels[i]@)
}

/// The content of each string of a list.
pub open spec fn string_views(strings: Seq<String>) -> Seq<Seq<char>> {
    Seq::new(strings.len(), |i: int| strings[i]@)
}

/// The content of each diagnostic of a list.
pub open spec fn diagnostic_views(diagnostics: Seq<Diagnostic>) -> Seq<DiagnosticView> {
    Seq::new(diagnostics.len(), |i: int| diagnostics[i]@)
}

impl View for Diagnostic {
    type V = DiagnosticView;

    open spec fn view(&self) -> DiagnosticView {
        DiagnosticView {
            severity: self.severity,
            message: self.message@,
            labels: label_views(self.labels@),
            notes: string_views(self.notes@),
        }
    }
}

impl Diagnostic {
    /// An error with one primary label.
    pub fn error(message: &str, span: Span, label: &str) -> (diag: Diagnostic)
        ensures
            diag@ == error_diagnostic(message@, span, label@),
    {
        let mut labels: Vec<Label> = Vec::new();
        labels.push(Label::primary(span, label));
        let diag = Diagnostic {
            severity: Severity::Error,
            message: message.to_owned(),
            labels,
            notes: Vec::new(),
        };
        assert(diag@.labels =~= seq![
            (LabelView { style: LabelStyle::Primary, span, message: label@ }),
        ]);
        assert(diag@.notes =~= Seq::<Seq<char>>::empty());
        diag
    }

    /// An independent copy of this diagnostic.
    pub fn duplicate(&self) -> (copy: Diagnostic)
        ensures
            copy@ == self@,
    {
        let mut labels: Vec<Label> = Vec::new();
        let mut i: usize = 0;
        while i < self.labels.len()
            invariant
                i <= self.labels@.len(),
                labels@.len() == i,
                forall|j: int| 0 <= j < i ==> (#[trigger] labels@[j])@ == self.labels@[j]@,
            decreases self.labels@.len() - i,
        {
            labels.push(self.labels[i].duplicate());
            i += 1;
        }
        let mut notes: Vec<String> = Vec::new();
        let mut k: usize = 0;
        while k < self.notes.len()
            invariant
                k <= self.notes@.len(),
                notes@.len() == k,
                forall|j: int| 0 <= j < k ==> (#[trigger] notes@[j])@ == self.notes@[j]@,
            decreases self.notes@.len() - k,
        {
            notes.push(self.notes[k].clone());
            k += 1;
        }
        let copy = Diagnostic {
            severity: self.severity,
            message: self.message.clone(),
            labels,
            notes,
        };
        assert(copy@.labels =~= self@.labels);
        assert(copy@.notes =~= self@.notes);
        copy
    }
}

/// The content of an error with one primary label.
pub open spec fn error_diagnostic(message: Seq<char>, span: Span, label: Seq<char>) -> DiagnosticView {
    DiagnosticView {
        severity: Severity::Error,
        message,
        labels: seq![(LabelView { style: LabelStyle::Primary, span, message: label })],
        notes: Seq::empty(),
    }
}

} // verus!

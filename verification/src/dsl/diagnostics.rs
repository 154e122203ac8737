//! What is wrong with a source, and where.

use vstd::prelude::*;

use vstd::string::*;

use super::span::Span;
use crate::text::{join, joined};

verus! {

/// A source-anchored diagnostic, with an optional help note. For now every
/// diagnostic is an error.
#[derive(Debug, PartialEq, Eq)]
pub struct Diag {
    pub span: Span,
    pub message: String,
    pub help: Option<Help>,
}

/// A help note: a lead-in and a list of suggested names.
#[derive(Debug, PartialEq, Eq)]
pub struct Help {
    pub lead: String,
    pub suggestions: Vec<String>,
}

/// What a [`Diag`] says.
#[verifier::ext_equal]
pub struct DiagModel {
    pub span: Span,
    pub message: Seq<char>,
    pub help: Option<HelpModel>,
}

/// What a [`Help`] says.
#[verifier::ext_equal]
pub struct HelpModel {
    pub lead: Seq<char>,
    pub suggestions: Seq<Seq<char>>,
}

impl DeepView for Help {
    type V = HelpModel;

    open spec fn deep_view(&self) -> HelpModel {
        HelpModel { lead: self.lead@, suggestions: self.suggestions.deep_view() }
    }
}

impl DeepView for Diag {
    type V = DiagModel;

    open spec fn deep_view(&self) -> DiagModel {
        DiagModel { span: self.span, message: self.message@, help: self.help.deep_view() }
    }
}

impl DiagModel {
    /// That this is wrong there.
    pub open spec fn of(span: Span, message: Seq<char>) -> DiagModel {
        DiagModel { span, message, help: None }
    }

    /// The same, with a help note.
    pub open spec fn helped(self, lead: Seq<char>, suggestions: Seq<Seq<char>>) -> DiagModel {
        DiagModel { help: Some(HelpModel { lead, suggestions }), ..self }
    }
}

impl Diag {
    /// That this is wrong there.
    pub fn new(span: Span, message: &str) -> (r: Diag)
        ensures
            r.deep_view() == DiagModel::of(span, message@),
    {
        Diag { span, message: message.to_owned(), help: None }
    }

    /// The same, with a help note.
    pub fn with_help(self, lead: &str, suggestions: Vec<String>) -> (r: Diag)
        ensures
            r.deep_view() == self.deep_view().helped(lead@, suggestions.deep_view()),
    {
        Diag { help: Some(Help { lead: lead.to_owned(), suggestions }), ..self }
    }
}

impl HelpModel {
    /// The note, with each suggestion shown as that.
    pub open spec fn noted(self, shown: Seq<Seq<char>>) -> Seq<char> {
        if self.suggestions.len() == 0 {
            self.lead
        } else {
            self.lead + " "@ + joined(shown, ", "@)
        }
    }
}

impl Help {
    /// The note as a report carries it, with each suggestion shown as `shown`
    /// has it.
    pub fn note(&self, shown: &[String]) -> (r: String)
        ensures
            r@ == self.deep_view().noted(shown.deep_view()),
    {
        let mut note = self.lead.clone();
        if self.suggestions.len() > 0 {
            note.append(" ");
            let list = join(shown, ", ");
            note.append(list.as_str());
        }
        note
    }
}

} // verus!

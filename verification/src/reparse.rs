//! Parsing off the frame: what is asked for, and what becomes of the answer.
//!
//! A document numbers its edits. Each job and each result carries the number of the
//! edit and the identity of the document, so that a result for another document or for
//! an older text is never taken.

use vstd::prelude::*;

use crate::diagnostics::{self, Diagnostic, Finding};
use crate::syntax::{TextRange, Token};

verus! {

/// What a document is validated against.
#[derive(Debug, PartialEq, Eq)]
pub enum BoundValidation {
    /// The type with this name.
    Serde(BoundType),
    /// A registry.
    Bevy(BoundScene),
}

/// A bound type.
#[derive(Debug, PartialEq, Eq)]
pub struct BoundType {
    pub named_type: String,
}

/// A bound registry: the version of Bevy that is expected of it.
#[derive(Debug, PartialEq, Eq)]
pub struct BoundScene {
    pub expected_version: Option<String>,
}

/// A request to parse a text.
#[derive(Debug, PartialEq, Eq)]
pub struct ReparseJob {
    /// The document that asks.
    pub doc_id: u64,
    /// The edit whose text this is.
    pub generation: u64,
    pub text: String,
    pub bound: Option<BoundValidation>,
}

/// What parsing and validating a text gave.
#[derive(Debug)]
pub struct ParseResult {
    /// The tokens in the order of the text.
    pub tokens: Vec<Token>,
    /// What the parser found.
    pub diagnostics: Vec<Diagnostic>,
    /// What the validation against a type found.
    pub type_diagnostics: Vec<Diagnostic>,
    /// What the validation against a registry found.
    pub scene_diagnostics: Vec<Diagnostic>,
    /// The bytes of the text.
    pub source_len: usize,
    /// The edit whose text this is.
    pub generation: u64,
    /// The document that asked; zero for none.
    pub doc_id: u64,
}

/// What a validation found.
#[derive(Debug)]
pub enum BoundFindings {
    Serde(Vec<Diagnostic>),
    Bevy(Vec<Diagnostic>),
}

/// A finding with its range cut off at the end of the text.
pub open spec fn clamped(f: Finding, len: nat) -> Finding {
    Finding {
        range: TextRange {
            start: if f.range.start > len {
                len as usize
            } else {
                f.range.start
            },
            end: if f.range.end > len {
                len as usize
            } else {
                f.range.end
            },
        },
        ..f
    }
}

/// Findings with their ranges cut off at the end of the text.
pub open spec fn all_clamped(list: Seq<Finding>, len: nat) -> Seq<Finding> {
    list.map_values(|f: Finding| clamped(f, len))
}

fn clamp_all(list: Vec<Diagnostic>, len: usize) -> (r: Vec<Diagnostic>)
    ensures
        diagnostics::findings(r@) == all_clamped(diagnostics::findings(list@), len as nat),
{
    let ghost given = diagnostics::findings(list@);
    let mut list = list;
    let mut i: usize = 0;
    while i < list.len()
        invariant
            i <= list@.len(),
            list@.len() == given.len(),
            forall|j: int|
                0 <= j < i ==> (#[trigger] list@[j])@ == clamped(given[j], len as nat),
            forall|j: int| i <= j < list@.len() ==> (#[trigger] list@[j])@ == given[j],
        decreases list@.len() - i,
    {
        let start = if list[i].range.start > len {
            len
        } else {
            list[i].range.start
        };
        let end = if list[i].range.end > len {
            len
        } else {
            list[i].range.end
        };
        let clamped_one = Diagnostic {
            severity: list[i].severity,
            code: list[i].code.clone(),
            message: list[i].message.clone(),
            range: TextRange { start, end },
        };
        list.set(i, clamped_one);
        i += 1;
    }
    assert(diagnostics::findings(list@) =~= all_clamped(given, len as nat));
    list
}

impl ParseResult {
    /// The result for a text that is bound to nothing.
    pub fn parse(
        text: &str,
        generation: u64,
        tokens: Vec<Token>,
        structural: Vec<Diagnostic>,
    ) -> (r: Self)
        ensures
            r.tokens == tokens,
            r.source_len == vstd::utf8::encode_utf8(text@).len(),
            r.generation == generation,
            r.doc_id == 0,
            diagnostics::findings(r.diagnostics@) == all_clamped(
                diagnostics::findings(structural@),
                r.source_len as nat,
            ),
            r.type_diagnostics@.len() == 0,
            r.scene_diagnostics@.len() == 0,
    {
        Self::parse_with_binding(text, generation, tokens, structural, None)
    }

    /// The result for a text: the findings of the parser and those of the one
    /// validation that ran, with their ranges within the text.
    pub fn parse_with_binding(
        text: &str,
        generation: u64,
        tokens: Vec<Token>,
        structural: Vec<Diagnostic>,
        bound: Option<BoundFindings>,
    ) -> (r: Self)
        ensures
            r.tokens == tokens,
            r.source_len == vstd::utf8::encode_utf8(text@).len(),
            r.generation == generation,
            r.doc_id == 0,
            diagnostics::findings(r.diagnostics@) == all_clamped(
                diagnostics::findings(structural@),
                r.source_len as nat,
            ),
            match bound {
                Some(BoundFindings::Serde(list)) => r.scene_diagnostics@.len() == 0
                    && diagnostics::findings(r.type_diagnostics@) == all_clamped(
                    diagnostics::findings(list@),
                    r.source_len as nat,
                ),
                Some(BoundFindings::Bevy(list)) => r.type_diagnostics@.len() == 0
                    && diagnostics::findings(r.scene_diagnostics@) == all_clamped(
                    diagnostics::findings(list@),
                    r.source_len as nat,
                ),
                None => r.type_diagnostics@.len() == 0 && r.scene_diagnostics@.len() == 0,
            },
    {
        let source_len = text.as_bytes().len();
        let diagnostics = clamp_all(structural, source_len);
        let mut type_diagnostics: Vec<Diagnostic> = Vec::new();
        let mut scene_diagnostics: Vec<Diagnostic> = Vec::new();
        match bound {
            Some(BoundFindings::Serde(list)) => {
                type_diagnostics = clamp_all(list, source_len);
            },
            Some(BoundFindings::Bevy(list)) => {
                scene_diagnostics = clamp_all(list, source_len);
            },
            None => {},
        }
        ParseResult {
            tokens,
            diagnostics,
            type_diagnostics,
            scene_diagnostics,
            source_len,
            generation,
            doc_id: 0,
        }
    }

    /// The result, marked as that of a job.
    pub fn for_job(self, job: &ReparseJob) -> (r: Self)
        ensures
            r == (ParseResult { doc_id: job.doc_id, ..self }),
    {
        ParseResult { doc_id: job.doc_id, ..self }
    }

    /// Whether the result is at least as new as one of the edit `installed_gen`.
    pub fn supersedes(&self, installed_gen: u64) -> (r: bool)
        ensures
            r == (self.generation >= installed_gen),
    {
        self.generation >= installed_gen
    }
}

/// The ranges of all findings of a result are within the text.
pub proof fn findings_are_within_the_text(list: Seq<Finding>, len: nat)
    requires
        len <= usize::MAX,
    ensures
        forall|i: int|
            0 <= i < list.len() ==> (#[trigger] all_clamped(list, len)[i]).range.start <= len
                && all_clamped(list, len)[i].range.end <= len,
{
}

/// Findings within the text stay as they are; of the others only the range changes.
pub proof fn findings_keep_their_words(list: Seq<Finding>, len: nat, i: int)
    requires
        0 <= i < list.len(),
    ensures
        all_clamped(list, len).len() == list.len(),
        all_clamped(list, len)[i].severity == list[i].severity,
        all_clamped(list, len)[i].code == list[i].code,
        all_clamped(list, len)[i].message == list[i].message,
        list[i].range.start <= len && list[i].range.end <= len ==> all_clamped(list, len)[i]
            == list[i],
{
}

} // verus!

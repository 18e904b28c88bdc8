//! The labels under which kinds of interfaces and of evidence arrive from
//! outside. The set of kinds is closed: a label that names none is refused
//! with a message that says so and lists the labels that are known.

use crate::models::{Evidence, EvidenceKind, InterfaceKind};
use crate::text::is_text;
use crate::text::to_chars;
use vstd::prelude::*;

verus! {

/// The kind of interface that a label names.
pub open spec fn interface_kind_named(label: Seq<char>) -> Option<InterfaceKind> {
    if label == "function"@ {
        Some(InterfaceKind::Function)
    } else if label == "class"@ {
        Some(InterfaceKind::Class)
    } else if label == "model"@ {
        Some(InterfaceKind::Model)
    } else if label == "endpoint"@ {
        Some(InterfaceKind::Endpoint)
    } else if label == "migration"@ {
        Some(InterfaceKind::Migration)
    } else if label == "config"@ {
        Some(InterfaceKind::Config)
    } else {
        None
    }
}

/// The kind of evidence that a label names. A failed test is a kind of its
/// own and not a conflict.
pub open spec fn evidence_kind_named(label: Seq<char>) -> Option<EvidenceKind> {
    if label == "test_pass"@ {
        Some(EvidenceKind::TestPass)
    } else if label == "test_fail"@ {
        Some(EvidenceKind::TestFail)
    } else if label == "code_committed"@ {
        Some(EvidenceKind::CodeCommitted)
    } else if label == "consumed_by"@ {
        Some(EvidenceKind::ConsumedByOther)
    } else if label == "conflict"@ {
        Some(EvidenceKind::Conflict)
    } else if label == "manual_approval"@ {
        Some(EvidenceKind::ManualApproval)
    } else {
        None
    }
}

/// The message for a label that names no kind of interface.
pub open spec fn unknown_interface_kind(label: Seq<char>) -> Seq<char> {
    "Unknown InterfaceKind: '"@ + label
        + "'. Expected one of: function, class, model, endpoint, migration, config"@
}

/// The message for a label that names no kind of evidence.
pub open spec fn unknown_evidence_kind(label: Seq<char>) -> Seq<char> {
    "Unknown EvidenceKind: '"@ + label
        + "'. Expected one of: test_pass, test_fail, code_committed, consumed_by, conflict, manual_approval"@
}

/// Reads the kind of an interface from its label; an unknown label gives
/// the message that refuses it.
pub fn parse_interface_kind(label: &str) -> (r: Result<InterfaceKind, String>)
    ensures
        match r {
            Ok(kind) => interface_kind_named(label@) == Some(kind),
            Err(message) => interface_kind_named(label@) is None && message@
                == unknown_interface_kind(label@),
        },
{
    let chars = to_chars(label);
    if is_text(&chars, "function") {
        Ok(InterfaceKind::Function)
    } else if is_text(&chars, "class") {
        Ok(InterfaceKind::Class)
    } else if is_text(&chars, "model") {
        Ok(InterfaceKind::Model)
    } else if is_text(&chars, "endpoint") {
        Ok(InterfaceKind::Endpoint)
    } else if is_text(&chars, "migration") {
        Ok(InterfaceKind::Migration)
    } else if is_text(&chars, "config") {
        Ok(InterfaceKind::Config)
    } else {
        let mut message = "Unknown InterfaceKind: '".to_owned();
        message.append(label);
        message.append("'. Expected one of: function, class, model, endpoint, migration, config");
        Err(message)
    }
}

/// Reads the kind of a piece of evidence from its label; an unknown label
/// gives the message that refuses it.
pub fn parse_evidence_kind(label: &str) -> (r: Result<EvidenceKind, String>)
    ensures
        match r {
            Ok(kind) => evidence_kind_named(label@) == Some(kind),
            Err(message) => evidence_kind_named(label@) is None && message@
                == unknown_evidence_kind(label@),
        },
{
    let chars = to_chars(label);
    if is_text(&chars, "test_pass") {
        Ok(EvidenceKind::TestPass)
    } else if is_text(&chars, "test_fail") {
        Ok(EvidenceKind::TestFail)
    } else if is_text(&chars, "code_committed") {
        Ok(EvidenceKind::CodeCommitted)
    } else if is_text(&chars, "consumed_by") {
        Ok(EvidenceKind::ConsumedByOther)
    } else if is_text(&chars, "conflict") {
        Ok(EvidenceKind::Conflict)
    } else if is_text(&chars, "manual_approval") {
        Ok(EvidenceKind::ManualApproval)
    } else {
        let mut message = "Unknown EvidenceKind: '".to_owned();
        message.append(label);
        message.append(
            "'. Expected one of: test_pass, test_fail, code_committed, consumed_by, conflict, manual_approval",
        );
        Err(message)
    }
}

/// The description that evidence of a kind carries, given the text that
/// came with its label: a consumer is named in a sentence, an approval by
/// hand has a fixed description, every other kind keeps the text.
pub open spec fn evidence_description(kind: EvidenceKind, text: Seq<char>) -> Seq<char> {
    match kind {
        EvidenceKind::ConsumedByOther => "Consumed by agent "@ + text,
        EvidenceKind::ManualApproval => "Manually approved"@,
        _ => text,
    }
}

/// Builds a piece of evidence from a label and the text that came with it,
/// stamped with the current time; an unknown label gives the message that
/// refuses it.
pub fn evidence_from_label(label: &str, text: &str) -> (r: Result<Evidence, String>)
    ensures
        match r {
            Ok(evidence) => evidence_kind_named(label@) == Some(evidence.kind)
                && evidence.description@ == evidence_description(evidence.kind, text@),
            Err(message) => evidence_kind_named(label@) is None && message@
                == unknown_evidence_kind(label@),
        },
{
    match parse_evidence_kind(label) {
        Ok(kind) => {
            let evidence = match kind {
                EvidenceKind::ConsumedByOther => Evidence::consumed_by(text),
                EvidenceKind::ManualApproval => Evidence::manual_approval(),
                _ => Evidence::of_kind(kind, text),
            };
            Ok(evidence)
        },
        Err(message) => Err(message),
    }
}

} // verus!

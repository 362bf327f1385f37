//! What a walk emits: one record for each line of the rendered tree.

use vstd::prelude::*;

verus! {

/// One line of the rendered tree. `indent` is the indentation of the
/// definition that the line belongs to.
#[derive(Debug, PartialEq, Eq)]
pub enum Record {
    /// A root definition is entered.
    Root { id: u64, kind: rls_data::DefKind, name: String, crate_name: String },
    /// A definition is visited.
    Node { indent: u32, id: u64, kind: rls_data::DefKind, name: String },
    /// The qualified name of a function or method.
    Qualname { indent: u32, qualname: String },
    /// The text of a signature.
    SignatureText { indent: u32, text: String },
    /// The value of a definition that has no signature.
    SignatureValue { indent: u32, value: String },
    /// A definition that a signature introduces.
    SignatureDef { indent: u32, id: u64, qualname: String },
    /// A definition that a signature refers to.
    SignatureRef { indent: u32, id: u64, qualname: String },
}

/// A `Record` as a contract sees it.
pub ghost enum RecordView {
    Root { id: u64, kind: rls_data::DefKind, name: Seq<char>, crate_name: Seq<char> },
    Node { indent: u32, id: u64, kind: rls_data::DefKind, name: Seq<char> },
    Qualname { indent: u32, qualname: Seq<char> },
    SignatureText { indent: u32, text: Seq<char> },
    SignatureValue { indent: u32, value: Seq<char> },
    SignatureDef { indent: u32, id: u64, qualname: Seq<char> },
    SignatureRef { indent: u32, id: u64, qualname: Seq<char> },
}

impl View for Record {
    type V = RecordView;

    open spec fn view(&self) -> RecordView {
        match *self {
            Record::Root { id, kind, name, crate_name } => RecordView::Root {
                id,
                kind,
                name: name@,
                crate_name: crate_name@,
            },
            Record::Node { indent, id, kind, name } => RecordView::Node {
                indent,
                id,
                kind,
                name: name@,
            },
            Record::Qualname { indent, qualname } => RecordView::Qualname {
                indent,
                qualname: qualname@,
            },
            Record::SignatureText { indent, text } => RecordView::SignatureText {
                indent,
                text: text@,
            },
            Record::SignatureValue { indent, value } => RecordView::SignatureValue {
                indent,
                value: value@,
            },
            Record::SignatureDef { indent, id, qualname } => RecordView::SignatureDef {
                indent,
                id,
                qualname: qualname@,
            },
            Record::SignatureRef { indent, id, qualname } => RecordView::SignatureRef {
                indent,
                id,
                qualname: qualname@,
            },
        }
    }
}

/// Records as a contract sees them.
pub open spec fn records_view(records: Seq<Record>) -> Seq<RecordView> {
    records.map_values(|r: Record| r@)
}

/// Pushing a record pushes its view.
pub proof fn lemma_records_view_push(records: Seq<Record>, record: Record)
    ensures
        records_view(records.push(record)) == records_view(records).push(record@),
{
    assert(records_view(records.push(record)) =~= records_view(records).push(record@));
}

} // verus!

//! The package metadata that the build tool reports, and the target that it
//! declares for analysis.

use crate::error::ResolutionError;
use crate::json::{
    as_array, as_text, element, element_of, json_model, json_models, json_parsed, member,
    member_of, parse, Json,
};
use crate::sequence::{first_where, lemma_first_where_is};
use crate::target::{
    declared, resolve_target, resolved, target_result_view, DeclaredTarget, DeclaredTargetView,
    Target, TargetView,
};
use vstd::prelude::*;

verus! {

/// What reading one entry of the target list gives.
pub ghost enum Entry {
    /// The entry has no name that is a string, no list of kinds, or one kind
    /// that is no string.
    Malformed,
    /// The entry reports no kind or several.
    Ambiguous,
    /// The entry's name and its one kind.
    Declared(DeclaredTargetView),
}

/// Reads one entry of the target list: its name, then its kinds.
pub open spec fn entry_of(t: Json) -> Entry {
    match member_of(t, "name"@) {
        Json::Text(name) => match member_of(t, "kind"@) {
            Json::Array(kinds) => if kinds.len() != 1 {
                Entry::Ambiguous
            } else {
                match kinds[0] {
                    Json::Text(kind) => Entry::Declared(
                        DeclaredTargetView { name: name, kinds: seq![kind] },
                    ),
                    _ => Entry::Malformed,
                }
            },
            _ => Entry::Malformed,
        },
        _ => Entry::Malformed,
    }
}

/// The target list of the first package of a metadata document.
pub open spec fn targets_of(metadata: Json) -> Json {
    member_of(element_of(member_of(metadata, "packages"@), 0), "targets"@)
}

/// Where reading a target list stops early: at its first entry that is
/// malformed or ambiguous, or at its length.
pub open spec fn reading_stop(entries: Seq<Json>) -> int {
    first_where(entries, |t: Json| !(entry_of(t) is Declared))
}

/// The declared targets of entries that all read well.
pub open spec fn declarations(entries: Seq<Json>) -> Seq<DeclaredTargetView> {
    entries.map_values(|t: Json| entry_of(t)->Declared_0)
}

/// What reading the target list of a metadata document gives: `None` where
/// the list is missing or an entry is malformed before any is ambiguous, an
/// error at the first ambiguous entry, else the declared targets.
pub open spec fn targets_read(metadata: Json) -> Option<
    Result<Seq<DeclaredTargetView>, ResolutionError>,
> {
    match targets_of(metadata) {
        Json::Array(entries) => {
            let stop = reading_stop(entries);
            if stop >= entries.len() {
                Some(Ok(declarations(entries)))
            } else if entry_of(entries[stop]) is Ambiguous {
                Some(Err(ResolutionError::AmbiguousTargetKind { index: stop as usize }))
            } else {
                None
            }
        },
        _ => None,
    }
}

/// The target that a metadata document resolves to, `None` where its target
/// list cannot be read.
pub open spec fn target_of_metadata(metadata: Json) -> Option<Result<TargetView, ResolutionError>> {
    match targets_read(metadata) {
        Some(Ok(decls)) => Some(resolved(decls)),
        Some(Err(e)) => Some(Err(e)),
        None => None,
    }
}

/// A metadata document whose target list can be read.
pub open spec fn readable(metadata: Json) -> bool {
    targets_read(metadata) is Some
}

/// What a result of reading the target list is to a contract.
pub open spec fn read_view(r: Option<Result<Vec<DeclaredTarget>, ResolutionError>>) -> Option<
    Result<Seq<DeclaredTargetView>, ResolutionError>,
> {
    match r {
        Some(Ok(decls)) => Some(Ok(declared(decls@))),
        Some(Err(e)) => Some(Err(e)),
        None => None,
    }
}

/// What an optional result of resolution is to a contract.
pub open spec fn try_view(r: Option<Result<Target, ResolutionError>>) -> Option<
    Result<TargetView, ResolutionError>,
> {
    match r {
        Some(t) => Some(target_result_view(t)),
        None => None,
    }
}

/// The metadata document that the build tool's output spells.
pub fn retrieve_metadata(output: &[u8]) -> (r: Result<serde_json::Value, ResolutionError>)
    ensures
        match r {
            Ok(v) => json_parsed(output@) == Some(json_model(v)),
            Err(e) => e == ResolutionError::InvalidMetadata && json_parsed(output@) is None,
        },
{
    match parse(output) {
        Ok(v) => Ok(v),
        Err(_) => Err(ResolutionError::InvalidMetadata),
    }
}

/// Reads the targets that the first package of a metadata document declares.
pub fn read_targets(metadata: &serde_json::Value) -> (r: Option<
    Result<Vec<DeclaredTarget>, ResolutionError>,
>)
    ensures
        read_view(r) == targets_read(json_model(*metadata)),
{
    let list = member(element(member(metadata, "packages"), 0), "targets");
    let entries = match as_array(list) {
        Some(entries) => entries,
        None => {
            return None;
        },
    };
    let ghost models = json_models(entries@);
    let ghost unread = |t: Json| !(entry_of(t) is Declared);
    let mut decls: Vec<DeclaredTarget> = Vec::new();
    let mut i: usize = 0;
    while i < entries.len()
        invariant
            0 <= i <= entries.len(),
            models == json_models(entries@),
            targets_of(json_model(*metadata)) == Json::Array(models),
            unread == |t: Json| !(entry_of(t) is Declared),
            decls.len() == i,
            forall|j: int| 0 <= j < i ==> !unread(#[trigger] models[j]),
            forall|j: int|
                0 <= j < i ==> (#[trigger] decls[j])@ == entry_of(models[j])->Declared_0,
        decreases entries.len() - i,
    {
        let entry = &entries[i];
        assert(models[i as int] == json_model(*entry));
        let name = match as_text(member(entry, "name")) {
            Some(name) => name,
            None => {
                proof {
                    lemma_first_where_is(models, unread, i as int);
                }
                return None;
            },
        };
        let kinds = match as_array(member(entry, "kind")) {
            Some(kinds) => kinds,
            None => {
                proof {
                    lemma_first_where_is(models, unread, i as int);
                }
                return None;
            },
        };
        assert(json_models(kinds@).len() == kinds.len());
        if kinds.len() != 1 {
            proof {
                lemma_first_where_is(models, unread, i as int);
            }
            return Some(Err(ResolutionError::AmbiguousTargetKind { index: i }));
        }
        assert(json_models(kinds@)[0] == json_model(kinds[0]));
        let kind = match as_text(&kinds[0]) {
            Some(kind) => kind,
            None => {
                proof {
                    lemma_first_where_is(models, unread, i as int);
                }
                return None;
            },
        };
        let mut kind_list: Vec<String> = Vec::new();
        kind_list.push(kind.to_owned());
        let decl = DeclaredTarget { name: name.to_owned(), kinds: kind_list };
        assert(decl@.kinds =~= seq![kind@]);
        decls.push(decl);
        i += 1;
    }
    proof {
        lemma_first_where_is(models, unread, models.len() as int);
        assert(declared(decls@) =~= declarations(models));
    }
    Some(Ok(decls))
}

/// The target to analyse that a metadata document declares, or `None` where
/// its target list cannot be read.
pub fn try_target_from_metadata(metadata: &serde_json::Value) -> (r: Option<
    Result<Target, ResolutionError>,
>)
    ensures
        try_view(r) == target_of_metadata(json_model(*metadata)),
{
    match read_targets(metadata) {
        Some(Ok(decls)) => Some(resolve_target(&decls)),
        Some(Err(e)) => Some(Err(e)),
        None => None,
    }
}

/// The target to analyse that a metadata document declares.
pub fn target_from_metadata(metadata: &serde_json::Value) -> (r: Result<Target, ResolutionError>)
    requires
        readable(json_model(*metadata)),
    ensures
        Some(target_result_view(r)) == target_of_metadata(json_model(*metadata)),
{
    match try_target_from_metadata(metadata) {
        Some(r) => r,
        None => vstd::pervasive::unreached(),
    }
}

} // verus!

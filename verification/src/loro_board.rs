//! The shared-board document: Loro holds the editable board, and the
//! library decides what each save removes from it and how its tree nodes
//! are named.
use vstd::prelude::*;
use vstd::string::StringExecFns;
use loro::{ExportMode, LoroDoc, LoroEncodeError, LoroError, VersionVector};
use crate::models::{Column, StoredData, Task, TaskTemplate};
use crate::persist::{column_id_list, task_id_list};
use crate::stored::{all_task_ids, column_ids, column_task_ids, task_ids_of, template_ids, archive_task_ids};
use crate::text::{parse_i64, parse_i64_str, str_eq};

verus! {

#[verifier::external_type_specification]
#[verifier::external_body]
pub struct ExLoroDoc(LoroDoc);

#[verifier::external_type_specification]
#[verifier::external_body]
pub struct ExLoroError(LoroError);

#[verifier::external_type_specification]
#[verifier::external_body]
pub struct ExLoroEncodeError(LoroEncodeError);

/// The updates imported into a document that makes no changes of its own,
/// in order. Such a document's changes, version and exports are Loro's
/// functions of these bytes: its own peer identifier, drawn at random, has
/// no changes and so appears in none of them.
pub uninterp spec fn doc_imports(doc: LoroDoc) -> Seq<Seq<u8>>;

/// What `LoroDoc::import` of `bytes` does after `imports`: `None` where it
/// refuses them, else whether some imported changes wait for changes the
/// document does not have.
pub uninterp spec fn import_outcome(imports: Seq<Seq<u8>>, bytes: Seq<u8>) -> Option<bool>;

/// `oplog_vv().encode()` of the document after `imports`.
pub uninterp spec fn version_bytes(imports: Seq<Seq<u8>>) -> Seq<u8>;

/// Whether `VersionVector::decode` reads `bytes` as a version.
pub uninterp spec fn version_decodes(bytes: Seq<u8>) -> bool;

/// `export(ExportMode::updates(..))` of the document after `imports`, from
/// the version that `remote` encodes; `None` where Loro refuses the export.
pub uninterp spec fn updates_since(imports: Seq<Seq<u8>>, remote: Seq<u8>) -> Option<Seq<u8>>;

/// `export(ExportMode::Snapshot)` of the document after `imports`; `None`
/// where Loro refuses the export.
pub uninterp spec fn snapshot_bytes(imports: Seq<Seq<u8>>) -> Option<Seq<u8>>;

/// `export(ExportMode::shallow_snapshot_owned(oplog_frontiers()))` of the
/// document after `imports`; `None` where Loro refuses the export.
pub uninterp spec fn shallow_snapshot_bytes(imports: Seq<Seq<u8>>) -> Option<Seq<u8>>;

/// `LoroDoc::new`: an empty document under a fresh, random peer identifier.
#[verifier::external_body]
fn new_doc() -> (r: LoroDoc)
    ensures
        doc_imports(r) == Seq::<Seq<u8>>::empty(),
{
    LoroDoc::new()
}

/// `LoroDoc::import` and the `pending` field of the status it returns:
/// named [`import_outcome`]. What the document holds after a refused
/// import is not stated.
#[verifier::external_body]
fn import_bytes(doc: &mut LoroDoc, bytes: &[u8]) -> (r: Result<bool, LoroError>)
    ensures
        r is Ok <==> import_outcome(doc_imports(*old(doc)), bytes@) is Some,
        r matches Ok(pending) ==> import_outcome(doc_imports(*old(doc)), bytes@) == Some(pending)
            && doc_imports(*final(doc)) == doc_imports(*old(doc)).push(bytes@),
{
    doc.import(bytes).map(|status| status.pending.is_some())
}

/// `LoroDoc::oplog_vv` in its binary form, `VersionVector::encode`: named
/// [`version_bytes`]. Encoding and decoding are postcard's serialisation of
/// the same map type, so what is encoded reads back as a version.
#[verifier::external_body]
fn version_bytes_of(doc: &LoroDoc) -> (r: Vec<u8>)
    ensures
        r@ == version_bytes(doc_imports(*doc)),
        version_decodes(r@),
{
    doc.oplog_vv().encode()
}

/// Whether `VersionVector::decode` reads `bytes`, with its error where not:
/// named [`version_decodes`].
#[verifier::external_body]
fn check_version(bytes: &[u8]) -> (r: Result<(), LoroError>)
    ensures
        r is Ok <==> version_decodes(bytes@),
{
    VersionVector::decode(bytes).map(|_| ())
}

/// `LoroDoc::export` with `ExportMode::updates` from the version that
/// `remote` encodes: named [`updates_since`]. `remote` must decode, so the
/// decoding here cannot fail.
#[verifier::external_body]
fn export_updates(doc: &LoroDoc, remote: &[u8]) -> (r: Result<Vec<u8>, LoroEncodeError>)
    requires
        version_decodes(remote@),
    ensures
        r is Ok <==> updates_since(doc_imports(*doc), remote@) is Some,
        r matches Ok(b) ==> updates_since(doc_imports(*doc), remote@) == Some(b@),
{
    doc.export(ExportMode::updates(&VersionVector::decode(remote).unwrap()))
}

/// `LoroDoc::export` with `ExportMode::Snapshot`: named [`snapshot_bytes`].
#[verifier::external_body]
fn export_snapshot(doc: &LoroDoc) -> (r: Result<Vec<u8>, LoroEncodeError>)
    ensures
        r is Ok <==> snapshot_bytes(doc_imports(*doc)) is Some,
        r matches Ok(b) ==> snapshot_bytes(doc_imports(*doc)) == Some(b@),
{
    doc.export(ExportMode::Snapshot)
}

/// `LoroDoc::export` with `ExportMode::shallow_snapshot_owned` at the
/// document's latest changes, `oplog_frontiers`: named
/// [`shallow_snapshot_bytes`].
#[verifier::external_body]
fn export_shallow(doc: &LoroDoc) -> (r: Result<Vec<u8>, LoroEncodeError>)
    ensures
        r is Ok <==> shallow_snapshot_bytes(doc_imports(*doc)) is Some,
        r matches Ok(b) ==> shallow_snapshot_bytes(doc_imports(*doc)) == Some(b@),
{
    doc.export(ExportMode::shallow_snapshot_owned(doc.oplog_frontiers()))
}

/// The `Display` text of a `LoroError`.
#[verifier::external_body]
fn loro_error_text(error: LoroError) -> (r: String) {
    error.to_string()
}

/// The `Display` text of a `LoroEncodeError`.
#[verifier::external_body]
fn encode_error_text(error: LoroEncodeError) -> (r: String) {
    error.to_string()
}

/// The bytes of `update`, where there are any.
pub open spec fn update_view(update: Option<&[u8]>) -> Option<Seq<u8>> {
    match update {
        Some(bytes) => Some(bytes@),
        None => None,
    }
}

/// What loading `update` imports: the bytes, where there are any.
pub open spec fn loaded_imports(update: Option<Seq<u8>>) -> Seq<Seq<u8>> {
    match update {
        Some(bytes) => if bytes.len() > 0 {
            seq![bytes]
        } else {
            Seq::empty()
        },
        None => Seq::empty(),
    }
}

/// Whether `update` loads: there is nothing to import, or Loro imports it.
pub open spec fn loads(update: Option<Seq<u8>>) -> bool {
    match update {
        Some(bytes) => bytes.len() == 0 || import_outcome(Seq::empty(), bytes) is Some,
        None => true,
    }
}

/// No update and an empty one load the same document.
pub proof fn lemma_nothing_to_load(bytes: Seq<u8>)
    requires
        bytes.len() == 0,
    ensures
        loaded_imports(None) == loaded_imports(Some(bytes)),
        loads(None) == loads(Some(bytes)),
{
}

/// A document under a fresh peer identifier that holds the changes in
/// `update`, where there are any; refused where Loro cannot import them.
pub fn doc_from_update(update: Option<&[u8]>) -> (r: Result<LoroDoc, String>)
    ensures
        r is Ok <==> loads(update_view(update)),
        r matches Ok(doc) ==> doc_imports(doc) == loaded_imports(update_view(update)),
{
    let mut doc = new_doc();
    match update {
        Some(bytes) => {
            if bytes.len() > 0 {
                match import_bytes(&mut doc, bytes) {
                    Ok(_) => {
                        assert(seq![bytes@] =~= Seq::<Seq<u8>>::empty().push(bytes@));
                    },
                    Err(e) => return Err(loro_error_text(e)),
                }
            }
        },
        None => {},
    }
    Ok(doc)
}

/// The binary version of the document in `update`: what a peer sends to ask
/// for the changes it lacks. It depends on the imported bytes alone, so
/// equal updates, and no update and an empty one, give equal versions; and
/// it always reads back as a version.
pub fn state_vector(update: Option<&[u8]>) -> (r: Result<Vec<u8>, String>)
    ensures
        r is Ok <==> loads(update_view(update)),
        r matches Ok(v) ==> v@ == version_bytes(loaded_imports(update_view(update))) && version_decodes(v@),
{
    let doc = doc_from_update(update)?;
    Ok(version_bytes_of(&doc))
}

/// The changes of the document in `update` that a peer at the binary
/// version `remote_state_vector` lacks; refused where that is no version,
/// where `update` does not load, or where Loro refuses the export.
pub fn diff(update: Option<&[u8]>, remote_state_vector: &[u8]) -> (r: Result<Vec<u8>, String>)
    ensures
        !version_decodes(remote_state_vector@) ==> r is Err,
        version_decodes(remote_state_vector@) && !loads(update_view(update)) ==> r is Err,
        version_decodes(remote_state_vector@) && loads(update_view(update)) ==> {
            &&& r is Ok <==> updates_since(loaded_imports(update_view(update)), remote_state_vector@) is Some
            &&& r matches Ok(b) ==> updates_since(loaded_imports(update_view(update)), remote_state_vector@)
                == Some(b@)
        },
{
    match check_version(remote_state_vector) {
        Ok(()) => {},
        Err(e) => return Err(loro_error_text(e)),
    }
    let doc = doc_from_update(update)?;
    match export_updates(&doc, remote_state_vector) {
        Ok(bytes) => Ok(bytes),
        Err(e) => Err(encode_error_text(e)),
    }
}

/// An import is refused while some imported changes wait for changes the
/// document does not have.
pub fn check_import_complete(pending: bool) -> (r: Result<(), String>)
    ensures
        pending ==> (r matches Err(e) && e@ == "Loro update has missing dependencies"@),
        !pending ==> r is Ok,
{
    if pending {
        Err(String::from_str("Loro update has missing dependencies"))
    } else {
        Ok(())
    }
}

/// What exporting a snapshot after `imports` gives, as a result.
pub open spec fn snapshot_result(imports: Seq<Seq<u8>>, r: Result<Vec<u8>, String>) -> bool {
    &&& r is Ok <==> snapshot_bytes(imports) is Some
    &&& r matches Ok(b) ==> snapshot_bytes(imports) == Some(b@)
}

/// The document in `update` with the changes in `incoming` merged in, as a
/// snapshot. Refused where `update` does not load, where Loro cannot import
/// `incoming`, where `incoming` needs changes neither holds, and where Loro
/// refuses the export.
pub fn merge(update: Option<&[u8]>, incoming: &[u8]) -> (r: Result<Vec<u8>, String>)
    ensures
        !loads(update_view(update)) ==> r is Err,
        loads(update_view(update)) && incoming@.len() == 0 ==> snapshot_result(
            loaded_imports(update_view(update)),
            r,
        ),
        loads(update_view(update)) && incoming@.len() > 0 ==> match import_outcome(
            loaded_imports(update_view(update)),
            incoming@,
        ) {
            None => r is Err,
            Some(true) => r matches Err(e) && e@ == "Loro update has missing dependencies"@,
            Some(false) => snapshot_result(loaded_imports(update_view(update)).push(incoming@), r),
        },
{
    let mut doc = doc_from_update(update)?;
    if incoming.len() > 0 {
        let pending = match import_bytes(&mut doc, incoming) {
            Ok(p) => p,
            Err(e) => return Err(loro_error_text(e)),
        };
        check_import_complete(pending)?;
    }
    match export_snapshot(&doc) {
        Ok(bytes) => Ok(bytes),
        Err(e) => Err(encode_error_text(e)),
    }
}

/// The document in `update` at its latest state, without its history: what
/// an invitation hands out. Loro may keep deleted values in the binary
/// history that remains; this is no erasure. Refused where `update` does
/// not load or Loro refuses the export.
pub fn share_snapshot(update: &[u8]) -> (r: Result<Vec<u8>, String>)
    ensures
        !loads(Some(update@)) ==> r is Err,
        loads(Some(update@)) ==> {
            &&& r is Ok <==> shallow_snapshot_bytes(loaded_imports(Some(update@))) is Some
            &&& r matches Ok(b) ==> shallow_snapshot_bytes(loaded_imports(Some(update@))) == Some(b@)
        },
{
    let doc = doc_from_update(Some(update))?;
    match export_shallow(&doc) {
        Ok(bytes) => Ok(bytes),
        Err(e) => Err(encode_error_text(e)),
    }
}

/// What a node of the board tree stands for.
#[derive(Clone, Copy, Debug, PartialEq, Eq, Structural)]
pub enum LoroNodeKind {
    Archives,
    Column,
    Task,
}

impl LoroNodeKind {
    /// The name stored in a node's `kind` metadata.
    pub open spec fn name(self) -> Seq<char> {
        match self {
            LoroNodeKind::Archives => "archives"@,
            LoroNodeKind::Column => "column"@,
            LoroNodeKind::Task => "task"@,
        }
    }

    /// The name stored in a node's `kind` metadata.
    pub fn as_str(self) -> (r: &'static str)
        ensures
            r@ == self.name(),
    {
        match self {
            LoroNodeKind::Archives => "archives",
            LoroNodeKind::Column => "column",
            LoroNodeKind::Task => "task",
        }
    }
}

/// The kind a node's `kind` metadata names.
pub open spec fn kind_named(value: Seq<char>) -> Option<LoroNodeKind> {
    if value == "archives"@ {
        Some(LoroNodeKind::Archives)
    } else if value == "column"@ {
        Some(LoroNodeKind::Column)
    } else if value == "task"@ {
        Some(LoroNodeKind::Task)
    } else {
        None
    }
}

/// The kind of a node whose `kind` metadata holds `value`, where it is a
/// string.
pub fn node_kind_named(value: Option<&str>) -> (r: Result<LoroNodeKind, String>)
    ensures
        match value {
            None => r matches Err(e) && e@ == "Loro tree node has no kind"@,
            Some(v) => match kind_named(v@) {
                Some(k) => r == Ok::<LoroNodeKind, String>(k),
                None => r matches Err(e) && e@ == "Invalid Loro tree node kind"@,
            },
        },
{
    match value {
        None => Err(String::from_str("Loro tree node has no kind")),
        Some(v) => {
            if str_eq(v, "archives") {
                proof {
                    reveal_strlit("archives");
                }
                Ok(LoroNodeKind::Archives)
            } else if str_eq(v, "column") {
                proof {
                    reveal_strlit("archives");
                    reveal_strlit("column");
                }
                Ok(LoroNodeKind::Column)
            } else if str_eq(v, "task") {
                proof {
                    reveal_strlit("archives");
                    reveal_strlit("column");
                    reveal_strlit("task");
                }
                Ok(LoroNodeKind::Task)
            } else {
                Err(String::from_str("Invalid Loro tree node kind"))
            }
        },
    }
}

/// The board identifier of a node whose `id` metadata holds `value`, where
/// it is a string.
pub fn node_id_named(value: Option<&str>) -> (r: Result<i64, String>)
    ensures
        match value {
            None => r matches Err(e) && e@ == "Loro tree node has no ID"@,
            Some(v) => match parse_i64(v@) {
                Some(id) => r == Ok::<i64, String>(id),
                None => r matches Err(e) && e@ == "Invalid Loro tree node ID"@,
            },
        },
{
    match value {
        None => Err(String::from_str("Loro tree node has no ID")),
        Some(v) => match parse_i64_str(v) {
            Some(id) => Ok(id),
            None => Err(String::from_str("Invalid Loro tree node ID")),
        },
    }
}

/// The entries of `ids` that `wanted` does not hold, in order, repeats kept.
pub open spec fn absent_from(ids: Seq<i64>, wanted: Seq<i64>) -> Seq<i64>
    decreases ids.len(),
{
    if ids.len() == 0 {
        Seq::empty()
    } else {
        let rest = absent_from(ids.drop_last(), wanted);
        if wanted.contains(ids.last()) {
            rest
        } else {
            rest.push(ids.last())
        }
    }
}

/// Whether `v` holds `x`.
fn holds_id(v: &Vec<i64>, x: i64) -> (r: bool)
    ensures
        r == v@.contains(x),
{
    let n = v.len();
    for i in 0..n
        invariant
            n == v@.len(),
            forall|k: int| 0 <= k < i ==> v@[k] != x,
    {
        if v[i] == x {
            return true;
        }
    }
    false
}

/// The entries of `ids` that `wanted` does not hold, in order, repeats kept.
pub fn absent_ids(ids: &Vec<i64>, wanted: &Vec<i64>) -> (r: Vec<i64>)
    ensures
        r@ == absent_from(ids@, wanted@),
{
    let mut r: Vec<i64> = Vec::new();
    let n = ids.len();
    for k in 0..n
        invariant
            n == ids@.len(),
            r@ == absent_from(ids@.take(k as int), wanted@),
    {
        proof {
            assert(ids@.take(k + 1).drop_last() =~= ids@.take(k as int));
        }
        if !holds_id(wanted, ids[k]) {
            r.push(ids[k]);
        }
    }
    proof {
        assert(ids@.take(n as int) =~= ids@);
    }
    r
}

/// Every task identifier of `data`: its columns' tasks, then its archived
/// tasks.
fn board_task_id_list(data: &StoredData) -> (r: Vec<i64>)
    ensures
        r@ == all_task_ids(*data),
{
    let mut r: Vec<i64> = Vec::new();
    let n = data.columns.len();
    for c in 0..n
        invariant
            n == data.columns@.len(),
            r@ == column_task_ids(data.columns@.take(c as int)),
    {
        let ids = task_id_list(&data.columns[c].tasks);
        let mut more = ids;
        r.append(&mut more);
        proof {
            assert(data.columns@.take(c + 1).drop_last() =~= data.columns@.take(c as int));
        }
    }
    proof {
        assert(data.columns@.take(n as int) =~= data.columns@);
    }
    let ghost base = r@;
    let m = data.archives.len();
    for a in 0..m
        invariant
            m == data.archives@.len(),
            r@ == base + archive_task_ids(data.archives@.take(a as int)),
    {
        r.push(data.archives[a].task.id);
        proof {
            assert(archive_task_ids(data.archives@.take(a + 1)) =~= archive_task_ids(data.archives@.take(a as int)).push(
                data.archives@[a as int].task.id,
            ));
        }
    }
    proof {
        assert(data.archives@.take(m as int) =~= data.archives@);
    }
    r
}

/// The template identifiers of `templates`, in order.
fn template_id_list(templates: &Vec<TaskTemplate>) -> (r: Vec<i64>)
    ensures
        r@ == template_ids(templates@),
{
    let mut r: Vec<i64> = Vec::new();
    let n = templates.len();
    for k in 0..n
        invariant
            n == templates@.len(),
            r@ == template_ids(templates@.take(k as int)),
    {
        r.push(templates[k].id);
        proof {
            assert(template_ids(templates@.take(k + 1)) =~= template_ids(templates@.take(k as int)).push(
                templates@[k as int].id,
            ));
        }
    }
    proof {
        assert(templates@.take(n as int) =~= templates@);
    }
    r
}

/// The identifiers of the columns that a save of `after` over `before`
/// removes from the document: those of `before` that `after` has no column
/// under, in order, repeats kept.
pub fn departed_column_ids(before: &StoredData, after: &StoredData) -> (r: Vec<i64>)
    ensures
        r@ == absent_from(column_ids(before.columns@), column_ids(after.columns@)),
{
    let old_ids = column_id_list(&before.columns);
    let new_ids = column_id_list(&after.columns);
    absent_ids(&old_ids, &new_ids)
}

/// The identifiers of the tasks that a save of `after` over `before`
/// removes from the document: those of `before`, in its columns or its
/// archive, that `after` holds nowhere, in order, repeats kept.
pub fn departed_task_ids(before: &StoredData, after: &StoredData) -> (r: Vec<i64>)
    ensures
        r@ == absent_from(all_task_ids(*before), all_task_ids(*after)),
{
    let old_ids = board_task_id_list(before);
    let new_ids = board_task_id_list(after);
    absent_ids(&old_ids, &new_ids)
}

/// The identifiers of the templates that a save of `after` over `before`
/// removes from the document, in order, repeats kept.
pub fn departed_template_ids(before: &StoredData, after: &StoredData) -> (r: Vec<i64>)
    ensures
        r@ == absent_from(template_ids(before.templates@), template_ids(after.templates@)),
{
    let old_ids = template_id_list(&before.templates);
    let new_ids = template_id_list(&after.templates);
    absent_ids(&old_ids, &new_ids)
}

/// Naming a node's kind and reading the name back gives the kind.
pub proof fn lemma_kind_name_round_trip(kind: LoroNodeKind)
    ensures
        kind_named(kind.name()) == Some(kind),
{
    reveal_strlit("archives");
    reveal_strlit("column");
    reveal_strlit("task");
    assert("column"@.len() != "archives"@.len());
    assert("task"@.len() != "archives"@.len());
    assert("task"@.len() != "column"@.len());
}

} // verus!

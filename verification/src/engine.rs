//! The store's decisions. A request is answered in up to three steps, with
//! the caller's work in between: `begin` decides on grants and serves reads;
//! a write then needs its payload (`post`) and, once staged, the word that
//! the staged document has reached the disk (`finish`).

use crate::access::{resolve_in, Access, Grant};
use crate::cache::{
    after_read, cached_version, get, lemma_read_after_write, related, version_for, wipe_etags,
    wiped, Etags, Versions,
};
use crate::codec::{parse_payload, parsed_json};
use crate::config::AccessAction;
use crate::document::{
    changed, get_at, path_prefix, path_view, Change, Database, DatabaseModel, StructuralError,
    StructuralFault,
};
use crate::etag::{etag_text, format_etag};
use crate::json::{kind_name, Json, Kind, JsonValue};
use crate::request::{parse_subpath, parsed_path};
use vstd::prelude::*;
use vstd::string::StringExecFns;

verus! {

/// What a request asks for.
#[derive(Clone, Copy, Debug, PartialEq, Eq, Structural)]
pub enum Method {
    Head,
    Get,
    Post,
    Delete,
    /// Any other method.
    Other,
}

/// The head of a request: what is known of it before its payload is read.
#[derive(Debug)]
pub struct Request {
    pub method: Method,
    /// The keys of the path, decoded.
    pub path: Vec<String>,
    /// The tag of a conditional read, as the caller sent it.
    pub if_none_match: Option<String>,
}

/// What a response carries.
#[derive(Debug)]
pub enum Body<'a> {
    /// Nothing.
    Empty,
    /// The JSON of the unit value, which is `null`.
    Unit,
    /// A value of the document, as JSON.
    Json(&'a JsonValue),
    /// A message, as text.
    Text(String),
}

/// A response: status, body, and the version tag where there is one.
#[derive(Debug)]
pub struct Response<'a> {
    pub status: u16,
    pub body: Body<'a>,
    pub etag: Option<String>,
}

/// The model of a body.
pub enum BodyModel {
    Empty,
    Unit,
    Json(Json),
    Text(Seq<char>),
}

/// The model of a response.
pub struct ResponseModel {
    pub status: int,
    pub body: BodyModel,
    pub etag: Option<Seq<char>>,
}

impl<'a> View for Body<'a> {
    type V = BodyModel;

    open spec fn view(&self) -> BodyModel {
        match self {
            Body::Empty => BodyModel::Empty,
            Body::Unit => BodyModel::Unit,
            Body::Json(value) => BodyModel::Json(value@),
            Body::Text(text) => BodyModel::Text(text@),
        }
    }
}

impl<'a> View for Response<'a> {
    type V = ResponseModel;

    open spec fn view(&self) -> ResponseModel {
        ResponseModel {
            status: self.status as int,
            body: self.body@,
            etag: match self.etag {
                Some(tag) => Some(tag@),
                None => None,
            },
        }
    }
}

/// A response without body or tag.
pub open spec fn bare(status: int) -> ResponseModel {
    ResponseModel { status, body: BodyModel::Empty, etag: None }
}

/// The response to a write that went through: 200 with the JSON unit.
pub open spec fn done() -> ResponseModel {
    ResponseModel { status: 200, body: BodyModel::Unit, etag: None }
}

/// A changed document that waits to be made durable, with what its commit
/// does to the version cache.
#[derive(Debug)]
pub struct Staged {
    next: Database,
    path: Vec<String>,
    replace: Option<usize>,
}

/// The model of a staged change.
pub struct StagedModel {
    pub next: DatabaseModel,
    pub path: Seq<Seq<char>>,
    pub replace: Option<nat>,
}

impl View for Staged {
    type V = StagedModel;

    closed spec fn view(&self) -> StagedModel {
        StagedModel {
            next: self.next@,
            path: path_view(self.path@),
            replace: match self.replace {
                Some(version) => Some(version as nat),
                None => None,
            },
        }
    }
}

impl Staged {
    /// The document to write to the disk.
    pub fn document(&self) -> (r: &Database)
        ensures
            r@ == self@.next,
    {
        &self.next
    }
}

/// What the caller has to do next.
#[derive(Debug)]
pub enum Step<'a> {
    /// Send this response; the request is done.
    Respond(Response<'a>),
    /// Read the payload and hand it to `post`.
    ReadBody,
    /// Make the staged document durable and hand the outcome to `finish`.
    Persist(Staged),
}

/// The model of a step.
pub enum StepModel {
    Respond(ResponseModel),
    ReadBody,
    Persist(StagedModel),
}

impl<'a> View for Step<'a> {
    type V = StepModel;

    open spec fn view(&self) -> StepModel {
        match self {
            Step::Respond(response) => StepModel::Respond(response@),
            Step::ReadBody => StepModel::ReadBody,
            Step::Persist(staged) => StepModel::Persist(staged@),
        }
    }
}

/// The text that `{:?}` gives for a list of strings.
pub uninterp spec fn debug_text(path: Seq<Seq<char>>) -> Seq<char>;

/// Formats a path as `{:?}` does, through `<Vec<String> as Debug>::fmt`.
/// Trusted: the text depends on the keys alone.
#[verifier::external_body]
fn debug_path(path: &Vec<String>) -> (r: String)
    ensures
        r@ == debug_text(path_view(path@)),
{
    format!("{:?}", path)
}

/// The message that names a fault, where `shown` is the text for its
/// place: where it is and what was found there. A write could have gone on
/// through `null`; a deletion could not.
pub open spec fn fault_text(shown: Seq<char>, actual_type: Option<Kind>, writing: bool) -> Seq<char> {
    "Data at path segment "@ + shown + match actual_type {
        Some(kind) => " is a "@ + kind_name(kind) + if writing {
            ", not null or an object"@
        } else {
            ", not an object"@
        },
        None => " is missing"@,
    }
}

/// The message that names a fault, its place shown as `{:?}` shows a list of
/// strings.
pub open spec fn fault_message(fault: StructuralFault, writing: bool) -> Seq<char> {
    fault_text(debug_text(fault.path_prefix), fault.actual_type, writing)
}

/// The message for a fault whose place is shown as `shown`, met while
/// writing (`writing`) or deleting.
pub fn compose_fault(shown: &str, actual_type: Option<Kind>, writing: bool) -> (r: String)
    ensures
        r@ == fault_text(shown@, actual_type, writing),
{
    let mut text = String::from_str("Data at path segment ");
    text.append(shown);
    match actual_type {
        Some(kind) => {
            text.append(" is a ");
            text.append(kind.name());
            if writing {
                text.append(", not null or an object");
            } else {
                text.append(", not an object");
            }
        },
        None => {
            text.append(" is missing");
        },
    }
    assert(text@ =~= fault_text(shown@, actual_type, writing));
    text
}

/// The message for a fault met while writing (`writing`) or deleting.
pub fn describe_fault(fault: &StructuralError, writing: bool) -> (r: String)
    ensures
        r@ == fault_message(fault@, writing),
{
    let shown = debug_path(&fault.path_prefix);
    compose_fault(shown.as_str(), fault.actual_type, writing)
}

/// The grant for `path` among `grants`; none where the token is unknown.
pub open spec fn allowed(grants: Option<Seq<Grant>>, path: Seq<Seq<char>>) -> Option<AccessAction> {
    match grants {
        Some(list) => resolve_in(list, path),
        None => None,
    }
}

/// A conditional read is answered "not modified" where the tag sent is the
/// tag of the version cached for exactly this path.
pub open spec fn not_modified(cache: Versions, path: Seq<Seq<char>>, tag: Option<Seq<char>>) -> bool {
    tag is Some && cache.contains_key(path) && tag->Some_0 == etag_text(cache[path])
}

/// The answer to a read that is allowed, and the cache after it.
pub open spec fn read_model(
    db: DatabaseModel,
    cache: Versions,
    head_only: bool,
    path: Seq<Seq<char>>,
    tag: Option<Seq<char>>,
) -> (ResponseModel, Versions) {
    if not_modified(cache, path, tag) {
        (bare(304), cache)
    } else {
        match get_at(db.data, path) {
            Some(found) => (
                ResponseModel {
                    status: 200,
                    body: if head_only {
                        BodyModel::Unit
                    } else {
                        BodyModel::Json(found)
                    },
                    etag: Some(etag_text(version_for(cache, path, db.version))),
                },
                after_read(cache, path, db.version),
            ),
            None => (bare(404), cache),
        }
    }
}

/// The step that stages `change`: the changed document with the version
/// one higher, to be made durable; or 400 with the fault's message; or 503
/// where the version counter is at its end.
pub open spec fn stage_model(db: DatabaseModel, change: Change) -> StepModel {
    if db.version >= usize::MAX {
        StepModel::Respond(bare(503))
    } else {
        match changed(db, change) {
            Ok(next) => StepModel::Persist(
                match change {
                    Change::Write(path, _) => StagedModel {
                        next,
                        path,
                        replace: Some(next.version),
                    },
                    Change::Remove(path) => StagedModel { next, path, replace: None },
                },
            ),
            Err(fault) => StepModel::Respond(
                ResponseModel {
                    status: 400,
                    body: BodyModel::Text(fault_message(fault, change is Write)),
                    etag: None,
                },
            ),
        }
    }
}

/// The first step on a request, and the cache after it. Without a grant
/// for the path, or with one that lacks the action, the answer is 401,
/// whatever the path holds. A read is served at once. A deletion is
/// staged. A write waits for its payload. Any other method is denied.
pub open spec fn begin_model(
    grants: Option<Seq<Grant>>,
    db: DatabaseModel,
    cache: Versions,
    method: Method,
    path: Seq<Seq<char>>,
    tag: Option<Seq<char>>,
) -> (StepModel, Versions) {
    match allowed(grants, path) {
        None => (StepModel::Respond(bare(401)), cache),
        Some(action) => match method {
            Method::Head | Method::Get => if action.read {
                let (response, after) = read_model(db, cache, method == Method::Head, path, tag);
                (StepModel::Respond(response), after)
            } else {
                (StepModel::Respond(bare(401)), cache)
            },
            Method::Post => if action.write {
                (StepModel::ReadBody, cache)
            } else {
                (StepModel::Respond(bare(401)), cache)
            },
            Method::Delete => if action.write {
                (stage_model(db, Change::Remove(path)), cache)
            } else {
                (StepModel::Respond(bare(401)), cache)
            },
            Method::Other => (StepModel::Respond(bare(401)), cache),
        },
    }
}

/// The step after the payload of a write: 503 where it could not be read or
/// is no JSON, else the write staged.
pub open spec fn post_model(db: DatabaseModel, path: Seq<Seq<char>>, payload: Option<Json>) -> StepModel {
    match payload {
        Some(value) => stage_model(db, Change::Write(path, value)),
        None => StepModel::Respond(bare(503)),
    }
}

/// A staged change is committed if it was made durable and follows on the
/// current document.
pub open spec fn commits(db: DatabaseModel, staged: StagedModel, persisted: bool) -> bool {
    persisted && staged.next.version == db.version + 1
}

/// The document after the last step: the staged one where it is committed,
/// else the current one.
pub open spec fn finish_document(db: DatabaseModel, staged: StagedModel, persisted: bool) -> DatabaseModel {
    if commits(db, staged, persisted) {
        staged.next
    } else {
        db
    }
}

/// The cache after the last step: emptied around the path where the change
/// is committed, else as it was.
pub open spec fn finish_cache(
    db: DatabaseModel,
    cache: Versions,
    staged: StagedModel,
    persisted: bool,
) -> Versions {
    if commits(db, staged, persisted) {
        wiped(cache, staged.path, staged.replace)
    } else {
        cache
    }
}

/// A token that is not known is denied whatever it asks for: the answer is
/// 401 for every method and every path, and the cache stays as it is.
pub proof fn lemma_unknown_token_denied(
    db: DatabaseModel,
    cache: Versions,
    method: Method,
    path: Seq<Seq<char>>,
    tag: Option<Seq<char>>,
)
    ensures
        begin_model(None, db, cache, method, path, tag) == (StepModel::Respond(bare(401)), cache),
{
}

/// What is staged follows on the current document: its version is one
/// higher, and its tree is the current one changed.
pub proof fn lemma_staged_follows(db: DatabaseModel, change: Change)
    requires
        stage_model(db, change) is Persist,
    ensures
        changed(db, change) == Ok::<DatabaseModel, StructuralFault>(
            stage_model(db, change)->Persist_0.next,
        ),
        stage_model(db, change)->Persist_0.next.version == db.version + 1,
{
}

/// The last step raises the version by exactly one where it commits, and
/// leaves it where it does not.
pub proof fn lemma_finish_version(db: DatabaseModel, staged: StagedModel, persisted: bool)
    ensures
        finish_document(db, staged, persisted).version == db.version + if commits(
            db,
            staged,
            persisted,
        ) {
            1nat
        } else {
            0nat
        },
{
}

/// Where persistence fails, the last step changes nothing: the document and
/// the cache are what they were before the change was staged.
pub proof fn lemma_failed_persistence_changes_nothing(
    db: DatabaseModel,
    cache: Versions,
    staged: StagedModel,
)
    ensures
        finish_document(db, staged, false) == db,
        finish_cache(db, cache, staged, false) == cache,
{
}

/// The document after a run of last steps, each with what was staged and
/// whether it was made durable.
pub open spec fn after_finishes(db: DatabaseModel, steps: Seq<(StagedModel, bool)>) -> DatabaseModel
    decreases steps.len(),
{
    if steps.len() == 0 {
        db
    } else {
        finish_document(after_finishes(db, steps.drop_last()), steps.last().0, steps.last().1)
    }
}

/// How many of a run of last steps commit.
pub open spec fn count_commits(db: DatabaseModel, steps: Seq<(StagedModel, bool)>) -> nat
    decreases steps.len(),
{
    if steps.len() == 0 {
        0
    } else {
        count_commits(db, steps.drop_last()) + if commits(
            after_finishes(db, steps.drop_last()),
            steps.last().0,
            steps.last().1,
        ) {
            1nat
        } else {
            0nat
        }
    }
}

/// Over any run of writes and deletions the version rises by one for each
/// that commits, and by nothing else.
pub proof fn lemma_version_counts_commits(db: DatabaseModel, steps: Seq<(StagedModel, bool)>)
    ensures
        after_finishes(db, steps).version == db.version + count_commits(db, steps),
    decreases steps.len(),
{
    if steps.len() > 0 {
        lemma_version_counts_commits(db, steps.drop_last());
    }
}

/// The version never goes down: after the first `k` steps of a run it is at
/// most what it is after the whole run.
pub proof fn lemma_version_never_decreases(
    db: DatabaseModel,
    steps: Seq<(StagedModel, bool)>,
    k: int,
)
    requires
        0 <= k <= steps.len(),
    ensures
        after_finishes(db, steps.take(k)).version <= after_finishes(db, steps).version,
    decreases steps.len(),
{
    if k == steps.len() {
        assert(steps.take(k) =~= steps);
    } else {
        assert(steps.drop_last().take(k) =~= steps.take(k));
        lemma_version_never_decreases(db, steps.drop_last(), k);
    }
}

/// No cached version is ahead of the document.
pub open spec fn cache_within(cache: Versions, db: DatabaseModel) -> bool {
    forall|k: Seq<Seq<char>>| #[trigger] cache.contains_key(k) ==> cache[k] <= db.version
}

/// The path that a change is made at.
pub open spec fn change_path(change: Change) -> Seq<Seq<char>> {
    match change {
        Change::Write(path, _) => path,
        Change::Remove(path) => path,
    }
}

/// The first step on a request leaves no cached version ahead of the
/// document.
pub proof fn lemma_begin_keeps_cache_within(
    grants: Option<Seq<Grant>>,
    db: DatabaseModel,
    cache: Versions,
    method: Method,
    path: Seq<Seq<char>>,
    tag: Option<Seq<char>>,
)
    requires
        cache_within(cache, db),
    ensures
        cache_within(begin_model(grants, db, cache, method, path, tag).1, db),
{
}

/// The last step on a staged change leaves no cached version ahead of the
/// document, whether it commits or not.
pub proof fn lemma_finish_keeps_cache_within(
    db: DatabaseModel,
    cache: Versions,
    change: Change,
    persisted: bool,
)
    requires
        cache_within(cache, db),
        stage_model(db, change) is Persist,
    ensures
        cache_within(
            finish_cache(db, cache, stage_model(db, change)->Persist_0, persisted),
            finish_document(db, stage_model(db, change)->Persist_0, persisted),
        ),
{
}

/// After a change at a path has been committed, a read of that path, of a
/// path above it or of a path below it reports a version that is no older
/// than the change; where no cached version was ahead of the document, it
/// reports exactly the version of the change.
pub proof fn lemma_read_after_commit(
    db: DatabaseModel,
    cache: Versions,
    change: Change,
    q: Seq<Seq<char>>,
)
    requires
        stage_model(db, change) is Persist,
        related(q, change_path(change)),
    ensures
        version_for(
            finish_cache(db, cache, stage_model(db, change)->Persist_0, true),
            q,
            db.version + 1,
        ) >= db.version + 1,
        cache_within(cache, db) ==> version_for(
            finish_cache(db, cache, stage_model(db, change)->Persist_0, true),
            q,
            db.version + 1,
        ) == db.version + 1,
{
    let staged = stage_model(db, change)->Persist_0;
    let after = finish_cache(db, cache, staged, true);
    lemma_read_after_write(cache, staged.path, staged.replace, db.version + 1, q, db.version + 1);
    if cache_within(cache, db) {
        lemma_finish_keeps_cache_within(db, cache, change, true);
        lemma_version_within(after, q, q.len() as int, db.version + 1);
    }
}

proof fn lemma_version_within(cache: Versions, q: Seq<Seq<char>>, n: int, current: nat)
    requires
        forall|k: Seq<Seq<char>>| #[trigger] cache.contains_key(k) ==> cache[k] <= current,
    ensures
        cached_version(cache, q, n) matches Some(found) ==> found <= current,
    decreases n + 1,
{
    if n >= 0 && !cache.contains_key(q.take(n)) {
        lemma_version_within(cache, q, n - 1, current);
    }
}

/// The head of a request, or the answer where there is none to be had:
/// 401 for a token without grants, before the path is looked at; else 503
/// for a path that cannot be decoded.
pub open spec fn accept_model(
    known: bool,
    method: Method,
    subpath: Seq<char>,
    tag: Option<Seq<char>>,
) -> Result<(Method, Seq<Seq<char>>, Option<Seq<char>>), ResponseModel> {
    if !known {
        Err(bare(401))
    } else {
        match parsed_path(subpath) {
            Some(path) => Ok((method, path, tag)),
            None => Err(bare(503)),
        }
    }
}

/// Makes the head of a request from what the transport hands over: the
/// method, the path of the URL below the store's root, and the tag of a
/// conditional read. `known` says whether the request's token has grants:
/// where it has none the answer is 401, whatever the path. Else the path is
/// parsed (see `parse_subpath`); where a piece of it cannot be decoded the
/// answer is 503.
pub fn accept(known: bool, method: Method, subpath: &str, if_none_match: Option<String>) -> (r:
    Result<Request, Response<'static>>)
    ensures
        match accept_model(
            known,
            method,
            subpath@,
            match if_none_match {
                Some(tag) => Some(tag@),
                None => None,
            },
        ) {
            Ok(head) => r is Ok && r->Ok_0.method == head.0 && path_view(r->Ok_0.path@) == head.1
                && (match r->Ok_0.if_none_match {
                Some(tag) => Some(tag@),
                None => None,
            }) == head.2,
            Err(response) => r is Err && r->Err_0@ == response,
        },
{
    if !known {
        return Err(Response { status: 401, body: Body::Empty, etag: None });
    }
    match parse_subpath(subpath) {
        Some(path) => Ok(Request { method, path, if_none_match }),
        None => Err(Response { status: 503, body: Body::Empty, etag: None }),
    }
}

fn respond<'a>(status: u16) -> (r: Step<'a>)
    ensures
        r@ == StepModel::Respond(bare(status as int)),
{
    Step::Respond(Response { status, body: Body::Empty, etag: None })
}

/// Serves a read that is allowed. A conditional read whose tag is that of
/// the version cached for exactly this path gets 304 and nothing is read.
/// Else 200 with the value (for `head_only`, the JSON unit in its place)
/// and the tag of its version, or 404 where the path holds nothing.
pub fn read<'a>(
    db: &'a Database,
    etags: &mut Etags,
    head_only: bool,
    path: &Vec<String>,
    if_none_match: &Option<String>,
) -> (r: Response<'a>)
    ensures
        r@ == read_model(
            db@,
            old(etags)@,
            head_only,
            path_view(path@),
            match if_none_match {
                Some(tag) => Some(tag@),
                None => None,
            },
        ).0,
        final(etags)@ == read_model(
            db@,
            old(etags)@,
            head_only,
            path_view(path@),
            match if_none_match {
                Some(tag) => Some(tag@),
                None => None,
            },
        ).1,
{
    assert(path_view(path@).take(path.len() as int) =~= path_view(path@));
    match if_none_match {
        Some(tag) => match etags.lookup(path, path.len()) {
            Some(version) => {
                let current = format_etag(version);
                if *tag == current {
                    return Response { status: 304, body: Body::Empty, etag: None };
                }
            },
            None => {},
        },
        None => {},
    }
    match get(db, etags, path) {
        Some((data, version)) => {
            let body = if head_only {
                Body::Unit
            } else {
                Body::Json(data)
            };
            Response { status: 200, body, etag: Some(format_etag(version)) }
        },
        None => Response { status: 404, body: Body::Empty, etag: None },
    }
}

/// Stages the deletion of what `path` names.
fn stage_delete<'a>(db: &Database, path: &Vec<String>) -> (r: Step<'a>)
    ensures
        r@ == stage_model(db@, Change::Remove(path_view(path@))),
{
    if db.version == usize::MAX {
        return respond(503);
    }
    match db.deleted(path) {
        Ok(next) => {
            let key = path_prefix(path, path.len());
            assert(path_view(path@).take(path.len() as int) =~= path_view(path@));
            Step::Persist(Staged { next, path: key, replace: None })
        },
        Err(fault) => Step::Respond(
            Response { status: 400, body: Body::Text(describe_fault(&fault, false)), etag: None },
        ),
    }
}

/// The first step on a request. `grants` are the grants of the request's
/// token, `None` where the token is unknown. Without a grant for the path,
/// or with one that lacks the action, the answer is 401. A read is served
/// at once (see `read`). A deletion is staged: 400 with the fault's message
/// where the path cannot be followed, else the changed document to be made
/// durable. A write waits for its payload. Any other method is denied.
pub fn begin<'a>(
    grants: Option<&Access>,
    db: &'a Database,
    etags: &mut Etags,
    request: &Request,
) -> (r: Step<'a>)
    ensures
        r@ == begin_model(
            match grants {
                Some(access) => Some(access@),
                None => None,
            },
            db@,
            old(etags)@,
            request.method,
            path_view(request.path@),
            match request.if_none_match {
                Some(tag) => Some(tag@),
                None => None,
            },
        ).0,
        final(etags)@ == begin_model(
            match grants {
                Some(access) => Some(access@),
                None => None,
            },
            db@,
            old(etags)@,
            request.method,
            path_view(request.path@),
            match request.if_none_match {
                Some(tag) => Some(tag@),
                None => None,
            },
        ).1,
{
    let action = match grants {
        Some(access) => match access.resolve(&request.path) {
            Some(action) => action,
            None => {
                return respond(401);
            },
        },
        None => {
            return respond(401);
        },
    };
    match request.method {
        Method::Head => {
            if !action.read {
                return respond(401);
            }
            Step::Respond(read(db, etags, true, &request.path, &request.if_none_match))
        },
        Method::Get => {
            if !action.read {
                return respond(401);
            }
            Step::Respond(read(db, etags, false, &request.path, &request.if_none_match))
        },
        Method::Post => {
            if !action.write {
                return respond(401);
            }
            Step::ReadBody
        },
        Method::Delete => {
            if !action.write {
                return respond(401);
            }
            stage_delete(db, &request.path)
        },
        Method::Other => respond(401),
    }
}

/// The step after the payload of a write was read. `payload` is `None`
/// where it could not be read or is no JSON: the answer is then 503. Else
/// the write is staged: 400 with the fault's message where the path cannot
/// be followed, else the changed document to be made durable. The current
/// document stays as it is.
pub fn post<'a>(db: &Database, path: &Vec<String>, payload: Option<JsonValue>) -> (r: Step<'a>)
    ensures
        r@ == post_model(
            db@,
            path_view(path@),
            match payload {
                Some(value) => Some(value@),
                None => None,
            },
        ),
{
    let value = match payload {
        Some(value) => value,
        None => {
            return respond(503);
        },
    };
    if db.version == usize::MAX {
        return respond(503);
    }
    match db.replaced(path, value) {
        Ok(next) => {
            let key = path_prefix(path, path.len());
            assert(path_view(path@).take(path.len() as int) =~= path_view(path@));
            let version = next.version;
            Step::Persist(Staged { next, path: key, replace: Some(version) })
        },
        Err(fault) => Step::Respond(
            Response { status: 400, body: Body::Text(describe_fault(&fault, true)), etag: None },
        ),
    }
}

/// The step after the payload of a write was read, from the bytes of the
/// payload; `None` where it could not be read. The bytes are parsed as
/// JSON (see `parse_payload`) and the value is staged as `post` does it.
pub fn post_bytes<'a>(db: &Database, path: &Vec<String>, body: Option<&[u8]>) -> (r: Step<'a>)
    ensures
        r@ == post_model(
            db@,
            path_view(path@),
            match body {
                Some(bytes) => parsed_json(bytes@),
                None => None,
            },
        ),
{
    let payload = match body {
        Some(bytes) => parse_payload(bytes),
        None => None,
    };
    post(db, path, payload)
}

/// The last step of a write or deletion. Where the staged document was made
/// durable (`persisted`) and follows on the current one, it becomes the
/// current document, the cache is emptied around its path, and the answer
/// is 200. Else nothing changes, neither document nor cache, and the
/// answer is 503.
pub fn finish(db: &mut Database, etags: &mut Etags, staged: Staged, persisted: bool) -> (r: Response<
    'static,
>)
    ensures
        final(db)@ == finish_document(old(db)@, staged@, persisted),
        final(etags)@ == finish_cache(old(db)@, old(etags)@, staged@, persisted),
        r@ == (if commits(old(db)@, staged@, persisted) {
            done()
        } else {
            bare(503)
        }),
{
    if !persisted || db.version == usize::MAX || staged.next.version != db.version + 1 {
        return Response { status: 503, body: Body::Empty, etag: None };
    }
    wipe_etags(etags, &staged.path, staged.replace);
    *db = staged.next;
    Response { status: 200, body: Body::Unit, etag: None }
}

} // verus!

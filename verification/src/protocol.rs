//! What is asked of the ce-debug service, and what it answers.

use crate::capsule::Capsule;
use crate::event::{index_document, index_event, with_text};
use crate::json::{
    array_value, as_items, as_text, copied, document, documents, empty_object, member,
    object_value, optional_text, optional_text_value, parse, parsed, set_member, text_value,
    unsigned_value, to_bytes, written, Json,
};
use crate::text::text_of;
use serde_json::Value;
use vstd::prelude::*;

verus! {

/// The service of the ce-debug suite that crashes are reported to and asked of.
pub const SERVICE: &'static str = "ce.debug";

/// The topic that requests to the service go to.
pub const CTL_TOPIC: &'static str = "ce.debug/ctl";

/// How many events are asked for to list the groups of crashes.
pub const LIST_LIMIT: usize = 1000;

/// How many events are asked for to say why an app crashed last.
pub const WHY_LIMIT: usize = 500;

// ---- requests ----

/// The capability that goes with a request: the one given on the command line, or else the one
/// of the environment.
pub open spec fn cap_of(flag: Option<Seq<char>>, env: Option<Seq<char>>) -> Option<Seq<char>> {
    if flag is Some {
        flag
    } else {
        env
    }
}

/// The request for `op` with `args`, and with a capability where there is one.
pub open spec fn request_document(op: Seq<char>, args: Json, cap: Option<Seq<char>>) -> Json {
    with_text(
        empty_object().with("op"@, Json::Text(op)).with("args"@, args),
        "cap"@,
        cap,
    )
}

/// The request to take in the index event of capsule `c`, which is stored under `cid`.
pub open spec fn ingest_document(c: Capsule, cid: Seq<char>, cap: Option<Seq<char>>) -> Json {
    request_document(
        "ingest"@,
        empty_object().with("events"@, Json::Array(seq![index_document(c, cid)])),
        cap,
    )
}

/// The request for the error events of `app`, or of all apps, but for at most `limit` of them.
pub open spec fn query_document(app: Option<Seq<char>>, limit: int, cap: Option<Seq<char>>) -> Json {
    request_document(
        "query"@,
        empty_object().with("app"@, optional_text(app)).with("level"@, Json::Text("error"@)).with(
            "limit"@,
            Json::Int(limit),
        ),
        cap,
    )
}

fn request_value(
    op: &str,
    args: Value,
    cap_flag: Option<String>,
    cap_env: Option<String>,
) -> (r: Value)
    ensures
        document(r) == request_document(
            op@,
            document(args),
            cap_of(text_of(cap_flag), text_of(cap_env)),
        ),
{
    let mut body = object_value();
    set_member(&mut body, "op", text_value(op));
    set_member(&mut body, "args", args);
    let cap = if cap_flag.is_some() {
        cap_flag
    } else {
        cap_env
    };
    if let Some(cap) = cap {
        set_member(&mut body, "cap", text_value(cap.as_str()));
    }
    body
}

/// The request to take in the index event of a capsule that is stored under `cid`.
pub fn ingest_request(
    capsule: &Capsule,
    cid: &str,
    cap_flag: Option<String>,
    cap_env: Option<String>,
) -> (r: Result<Vec<u8>, serde_json::Error>)
    ensures
        r is Ok,
        r->Ok_0@ == written(
            ingest_document(*capsule, cid@, cap_of(text_of(cap_flag), text_of(cap_env))),
        ),
{
    let mut events: Vec<Value> = Vec::new();
    events.push(index_event(capsule, cid));
    assert(documents(events@) =~= seq![index_document(*capsule, cid@)]);
    let mut args = object_value();
    set_member(&mut args, "events", array_value(events));
    to_bytes(&request_value("ingest", args, cap_flag, cap_env))
}

/// The request for the error events of `app`, or of all apps, but for at most `limit` of them.
pub fn query_request(
    app: Option<&str>,
    limit: usize,
    cap_flag: Option<String>,
    cap_env: Option<String>,
) -> (r: Result<Vec<u8>, serde_json::Error>)
    ensures
        r is Ok,
        r->Ok_0@ == written(
            query_document(
                match app {
                    Some(app) => Some(app@),
                    None => None,
                },
                limit as int,
                cap_of(text_of(cap_flag), text_of(cap_env)),
            ),
        ),
{
    let mut args = object_value();
    set_member(&mut args, "app", optional_text_value(app));
    set_member(&mut args, "level", text_value("error"));
    set_member(&mut args, "limit", unsigned_value(limit as u64));
    to_bytes(&request_value("query", args, cap_flag, cap_env))
}

// ---- replies ----

/// Why a reply is of no use.
pub enum ReplyError {
    /// It is no JSON text.
    Malformed(serde_json::Error),
    /// The service refused the request, for the reason given.
    Refused(String),
}

/// The reason for which a reply says that the request was refused.
pub open spec fn refusal(reply: Json) -> Option<Seq<char>> {
    reply.member("error"@).text()
}

/// The events that a reply holds; none where it holds no list of them.
pub open spec fn events_in(reply: Json) -> Seq<Json> {
    match reply.member("result"@).member("events"@).items() {
        Some(events) => events,
        None => Seq::empty(),
    }
}

/// The reason for which a reply says that the request was refused.
pub fn refused(reply: &Value) -> (r: Option<String>)
    ensures
        match r {
            Some(reason) => refusal(document(*reply)) == Some(reason@),
            None => refusal(document(*reply)) is None,
        },
{
    match as_text(member(reply, "error")) {
        Some(reason) => Some(reason.to_owned()),
        None => None,
    }
}

/// The events that a reply holds; none where it holds no list of them.
pub fn reply_events(reply: &Value) -> (r: Vec<Value>)
    ensures
        documents(r@) == events_in(document(*reply)),
{
    let mut out: Vec<Value> = Vec::new();
    match as_items(member(member(reply, "result"), "events")) {
        Some(items) => {
            let ghost all = documents(items@);
            let mut i: usize = 0;
            while i < items.len()
                invariant
                    i <= items@.len(),
                    all == documents(items@),
                    documents(out@) =~= all.take(i as int),
                decreases items@.len() - i,
            {
                let event = copied(&items[i]);
                assert(documents(out@.push(event)) =~= documents(out@).push(document(event)));
                out.push(event);
                i += 1;
            }
            assert(all.take(i as int) =~= all);
        },
        None => {
            assert(documents(out@) =~= Seq::<Json>::empty());
        },
    }
    out
}

/// The reply in `raw`, where the service did what it was asked.
pub fn read_reply(raw: &[u8]) -> (r: Result<Value, ReplyError>)
    ensures
        match r {
            Ok(reply) => parsed(raw@) == Some(document(reply)) && refusal(document(reply)) is None,
            Err(ReplyError::Malformed(_)) => parsed(raw@) is None,
            Err(ReplyError::Refused(reason)) => parsed(raw@) matches Some(reply) && refusal(reply)
                == Some(reason@),
        },
{
    match parse(raw) {
        Ok(reply) => match refused(&reply) {
            Some(reason) => Err(ReplyError::Refused(reason)),
            None => Ok(reply),
        },
        Err(e) => Err(ReplyError::Malformed(e)),
    }
}

/// The events in the reply `raw` to a request for them.
pub fn query_reply(raw: &[u8]) -> (r: Result<Vec<Value>, ReplyError>)
    ensures
        match r {
            Ok(events) => parsed(raw@) matches Some(reply) && refusal(reply) is None && documents(
                events@,
            ) == events_in(reply),
            Err(ReplyError::Malformed(_)) => parsed(raw@) is None,
            Err(ReplyError::Refused(reason)) => parsed(raw@) matches Some(reply) && refusal(reply)
                == Some(reason@),
        },
{
    match read_reply(raw) {
        Ok(reply) => Ok(reply_events(&reply)),
        Err(e) => Err(e),
    }
}

// ---- which node to ask ----

/// What to do next to learn which node provides the service.
pub enum ProviderStep {
    /// Ask this node.
    Use(String),
    /// Ask the mesh which nodes provide the service.
    FindService,
    /// Ask the local node for its own id.
    LocalNode,
}

/// What to do first to learn which node provides the service.
pub open spec fn first_step(explicit: Option<String>, env: Option<String>) -> ProviderStep {
    match (explicit, env) {
        (Some(node), _) => ProviderStep::Use(node),
        (None, Some(node)) => if node@.len() > 0 {
            ProviderStep::Use(node)
        } else {
            ProviderStep::FindService
        },
        (None, None) => ProviderStep::FindService,
    }
}

/// What to do once the mesh was asked which nodes provide the service.
pub open spec fn next_step(found: Option<Seq<String>>) -> ProviderStep {
    match found {
        Some(nodes) => if nodes.len() > 0 {
            ProviderStep::Use(nodes[0])
        } else {
            ProviderStep::LocalNode
        },
        None => ProviderStep::LocalNode,
    }
}

/// What to do first: use the node given on the command line, or else the one of the environment,
/// an empty one not counted, or else look for the service.
pub fn provider_first(explicit: Option<String>, env: Option<String>) -> (r: ProviderStep)
    ensures
        r == first_step(explicit, env),
        match (explicit, env) {
            (Some(node), _) => r == ProviderStep::Use(node),
            (None, Some(node)) => r == if node@.len() > 0 {
                ProviderStep::Use(node)
            } else {
                ProviderStep::FindService
            },
            (None, None) => r == ProviderStep::FindService,
        },
{
    if let Some(node) = explicit {
        return ProviderStep::Use(node);
    }
    if let Some(node) = env {
        if !node.as_str().is_empty() {
            return ProviderStep::Use(node);
        }
    }
    ProviderStep::FindService
}

/// What to do once the mesh was asked: use the first of the nodes that it named, or else the
/// local one. `found` is nothing where the mesh gave no answer.
pub fn provider_found(found: Option<Vec<String>>) -> (r: ProviderStep)
    ensures
        r == next_step(
            match found {
                Some(nodes) => Some(nodes@),
                None => None,
            },
        ),
        match found {
            Some(nodes) => r == if nodes@.len() > 0 {
                ProviderStep::Use(nodes@[0])
            } else {
                ProviderStep::LocalNode
            },
            None => r == ProviderStep::LocalNode,
        },
{
    if let Some(nodes) = found {
        if nodes.len() > 0 {
            return ProviderStep::Use(nodes[0].clone());
        }
    }
    ProviderStep::LocalNode
}

// ---- laws ----

/// A capability of the command line goes with a request before one of the environment; one of the
/// environment goes with it where there is no other.
pub proof fn the_command_line_counts_for_more(
    flag: Seq<char>,
    env: Option<Seq<char>>,
)
    ensures
        cap_of(Some(flag), env) == Some(flag),
        cap_of(None, env) == env,
{
}

/// A request says what is asked for and with what, and carries a capability exactly where there is
/// one; it says nothing else.
pub proof fn a_request_says_what_is_asked(op: Seq<char>, args: Json, cap: Option<Seq<char>>)
    ensures
        ({
            let request = request_document(op, args, cap);
            &&& request.member("op"@) == Json::Text(op)
            &&& request.member("args"@) == args
            &&& match cap {
                Some(cap) => request.member("cap"@) == Json::Text(cap),
                None => request.member("cap"@) == Json::Null,
            }
            &&& forall|key: Seq<char>| #[trigger]
                request.member(key) != Json::Null ==> key == "op"@ || key == "args"@ || key
                    == "cap"@
        }),
{
    reveal_strlit("op");
    reveal_strlit("args");
    reveal_strlit("cap");
    assert("op"@.len() == 2 && "args"@.len() == 4 && "cap"@.len() == 3);
}

/// The request to take in a capsule carries one event, the index event of that capsule under that
/// id, and no other.
pub proof fn an_ingest_carries_the_index_event(c: Capsule, cid: Seq<char>, cap: Option<Seq<char>>)
    ensures
        ({
            let request = ingest_document(c, cid, cap);
            &&& request.member("op"@) == Json::Text("ingest"@)
            &&& request.member("args"@).member("events"@).items() == Some(
                seq![index_document(c, cid)],
            )
            &&& request.member("cap"@).text() == cap
            &&& forall|key: Seq<char>| #[trigger]
                request.member("args"@).member(key) != Json::Null ==> key == "events"@
        }),
{
    let args = empty_object().with("events"@, Json::Array(seq![index_document(c, cid)]));
    a_request_says_what_is_asked("ingest"@, args, cap);
}

/// The request for events asks for errors alone, of the app that is named or of all apps, and for
/// as many as is said; it asks for nothing else.
pub proof fn a_query_asks_for_errors(app: Option<Seq<char>>, limit: int, cap: Option<Seq<char>>)
    ensures
        ({
            let request = query_document(app, limit, cap);
            let args = request.member("args"@);
            &&& request.member("op"@) == Json::Text("query"@)
            &&& args.member("level"@) == Json::Text("error"@)
            &&& args.member("limit"@) == Json::Int(limit)
            &&& args.member("app"@).text() == app
            &&& app is None ==> args.member("app"@) == Json::Null
            &&& request.member("cap"@).text() == cap
            &&& forall|key: Seq<char>| #[trigger]
                args.member(key) != Json::Null ==> key == "app"@ || key == "level"@ || key
                    == "limit"@
        }),
{
    reveal_strlit("app");
    reveal_strlit("level");
    reveal_strlit("limit");
    assert("app"@.len() == 3 && "level"@.len() == 5 && "limit"@.len() == 5);
    assert("level"@[1] != "limit"@[1]);
    let args = empty_object().with("app"@, optional_text(app)).with(
        "level"@,
        Json::Text("error"@),
    ).with("limit"@, Json::Int(limit));
    a_request_says_what_is_asked("query"@, args, cap);
}

/// A reply refuses exactly where it holds a text as its error, which is the reason, whatever else
/// it holds. Its events are all the items of the list in its result; without such a list there are
/// none.
pub proof fn a_reply_is_read_as_it_is(reply: Json, reason: Seq<char>, events: Seq<Json>)
    ensures
        refusal(reply) == Some(reason) <==> reply.member("error"@) == Json::Text(reason),
        refusal(reply) is None <==> !(reply.member("error"@) is Text),
        reply.member("result"@).member("events"@) == Json::Array(events) ==> events_in(reply)
            == events,
        !(reply.member("result"@).member("events"@) is Array) ==> events_in(reply).len() == 0,
{
}

/// A node of the command line is asked before all others, whatever the environment says; a node of
/// the environment is asked before the mesh is, unless it is empty; of the nodes that the mesh names
/// the first is asked, and the local node only where it names none.
pub proof fn nodes_are_asked_in_turn(
    node: String,
    env: Option<String>,
    nodes: Seq<String>,
)
    ensures
        first_step(Some(node), env) == ProviderStep::Use(node),
        first_step(None, Some(node)) == ProviderStep::Use(node) <==> node@.len() > 0,
        node@.len() == 0 ==> first_step(None, Some(node)) is FindService,
        first_step(None, None) is FindService,
        next_step(Some(seq![node] + nodes)) == ProviderStep::Use(node),
        next_step(Some(Seq::<String>::empty())) is LocalNode,
        next_step(None) is LocalNode,
{
    assert((seq![node] + nodes)[0] == node);
}

/// A list is made of the last thousand events, the answer to why one app crashed of half as many.
pub proof fn enough_events_are_asked_for()
    ensures
        LIST_LIMIT == 1000,
        WHY_LIMIT == 500,
{
}

} // verus!

//! The dispatcher: pure routing from a decoded command to exactly one
//! response. All side effects are delegated to the storage engine; every
//! storage error is mapped to its stable textual code, so no internal
//! representation crosses the wire, and no caller error ever tears the
//! connection down.

use vstd::prelude::*;
use vstd::string::*;
use crate::errors::StorageError;
use crate::protocol::{Command, CommandModel, Response, ResponseModel, names_view};
use crate::storage::{StorageEngine, valid_name, name_in};
use crate::text;

verus! {

/// Whether `ns` lists exactly the names of `m` that pass the optional
/// substring filter, in strictly ascending lexicographic order.
pub open spec fn listing_ok(
    m: Map<Seq<char>, Seq<u8>>,
    sub: Option<Seq<char>>,
    ns: Seq<Seq<char>>,
) -> bool {
    &&& forall|n: Seq<char>| #[trigger]
        ns.contains(n) ==> m.contains_key(n) && (match sub {
            Option::Some(s) => text::contains_sub(n, s),
            Option::None => true,
        })
    &&& forall|n: Seq<char>|
        #[trigger] m.contains_key(n) && (match sub {
            Option::Some(s) => text::contains_sub(n, s),
            Option::None => true,
        }) ==> ns.contains(n)
    &&& forall|i: int, j: int| 0 <= i < j < ns.len() ==> text::lex_lt(#[trigger] ns[i], #[trigger] ns[j])
}

/// How one command transforms the stored map: uploads insert, deletes
/// remove, everything else reads.
pub open spec fn engine_step(
    pre: Map<Seq<char>, Seq<u8>>,
    post: Map<Seq<char>, Seq<u8>>,
    c: CommandModel,
) -> bool {
    match c {
        CommandModel::ListFiles => post == pre,
        CommandModel::Upload { name, bytes } => post == if valid_name(name) {
            pre.insert(name, bytes)
        } else {
            pre
        },
        CommandModel::Download { name: _ } => post == pre,
        CommandModel::Delete { name } => post == if pre.contains_key(name) {
            pre.remove(name)
        } else {
            pre
        },
        CommandModel::Search { substring: _ } => post == pre,
    }
}

/// What the response to one command says, given the map the command
/// found: a stable message, a payload only for a successful download,
/// and a sorted listing only for a list or a search.
pub open spec fn resp_rel(pre: Map<Seq<char>, Seq<u8>>, c: CommandModel, rm: ResponseModel) -> bool {
    match c {
        CommandModel::ListFiles => {
            &&& rm.message == "ok"@
            &&& rm.bytes is None
            &&& rm.names is Some
            &&& listing_ok(pre, Option::None, rm.names->0)
        },
        CommandModel::Upload { name, bytes: _ } => {
            &&& (valid_name(name) ==> rm.message == "ok"@)
            &&& (!valid_name(name) ==> rm.message == StorageError::InvalidName.spec_code())
            &&& rm.bytes is None
            &&& rm.names is None
        },
        CommandModel::Download { name } => {
            &&& (pre.contains_key(name) ==> rm.message == "ok"@ && rm.bytes == Option::Some(
                pre[name],
            ))
            &&& (!pre.contains_key(name) ==> rm.message == StorageError::NotFound.spec_code()
                && rm.bytes is None)
            &&& rm.names is None
        },
        CommandModel::Delete { name } => {
            &&& (pre.contains_key(name) ==> rm.message == "ok"@)
            &&& (!pre.contains_key(name) ==> rm.message == StorageError::NotFound.spec_code())
            &&& rm.bytes is None
            &&& rm.names is None
        },
        CommandModel::Search { substring } => {
            &&& rm.message == "ok"@
            &&& rm.bytes is None
            &&& rm.names is Some
            &&& listing_ok(pre, Option::Some(substring), rm.names->0)
        },
    }
}

/// Routes one command to the engine and produces its response. The
/// response carries a payload only for a download, a listing only for a
/// list or a search, and a stable error code whenever the engine
/// refuses.
pub fn handle(engine: &mut StorageEngine, cmd: Command) -> (r: Response)
    requires
        old(engine).wf(),
    ensures
        final(engine).wf(),
        engine_step(old(engine)@, final(engine)@, cmd@),
        resp_rel(old(engine)@, cmd@, r@),
{
    match cmd {
        Command::ListFiles => {
            let names = engine.list();
            proof {
                let nv = names_view(names@);
                assert forall|n: Seq<char>| nv.contains(n) <==> name_in(names@, n) by {
                    if nv.contains(n) {
                        let k = choose|k: int| 0 <= k < nv.len() && nv[k] == n;
                        assert((#[trigger] names@[k])@ == n);
                    }
                    if name_in(names@, n) {
                        let k = choose|k: int| 0 <= k < names@.len() && (#[trigger] names@[k])@ == n;
                        assert(nv[k] == n);
                    }
                }
                assert forall|i: int, j: int| 0 <= i < j < nv.len() implies text::lex_lt(
                    #[trigger] nv[i],
                    #[trigger] nv[j],
                ) by {
                    assert(nv[i] == (#[trigger] names@[i])@);
                    assert(nv[j] == (#[trigger] names@[j])@);
                }
            }
            Response { message: "ok".to_owned(), bytes: None, names: Some(names) }
        },
        Command::Upload { name, bytes } => {
            let message = match engine.store(name.as_str(), bytes) {
                Ok(()) => "ok".to_owned(),
                Err(e) => e.code(),
            };
            Response { message, bytes: None, names: None }
        },
        Command::Download { name } => {
            match engine.retrieve(name.as_str()) {
                Ok(data) => Response {
                    message: "ok".to_owned(),
                    bytes: Some(data),
                    names: None,
                },
                Err(e) => Response { message: e.code(), bytes: None, names: None },
            }
        },
        Command::Delete { name } => {
            let message = match engine.delete(name.as_str()) {
                Ok(()) => "ok".to_owned(),
                Err(e) => e.code(),
            };
            Response { message, bytes: None, names: None }
        },
        Command::Search { substring } => {
            let names = engine.search(substring.as_str());
            proof {
                let nv = names_view(names@);
                assert forall|n: Seq<char>| nv.contains(n) <==> name_in(names@, n) by {
                    if nv.contains(n) {
                        let k = choose|k: int| 0 <= k < nv.len() && nv[k] == n;
                        assert((#[trigger] names@[k])@ == n);
                    }
                    if name_in(names@, n) {
                        let k = choose|k: int| 0 <= k < names@.len() && (#[trigger] names@[k])@ == n;
                        assert(nv[k] == n);
                    }
                }
                assert forall|i: int, j: int| 0 <= i < j < nv.len() implies text::lex_lt(
                    #[trigger] nv[i],
                    #[trigger] nv[j],
                ) by {
                    assert(nv[i] == (#[trigger] names@[i])@);
                    assert(nv[j] == (#[trigger] names@[j])@);
                }
            }
            Response { message: "ok".to_owned(), bytes: None, names: Some(names) }
        },
    }
}

/// Deleting is idempotent at the protocol layer: once a `Delete` for a
/// name has been applied, a second `Delete` for the same name is
/// answered with the `not_found` code — an error response, never a
/// crash.
pub proof fn lemma_second_delete_reports_not_found(
    pre: Map<Seq<char>, Seq<u8>>,
    mid: Map<Seq<char>, Seq<u8>>,
    name: Seq<char>,
    rm: ResponseModel,
)
    requires
        engine_step(pre, mid, CommandModel::Delete { name }),
        resp_rel(mid, CommandModel::Delete { name }, rm),
    ensures
        rm.message == StorageError::NotFound.spec_code(),
{
    assert(!mid.contains_key(name));
}

/// A listing is determined: any two sequences that both list exactly
/// the matching names in strictly ascending order are equal, so every
/// list or search answer is unique.
pub proof fn lemma_listing_unique(
    m: Map<Seq<char>, Seq<u8>>,
    sub: Option<Seq<char>>,
    ns1: Seq<Seq<char>>,
    ns2: Seq<Seq<char>>,
)
    requires
        listing_ok(m, sub, ns1),
        listing_ok(m, sub, ns2),
    ensures
        ns1 == ns2,
{
    assert forall|x: Seq<char>| ns1.contains(x) <==> ns2.contains(x) by {
        if ns1.contains(x) {
            assert(m.contains_key(x));
        }
        if ns2.contains(x) {
            assert(m.contains_key(x));
        }
    }
    text::lemma_sorted_distinct_same_elems(ns1, ns2);
}

} // verus!

//! Laws of the service as a whole, stated over the specification of
//! the handlers and the store model.
use vstd::prelude::*;
use crate::codec::spec_encode_list;
use crate::handler::{Status, spec_handle_request};
use crate::parser::{Route, spec_route, spec_get_id, spec_parse_user_body};
use crate::store::{StoreView, spec_all};
use crate::user::UserView;

verus! {

/// Law: a create the store accepts, followed by read-all, answers
/// with exactly one more record than the store held, and that
/// record's name and email are the ones the body carried.  The
/// store must have room for a fresh id and not hold the email yet;
/// a duplicate email is refused by the unique-email constraint.
pub proof fn lemma_create_then_read_all(
    v: StoreView,
    create_req: Seq<char>,
    list_req: Seq<char>,
    u: UserView,
)
    requires
        v.wf(),
        spec_route(create_req) == Route::Create,
        spec_parse_user_body(create_req) == Some(u),
        !v.has_email(u.email),
        v.next < i32::MAX,
        spec_route(list_req) == Route::ReadAll,
    ensures
        ({
            let first = spec_handle_request(v, create_req);
            let second = spec_handle_request(first.1, list_req);
            &&& first.0.status == Status::Success
            &&& first.0.body == "User created"@
            &&& first.1.users.len() == v.users.len() + 1
            &&& first.1.users.last().name == u.name
            &&& first.1.users.last().email == u.email
            &&& second.0.status == Status::Success
            &&& second.0.body == spec_encode_list(spec_all(first.1))
            &&& spec_all(first.1).len() == v.users.len() + 1
            &&& spec_all(first.1).last().name == u.name
            &&& spec_all(first.1).last().email == u.email
            &&& second.1 == first.1
        }),
{
    let first = spec_handle_request(v, create_req);
    assert(spec_all(first.1).len() == first.1.users.len());
    assert(spec_all(first.1).last() == spec_all(first.1)[first.1.users.len() - 1]);
}

/// Law: a well-formed read-one, update or delete that names an id
/// the store does not hold answers not-found, never a server error,
/// and leaves the store as it was.  For update the body must decode;
/// a body that does not is its own error.
pub proof fn lemma_absent_id_not_found(v: StoreView, req: Seq<char>, id: int)
    requires
        v.wf(),
        spec_get_id(req) == Some(id),
        !v.has_id(id),
    ensures
        spec_route(req) == Route::ReadOne ==> spec_handle_request(v, req).0.status
            == Status::NotFound && spec_handle_request(v, req).1 == v,
        spec_route(req) == Route::Update && spec_parse_user_body(req) is Some ==> spec_handle_request(
            v,
            req,
        ).0.status == Status::NotFound && spec_handle_request(v, req).1 == v,
        spec_route(req) == Route::Delete ==> spec_handle_request(v, req).0.status
            == Status::NotFound && spec_handle_request(v, req).1 == v,
{
}

/// Law: a create or update whose body is not a well-formed user
/// object answers a server error and changes nothing in the store.
pub proof fn lemma_malformed_body_no_mutation(v: StoreView, req: Seq<char>)
    requires
        v.wf(),
        spec_parse_user_body(req) is None,
        spec_route(req) == Route::Create || spec_route(req) == Route::Update,
    ensures
        spec_handle_request(v, req).0.status == Status::ServerError,
        spec_handle_request(v, req).1 == v,
{
}

} // verus!

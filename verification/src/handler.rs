//! The router and the five operation handlers, verified against the
//! store model: from a raw request and a store state to the response
//! and the next store state.
use vstd::prelude::*;
use crate::codec::{spec_encode_user, spec_encode_list, encode_user, encode_users};
use crate::parser::{
    Route, spec_route, route_request, spec_get_id, get_id_from_request, spec_parse_user_body,
    parse_user_body,
};
use crate::store::{
    StoreView, UserStore, spec_find_idx, spec_insert, spec_update, spec_delete, spec_all,
};
use crate::user::{User, UserView};

verus! {

/// The three response classes the service knows.
#[derive(PartialEq, Eq, Structural, Clone, Copy, Debug)]
pub enum Status {
    Success,
    NotFound,
    ServerError,
}

/// Mathematical view of a response.
pub ghost struct RespView {
    pub status: Status,
    pub body: Seq<char>,
}

/// A response: a class and a body, rendered onto the wire later.
pub struct Response {
    pub status: Status,
    pub body: String,
}

impl View for Response {
    type V = RespView;

    open spec fn view(&self) -> RespView {
        RespView { status: self.status, body: self.body@ }
    }
}

pub open spec fn resp(status: Status, body: Seq<char>) -> RespView {
    RespView { status, body }
}

/// The status line and headers written before a body.
pub open spec fn spec_status_line(st: Status) -> Seq<char> {
    match st {
        Status::Success => "HTTP/1.1 200 OK\r\nContent-Type: application/json\r\n\r\n"@,
        Status::NotFound => "HTTP/1.1 404 NOT FOUND\r\n\r\n"@,
        Status::ServerError => "HTTP/1.1 500 INTERNAL SERVER ERROR\r\n\r\n"@,
    }
}

/// The wire text of a response class.
pub fn status_line(st: Status) -> (r: &'static str)
    ensures
        r@ == spec_status_line(st),
{
    match st {
        Status::Success => "HTTP/1.1 200 OK\r\nContent-Type: application/json\r\n\r\n",
        Status::NotFound => "HTTP/1.1 404 NOT FOUND\r\n\r\n",
        Status::ServerError => "HTTP/1.1 500 INTERNAL SERVER ERROR\r\n\r\n",
    }
}

/// The full wire text of a response.
pub fn render_response(r: &Response) -> (s: String)
    ensures
        s@ == spec_status_line(r@.status) + r@.body,
{
    let mut s = String::from_str(status_line(r.status));
    s.append(r.body.as_str());
    s
}

/// What create does: decode the body, insert, confirm; a body that
/// does not decode, or an insert the store refuses, is a server
/// error that changes nothing.
pub open spec fn spec_handle_post(v: StoreView, r: Seq<char>) -> (RespView, StoreView) {
    match spec_parse_user_body(r) {
        None => (resp(Status::ServerError, "Failed to parse or connect"@), v),
        Some(u) => {
            let step = spec_insert(v, u.name, u.email);
            match step.0 {
                Ok(_) => (resp(Status::Success, "User created"@), step.1),
                Err(_) => (resp(Status::ServerError, "Failed to insert user"@), v),
            }
        },
    }
}

/// What read-one does: a bad id is a server error, a missing record
/// is not found, a present record is returned encoded.
pub open spec fn spec_handle_get(v: StoreView, r: Seq<char>) -> (RespView, StoreView) {
    match spec_get_id(r) {
        None => (resp(Status::ServerError, "Error fetching user"@), v),
        Some(id) => match spec_find_idx(v.users, id, 0) {
            Some(i) => (
                resp(
                    Status::Success,
                    spec_encode_user(
                        UserView {
                            id: Some(v.users[i].id),
                            name: v.users[i].name,
                            email: v.users[i].email,
                        },
                    ),
                ),
                v,
            ),
            None => (resp(Status::NotFound, "User not found"@), v),
        },
    }
}

/// What read-all does: every record, encoded as an array.
pub open spec fn spec_handle_get_all(v: StoreView) -> (RespView, StoreView) {
    (resp(Status::Success, spec_encode_list(spec_all(v))), v)
}

/// What update does: both id and body must read; zero affected rows
/// is not found; an update the store refuses is a server error that
/// changes nothing.
pub open spec fn spec_handle_put(v: StoreView, r: Seq<char>) -> (RespView, StoreView) {
    match (spec_get_id(r), spec_parse_user_body(r)) {
        (Some(id), Some(u)) => {
            let step = spec_update(v, id, u.name, u.email);
            match step.0 {
                Ok(n) => if n > 0 {
                    (resp(Status::Success, "User updated"@), step.1)
                } else {
                    (resp(Status::NotFound, "User not found"@), v)
                },
                Err(_) => (resp(Status::ServerError, "Failed to update"@), v),
            }
        },
        _ => (resp(Status::ServerError, "Invalid input or connection error"@), v),
    }
}

/// What delete does: zero affected rows is not found.
pub open spec fn spec_handle_delete(v: StoreView, r: Seq<char>) -> (RespView, StoreView) {
    match spec_get_id(r) {
        None => (resp(Status::ServerError, "Invalid input or connection error"@), v),
        Some(id) => {
            let step = spec_delete(v, id);
            if step.0 > 0 {
                (resp(Status::Success, "User deleted"@), step.1)
            } else {
                (resp(Status::NotFound, "User not found"@), v)
            }
        },
    }
}

/// One whole request: route it, run the operation, answer.
pub open spec fn spec_handle_request(v: StoreView, r: Seq<char>) -> (RespView, StoreView) {
    match spec_route(r) {
        Route::Create => spec_handle_post(v, r),
        Route::ReadOne => spec_handle_get(v, r),
        Route::ReadAll => spec_handle_get_all(v),
        Route::Update => spec_handle_put(v, r),
        Route::Delete => spec_handle_delete(v, r),
        Route::NoRoute => (resp(Status::NotFound, "Route not found"@), v),
    }
}


/// The response to a create, given whether the store accepted the
/// insert.
pub fn created_response(inserted: bool) -> (r: Response)
    ensures
        r@ == if inserted {
            resp(Status::Success, "User created"@)
        } else {
            resp(Status::ServerError, "Failed to insert user"@)
        },
{
    if inserted {
        Response { status: Status::Success, body: String::from_str("User created") }
    } else {
        Response { status: Status::ServerError, body: String::from_str("Failed to insert user") }
    }
}

/// The response to a create whose body did not decode or whose store
/// could not be reached.
pub fn create_rejected_response() -> (r: Response)
    ensures
        r@ == resp(Status::ServerError, "Failed to parse or connect"@),
{
    Response { status: Status::ServerError, body: String::from_str("Failed to parse or connect") }
}

/// The response to a read-one: the outer `None` is a failed id parse
/// or an unreachable store, the inner the looked-up record.
pub fn fetched_response(outcome: Option<Option<User>>) -> (r: Response)
    ensures
        r@ == match outcome {
            None => resp(Status::ServerError, "Error fetching user"@),
            Some(None) => resp(Status::NotFound, "User not found"@),
            Some(Some(u)) => resp(Status::Success, spec_encode_user(u@)),
        },
{
    match outcome {
        None => Response { status: Status::ServerError, body: String::from_str("Error fetching user") },
        Some(None) => Response { status: Status::NotFound, body: String::from_str("User not found") },
        Some(Some(u)) => Response { status: Status::Success, body: encode_user(&u) },
    }
}

/// The response to a read-all: `None` is an unreachable store or a
/// failed query.
pub fn listed_response(outcome: Option<Vec<User>>) -> (r: Response)
    ensures
        r@ == match outcome {
            None => resp(Status::ServerError, "Error listing users"@),
            Some(users) => resp(
                Status::Success,
                spec_encode_list(users@.map_values(|x: User| x@)),
            ),
        },
{
    match outcome {
        None => Response { status: Status::ServerError, body: String::from_str("Error listing users") },
        Some(users) => Response { status: Status::Success, body: encode_users(&users) },
    }
}

/// The response to an update, from the affected-row count; `None` is
/// a store refusal.
pub fn updated_response(affected: Option<u64>) -> (r: Response)
    ensures
        r@ == match affected {
            None => resp(Status::ServerError, "Failed to update"@),
            Some(n) => if n > 0 {
                resp(Status::Success, "User updated"@)
            } else {
                resp(Status::NotFound, "User not found"@)
            },
        },
{
    match affected {
        None => Response { status: Status::ServerError, body: String::from_str("Failed to update") },
        Some(n) => if n > 0 {
            Response { status: Status::Success, body: String::from_str("User updated") }
        } else {
            Response { status: Status::NotFound, body: String::from_str("User not found") }
        },
    }
}

/// The response to a delete, from the affected-row count; `None` is
/// a store refusal.
pub fn deleted_response(affected: Option<u64>) -> (r: Response)
    ensures
        r@ == match affected {
            None => resp(Status::ServerError, "Failed to delete user"@),
            Some(n) => if n > 0 {
                resp(Status::Success, "User deleted"@)
            } else {
                resp(Status::NotFound, "User not found"@)
            },
        },
{
    match affected {
        None => Response { status: Status::ServerError, body: String::from_str("Failed to delete user") },
        Some(n) => if n > 0 {
            Response { status: Status::Success, body: String::from_str("User deleted") }
        } else {
            Response { status: Status::NotFound, body: String::from_str("User not found") }
        },
    }
}

/// The response to an update or delete whose inputs did not read or
/// whose store could not be reached.
pub fn modify_rejected_response() -> (r: Response)
    ensures
        r@ == resp(Status::ServerError, "Invalid input or connection error"@),
{
    Response {
        status: Status::ServerError,
        body: String::from_str("Invalid input or connection error"),
    }
}

/// The response to a request no route matched.
pub fn route_not_found_response() -> (r: Response)
    ensures
        r@ == resp(Status::NotFound, "Route not found"@),
{
    Response { status: Status::NotFound, body: String::from_str("Route not found") }
}

/// Create a record from the request body.
pub fn handle_post(store: &mut UserStore, request: &str) -> (r: Response)
    requires
        old(store)@.wf(),
    ensures
        final(store)@.wf(),
        (r@, final(store)@) == spec_handle_post(old(store)@, request@),
{
    match parse_user_body(request) {
        Err(_) => create_rejected_response(),
        Ok(u) => {
            let User { id: _, name, email } = u;
            let inserted = store.insert_user(name, email).is_ok();
            created_response(inserted)
        },
    }
}

/// Read the record the path names.
pub fn handle_get(store: &mut UserStore, request: &str) -> (r: Response)
    requires
        old(store)@.wf(),
    ensures
        final(store)@.wf(),
        final(store)@ == old(store)@,
        (r@, final(store)@) == spec_handle_get(old(store)@, request@),
{
    match get_id_from_request(request) {
        Err(_) => fetched_response(None),
        Ok(id) => fetched_response(Some(store.find_user(id))),
    }
}

/// Read every record.
pub fn handle_get_all(store: &mut UserStore) -> (r: Response)
    requires
        old(store)@.wf(),
    ensures
        final(store)@.wf(),
        final(store)@ == old(store)@,
        (r@, final(store)@) == spec_handle_get_all(old(store)@),
{
    let users = store.all_users();
    proof {
        assert(users@.map_values(|x: User| x@) =~= spec_all(store@));
    }
    listed_response(Some(users))
}

/// Overwrite the record the path names with the body's fields.
pub fn handle_put(store: &mut UserStore, request: &str) -> (r: Response)
    requires
        old(store)@.wf(),
    ensures
        final(store)@.wf(),
        (r@, final(store)@) == spec_handle_put(old(store)@, request@),
{
    match (get_id_from_request(request), parse_user_body(request)) {
        (Ok(id), Ok(u)) => {
            let User { id: _, name, email } = u;
            let affected = match store.update_user(id, name, email) {
                Ok(n) => Some(n),
                Err(_) => None,
            };
            updated_response(affected)
        },
        _ => modify_rejected_response(),
    }
}

/// Remove the record the path names.
pub fn handle_delete(store: &mut UserStore, request: &str) -> (r: Response)
    requires
        old(store)@.wf(),
    ensures
        final(store)@.wf(),
        (r@, final(store)@) == spec_handle_delete(old(store)@, request@),
{
    match get_id_from_request(request) {
        Err(_) => modify_rejected_response(),
        Ok(id) => {
            let n = store.delete_user(id);
            deleted_response(Some(n))
        },
    }
}

/// Serve one request against the store: the verified core of a
/// connection's lifetime between the read and the write.
pub fn handle_request(store: &mut UserStore, request: &str) -> (r: Response)
    requires
        old(store)@.wf(),
    ensures
        final(store)@.wf(),
        (r@, final(store)@) == spec_handle_request(old(store)@, request@),
{
    match route_request(request) {
        Route::Create => handle_post(store, request),
        Route::ReadOne => handle_get(store, request),
        Route::ReadAll => handle_get_all(store),
        Route::Update => handle_put(store, request),
        Route::Delete => handle_delete(store, request),
        Route::NoRoute => route_not_found_response(),
    }
}

} // verus!

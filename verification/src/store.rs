//! In-memory model of the data store: a table of user records with
//! store-assigned serial ids and a unique-email constraint, the two
//! behaviours of the relational backend that the handlers rely on.
use vstd::prelude::*;
use crate::user::{User, UserView};

verus! {

/// A stored record: id assigned, both text fields present.
pub ghost struct RecView {
    pub id: int,
    pub name: Seq<char>,
    pub email: Seq<char>,
}

/// Mathematical view of the whole store: the records in insertion
/// order and the next serial id to hand out.
pub ghost struct StoreView {
    pub users: Seq<RecView>,
    pub next: int,
}

/// The store refused an operation: the unique-email constraint was
/// violated, or the serial id space is exhausted.
#[derive(Clone, Copy, Debug, PartialEq, Eq, Structural)]
pub struct StoreError;

/// One row of the user table.
pub struct UserRec {
    pub id: i32,
    pub name: String,
    pub email: String,
}

impl View for UserRec {
    type V = RecView;

    open spec fn view(&self) -> RecView {
        RecView { id: self.id as int, name: self.name@, email: self.email@ }
    }
}

/// The user table plus its serial-id counter.
pub struct UserStore {
    pub users: Vec<UserRec>,
    pub next: i32,
}

impl View for UserStore {
    type V = StoreView;

    open spec fn view(&self) -> StoreView {
        StoreView { users: self.users@.map_values(|r: UserRec| r@), next: self.next as int }
    }
}

impl StoreView {
    /// Ids are positive, below the serial counter, and unique; emails
    /// are unique; the counter itself fits in an `i32`.
    pub open spec fn wf(self) -> bool {
        &&& 1 <= self.next <= i32::MAX
        &&& forall|i: int| 0 <= i < self.users.len() ==> 1 <= #[trigger] self.users[i].id < self.next
        &&& forall|i: int, j: int|
            0 <= i < j < self.users.len() ==> #[trigger] self.users[i].id != #[trigger] self.users[j].id
        &&& forall|i: int, j: int|
            0 <= i < j < self.users.len() ==> #[trigger] self.users[i].email != #[trigger] self.users[j].email
    }

    /// Some record already carries this email.
    pub open spec fn has_email(self, email: Seq<char>) -> bool {
        exists|i: int| 0 <= i < self.users.len() && #[trigger] self.users[i].email == email
    }

    /// Some record carries this id.
    pub open spec fn has_id(self, id: int) -> bool {
        spec_find_idx(self.users, id, 0) is Some
    }
}

/// Index of the first record at or after position `i` whose id is `id`.
pub open spec fn spec_find_idx(users: Seq<RecView>, id: int, i: int) -> Option<int>
    decreases users.len() - i,
{
    if !(0 <= i < users.len()) {
        None
    } else if users[i].id == id {
        Some(i)
    } else {
        spec_find_idx(users, id, i + 1)
    }
}

/// What inserting a record does: a fresh email gets the next serial
/// id and goes to the end of the table; a duplicate email, or an
/// exhausted id space, leaves the store unchanged.
pub open spec fn spec_insert(v: StoreView, name: Seq<char>, email: Seq<char>) -> (Result<int, ()>, StoreView) {
    if v.has_email(email) || v.next == i32::MAX {
        (Err(()), v)
    } else {
        (
            Ok(v.next),
            StoreView {
                users: v.users.push(RecView { id: v.next, name, email }),
                next: v.next + 1,
            },
        )
    }
}

/// Another record than the one at `except` already carries `email`.
pub open spec fn email_conflict(users: Seq<RecView>, email: Seq<char>, except: int) -> bool {
    exists|j: int| 0 <= j < users.len() && j != except && #[trigger] users[j].email == email
}

/// What updating by id does: a missing id touches nothing and affects
/// zero rows; an email held by a different record is a constraint
/// violation; otherwise both fields of the matching record are
/// overwritten and one row is affected.
pub open spec fn spec_update(v: StoreView, id: int, name: Seq<char>, email: Seq<char>) -> (Result<
    int,
    (),
>, StoreView) {
    match spec_find_idx(v.users, id, 0) {
        None => (Ok(0), v),
        Some(i) => if email_conflict(v.users, email, i) {
            (Err(()), v)
        } else {
            (Ok(1), StoreView { users: v.users.update(i, RecView { id, name, email }), next: v.next })
        },
    }
}

/// What deleting by id does: the matching record leaves the table and
/// one row is affected; a missing id affects zero rows.
pub open spec fn spec_delete(v: StoreView, id: int) -> (int, StoreView) {
    match spec_find_idx(v.users, id, 0) {
        None => (0, v),
        Some(i) => (1, StoreView { users: v.users.remove(i), next: v.next }),
    }
}

/// The records as wire-facing users, ids filled in, in table order.
pub open spec fn spec_all(v: StoreView) -> Seq<UserView> {
    v.users.map_values(|r: RecView| UserView { id: Some(r.id), name: r.name, email: r.email })
}

/// A successful find points at a matching record inside the table.
proof fn lemma_find_idx_bounds(users: Seq<RecView>, id: int, k: int)
    requires
        0 <= k,
    ensures
        spec_find_idx(users, id, k) matches Some(i) ==> k <= i < users.len() && users[i].id == id,
    decreases users.len() - k,
{
    if k < users.len() {
        lemma_find_idx_bounds(users, id, k + 1);
    }
}

/// Finding from the start succeeds at `i` when no earlier record
/// matches and the one at `i` does.
proof fn lemma_find_idx_hit(users: Seq<RecView>, id: int, k: int, i: int)
    requires
        0 <= k <= i < users.len(),
        users[i].id == id,
        forall|m: int| k <= m < i ==> #[trigger] users[m].id != id,
    ensures
        spec_find_idx(users, id, k) == Some(i),
    decreases i - k,
{
    if k < i {
        lemma_find_idx_hit(users, id, k + 1, i);
    }
}

/// Finding from the start fails when no record matches.
proof fn lemma_find_idx_miss(users: Seq<RecView>, id: int, k: int)
    requires
        0 <= k,
        forall|m: int| k <= m < users.len() ==> #[trigger] users[m].id != id,
    ensures
        spec_find_idx(users, id, k) is None,
    decreases users.len() - k,
{
    if k < users.len() {
        lemma_find_idx_miss(users, id, k + 1);
    }
}

/// The store-schema bootstrap: an empty table whose serial counter
/// starts at one.  Idempotent in the sense of the backend's
/// create-if-absent statement: it never holds over data from a
/// previous table.
pub fn setup() -> (s: UserStore)
    ensures
        s@ == (StoreView { users: Seq::<RecView>::empty(), next: 1 }),
        s@.wf(),
{
    let s = UserStore { users: Vec::new(), next: 1 };
    proof {
        assert(s@.users =~= Seq::<RecView>::empty());
    }
    s
}

impl UserStore {
    /// Index of the record with this id, if any.
    fn find_index(&self, id: i32) -> (r: Option<usize>)
        ensures
            match r {
                Some(i) => spec_find_idx(self@.users, id as int, 0) == Some(i as int),
                None => spec_find_idx(self@.users, id as int, 0) is None,
            },
    {
        let ghost users = self@.users;
        let mut i: usize = 0;
        while i < self.users.len()
            invariant
                0 <= i <= self.users.len(),
                users == self@.users,
                users.len() == self.users.len(),
                forall|m: int| 0 <= m < i ==> #[trigger] users[m].id != id as int,
            decreases self.users.len() - i,
        {
            if self.users[i].id == id {
                proof {
                    lemma_find_idx_hit(users, id as int, 0, i as int);
                }
                return Some(i);
            }
            i = i + 1;
        }
        proof {
            lemma_find_idx_miss(users, id as int, 0);
        }
        None
    }

    /// Whether some record other than the one at `except` carries this
    /// email; `except` past the table means none is exempt.
    fn email_taken(&self, email: &String, except: usize) -> (r: bool)
        ensures
            r == email_conflict(self@.users, email@, except as int),
    {
        let ghost users = self@.users;
        let mut i: usize = 0;
        while i < self.users.len()
            invariant
                0 <= i <= self.users.len(),
                users == self@.users,
                users.len() == self.users.len(),
                forall|m: int| 0 <= m < i && m != except as int ==> #[trigger] users[m].email != email@,
            decreases self.users.len() - i,
        {
            proof {
                assert(users[i as int] == self.users@[i as int]@);
            }
            if i != except && self.users[i].email == *email {
                proof {
                    assert(users[i as int].email == email@);
                    assert(email_conflict(self@.users, email@, except as int));
                }
                return true;
            }
            i = i + 1;
        }
        proof {
            assert(!email_conflict(self@.users, email@, except as int)) by {
                if email_conflict(self@.users, email@, except as int) {
                    let j = choose|j: int|
                        0 <= j < self@.users.len() && j != except as int && #[trigger] self@.users[j].email
                            == email@;
                    assert(users[j].email != email@);
                }
            }
        }
        false
    }

    /// Insert a record, as the store's parameterized insert statement
    /// does it: fresh serial id on success, an error and no change on
    /// a unique-email violation or an exhausted id space.
    pub fn insert_user(&mut self, name: String, email: String) -> (r: Result<i32, StoreError>)
        requires
            old(self)@.wf(),
        ensures
            final(self)@ == spec_insert(old(self)@, name@, email@).1,
            final(self)@.wf(),
            r is Ok <==> spec_insert(old(self)@, name@, email@).0 is Ok,
            r matches Ok(id) ==> spec_insert(old(self)@, name@, email@).0 == Ok::<int, ()>(id as int),
    {
        let ghost pre = self@;
        if self.email_taken(&email, self.users.len()) {
            proof {
                assert(pre.has_email(email@));
            }
            return Err(StoreError);
        }
        if self.next == i32::MAX {
            return Err(StoreError);
        }
        proof {
            assert(!pre.has_email(email@)) by {
                assert(!email_conflict(pre.users, email@, pre.users.len() as int));
            }
        }
        let id = self.next;
        self.users.push(UserRec { id, name, email });
        self.next = self.next + 1;
        proof {
            assert(self@.users =~= pre.users.push(RecView { id: id as int, name: name@, email: email@ }));
            assert(self@ == spec_insert(pre, name@, email@).1);
            assert forall|i: int, j: int| 0 <= i < j < self@.users.len() implies #[trigger] self@.users[i].email
                != #[trigger] self@.users[j].email by {
                if j == self@.users.len() - 1 {
                    assert(!pre.has_email(email@));
                    assert(pre.users[i].email != email@);
                }
            }
            assert(self@.wf());
        }
        Ok(id)
    }

    /// Look one record up by id, as the select-by-id statement does.
    pub fn find_user(&self, id: i32) -> (r: Option<User>)
        ensures
            match spec_find_idx(self@.users, id as int, 0) {
                Some(i) => r matches Some(u) && u@ == (UserView {
                    id: Some(self@.users[i].id),
                    name: self@.users[i].name,
                    email: self@.users[i].email,
                }),
                None => r is None,
            },
    {
        match self.find_index(id) {
            Some(i) => {
                proof {
                    lemma_find_idx_bounds(self@.users, id as int, 0);
                    assert(self@.users[i as int] == self.users@[i as int]@);
                }
                let rec = &self.users[i];
                Some(User { id: Some(rec.id), name: rec.name.clone(), email: rec.email.clone() })
            },
            None => None,
        }
    }

    /// All records in table order, as the select-all statement
    /// returns them.
    pub fn all_users(&self) -> (r: Vec<User>)
        ensures
            r@.len() == spec_all(self@).len(),
            forall|i: int| 0 <= i < r@.len() ==> #[trigger] r@[i]@ == spec_all(self@)[i],
    {
        let mut out: Vec<User> = Vec::new();
        let mut i: usize = 0;
        while i < self.users.len()
            invariant
                0 <= i <= self.users.len(),
                out@.len() == i,
                forall|m: int| 0 <= m < i ==> #[trigger] out@[m]@ == spec_all(self@)[m],
            decreases self.users.len() - i,
        {
            let rec = &self.users[i];
            out.push(User { id: Some(rec.id), name: rec.name.clone(), email: rec.email.clone() });
            i = i + 1;
        }
        out
    }

    /// Overwrite both fields of the record with this id, as the
    /// update-by-id statement does: the affected-row count is zero
    /// when the id is absent, and a unique-email violation is an
    /// error that changes nothing.
    pub fn update_user(&mut self, id: i32, name: String, email: String) -> (r: Result<
        u64,
        StoreError,
    >)
        requires
            old(self)@.wf(),
        ensures
            final(self)@ == spec_update(old(self)@, id as int, name@, email@).1,
            final(self)@.wf(),
            r is Ok <==> spec_update(old(self)@, id as int, name@, email@).0 is Ok,
            r matches Ok(n) ==> spec_update(old(self)@, id as int, name@, email@).0 == Ok::<int, ()>(
                n as int,
            ),
    {
        let ghost pre = self@;
        match self.find_index(id) {
            None => Ok(0),
            Some(i) => {
                proof {
                    lemma_find_idx_bounds(pre.users, id as int, 0);
                }
                if self.email_taken(&email, i) {
                    Err(StoreError)
                } else {
                    self.users.set(i, UserRec { id, name, email });
                    proof {
                        assert forall|k: int| 0 <= k < self@.users.len() implies #[trigger] self@.users[k]
                            == pre.users.update(
                            i as int,
                            RecView { id: id as int, name: name@, email: email@ },
                        )[k] by {
                            assert(self@.users[k] == self.users@[k]@);
                            if k != i as int {
                                assert(self.users@[k] == old(self).users@[k]);
                            }
                        }
                        assert(self@.users =~= pre.users.update(
                            i as int,
                            RecView { id: id as int, name: name@, email: email@ },
                        ));
                        assert(self@ == spec_update(pre, id as int, name@, email@).1);
                        assert(pre.users[i as int].id == id as int);
                        assert forall|a: int, b: int| 0 <= a < b < self@.users.len() implies
                            #[trigger] self@.users[a].email != #[trigger] self@.users[b].email by {
                            if a != i as int && b != i as int {
                                assert(self@.users[a] == pre.users[a]);
                                assert(self@.users[b] == pre.users[b]);
                            }
                        }
                        assert(self@.wf());
                    }
                    Ok(1)
                }
            },
        }
    }

    /// Remove the record with this id, as the delete-by-id statement
    /// does: the affected-row count says whether one was there.
    pub fn delete_user(&mut self, id: i32) -> (r: u64)
        requires
            old(self)@.wf(),
        ensures
            final(self)@ == spec_delete(old(self)@, id as int).1,
            final(self)@.wf(),
            r as int == spec_delete(old(self)@, id as int).0,
    {
        let ghost pre = self@;
        match self.find_index(id) {
            None => 0,
            Some(i) => {
                proof {
                    lemma_find_idx_bounds(pre.users, id as int, 0);
                }
                self.users.remove(i);
                proof {
                    pre.users.remove_ensures(i as int);
                    assert forall|k: int| 0 <= k < self@.users.len() implies #[trigger] self@.users[k]
                        == pre.users.remove(i as int)[k] by {
                        assert(self@.users[k] == self.users@[k]@);
                        assert(self.users@[k] == old(self).users@.remove(i as int)[k]);
                        old(self).users@.remove_ensures(i as int);
                    }
                    assert(self@.users =~= pre.users.remove(i as int));
                    assert(self@ == spec_delete(pre, id as int).1);
                    assert forall|a: int| 0 <= a < self@.users.len() implies 1 <= #[trigger] self@.users[a].id
                        < self@.next by {
                        if a < i as int {
                            assert(self@.users[a] == pre.users[a]);
                        } else {
                            assert(self@.users[a] == pre.users[a + 1]);
                        }
                    }
                    assert forall|a: int, b: int| 0 <= a < b < self@.users.len() implies
                        #[trigger] self@.users[a].id != #[trigger] self@.users[b].id by {
                        let pa = if a < i as int { a } else { a + 1 };
                        let pb = if b < i as int { b } else { b + 1 };
                        assert(self@.users[a] == pre.users[pa]);
                        assert(self@.users[b] == pre.users[pb]);
                    }
                    assert forall|a: int, b: int| 0 <= a < b < self@.users.len() implies
                        #[trigger] self@.users[a].email != #[trigger] self@.users[b].email by {
                        let pa = if a < i as int { a } else { a + 1 };
                        let pb = if b < i as int { b } else { b + 1 };
                        assert(self@.users[a] == pre.users[pa]);
                        assert(self@.users[b] == pre.users[pb]);
                    }
                    assert(self@.wf());
                }
                1
            },
        }
    }
}

} // verus!

//! User records and the directory logic over them: an in-memory record
//! store with unique ids, usernames and emails, and the registration,
//! login and lookup handlers the service exposes.
//!
//! Login checks the password before the status flag, so a disabled account
//! with the right password answers `AccountBlocked`, not `WrongCredentials`.

use crate::claims::{bytes_eq, token_safe_bytes};
use crate::errors::ErrorKind;
use crate::jwt::{expiry_at, token_matches, JwtHandler, JwtToken};
use crate::password::{password_matches, Password};
use vstd::prelude::*;
use vstd::string::StrSliceExecFns;
use vstd::utf8::encode_utf8;

verus! {

/// The outward view of an account: everything but the stored hash.
#[derive(Debug)]
pub struct User {
    pub id: i32,
    pub username: String,
    pub email: String,
    pub status: bool,
}

/// What registration submits.
#[derive(Debug)]
pub struct NewUser {
    pub username: String,
    pub email: String,
    pub password: String,
}

/// What login submits: ephemeral credentials, never stored.
#[derive(Debug)]
pub struct LoginInfo {
    pub username: String,
    pub password: String,
}

/// The projection of an account that login works on: identity, stored hash
/// and status flag.
#[derive(Debug)]
pub struct UserLogin {
    pub id: i32,
    pub username: String,
    pub password: String,
    pub status: bool,
}

/// A stored account row: the outward fields plus the password hash.
#[derive(Debug)]
pub struct StoredUser {
    pub id: i32,
    pub username: String,
    pub email: String,
    pub password: String,
    pub status: bool,
}

/// True strings equality.
pub fn str_eq(a: &str, b: &str) -> (r: bool)
    ensures
        r == (a@ == b@),
{
    let va = a.as_bytes_vec();
    let vb = b.as_bytes_vec();
    let r = bytes_eq(va.as_slice(), vb.as_slice());
    proof {
        if va@ == vb@ {
            vstd::utf8::encode_utf8_decode_utf8(a@);
            vstd::utf8::encode_utf8_decode_utf8(b@);
        }
    }
    r
}

/// Some row of `rows` carries this username.
pub open spec fn has_username(rows: Seq<StoredUser>, name: Seq<char>) -> bool {
    exists|i: int| 0 <= i < rows.len() && #[trigger] rows[i].username@ == name
}

/// Some row of `rows` carries this email.
pub open spec fn has_email(rows: Seq<StoredUser>, email: Seq<char>) -> bool {
    exists|i: int| 0 <= i < rows.len() && #[trigger] rows[i].email@ == email
}

/// Some row of `rows` carries this id.
pub open spec fn has_id(rows: Seq<StoredUser>, id: int) -> bool {
    exists|i: int| 0 <= i < rows.len() && #[trigger] rows[i].id as int == id
}

/// The in-memory user record store. Its invariant is the data-model
/// invariant of the service: at most one record per id, per username and
/// per email; ids are assigned from a counter; stored hashes contain no
/// characters that would need escaping inside a token claim.
pub struct UserStore {
    users: Vec<StoredUser>,
    next_id: i32,
}

impl UserStore {
    /// The stored rows, in insertion order.
    pub closed spec fn rows(&self) -> Seq<StoredUser> {
        self.users@
    }

    /// The id the next inserted record receives.
    pub closed spec fn spec_next_id(&self) -> int {
        self.next_id as int
    }

    /// Well-formedness: uniqueness of ids, usernames and emails; ids start
    /// at one and stay below the counter; hashes are token-safe.
    pub open spec fn wf(&self) -> bool {
        &&& forall|i: int, j: int|
            0 <= i < self.rows().len() && 0 <= j < self.rows().len() && i != j ==> (
            #[trigger] self.rows()[i].id != #[trigger] self.rows()[j].id
                && self.rows()[i].username@ != self.rows()[j].username@
                && self.rows()[i].email@ != self.rows()[j].email@)
        &&& forall|i: int|
            0 <= i < self.rows().len() ==> 1 <= #[trigger] self.rows()[i].id
                && self.rows()[i].id < self.spec_next_id()
        &&& forall|i: int|
            0 <= i < self.rows().len() ==> token_safe_bytes(
                encode_utf8(#[trigger] self.rows()[i].password@),
            )
        &&& 1 <= self.spec_next_id()
    }

    /// An empty store.
    pub fn new() -> (s: UserStore)
        ensures
            s.wf(),
            s.rows().len() == 0,
            s.spec_next_id() == 1,
    {
        UserStore { users: Vec::new(), next_id: 1 }
    }

    /// Whether a record with this username or this email exists: the
    /// uniqueness probe registration runs first.
    pub fn find_by_username_or_email(&self, username: &str, email: &str) -> (r: bool)
        ensures
            r == (has_username(self.rows(), username@) || has_email(self.rows(), email@)),
    {
        let n = self.users.len();
        let mut k: usize = 0;
        while k < n
            invariant
                k <= n,
                n == self.rows().len(),
                forall|i: int| #![trigger self.rows()[i]]
                    0 <= i < k ==> self.rows()[i].username@ != username@
                        && self.rows()[i].email@ != email@,
            decreases n - k,
        {
            let row = &self.users[k];
            let ue = str_eq(row.username.as_str(), username);
            let ee = str_eq(row.email.as_str(), email);
            proof {
                assert(*row == self.rows()[k as int]);
            }
            if ue {
                proof {
                    assert(self.rows()[k as int].username@ == username@);
                }
                return true;
            }
            if ee {
                proof {
                    assert(self.rows()[k as int].email@ == email@);
                }
                return true;
            }
            k += 1;
        }
        false
    }

    /// The login projection of the record with this username, if any.
    pub fn find_by_username(&self, username: &str) -> (r: Option<UserLogin>)
        ensures
            match r {
                Some(ul) => exists|i: int|
                    0 <= i < self.rows().len() && (#[trigger] self.rows()[i].username@)
                        == username@ && ul.id == self.rows()[i].id && ul.username@
                        == self.rows()[i].username@ && ul.password@ == self.rows()[i].password@
                        && ul.status == self.rows()[i].status,
                None => !has_username(self.rows(), username@),
            },
    {
        let n = self.users.len();
        let mut k: usize = 0;
        while k < n
            invariant
                k <= n == self.rows().len(),
                forall|i: int| 0 <= i < k ==> #[trigger] self.rows()[i].username@ != username@,
            decreases n - k,
        {
            if str_eq(self.users[k].username.as_str(), username) {
                let row = &self.users[k];
                let ul = UserLogin {
                    id: row.id,
                    username: row.username.clone(),
                    password: row.password.clone(),
                    status: row.status,
                };
                proof {
                    assert(0 <= k < self.rows().len() && self.rows()[k as int].username@
                        == username@);
                }
                return Some(ul);
            }
            k += 1;
        }
        None
    }

    /// The outward view of the record with this id, if any.
    pub fn find_by_id(&self, id: i32) -> (r: Option<User>)
        ensures
            match r {
                Some(u) => exists|i: int|
                    0 <= i < self.rows().len() && (#[trigger] self.rows()[i].id) == id && u.id
                        == id && u.username@ == self.rows()[i].username@ && u.email@
                        == self.rows()[i].email@ && u.status == self.rows()[i].status,
                None => !has_id(self.rows(), id as int),
            },
    {
        let n = self.users.len();
        let mut k: usize = 0;
        while k < n
            invariant
                k <= n == self.rows().len(),
                forall|i: int| 0 <= i < k ==> #[trigger] self.rows()[i].id != id,
            decreases n - k,
        {
            if self.users[k].id == id {
                let row = &self.users[k];
                let u = User {
                    id: row.id,
                    username: row.username.clone(),
                    email: row.email.clone(),
                    status: row.status,
                };
                return Some(u);
            }
            k += 1;
        }
        None
    }

    /// Append a new enabled record under the next id. The caller has
    /// checked uniqueness and hashed the password; the one failure left is
    /// an exhausted id space.
    pub fn insert(&mut self, username: String, email: String, password: String) -> (r: Result<
        User,
        ErrorKind,
    >)
        requires
            old(self).wf(),
            !has_username(old(self).rows(), username@),
            !has_email(old(self).rows(), email@),
            token_safe_bytes(encode_utf8(password@)),
        ensures
            final(self).wf(),
            match r {
                Ok(u) => {
                    &&& old(self).spec_next_id() < i32::MAX
                    &&& final(self).rows().len() == old(self).rows().len() + 1
                    &&& ({
                        let row = final(self).rows().last();
                        &&& final(self).rows() == old(self).rows().push(row)
                        &&& row.id as int == old(self).spec_next_id()
                        &&& row.username@ == username@
                        &&& row.email@ == email@
                        &&& row.password@ == password@
                        &&& row.status == true
                        &&& u.id == row.id && u.username@ == username@ && u.email@ == email@
                            && u.status == true
                    })
                    &&& final(self).spec_next_id() == old(self).spec_next_id() + 1
                },
                Err(e) => {
                    &&& e == ErrorKind::StoreUnavailable
                    &&& old(self).spec_next_id() == i32::MAX
                    &&& *final(self) == *old(self)
                },
            },
    {
        if self.next_id == i32::MAX {
            return Err(ErrorKind::StoreUnavailable);
        }
        let ghost uname = username@;
        let ghost em = email@;
        let ghost pw = password@;
        let id = self.next_id;
        let u = User {
            id,
            username: username.clone(),
            email: email.clone(),
            status: true,
        };
        let row = StoredUser { id, username, email, password, status: true };
        self.users.push(row);
        self.next_id = id + 1;
        proof {
            let rs = self.rows();
            let os = old(self).rows();
            assert(rs =~= os.push(rs.last()));
            assert forall|i: int, j: int|
                0 <= i < rs.len() && 0 <= j < rs.len() && i != j implies (#[trigger] rs[i].id
                != #[trigger] rs[j].id && rs[i].username@ != rs[j].username@ && rs[i].email@
                != rs[j].email@) by {
                if i < os.len() && j < os.len() {
                    assert(rs[i] == os[i] && rs[j] == os[j]);
                } else if i < os.len() {
                    assert(rs[i] == os[i] && rs[j] == rs.last());
                    assert(os[i].id < old(self).spec_next_id());
                    assert(rs[j].username@ == uname && rs[j].email@ == em);
                    assert(os[i].username@ != uname && os[i].email@ != em);
                } else {
                    assert(rs[j] == os[j] && rs[i] == rs.last());
                    assert(os[j].id < old(self).spec_next_id());
                    assert(rs[i].username@ == uname && rs[i].email@ == em);
                    assert(os[j].username@ != uname && os[j].email@ != em);
                }
            }
            assert forall|i: int| #![trigger rs[i].id] #![trigger rs[i].password@]
                0 <= i < rs.len() implies 1 <= rs[i].id && rs[i].id < self.spec_next_id()
                && token_safe_bytes(encode_utf8(rs[i].password@)) by {
                if i < os.len() {
                    assert(rs[i] == os[i]);
                } else {
                    assert(rs[i] == rs.last());
                    assert(rs[i].password@ == pw);
                }
            }
        }
        Ok(u)
    }

    /// The position of the record with this id, if any.
    fn index_of_id(&self, id: i32) -> (r: Option<usize>)
        ensures
            match r {
                Some(k) => k < self.rows().len() && (#[trigger] self.rows()[k as int].id) == id,
                None => !has_id(self.rows(), id as int),
            },
    {
        let n = self.users.len();
        let mut k: usize = 0;
        while k < n
            invariant
                k <= n == self.rows().len(),
                forall|i: int| 0 <= i < k ==> #[trigger] self.rows()[i].id != id,
            decreases n - k,
        {
            if self.users[k].id == id {
                return Some(k);
            }
            k += 1;
        }
        None
    }

    /// Remove the record with this id. True exactly when one existed.
    pub fn delete(&mut self, id: i32) -> (r: bool)
        requires
            old(self).wf(),
        ensures
            final(self).wf(),
            r == has_id(old(self).rows(), id as int),
            r ==> exists|k: int|
                0 <= k < old(self).rows().len() && (#[trigger] old(self).rows()[k].id) == id
                    && final(self).rows() == old(self).rows().remove(k),
            !r ==> *final(self) == *old(self),
            final(self).spec_next_id() == old(self).spec_next_id(),
    {
        let k = match self.index_of_id(id) {
            Some(k) => k,
            None => {
                return false;
            },
        };
        self.users.remove(k);
        proof {
            let rs = self.rows();
            let os = old(self).rows();
            assert(os[k as int].id == id);
            assert(rs == os.remove(k as int));
            assert forall|i: int, j: int|
                0 <= i < rs.len() && 0 <= j < rs.len() && i != j implies (#[trigger] rs[i].id
                != #[trigger] rs[j].id && rs[i].username@ != rs[j].username@ && rs[i].email@
                != rs[j].email@) by {
                let oi = if i < k { i } else { i + 1 };
                let oj = if j < k { j } else { j + 1 };
                assert(rs[i] == os[oi]);
                assert(rs[j] == os[oj]);
                assert(os[oi].id != os[oj].id);
            }
            assert forall|i: int| #![trigger rs[i].id] #![trigger rs[i].password@]
                0 <= i < rs.len() implies 1 <= rs[i].id && rs[i].id < self.spec_next_id()
                && token_safe_bytes(encode_utf8(rs[i].password@)) by {
                let oi = if i < k { i } else { i + 1 };
                assert(rs[i] == os[oi]);
                assert(1 <= os[oi].id < old(self).spec_next_id());
                assert(token_safe_bytes(encode_utf8(os[oi].password@)));
            }
        }
        true
    }

    /// Flip the status flag of the record with this id (account enabling
    /// and disabling happens outside the core flows). True exactly when a
    /// record existed; nothing else about the store changes.
    pub fn set_status(&mut self, id: i32, status: bool) -> (r: bool)
        requires
            old(self).wf(),
        ensures
            final(self).wf(),
            r == has_id(old(self).rows(), id as int),
            r ==> exists|k: int|
                0 <= k < old(self).rows().len() && (#[trigger] old(self).rows()[k].id) == id
                    && final(self).rows() == old(self).rows().update(
                    k,
                    StoredUser {
                        id: old(self).rows()[k].id,
                        username: old(self).rows()[k].username,
                        email: old(self).rows()[k].email,
                        password: old(self).rows()[k].password,
                        status,
                    },
                ),
            !r ==> *final(self) == *old(self),
            final(self).spec_next_id() == old(self).spec_next_id(),
    {
        let k = match self.index_of_id(id) {
            Some(k) => k,
            None => {
                return false;
            },
        };
        let row = self.users.remove(k);
        let updated = StoredUser {
            id: row.id,
            username: row.username,
            email: row.email,
            password: row.password,
            status,
        };
        self.users.insert(k, updated);
        proof {
            let rs = self.rows();
            let os = old(self).rows();
            assert(rs =~= os.update(
                k as int,
                StoredUser {
                    id: os[k as int].id,
                    username: os[k as int].username,
                    email: os[k as int].email,
                    password: os[k as int].password,
                    status,
                },
            ));
            assert forall|i: int, j: int|
                0 <= i < rs.len() && 0 <= j < rs.len() && i != j implies (#[trigger] rs[i].id
                != #[trigger] rs[j].id && rs[i].username@ != rs[j].username@ && rs[i].email@
                != rs[j].email@) by {
                assert(os[i].id != os[j].id);
                assert(rs[i].id == os[i].id && rs[j].id == os[j].id);
                assert(rs[i].username@ == os[i].username@ && rs[j].username@ == os[j].username@);
                assert(rs[i].email@ == os[i].email@ && rs[j].email@ == os[j].email@);
            }
            assert forall|i: int| #![trigger rs[i].id] #![trigger rs[i].password@]
                0 <= i < rs.len() implies 1 <= rs[i].id && rs[i].id < self.spec_next_id()
                && token_safe_bytes(encode_utf8(rs[i].password@)) by {
                assert(rs[i].id == os[i].id && rs[i].password@ == os[i].password@);
                assert(token_safe_bytes(encode_utf8(os[i].password@)));
            }
        }
        true
    }

    /// The outward view of every record, in insertion order.
    pub fn list(&self) -> (r: Vec<User>)
        ensures
            r@.len() == self.rows().len(),
            forall|i: int|
                0 <= i < r@.len() ==> (#[trigger] r@[i].id) == self.rows()[i].id && r@[i].username@
                    == self.rows()[i].username@ && r@[i].email@ == self.rows()[i].email@
                    && r@[i].status == self.rows()[i].status,
    {
        let n = self.users.len();
        let mut out: Vec<User> = Vec::new();
        let mut k: usize = 0;
        while k < n
            invariant
                k <= n == self.rows().len(),
                out@.len() == k,
                forall|i: int|
                    0 <= i < k ==> (#[trigger] out@[i].id) == self.rows()[i].id && out@[i].username@
                        == self.rows()[i].username@ && out@[i].email@ == self.rows()[i].email@
                        && out@[i].status == self.rows()[i].status,
            decreases n - k,
        {
            let row = &self.users[k];
            out.push(User {
                id: row.id,
                username: row.username.clone(),
                email: row.email.clone(),
                status: row.status,
            });
            k += 1;
        }
        out
    }
}



/// A record just stored is the one that a lookup by its username finds:
/// after appending `row` to rows free of its username, exactly the rows
/// whose username is `row`'s carry `row` itself.
pub proof fn lemma_new_user_is_found(rows: Seq<StoredUser>, row: StoredUser)
    requires
        !has_username(rows, row.username@),
    ensures
        has_username(rows.push(row), row.username@),
        forall|i: int|
            0 <= i < rows.push(row).len() && (#[trigger] rows.push(row)[i].username@)
                == row.username@ ==> rows.push(row)[i] == row,
{
    let rs = rows.push(row);
    assert(rs[rows.len() as int] == row);
    assert forall|i: int|
        0 <= i < rs.len() && (#[trigger] rs[i].username@) == row.username@ implies rs[i]
        == row by {
        if i < rows.len() {
            assert(rows[i].username@ != row.username@);
        }
    }
}

/// The user directory: uniqueness-checked registration, credential-checked
/// login, lookup and deletion.
pub struct UserHandler;

impl UserHandler {
    /// The outward record under this id, or `NotFound`.
    pub fn by_id(store: &UserStore, id: i32) -> (r: Result<User, ErrorKind>)
        ensures
            match r {
                Ok(u) => exists|i: int|
                    0 <= i < store.rows().len() && (#[trigger] store.rows()[i].id) == id && u.id
                        == id && u.username@ == store.rows()[i].username@ && u.email@
                        == store.rows()[i].email@ && u.status == store.rows()[i].status,
                Err(e) => e == ErrorKind::NotFound && !has_id(store.rows(), id as int),
            },
    {
        match store.find_by_id(id) {
            Some(u) => Ok(u),
            None => Err(ErrorKind::NotFound),
        }
    }

    /// Register an account: refuse with `Conflict` when the username or the
    /// email is taken, otherwise hash the password and store an enabled
    /// record under a fresh id. The returned record never carries the hash.
    pub fn create(store: &mut UserStore, new_user: NewUser, secret: &str) -> (r: Result<
        User,
        ErrorKind,
    >)
        requires
            old(store).wf(),
        ensures
            final(store).wf(),
            ({
                let dup = has_username(old(store).rows(), new_user.username@) || has_email(
                    old(store).rows(),
                    new_user.email@,
                );
                match r {
                    Ok(u) => {
                        &&& !dup
                        &&& secret@.len() > 0
                        &&& final(store).rows().len() == old(store).rows().len() + 1
                        &&& ({
                            let row = final(store).rows().last();
                            &&& final(store).rows() == old(store).rows().push(row)
                            &&& row.id as int == old(store).spec_next_id()
                            &&& row.username@ == new_user.username@
                            &&& row.email@ == new_user.email@
                            &&& row.status == true
                            &&& password_matches(new_user.password@, secret@, row.password@)
                            &&& u.id == row.id && u.username@ == row.username@ && u.email@
                                == row.email@ && u.status == true
                        })
                    },
                    Err(e) => {
                        &&& *final(store) == *old(store)
                        &&& {
                            ||| (e == ErrorKind::Conflict && dup)
                            ||| (e == ErrorKind::ConfigMissing && !dup && secret@.len() == 0)
                            ||| (e == ErrorKind::StoreUnavailable && !dup && secret@.len() > 0)
                        }
                    },
                }
            }),
    {
        if store.find_by_username_or_email(new_user.username.as_str(), new_user.email.as_str()) {
            return Err(ErrorKind::Conflict);
        }
        let hashed = match Password::hash(new_user.password.as_str(), secret) {
            Ok(h) => h,
            Err(e) => {
                return Err(e);
            },
        };
        store.insert(new_user.username, new_user.email, hashed)
    }

    /// Log an account in: fetch by username (`NotFound` if absent), check
    /// the password (`WrongCredentials` on mismatch), then the status flag
    /// (`AccountBlocked` when disabled), and issue a token good for a day
    /// from `now`.
    pub fn login(
        store: &UserStore,
        login_info: LoginInfo,
        hash_secret: &str,
        jwt_secret: &str,
        now: i64,
    ) -> (r: Result<JwtToken, ErrorKind>)
        requires
            store.wf(),
        ensures
            (r == Err::<JwtToken, ErrorKind>(ErrorKind::NotFound)) == !has_username(
                store.rows(),
                login_info.username@,
            ),
            forall|i: int|
                (0 <= i < store.rows().len() && (#[trigger] store.rows()[i].username@)
                    == login_info.username@) ==> {
                    let row = store.rows()[i];
                    let ok = password_matches(login_info.password@, hash_secret@, row.password@);
                    &&& (!ok ==> r == Err::<JwtToken, ErrorKind>(ErrorKind::WrongCredentials))
                    &&& (ok && !row.status ==> r == Err::<JwtToken, ErrorKind>(
                        ErrorKind::AccountBlocked,
                    ))
                    &&& (ok && row.status && jwt_secret@.len() == 0 ==> r == Err::<
                        JwtToken,
                        ErrorKind,
                    >(ErrorKind::ConfigMissing))
                    &&& (ok && row.status && jwt_secret@.len() > 0 ==> r is Ok && ({
                        let t = r->Ok_0;
                        &&& t.exp as int == expiry_at(now as int)
                        &&& token_matches(
                            encode_utf8(jwt_secret@),
                            encode_utf8(t.token@),
                            row.id as int,
                            encode_utf8(row.password@),
                            t.exp as int,
                        )
                    }))
                },
    {
        let candidate = match store.find_by_username(login_info.username.as_str()) {
            Some(ul) => ul,
            None => {
                return Err(ErrorKind::NotFound);
            },
        };
        proof {
            let i0 = choose|i: int|
                0 <= i < store.rows().len() && (#[trigger] store.rows()[i].username@)
                    == login_info.username@ && candidate.id == store.rows()[i].id
                    && candidate.username@ == store.rows()[i].username@ && candidate.password@
                    == store.rows()[i].password@ && candidate.status == store.rows()[i].status;
            assert forall|i: int|
                0 <= i < store.rows().len() && (#[trigger] store.rows()[i].username@)
                    == login_info.username@ implies store.rows()[i].id == candidate.id
                && store.rows()[i].password@ == candidate.password@ && store.rows()[i].status
                == candidate.status by {
                if i != i0 {
                    assert(store.rows()[i].id != store.rows()[i0].id);
                    assert(store.rows()[i].username@ != store.rows()[i0].username@);
                }
            }
        }
        if !Password::verify(
            login_info.password.as_str(),
            candidate.password.as_str(),
            hash_secret,
        ) {
            return Err(ErrorKind::WrongCredentials);
        }
        if !candidate.status {
            return Err(ErrorKind::AccountBlocked);
        }
        JwtHandler::create_at(&candidate, jwt_secret, now)
    }

    /// Remove the record under this id. True exactly when one existed, and
    /// then that record — and nothing else — is gone afterwards.
    pub fn delete(store: &mut UserStore, id: i32) -> (r: bool)
        requires
            old(store).wf(),
        ensures
            final(store).wf(),
            r == has_id(old(store).rows(), id as int),
            r ==> exists|k: int|
                0 <= k < old(store).rows().len() && (#[trigger] old(store).rows()[k].id) == id
                    && final(store).rows() == old(store).rows().remove(k),
            !r ==> *final(store) == *old(store),
            final(store).spec_next_id() == old(store).spec_next_id(),
    {
        store.delete(id)
    }
}

} // verus!

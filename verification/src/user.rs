//! User accounts and their registry.
//!
//! Like the access-point registry, the user registry is an owned map behind
//! an explicit synchronization boundary: every operation takes the registry
//! exclusively and stands for one critical section, and all access hands
//! out copies.

use crate::ap::APID;
use crate::errors::ApiError;
use vstd::prelude::*;

verus! {

/// The mathematical value of a user account.
pub struct UserView {
    pub username: Seq<char>,
    pub password: Seq<char>,
    pub access_points: Seq<APID>,
}

/// A user account: a unique username, the one-way hash of the password
/// (never the password itself), and the identifiers of the access points
/// the user subscribed to, held sorted and duplicate-free.
#[derive(Debug)]
pub struct User {
    username: String,
    password: String,
    access_points: Vec<APID>,
}

impl View for User {
    type V = UserView;

    closed spec fn view(&self) -> UserView {
        UserView {
            username: self.username@,
            password: self.password@,
            access_points: self.access_points@,
        }
    }
}

/// A subscription set is held strictly increasing: sorted and free of
/// duplicates.
pub open spec fn subs_sorted(s: Seq<APID>) -> bool {
    forall|i: int, j: int| 0 <= i < j < s.len() ==> s[i] < s[j]
}

/// A user account is well formed when its subscription set is.
pub open spec fn wf_user(u: UserView) -> bool {
    subs_sorted(u.access_points)
}

/// Relies on pwhash's `bcrypt::hash`: it hashes the password with a fresh
/// random salt at the default cost and variant, and on success returns the
/// 60-character `$2b$...` hash string.  The salt is random, so nothing more
/// is promised of the result.
#[verifier::external_body]
fn bcrypt_hash(password: &str) -> (r: Result<String, ()>)
    ensures
        r matches Ok(h) ==> h@.len() == 60 && h@[0] == '$',
{
    match pwhash::bcrypt::hash(password) {
        Ok(h) => Ok(h),
        Err(_) => Err(()),
    }
}

impl User {
    /// A fresh account with the given username and the given, already
    /// hashed, credential.
    pub fn from_hash(username: String, password_hash: String) -> (r: Self)
        ensures
            r@.username == username@,
            r@.password == password_hash@,
            r@.access_points == Seq::<APID>::empty(),
            wf_user(r@),
    {
        let r = User { username, password: password_hash, access_points: Vec::new() };
        proof {
            assert(r@.access_points =~= Seq::<APID>::empty());
        }
        r
    }

    /// A fresh account with the password hashed; nothing when hashing
    /// itself fails.
    pub fn new(username: String, password: String) -> (r: Option<Self>)
        ensures
            r matches Some(u) ==> {
                &&& u@.username == username@
                &&& u@.access_points == Seq::<APID>::empty()
                &&& u@.password.len() == 60
                &&& wf_user(u@)
            },
    {
        match bcrypt_hash(password.as_str()) {
            Ok(h) => Some(User::from_hash(username, h)),
            Err(()) => None,
        }
    }

    /// A stored account rebuilt from its parts, for the crate's own
    /// persistence code.
    pub(crate) fn assemble(username: String, password: String, access_points: Vec<APID>) -> (r:
        User)
        ensures
            r@ == (UserView {
                username: username@,
                password: password@,
                access_points: access_points@,
            }),
    {
        User { username, password, access_points }
    }

    /// The username.
    pub fn username(&self) -> (r: &String)
        ensures
            r@ == self@.username,
    {
        &self.username
    }

    /// The stored credential hash.
    pub fn password_hash(&self) -> (r: &String)
        ensures
            r@ == self@.password,
    {
        &self.password
    }

    /// The identifiers of the subscribed access points, in increasing order.
    pub fn access_points(&self) -> (r: &Vec<APID>)
        ensures
            r@ == self@.access_points,
    {
        &self.access_points
    }

    /// An equal copy.
    pub fn duplicate(&self) -> (r: Self)
        ensures
            r@ == self@,
    {
        User {
            username: self.username.clone(),
            password: self.password.clone(),
            access_points: self.access_points.clone(),
        }
    }
}

// ---------------------------------------------------------------------------
// The registry
// ---------------------------------------------------------------------------

/// The views of a sequence of accounts.
pub open spec fn user_views_of(s: Seq<User>) -> Seq<UserView> {
    s.map(|i: int, u: User| u@)
}

/// Every account well formed and usernames pairwise distinct.
pub open spec fn wf_users(s: Seq<UserView>) -> bool {
    &&& forall|i: int| 0 <= i < s.len() ==> wf_user(#[trigger] s[i])
    &&& forall|i: int, j: int|
        0 <= i < j < s.len() ==> (#[trigger] s[i]).username != (#[trigger] s[j]).username
}

/// The account stored under `username`, if any.
pub open spec fn find_user(s: Seq<UserView>, username: Seq<char>) -> Option<UserView>
    decreases s.len(),
{
    if s.len() == 0 {
        None
    } else if s[0].username == username {
        Some(s[0])
    } else {
        find_user(s.drop_first(), username)
    }
}

/// A subscription set with `id` inserted at its place; inserting a present
/// identifier changes nothing.
pub open spec fn insert_sub(subs: Seq<APID>, id: APID) -> Seq<APID>
    decreases subs.len(),
{
    if subs.len() == 0 {
        seq![id]
    } else if subs[0] == id {
        subs
    } else if id < subs[0] {
        seq![id] + subs
    } else {
        seq![subs[0]] + insert_sub(subs.drop_first(), id)
    }
}

/// The registry after subscribing `username` to `id`: every account keeps
/// its place, and the named one carries the enlarged subscription set.
pub open spec fn subscribe_spec(s: Seq<UserView>, username: Seq<char>, id: APID) -> Seq<
    UserView,
> {
    Seq::new(
        s.len(),
        |i: int|
            if s[i].username == username {
                UserView { access_points: insert_sub(s[i].access_points, id), ..s[i] }
            } else {
                s[i]
            },
    )
}

/// The views of a sequence of strings.
pub open spec fn strings_of(s: Seq<String>) -> Seq<Seq<char>> {
    s.map(|i: int, x: String| x@)
}

/// The usernames subscribed to `id`, in registry order.
pub open spec fn subscribers_of(s: Seq<UserView>, id: APID) -> Seq<Seq<char>>
    decreases s.len(),
{
    if s.len() == 0 {
        Seq::empty()
    } else {
        subscribers_of(s.drop_last(), id) + (if s.last().access_points.contains(id) {
            seq![s.last().username]
        } else {
            Seq::empty()
        })
    }
}

/// Whether a subscription set holds `id`.
fn contains_id(v: &Vec<APID>, id: APID) -> (r: bool)
    ensures
        r == v@.contains(id),
{
    let n = v.len();
    let mut i: usize = 0;
    while i < n
        invariant
            0 <= i <= n,
            n == v@.len(),
            forall|j: int| 0 <= j < i ==> v@[j] != id,
        decreases n - i,
    {
        if v[i] == id {
            return true;
        }
        i = i + 1;
    }
    false
}

/// Where a sorted insertion lands: with every entry before `k` below `id`
/// and the entry at `k` (if any) at least `id`, inserting gives either the
/// set itself (when `id` is present) or the set split at `k` around `id`.
proof fn lemma_insert_sub_at(subs: Seq<APID>, id: APID, k: int)
    requires
        subs_sorted(subs),
        0 <= k <= subs.len(),
        forall|j: int| 0 <= j < k ==> (#[trigger] subs[j]) < id,
        k < subs.len() ==> subs[k] >= id,
    ensures
        insert_sub(subs, id) == if k < subs.len() && subs[k] == id {
            subs
        } else {
            subs.take(k) + seq![id] + subs.skip(k)
        },
    decreases k + 1,
{
    if k == 0 {
        if subs.len() == 0 {
            assert(insert_sub(subs, id) =~= subs.take(0) + seq![id] + subs.skip(0));
        } else if subs[0] == id {
        } else {
            assert(subs[0] > id);
            assert(seq![id] + subs =~= subs.take(0) + seq![id] + subs.skip(0));
        }
    } else {
        assert(subs[0] < id);
        let d = subs.drop_first();
        assert(subs_sorted(d)) by {
            assert forall|a: int, b: int| 0 <= a < b < d.len() implies d[a] < d[b] by {
                assert(d[a] == subs[a + 1]);
                assert(d[b] == subs[b + 1]);
            }
        }
        assert forall|j: int| 0 <= j < k - 1 implies (#[trigger] d[j]) < id by {
            assert(d[j] == subs[j + 1]);
        }
        if k - 1 < d.len() {
            assert(d[k - 1] == subs[k]);
        }
        lemma_insert_sub_at(d, id, k - 1);
        if k < subs.len() && subs[k] == id {
            assert(insert_sub(subs, id) == seq![subs[0]] + insert_sub(d, id));
            assert(seq![subs[0]] + d =~= subs);
        } else {
            assert(seq![subs[0]] + (d.take(k - 1) + seq![id] + d.skip(k - 1)) =~= subs.take(k)
                + seq![id] + subs.skip(k));
        }
    }
}

/// The registry of user accounts.
#[derive(Debug)]
pub struct Users {
    pub(crate) users: Vec<User>,
}

impl View for Users {
    type V = Seq<UserView>;

    closed spec fn view(&self) -> Seq<UserView> {
        user_views_of(self.users@)
    }
}

/// Bridge between the registry's view and its backing accounts, for the
/// crate's own modules.
pub(crate) proof fn lemma_users_views(g: &Users)
    ensures
        g@ == user_views_of(g.users@),
{
}

impl Users {
    /// Well-formedness of the registry's contents.
    pub open spec fn wf(&self) -> bool {
        wf_users(self@)
    }

    /// An empty registry.
    pub fn new() -> (r: Self)
        ensures
            r@ == Seq::<UserView>::empty(),
            r.wf(),
    {
        let r = Users { users: Vec::new() };
        proof {
            assert(r@ =~= Seq::<UserView>::empty());
        }
        r
    }

    /// Store a fresh account.
    ///
    /// Fails with `Conflict`, leaving the registry unchanged, exactly when
    /// the username is already taken.
    pub fn add(&mut self, user: User) -> (r: Result<(), ApiError>)
        requires
            old(self).wf(),
            wf_user(user@),
        ensures
            match r {
                Ok(()) => {
                    &&& find_user(old(self)@, user@.username) is None
                    &&& final(self)@ == old(self)@.push(user@)
                },
                Err(e) => {
                    &&& e == ApiError::Conflict
                    &&& find_user(old(self)@, user@.username) is Some
                    &&& final(self)@ == old(self)@
                },
            },
            final(self).wf(),
    {
        let n = self.users.len();
        let mut i: usize = 0;
        proof {
            assert(self@.skip(0) =~= self@);
        }
        while i < n
            invariant
                0 <= i <= n,
                n == self.users.len(),
                self == old(self),
                old(self).wf(),
                find_user(self@, user@.username) == find_user(
                    self@.skip(i as int),
                    user@.username,
                ),
                forall|j: int| 0 <= j < i ==> (#[trigger] self@[j]).username != user@.username,
            decreases n - i,
        {
            proof {
                assert(self@.skip(i as int)[0] == self@[i as int]);
                assert(user_views_of(self.users@)[i as int] == self.users@[i as int]@);
            }
            if *self.users[i].username() == *user.username() {
                return Err(ApiError::Conflict);
            }
            proof {
                assert(self@.skip(i as int).drop_first() =~= self@.skip(i + 1 as int));
            }
            i = i + 1;
        }
        proof {
            assert(self@.skip(n as int).len() == 0);
        }
        let ghost u = user@;
        self.users.push(user);
        proof {
            assert(final(self)@ =~= old(self)@.push(u));
        }
        Ok(())
    }

    /// Create an account: reject a taken username, hash the password, store
    /// the account, and return a copy of what was stored.
    ///
    /// A taken username always fails with `Conflict` and changes nothing;
    /// a hashing failure fails with `HashingError` and changes nothing; a
    /// free username whose password hashes is always stored.
    pub fn create(&mut self, username: String, password: String) -> (r: Result<User, ApiError>)
        requires
            old(self).wf(),
        ensures
            match r {
                Ok(u) => {
                    &&& find_user(old(self)@, username@) is None
                    &&& u@.username == username@
                    &&& u@.access_points == Seq::<APID>::empty()
                    &&& final(self)@ == old(self)@.push(u@)
                },
                Err(e) => {
                    &&& final(self)@ == old(self)@
                    &&& (e == ApiError::Conflict <==> find_user(old(self)@, username@) is Some)
                    &&& (e == ApiError::Conflict || e == ApiError::HashingError)
                },
            },
            final(self).wf(),
    {
        if self.contains_username(&username) {
            return Err(ApiError::Conflict);
        }
        let user = match User::new(username, password) {
            Some(u) => u,
            None => {
                return Err(ApiError::HashingError);
            },
        };
        let copy = user.duplicate();
        match self.add(user) {
            Ok(()) => Ok(copy),
            Err(_) => {
                proof {
                    assert(false);
                }
                Err(ApiError::Conflict)
            },
        }
    }

    /// Whether an account with this username exists.
    pub fn contains_username(&self, username: &String) -> (r: bool)
        ensures
            r == (find_user(self@, username@) is Some),
    {
        let n = self.users.len();
        let mut i: usize = 0;
        proof {
            assert(self@.skip(0) =~= self@);
        }
        while i < n
            invariant
                0 <= i <= n,
                n == self.users.len(),
                find_user(self@, username@) == find_user(self@.skip(i as int), username@),
            decreases n - i,
        {
            proof {
                assert(self@.skip(i as int)[0] == self@[i as int]);
                assert(user_views_of(self.users@)[i as int] == self.users@[i as int]@);
            }
            if *self.users[i].username() == *username {
                return true;
            }
            proof {
                assert(self@.skip(i as int).drop_first() =~= self@.skip(i + 1 as int));
            }
            i = i + 1;
        }
        proof {
            assert(self@.skip(n as int).len() == 0);
        }
        false
    }

    /// Subscribe the named user to an access point.
    ///
    /// Fails with `NotFound`, leaving the registry unchanged, exactly when
    /// the username is unknown; otherwise the identifier is inserted into
    /// that user's subscription set (re-subscribing changes nothing and
    /// still succeeds).
    pub fn add_access_point(&mut self, username: &String, access_point: APID) -> (r: Result<
        (),
        ApiError,
    >)
        requires
            old(self).wf(),
        ensures
            match r {
                Ok(()) => {
                    &&& find_user(old(self)@, username@) is Some
                    &&& final(self)@ == subscribe_spec(old(self)@, username@, access_point)
                },
                Err(e) => {
                    &&& e == ApiError::NotFound
                    &&& find_user(old(self)@, username@) is None
                    &&& final(self)@ == old(self)@
                },
            },
            final(self).wf(),
    {
        let n = self.users.len();
        let mut i: usize = 0;
        proof {
            assert(self@.skip(0) =~= self@);
        }
        while i < n
            invariant
                0 <= i <= n,
                n == self.users.len(),
                self == old(self),
                old(self).wf(),
                find_user(old(self)@, username@) == find_user(self@.skip(i as int), username@),
                forall|j: int| 0 <= j < i ==> (#[trigger] self@[j]).username != username@,
            decreases n - i,
        {
            proof {
                assert(self@.skip(i as int)[0] == self@[i as int]);
                assert(user_views_of(self.users@)[i as int] == self.users@[i as int]@);
            }
            if *self.users[i].username() == *username {
                let ghost s0 = self@;
                let ghost old_subs = self@[i as int].access_points;
                let mut u = self.users.remove(i);
                let m = u.access_points.len();
                let mut k: usize = 0;
                while k < m && u.access_points[k] < access_point
                    invariant
                        0 <= k <= m,
                        m == u.access_points.len(),
                        u@.access_points == old_subs,
                        forall|j: int| 0 <= j < k ==> (#[trigger] old_subs[j]) < access_point,
                    decreases m - k,
                {
                    k = k + 1;
                }
                proof {
                    assert(subs_sorted(old_subs));
                    lemma_insert_sub_at(old_subs, access_point, k as int);
                }
                let already = if k < m {
                    u.access_points[k] == access_point
                } else {
                    false
                };
                if !already {
                    u.access_points.insert(k, access_point);
                    proof {
                        assert(u@.access_points =~= old_subs.take(k as int) + seq![access_point]
                            + old_subs.skip(k as int));
                    }
                }
                proof {
                    assert(u@.access_points == insert_sub(old_subs, access_point));
                    assert(subs_sorted(u@.access_points)) by {
                        if !(k < m && old_subs[k as int] == access_point) {
                            let t = old_subs.take(k as int) + seq![access_point] + old_subs.skip(
                                k as int,
                            );
                            assert forall|a: int, b: int|
                                0 <= a < b < t.len() implies t[a] < t[b] by {
                                if a < k {
                                    assert(t[a] == old_subs[a]);
                                }
                                if b < k {
                                    assert(t[b] == old_subs[b]);
                                }
                                if a > k {
                                    assert(t[a] == old_subs[a - 1]);
                                }
                                if b > k {
                                    assert(t[b] == old_subs[b - 1]);
                                }
                                if a == k {
                                    assert(t[a] == access_point);
                                }
                                if b == k {
                                    assert(t[b] == access_point);
                                }
                                if b == k {
                                    assert(t[a] == old_subs[a] && old_subs[a] < access_point);
                                }
                                if a == k && b > k {
                                    assert(old_subs[k as int] >= access_point);
                                    assert(old_subs[k as int] != access_point);
                                    if b - 1 > k {
                                        assert(old_subs[k as int] < old_subs[b - 1]);
                                    }
                                }
                            }
                        }
                    }
                }
                let ghost uv = u@;
                self.users.insert(i, u);
                proof {
                    assert(self.users@ =~= old(self).users@.update(i as int, u));
                    assert forall|q: int|
                        0 <= q < final(self)@.len() implies #[trigger] final(self)@[q]
                        == subscribe_spec(s0, username@, access_point)[q] by {
                        assert(user_views_of(self.users@)[q] == self.users@[q]@);
                        if q != i {
                            assert(self.users@[q] == old(self).users@[q]);
                            assert(user_views_of(old(self).users@)[q] == old(
                                self,
                            ).users@[q]@);
                            if q > i {
                                assert(s0[i as int].username != s0[q].username);
                            }
                        }
                    }
                    assert(final(self)@ =~= subscribe_spec(s0, username@, access_point));
                }
                return Ok(());
            }
            proof {
                assert(self@.skip(i as int).drop_first() =~= self@.skip(i + 1 as int));
            }
            i = i + 1;
        }
        proof {
            assert(self@.skip(n as int).len() == 0);
        }
        Err(ApiError::NotFound)
    }

    /// Every username subscribed to `id`, in registry order.
    pub fn get_users_with_access_point(&self, id: APID) -> (r: Vec<String>)
        ensures
            strings_of(r@) == subscribers_of(self@, id),
    {
        let n = self.users.len();
        let mut out: Vec<String> = Vec::new();
        let mut i: usize = 0;
        proof {
            assert(strings_of(out@) =~= subscribers_of(self@.take(0), id));
        }
        while i < n
            invariant
                0 <= i <= n,
                n == self.users.len(),
                strings_of(out@) == subscribers_of(self@.take(i as int), id),
            decreases n - i,
        {
            proof {
                assert(user_views_of(self.users@)[i as int] == self.users@[i as int]@);
                assert(self@.take(i + 1 as int).drop_last() =~= self@.take(i as int));
                assert(self@.take(i + 1 as int).last() == self@[i as int]);
            }
            let ghost out0 = out@;
            let subscribed = contains_id(self.users[i].access_points(), id);
            if subscribed {
                let name = self.users[i].username().clone();
                out.push(name);
                proof {
                    assert(out@ == out0.push(name));
                    assert(strings_of(out0).len() == out0.len());
                    assert forall|q: int| 0 <= q < out@.len() implies #[trigger] strings_of(
                        out@,
                    )[q] == subscribers_of(self@.take(i + 1 as int), id)[q] by {
                        assert(strings_of(out@)[q] == out@[q]@);
                        if q < out0.len() {
                            assert(out0.push(name)[q] == out0[q]);
                            assert(strings_of(out0)[q] == out0[q]@);
                        } else {
                            assert(out0.push(name)[q] == name);
                        }
                    }
                    assert(strings_of(out@) =~= subscribers_of(self@.take(i + 1 as int), id));
                }
            } else {
                proof {
                    assert(subscribers_of(self@.take(i + 1 as int), id) =~= strings_of(out@));
                }
            }
            i = i + 1;
        }
        proof {
            assert(self@.take(n as int) =~= self@);
        }
        out
    }

    /// A copy of the account stored under `username`, or nothing.
    pub fn get(&self, username: String) -> (r: Option<User>)
        ensures
            match r {
                Some(u) => find_user(self@, username@) == Some(u@),
                None => find_user(self@, username@) is None,
            },
    {
        let n = self.users.len();
        let mut i: usize = 0;
        proof {
            assert(self@.skip(0) =~= self@);
        }
        while i < n
            invariant
                0 <= i <= n,
                n == self.users.len(),
                find_user(self@, username@) == find_user(self@.skip(i as int), username@),
            decreases n - i,
        {
            proof {
                assert(self@.skip(i as int)[0] == self@[i as int]);
                assert(user_views_of(self.users@)[i as int] == self.users@[i as int]@);
            }
            if *self.users[i].username() == username {
                return Some(self.users[i].duplicate());
            }
            proof {
                assert(self@.skip(i as int).drop_first() =~= self@.skip(i + 1 as int));
            }
            i = i + 1;
        }
        proof {
            assert(self@.skip(n as int).len() == 0);
        }
        None
    }
}

// ---------------------------------------------------------------------------
// Stated laws of the registry
// ---------------------------------------------------------------------------

/// The subscriber listing is exact: a username appears in
/// `subscribersOf(id)` precisely when some stored account carries that
/// username and holds `id` in its subscription set — whatever order the
/// accounts or subscriptions were added in.
pub proof fn lemma_subscribers_exact(s: Seq<UserView>, id: APID, name: Seq<char>)
    ensures
        subscribers_of(s, id).contains(name) <==> (exists|i: int|
            0 <= i < s.len() && (#[trigger] s[i]).username == name
                && s[i].access_points.contains(id)),
    decreases s.len(),
{
    if s.len() > 0 {
        lemma_subscribers_exact(s.drop_last(), id, name);
        let pre = subscribers_of(s.drop_last(), id);
        let tailseq: Seq<Seq<char>> = if s.last().access_points.contains(id) {
            seq![s.last().username]
        } else {
            Seq::empty()
        };
        assert(subscribers_of(s, id) == pre + tailseq);
        if subscribers_of(s, id).contains(name) {
            let idx = choose|idx: int|
                0 <= idx < (pre + tailseq).len() && (pre + tailseq)[idx] == name;
            if idx < pre.len() {
                assert(pre[idx] == name);
                assert(pre.contains(name));
                let i = choose|i: int|
                    0 <= i < s.drop_last().len() && (#[trigger] s.drop_last()[i]).username
                        == name && s.drop_last()[i].access_points.contains(id);
                assert(s[i] == s.drop_last()[i]);
                assert(s[i].username == name && s[i].access_points.contains(id));
            } else {
                assert(tailseq[idx - pre.len()] == name);
                assert(s.last().username == name);
                assert(s[s.len() - 1].username == name && s[s.len()
                    - 1].access_points.contains(id));
            }
        }
        if exists|i: int|
            0 <= i < s.len() && (#[trigger] s[i]).username == name
                && s[i].access_points.contains(id) {
            let i = choose|i: int|
                0 <= i < s.len() && (#[trigger] s[i]).username == name
                    && s[i].access_points.contains(id);
            if i < s.len() - 1 {
                assert(s.drop_last()[i] == s[i]);
                assert(pre.contains(name));
                let idx = choose|idx: int| 0 <= idx < pre.len() && pre[idx] == name;
                assert((pre + tailseq)[idx] == name);
                assert(subscribers_of(s, id).contains(name));
            } else {
                assert(s.last() == s[i]);
                assert(tailseq == seq![name]);
                assert((pre + tailseq)[pre.len() as int] == name);
                assert(subscribers_of(s, id).contains(name));
            }
        }
    }
}

} // verus!

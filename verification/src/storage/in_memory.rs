//! A backend that holds all the data in local RAM.

use vstd::prelude::*;

use crate::common_types::{Login, Password, RefreshTokenHash, Role, UserData, UserDataV};
use crate::storage::{Storage as UserStorage, StorageErr, StoreModel};

verus! {

/// No two records share a login.
pub open spec fn logins_unique(s: Seq<UserData>) -> bool {
    forall|i: int, j: int|
        0 <= i < j < s.len() ==> s[i]@.credentials.login != s[j]@.credentials.login
}

/// Some record carries the login `l`.
pub open spec fn has_login(s: Seq<UserData>, l: Seq<char>) -> bool {
    exists|i: int| 0 <= i < s.len() && s[i]@.credentials.login == l
}

/// The index of the record carrying `l`; meaningful under `logins_unique`.
pub open spec fn login_index(s: Seq<UserData>, l: Seq<char>) -> int {
    choose|i: int| 0 <= i < s.len() && s[i]@.credentials.login == l
}

/// The record sequence read as a map from login to record view.
pub open spec fn users_map_of(s: Seq<UserData>) -> Map<Seq<char>, UserDataV> {
    Map::new(|l: Seq<char>| has_login(s, l), |l: Seq<char>| s[login_index(s, l)]@)
}

/// No two entries hold the same hash.
pub open spec fn tokens_unique(s: Seq<RefreshTokenHash>) -> bool {
    forall|i: int, j: int| 0 <= i < j < s.len() ==> s[i]@ != s[j]@
}

/// The token sequence read as a set of hash views.
pub open spec fn token_set_of(s: Seq<RefreshTokenHash>) -> Set<Seq<char>> {
    Set::new(|x: Seq<char>| exists|i: int| 0 <= i < s.len() && s[i]@ == x)
}

proof fn lemma_login_index(s: Seq<UserData>, l: Seq<char>)
    requires
        logins_unique(s),
        has_login(s, l),
    ensures
        0 <= login_index(s, l) < s.len(),
        s[login_index(s, l)]@.credentials.login == l,
        forall|j: int| 0 <= j < s.len() && s[j]@.credentials.login == l ==> j == login_index(s, l),
{
    let i = login_index(s, l);
    assert(0 <= i < s.len() && s[i]@.credentials.login == l);
    assert forall|j: int| 0 <= j < s.len() && s[j]@.credentials.login == l implies j == i by {
        if j < i {
            assert(s[j]@.credentials.login != s[i]@.credentials.login);
        } else if i < j {
            assert(s[i]@.credentials.login != s[j]@.credentials.login);
        }
    }
}

proof fn lemma_users_map_at(s: Seq<UserData>, i: int)
    requires
        logins_unique(s),
        0 <= i < s.len(),
    ensures
        users_map_of(s).contains_key(s[i]@.credentials.login),
        users_map_of(s)[s[i]@.credentials.login] == s[i]@,
{
    let l = s[i]@.credentials.login;
    assert(has_login(s, l));
    lemma_login_index(s, l);
    assert(login_index(s, l) == i);
}

proof fn lemma_users_map_push(s: Seq<UserData>, u: UserData)
    requires
        logins_unique(s),
        !has_login(s, u@.credentials.login),
    ensures
        logins_unique(s.push(u)),
        users_map_of(s.push(u)) == users_map_of(s).insert(u@.credentials.login, u@),
{
    let t = s.push(u);
    let lu = u@.credentials.login;
    let n = s.len() as int;
    assert(t[n] == u);
    assert forall|i: int, j: int|
        0 <= i < j < t.len() implies t[i]@.credentials.login != t[j]@.credentials.login by {
        if j < n {
            assert(s[i]@.credentials.login != s[j]@.credentials.login);
        } else {
            assert(t[i] == s[i]);
            if t[i]@.credentials.login == lu {
                assert(has_login(s, lu));
            }
        }
    }
    assert forall|l: Seq<char>| #[trigger] has_login(t, l) implies has_login(s, l) || l == lu by {
        let i = choose|i: int| 0 <= i < t.len() && t[i]@.credentials.login == l;
        if i < n {
            assert(s[i]@.credentials.login == l);
        }
    }
    assert forall|l: Seq<char>| has_login(s, l) implies #[trigger] has_login(t, l) by {
        let i = choose|i: int| 0 <= i < s.len() && s[i]@.credentials.login == l;
        assert(t[i]@.credentials.login == l);
    }
    assert(t[n]@.credentials.login == lu);
    assert(has_login(t, lu));
    assert forall|l: Seq<char>| #[trigger] has_login(t, l) implies users_map_of(t)[l]
        == users_map_of(s).insert(lu, u@)[l] by {
        lemma_login_index(t, l);
        if l == lu {
            assert(login_index(t, l) == n);
        } else {
            assert(has_login(s, l));
            lemma_login_index(s, l);
            let i = login_index(s, l);
            assert(t[i]@.credentials.login == l);
            assert(login_index(t, l) == i);
            assert(t[i] == s[i]);
        }
    }
    assert(users_map_of(t) =~= users_map_of(s).insert(lu, u@));
}

proof fn lemma_users_map_update(s: Seq<UserData>, i: int, u: UserData)
    requires
        logins_unique(s),
        0 <= i < s.len(),
        u@.credentials.login == s[i]@.credentials.login,
    ensures
        logins_unique(s.update(i, u)),
        users_map_of(s.update(i, u)) == users_map_of(s).insert(u@.credentials.login, u@),
{
    let t = s.update(i, u);
    let lu = u@.credentials.login;
    assert forall|a: int, b: int|
        0 <= a < b < t.len() implies t[a]@.credentials.login != t[b]@.credentials.login by {
        assert(s[a]@.credentials.login != s[b]@.credentials.login);
    }
    assert forall|l: Seq<char>| #[trigger] has_login(t, l) <==> has_login(s, l) by {
        if has_login(t, l) {
            let a = choose|a: int| 0 <= a < t.len() && t[a]@.credentials.login == l;
            assert(s[a]@.credentials.login == l);
        }
        if has_login(s, l) {
            let a = choose|a: int| 0 <= a < s.len() && s[a]@.credentials.login == l;
            assert(t[a]@.credentials.login == l);
        }
    }
    assert forall|l: Seq<char>| #[trigger] has_login(t, l) implies users_map_of(t)[l]
        == users_map_of(s).insert(lu, u@)[l] by {
        lemma_login_index(t, l);
        lemma_login_index(s, l);
        if l == lu {
            assert(t[i]@.credentials.login == lu);
            assert(login_index(t, l) == i);
        } else {
            let a = login_index(s, l);
            assert(a != i);
            assert(t[a]@.credentials.login == l);
            assert(login_index(t, l) == a);
            assert(t[a] == s[a]);
        }
    }
    assert(has_login(t, lu)) by {
        assert(t[i]@.credentials.login == lu);
    }
    assert(users_map_of(t) =~= users_map_of(s).insert(lu, u@));
}

proof fn lemma_token_set_push(s: Seq<RefreshTokenHash>, t: RefreshTokenHash)
    requires
        tokens_unique(s),
        !token_set_of(s).contains(t@),
    ensures
        tokens_unique(s.push(t)),
        token_set_of(s.push(t)) == token_set_of(s).insert(t@),
{
    let p = s.push(t);
    let n = s.len() as int;
    assert(p[n] == t);
    assert forall|i: int, j: int| 0 <= i < j < p.len() implies p[i]@ != p[j]@ by {
        if j < n {
            assert(s[i]@ != s[j]@);
        } else {
            assert(p[i] == s[i]);
            if p[i]@ == t@ {
                assert(token_set_of(s).contains(t@));
            }
        }
    }
    assert forall|x: Seq<char>|
        token_set_of(p).contains(x) <==> #[trigger] token_set_of(s).insert(t@).contains(x) by {
        if token_set_of(p).contains(x) {
            let i = choose|i: int| 0 <= i < p.len() && p[i]@ == x;
            if i < n {
                assert(s[i]@ == x);
            }
        }
        if token_set_of(s).contains(x) {
            let i = choose|i: int| 0 <= i < s.len() && s[i]@ == x;
            assert(p[i]@ == x);
        }
        if x == t@ {
            assert(p[n]@ == x);
        }
    }
    assert(token_set_of(p) =~= token_set_of(s).insert(t@));
}

proof fn lemma_token_set_remove(s: Seq<RefreshTokenHash>, i: int)
    requires
        tokens_unique(s),
        0 <= i < s.len(),
    ensures
        tokens_unique(s.remove(i)),
        token_set_of(s.remove(i)) == token_set_of(s).remove(s[i]@),
{
    let p = s.remove(i);
    assert forall|a: int, b: int| 0 <= a < b < p.len() implies p[a]@ != p[b]@ by {
        let a2 = if a < i { a } else { a + 1 };
        let b2 = if b < i { b } else { b + 1 };
        assert(p[a] == s[a2]);
        assert(p[b] == s[b2]);
        assert(s[a2]@ != s[b2]@);
    }
    assert forall|x: Seq<char>|
        token_set_of(p).contains(x) <==> #[trigger] token_set_of(s).remove(s[i]@).contains(x) by {
        if token_set_of(p).contains(x) {
            let a = choose|a: int| 0 <= a < p.len() && p[a]@ == x;
            let a2 = if a < i { a } else { a + 1 };
            assert(p[a] == s[a2]);
            assert(s[a2]@ == x);
            if x == s[i]@ {
                assert(a2 != i);
                assert(s[a2]@ != s[i]@);
            }
        }
        if token_set_of(s).contains(x) && x != s[i]@ {
            let a = choose|a: int| 0 <= a < s.len() && s[a]@ == x;
            assert(a != i);
            let a2 = if a < i { a } else { a - 1 };
            assert(p[a2] == s[a]);
            assert(p[a2]@ == x);
        }
    }
    assert(token_set_of(p) =~= token_set_of(s).remove(s[i]@));
}

fn find_login(v: &Vec<UserData>, login: &Login) -> (r: Option<usize>)
    ensures
        match r {
            Some(i) => i < v@.len() && v@[i as int]@.credentials.login == login@,
            None => !has_login(v@, login@),
        },
{
    let mut i: usize = 0;
    while i < v.len()
        invariant
            i <= v@.len(),
            forall|j: int| 0 <= j < i ==> v@[j]@.credentials.login != login@,
        decreases v@.len() - i,
    {
        if v[i].credentials.login == *login {
            return Some(i);
        }
        i += 1;
    }
    None
}

fn find_token(v: &Vec<RefreshTokenHash>, t: &RefreshTokenHash) -> (r: Option<usize>)
    ensures
        match r {
            Some(i) => i < v@.len() && v@[i as int]@ == t@,
            None => !token_set_of(v@).contains(t@),
        },
{
    let mut i: usize = 0;
    while i < v.len()
        invariant
            i <= v@.len(),
            forall|j: int| 0 <= j < i ==> v@[j]@ != t@,
        decreases v@.len() - i,
    {
        if v[i].equals(t) {
            return Some(i);
        }
        i += 1;
    }
    None
}

fn role_in(v: &Vec<Role>, role: &Role) -> (r: bool)
    ensures
        r == v.deep_view().contains(role@),
{
    let mut i: usize = 0;
    while i < v.len()
        invariant
            i <= v@.len(),
            forall|j: int| 0 <= j < i ==> v.deep_view()[j] != role@,
        decreases v@.len() - i,
    {
        if v[i] == *role {
            assert(v.deep_view()[i as int] == role@);
            return true;
        }
        i += 1;
    }
    false
}

/// In-memory backend: users in a vector holding each login at most once, and
/// token hashes in a vector holding each hash at most once, so the vectors
/// stand for the map and the set of the model.
pub struct Storage {
    users_data: Vec<UserData>,
    tokens: Vec<RefreshTokenHash>,
}

impl Storage {
    /// An empty backend: no users, no tokens.
    pub fn new() -> (r: Self)
        ensures
            r.wf(),
            r.model() == (StoreModel {
                users: Map::<Seq<char>, UserDataV>::empty(),
                tokens: Set::<Seq<char>>::empty(),
            }),
    {
        let r = Storage { users_data: Vec::new(), tokens: Vec::new() };
        proof {
            assert(users_map_of(r.users_data@) =~= Map::<Seq<char>, UserDataV>::empty());
            assert(token_set_of(r.tokens@) =~= Set::<Seq<char>>::empty());
        }
        r
    }
}

impl UserStorage for Storage {
    closed spec fn model(&self) -> StoreModel {
        StoreModel { users: users_map_of(self.users_data@), tokens: token_set_of(self.tokens@) }
    }

    closed spec fn wf(&self) -> bool {
        &&& logins_unique(self.users_data@)
        &&& tokens_unique(self.tokens@)
        &&& forall|i: int| 0 <= i < self.users_data@.len() ==> self.users_data@[i].wf()
    }

    fn create_user_data(&mut self, data: UserData) -> (r: Result<(), (UserData, StorageErr)>) {
        match find_login(&self.users_data, &data.credentials.login) {
            Some(i) => {
                proof {
                    assert(self.users_data@[i as int]@.credentials.login
                        == data@.credentials.login);
                    assert(has_login(self.users_data@, data@.credentials.login));
                }
                Err((data, StorageErr::LoginAlreadyRegistered))
            },
            None => {
                proof {
                    lemma_users_map_push(self.users_data@, data);
                }
                self.users_data.push(data);
                Ok(())
            },
        }
    }

    fn load_user_data(&mut self, login: &Login) -> (r: Result<Option<UserData>, StorageErr>) {
        match find_login(&self.users_data, login) {
            Some(i) => {
                proof {
                    lemma_users_map_at(self.users_data@, i as int);
                }
                let u = self.users_data[i].clone();
                Ok(Some(u))
            },
            None => Ok(None),
        }
    }

    fn change_pass(&mut self, login: &Login, new_pass: Password, old_pass: Password) -> (r: Result<
        (),
        StorageErr,
    >) {
        let idx = match find_login(&self.users_data, login) {
            Some(i) => i,
            None => {
                return Err(StorageErr::LoginNotFound);
            },
        };
        proof {
            lemma_users_map_at(self.users_data@, idx as int);
        }
        let is_match = self.users_data[idx].credentials.pass.equals(&old_pass);
        if is_match {
            let ghost s0 = self.users_data@;
            let u = &mut self.users_data[idx];
            u.credentials.pass = new_pass;
            proof {
                lemma_users_map_update(s0, idx as int, self.users_data@[idx as int]);
            }
        }
        Ok(())
    }

    fn add_roles(&mut self, login: &Login, roles_to_add: Vec<Role>) -> (r: Result<
        (),
        (Vec<Role>, StorageErr),
    >) {
        let idx = match find_login(&self.users_data, login) {
            Some(i) => i,
            None => {
                return Err((roles_to_add, StorageErr::LoginNotFound));
            },
        };
        proof {
            lemma_users_map_at(self.users_data@, idx as int);
        }
        let ghost s0 = self.users_data@;
        let ghost radd = roles_to_add.deep_view();
        let mut k: usize = 0;
        while k < roles_to_add.len()
            invariant
                k <= roles_to_add.len(),
                idx < self.users_data@.len(),
                self.tokens@ == old(self).tokens@,
                roles_to_add.deep_view() == radd,
                logins_unique(self.users_data@),
                forall|m: int| 0 <= m < self.users_data@.len() ==> self.users_data@[m].wf(),
                self.users_data@.len() == s0.len(),
                forall|m: int| 0 <= m < s0.len() && m != idx ==> self.users_data@[m] == s0[m],
                self.users_data@[idx as int]@.credentials == s0[idx as int]@.credentials,
                self.users_data@[idx as int]@.roles == s0[idx as int]@.roles.union(
                    radd.subrange(0, k as int).to_set(),
                ),
            decreases roles_to_add.len() - k,
        {
            let ghost cur = self.users_data@[idx as int].roles.deep_view();
            let present = role_in(&self.users_data[idx].roles, &roles_to_add[k]);
            let ghost x = radd[k as int];
            if !present {
                let role = roles_to_add[k].clone();
                let u = &mut self.users_data[idx];
                u.roles.push(role);
                proof {
                    assert(self.users_data@[idx as int].roles.deep_view() =~= cur.push(x));
                    assert forall|y: Seq<char>|
                        cur.push(x).to_set().contains(y)
                            <==> #[trigger] cur.to_set().insert(x).contains(y) by {
                        if cur.push(x).contains(y) {
                            let j = choose|j: int|
                                0 <= j < cur.push(x).len() && cur.push(x)[j] == y;
                            if j < cur.len() {
                                assert(cur[j] == y);
                            }
                        }
                        if cur.contains(y) {
                            let j = choose|j: int| 0 <= j < cur.len() && cur[j] == y;
                            assert(cur.push(x)[j] == y);
                        }
                        if y == x {
                            assert(cur.push(x)[cur.len() as int] == y);
                        }
                    }
                    assert(cur.push(x).to_set() =~= cur.to_set().insert(x));
                }
            } else {
                proof {
                    assert(cur.to_set().contains(x));
                    assert(cur.to_set() =~= cur.to_set().insert(x));
                }
            }
            proof {
                assert(radd.subrange(0, k + 1 as int) =~= radd.subrange(0, k as int).push(x));
                assert(radd.subrange(0, k as int).push(x).to_set() =~= radd.subrange(
                    0,
                    k as int,
                ).to_set().insert(x)) by {
                    let sub = radd.subrange(0, k as int);
                    assert forall|y: Seq<char>|
                        sub.push(x).to_set().contains(y)
                            <==> #[trigger] sub.to_set().insert(x).contains(y) by {
                        if sub.push(x).contains(y) {
                            let j = choose|j: int|
                                0 <= j < sub.push(x).len() && sub.push(x)[j] == y;
                            if j < sub.len() {
                                assert(sub[j] == y);
                            }
                        }
                        if sub.contains(y) {
                            let j = choose|j: int| 0 <= j < sub.len() && sub[j] == y;
                            assert(sub.push(x)[j] == y);
                        }
                        if y == x {
                            assert(sub.push(x)[sub.len() as int] == y);
                        }
                    }
                }
                assert(self.users_data@[idx as int]@.roles == s0[idx as int]@.roles.union(
                    radd.subrange(0, k + 1 as int).to_set(),
                )) by {
                    assert(s0[idx as int]@.roles.union(
                        radd.subrange(0, k as int).to_set().insert(x),
                    ) =~= s0[idx as int]@.roles.union(radd.subrange(0, k as int).to_set()).insert(
                        x,
                    ));
                    if cur.to_set().contains(x) {
                        assert(s0[idx as int]@.roles.union(
                            radd.subrange(0, k as int).to_set(),
                        ).insert(x) =~= s0[idx as int]@.roles.union(
                            radd.subrange(0, k as int).to_set(),
                        ));
                    }
                }
            }
            k += 1;
        }
        proof {
            assert(radd.subrange(0, roles_to_add.len() as int) =~= radd);
            assert(self.users_data@ =~= s0.update(idx as int, self.users_data@[idx as int]));
            lemma_users_map_update(s0, idx as int, self.users_data@[idx as int]);
        }
        Ok(())
    }

    fn remove_roles(&mut self, login: &Login, roles_to_remove: Vec<Role>) -> (r: Result<
        (),
        (Vec<Role>, StorageErr),
    >) {
        let idx = match find_login(&self.users_data, login) {
            Some(i) => i,
            None => {
                return Err((roles_to_remove, StorageErr::LoginNotFound));
            },
        };
        proof {
            lemma_users_map_at(self.users_data@, idx as int);
        }
        let ghost s0 = self.users_data@;
        let ghost orig = s0[idx as int].roles.deep_view();
        let ghost rrem = roles_to_remove.deep_view().to_set();
        let mut kept: Vec<Role> = Vec::new();
        let n = self.users_data[idx].roles.len();
        let mut k: usize = 0;
        while k < n
            invariant
                k <= n,
                idx < self.users_data@.len(),
                self.users_data@ == s0,
                n == s0[idx as int].roles@.len(),
                orig == s0[idx as int].roles.deep_view(),
                rrem == roles_to_remove.deep_view().to_set(),
                s0[idx as int].wf(),
                forall|a: int, b: int|
                    0 <= a < b < kept.deep_view().len() ==> kept.deep_view()[a]
                        != kept.deep_view()[b],
                kept.deep_view().to_set() == orig.subrange(0, k as int).to_set().difference(rrem),
            decreases n - k,
        {
            let ghost x = orig[k as int];
            let ghost pre = kept.deep_view();
            let drop_it = role_in(&roles_to_remove, &self.users_data[idx].roles[k]);
            if !drop_it {
                let role = self.users_data[idx].roles[k].clone();
                kept.push(role);
                proof {
                    assert(kept.deep_view() =~= pre.push(x));
                    assert(!pre.to_set().contains(x)) by {
                        if pre.to_set().contains(x) {
                            assert(orig.subrange(0, k as int).to_set().contains(x));
                            let j = choose|j: int|
                                0 <= j < orig.subrange(0, k as int).len() && orig.subrange(
                                    0,
                                    k as int,
                                )[j] == x;
                            assert(orig[j] == x);
                            assert(orig[j] != orig[k as int]);
                        }
                    }
                    assert forall|a: int, b: int|
                        0 <= a < b < kept.deep_view().len() implies kept.deep_view()[a]
                        != kept.deep_view()[b] by {
                        if b == pre.len() {
                            if kept.deep_view()[a] == x {
                                assert(pre.to_set().contains(x));
                            }
                        }
                    }
                    assert forall|y: Seq<char>|
                        pre.push(x).to_set().contains(y)
                            <==> #[trigger] pre.to_set().insert(x).contains(y) by {
                        if pre.push(x).contains(y) {
                            let j = choose|j: int|
                                0 <= j < pre.push(x).len() && pre.push(x)[j] == y;
                            if j < pre.len() {
                                assert(pre[j] == y);
                            }
                        }
                        if pre.contains(y) {
                            let j = choose|j: int| 0 <= j < pre.len() && pre[j] == y;
                            assert(pre.push(x)[j] == y);
                        }
                        if y == x {
                            assert(pre.push(x)[pre.len() as int] == y);
                        }
                    }
                    assert(kept.deep_view().to_set() =~= pre.to_set().insert(x));
                }
            }
            proof {
                assert(orig.subrange(0, k + 1 as int) =~= orig.subrange(0, k as int).push(x));
                let sub = orig.subrange(0, k as int);
                assert forall|y: Seq<char>|
                    sub.push(x).to_set().contains(y)
                        <==> #[trigger] sub.to_set().insert(x).contains(y) by {
                    if sub.push(x).contains(y) {
                        let j = choose|j: int| 0 <= j < sub.push(x).len() && sub.push(x)[j] == y;
                        if j < sub.len() {
                            assert(sub[j] == y);
                        }
                    }
                    if sub.contains(y) {
                        let j = choose|j: int| 0 <= j < sub.len() && sub[j] == y;
                        assert(sub.push(x)[j] == y);
                    }
                    if y == x {
                        assert(sub.push(x)[sub.len() as int] == y);
                    }
                }
                assert(sub.push(x).to_set() =~= sub.to_set().insert(x));
                if drop_it {
                    assert(rrem.contains(x));
                    assert(kept.deep_view().to_set() =~= sub.to_set().insert(x).difference(rrem));
                } else {
                    assert(kept.deep_view().to_set() =~= sub.to_set().insert(x).difference(rrem));
                }
            }
            k += 1;
        }
        let u = &mut self.users_data[idx];
        u.roles = kept;
        proof {
            assert(orig.subrange(0, n as int) =~= orig);
            lemma_users_map_update(s0, idx as int, self.users_data@[idx as int]);
        }
        Ok(())
    }

    fn store_rt(&mut self, token: RefreshTokenHash) -> (r: Result<
        (),
        (RefreshTokenHash, StorageErr),
    >) {
        match find_token(&self.tokens, &token) {
            Some(i) => {
                proof {
                    assert(self.tokens@[i as int]@ == token@);
                    assert(token_set_of(self.tokens@).contains(token@));
                    assert(token_set_of(self.tokens@).insert(token@) =~= token_set_of(
                        self.tokens@,
                    ));
                }
                Ok(())
            },
            None => {
                proof {
                    lemma_token_set_push(self.tokens@, token);
                }
                self.tokens.push(token);
                Ok(())
            },
        }
    }

    fn delete_rt(&mut self, token: RefreshTokenHash) -> (r: Result<
        bool,
        (RefreshTokenHash, StorageErr),
    >) {
        match find_token(&self.tokens, &token) {
            Some(i) => {
                proof {
                    assert(self.tokens@[i as int]@ == token@);
                    assert(token_set_of(self.tokens@).contains(token@));
                    lemma_token_set_remove(self.tokens@, i as int);
                }
                let removed = self.tokens.remove(i);
                proof {
                    assert(removed@ == token@);
                }
                Ok(true)
            },
            None => {
                proof {
                    assert(token_set_of(self.tokens@).remove(token@) =~= token_set_of(
                        self.tokens@,
                    ));
                }
                Ok(false)
            },
        }
    }
}

} // verus!

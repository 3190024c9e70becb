//! The storage subsystem: the capability contract every backend implements,
//! the typed request/response model, and the single-owner actor that applies
//! requests to the backend it exclusively owns.
//!
//! The whole subsystem is specified against one mathematical model,
//! [`StoreModel`]: a map from login to user record plus the set of currently
//! valid refresh-token hashes. Each operation is a pure step function on that
//! model, and every executable path is pinned to the corresponding step.

pub mod in_memory;

use vstd::prelude::*;

use crate::common_types::{
    CredentialsV, Login, Password, PasswordV, RefreshTokenHash, Role, UserData, UserDataV,
};

verus! {

/// Domain errors a backend reports as values.
#[derive(Clone, Copy, Debug, PartialEq, Eq, Structural)]
pub enum StorageErr {
    LoginAlreadyRegistered,
    LoginNotFound,
}

/// The authoritative state every backend must realise: users keyed by login,
/// plus the set of valid refresh-token hashes.
#[verifier::ext_equal]
pub ghost struct StoreModel {
    pub users: Map<Seq<char>, UserDataV>,
    pub tokens: Set<Seq<char>>,
}

/// Inserts the record only if its login is absent; on conflict the payload
/// comes back alongside the error.
pub open spec fn create_step(m: StoreModel, u: UserDataV) -> (StoreModel, Result<
    (),
    (UserDataV, StorageErr),
>) {
    if m.users.contains_key(u.credentials.login) {
        (m, Err((u, StorageErr::LoginAlreadyRegistered)))
    } else {
        (StoreModel { users: m.users.insert(u.credentials.login, u), tokens: m.tokens }, Ok(()))
    }
}

/// Absence is a valid outcome (`None`), distinct from failure.
pub open spec fn load_step(m: StoreModel, l: Seq<char>) -> Result<Option<UserDataV>, StorageErr> {
    if m.users.contains_key(l) {
        Ok(Some(m.users[l]))
    } else {
        Ok(None)
    }
}

/// Applies the change only if the supplied old hash matches the stored one; a
/// mismatch is a silent no-op, not an error.
pub open spec fn change_pass_step(
    m: StoreModel,
    l: Seq<char>,
    new_pass: PasswordV,
    old_pass: PasswordV,
) -> (StoreModel, Result<(), StorageErr>) {
    if !m.users.contains_key(l) {
        (m, Err(StorageErr::LoginNotFound))
    } else if m.users[l].credentials.pass == old_pass {
        let u = m.users[l];
        let u2 = UserDataV {
            credentials: CredentialsV { login: u.credentials.login, pass: new_pass },
            roles: u.roles,
        };
        (StoreModel { users: m.users.insert(l, u2), tokens: m.tokens }, Ok(()))
    } else {
        (m, Ok(()))
    }
}

/// Union with the existing roles; adding a present role changes nothing.
pub open spec fn add_roles_step(m: StoreModel, l: Seq<char>, roles: Set<Seq<char>>) -> (StoreModel,
    Result<(), (Set<Seq<char>>, StorageErr)>,
) {
    if !m.users.contains_key(l) {
        (m, Err((roles, StorageErr::LoginNotFound)))
    } else {
        let u = m.users[l];
        let u2 = UserDataV { credentials: u.credentials, roles: u.roles.union(roles) };
        (StoreModel { users: m.users.insert(l, u2), tokens: m.tokens }, Ok(()))
    }
}

/// Set difference; removing an absent role changes nothing.
pub open spec fn remove_roles_step(m: StoreModel, l: Seq<char>, roles: Set<Seq<char>>) -> (
    StoreModel,
    Result<(), (Set<Seq<char>>, StorageErr)>,
) {
    if !m.users.contains_key(l) {
        (m, Err((roles, StorageErr::LoginNotFound)))
    } else {
        let u = m.users[l];
        let u2 = UserDataV { credentials: u.credentials, roles: u.roles.difference(roles) };
        (StoreModel { users: m.users.insert(l, u2), tokens: m.tokens }, Ok(()))
    }
}

/// Inserts into the token set; re-storing an existing hash changes nothing.
pub open spec fn store_rt_step(m: StoreModel, t: Seq<char>) -> (StoreModel, Result<
    (),
    (Seq<char>, StorageErr),
>) {
    (StoreModel { users: m.users, tokens: m.tokens.insert(t) }, Ok(()))
}

/// Removes the hash if present and reports whether it was found, so a caller
/// can detect replay of an already-consumed token.
pub open spec fn delete_rt_step(m: StoreModel, t: Seq<char>) -> (StoreModel, Result<
    bool,
    (Seq<char>, StorageErr),
>) {
    (StoreModel { users: m.users, tokens: m.tokens.remove(t) }, Ok(m.tokens.contains(t)))
}

/// The operation set every storage backend must implement. `model` is the
/// backend's content as a [`StoreModel`]; every operation is pinned to the
/// matching step function on it, so all backends share one semantics.
pub trait Storage: Sized {
    spec fn model(&self) -> StoreModel;

    spec fn wf(&self) -> bool;

    fn create_user_data(&mut self, data: UserData) -> (r: Result<(), (UserData, StorageErr)>)
        requires
            old(self).wf(),
            data.wf(),
        ensures
            final(self).wf(),
            final(self).model() == create_step(old(self).model(), data@).0,
            match (r, create_step(old(self).model(), data@).1) {
                (Ok(()), Ok(())) => true,
                (Err(p), Err(pv)) => p.0 == data && p.0@ == pv.0 && p.1 == pv.1,
                _ => false,
            },
    ;

    fn load_user_data(&mut self, login: &Login) -> (r: Result<Option<UserData>, StorageErr>)
        requires
            old(self).wf(),
        ensures
            *final(self) == *old(self),
            match (r, load_step(old(self).model(), login@)) {
                (Ok(None), Ok(None)) => true,
                (Ok(Some(u)), Ok(Some(uv))) => u@ == uv && u.wf(),
                (Err(e), Err(ev)) => e == ev,
                _ => false,
            },
    ;

    fn change_pass(&mut self, login: &Login, new_pass: Password, old_pass: Password) -> (r: Result<
        (),
        StorageErr,
    >)
        requires
            old(self).wf(),
        ensures
            final(self).wf(),
            final(self).model() == change_pass_step(
                old(self).model(),
                login@,
                new_pass@,
                old_pass@,
            ).0,
            match (r, change_pass_step(old(self).model(), login@, new_pass@, old_pass@).1) {
                (Ok(()), Ok(())) => true,
                (Err(e), Err(ev)) => e == ev,
                _ => false,
            },
    ;

    fn add_roles(&mut self, login: &Login, roles_to_add: Vec<Role>) -> (r: Result<
        (),
        (Vec<Role>, StorageErr),
    >)
        requires
            old(self).wf(),
        ensures
            final(self).wf(),
            final(self).model() == add_roles_step(
                old(self).model(),
                login@,
                roles_to_add.deep_view().to_set(),
            ).0,
            match (r, add_roles_step(old(self).model(), login@, roles_to_add.deep_view().to_set()).1) {
                (Ok(()), Ok(())) => true,
                (Err(p), Err(pv)) => p.0 == roles_to_add && p.0.deep_view().to_set() == pv.0 && p.1
                    == pv.1,
                _ => false,
            },
    ;

    fn remove_roles(&mut self, login: &Login, roles_to_remove: Vec<Role>) -> (r: Result<
        (),
        (Vec<Role>, StorageErr),
    >)
        requires
            old(self).wf(),
        ensures
            final(self).wf(),
            final(self).model() == remove_roles_step(
                old(self).model(),
                login@,
                roles_to_remove.deep_view().to_set(),
            ).0,
            match (r, remove_roles_step(
                old(self).model(),
                login@,
                roles_to_remove.deep_view().to_set(),
            ).1) {
                (Ok(()), Ok(())) => true,
                (Err(p), Err(pv)) => p.0 == roles_to_remove && p.0.deep_view().to_set() == pv.0
                    && p.1 == pv.1,
                _ => false,
            },
    ;

    fn store_rt(&mut self, token: RefreshTokenHash) -> (r: Result<
        (),
        (RefreshTokenHash, StorageErr),
    >)
        requires
            old(self).wf(),
        ensures
            final(self).wf(),
            final(self).model() == store_rt_step(old(self).model(), token@).0,
            r is Ok,
    ;

    /// Search the given token in storage and delete it. Returns true if the
    /// token was found, false otherwise.
    fn delete_rt(&mut self, token: RefreshTokenHash) -> (r: Result<
        bool,
        (RefreshTokenHash, StorageErr),
    >)
        requires
            old(self).wf(),
        ensures
            final(self).wf(),
            final(self).model() == delete_rt_step(old(self).model(), token@).0,
            r == Ok::<bool, (RefreshTokenHash, StorageErr)>(
                old(self).model().tokens.contains(token@),
            ),
    ;
}

// Requests: one immutable payload struct per capability-contract operation.
pub struct CreateUserData {
    pub data: UserData,
}

pub struct LoadUserData {
    pub login: Login,
}

pub struct ChangePass {
    pub login: Login,
    pub new_pass: Password,
    pub old_pass: Password,
}

pub struct AddRoles {
    pub login: Login,
    pub roles_to_add: Vec<Role>,
}

pub struct RemoveRoles {
    pub login: Login,
    pub roles_to_remove: Vec<Role>,
}

pub struct StoreRT {
    pub token: RefreshTokenHash,
}

pub struct DeleteRT {
    pub token: RefreshTokenHash,
}

/// A storage request: one tagged variant per operation, carrying only the
/// payload that operation needs. Immutable once constructed.
pub enum StorageRequest {
    CreateUser(CreateUserData),
    LoadUser(LoadUserData),
    ChangePassword(ChangePass),
    AddRoles(AddRoles),
    RemoveRoles(RemoveRoles),
    StoreRefreshToken(StoreRT),
    DeleteRefreshToken(DeleteRT),
}

/// The view of a request: the same tag over mathematical payloads.
pub ghost enum ReqV {
    CreateUser(UserDataV),
    LoadUser(Seq<char>),
    ChangePassword { login: Seq<char>, new_pass: PasswordV, old_pass: PasswordV },
    AddRoles { login: Seq<char>, roles: Set<Seq<char>> },
    RemoveRoles { login: Seq<char>, roles: Set<Seq<char>> },
    StoreRefreshToken(Seq<char>),
    DeleteRefreshToken(Seq<char>),
}

impl View for StorageRequest {
    type V = ReqV;

    open spec fn view(&self) -> ReqV {
        match self {
            StorageRequest::CreateUser(c) => ReqV::CreateUser(c.data@),
            StorageRequest::LoadUser(l) => ReqV::LoadUser(l.login@),
            StorageRequest::ChangePassword(c) => ReqV::ChangePassword {
                login: c.login@,
                new_pass: c.new_pass@,
                old_pass: c.old_pass@,
            },
            StorageRequest::AddRoles(a) => ReqV::AddRoles {
                login: a.login@,
                roles: a.roles_to_add.deep_view().to_set(),
            },
            StorageRequest::RemoveRoles(a) => ReqV::RemoveRoles {
                login: a.login@,
                roles: a.roles_to_remove.deep_view().to_set(),
            },
            StorageRequest::StoreRefreshToken(s) => ReqV::StoreRefreshToken(s.token@),
            StorageRequest::DeleteRefreshToken(d) => ReqV::DeleteRefreshToken(d.token@),
        }
    }
}

impl StorageRequest {
    /// A user record inside a request keeps each role at most once.
    pub open spec fn wf(&self) -> bool {
        match self {
            StorageRequest::CreateUser(c) => c.data.wf(),
            _ => true,
        }
    }
}

/// A storage response: the outcome type paired with each request variant.
/// Every accepted request produces exactly one of these through its cell.
pub enum StorageResponse {
    CreateUser(Result<(), (UserData, StorageErr)>),
    LoadUser(Result<Option<UserData>, StorageErr>),
    ChangePassword(Result<(), StorageErr>),
    AddRoles(Result<(), (Vec<Role>, StorageErr)>),
    RemoveRoles(Result<(), (Vec<Role>, StorageErr)>),
    StoreRefreshToken(Result<(), (RefreshTokenHash, StorageErr)>),
    DeleteRefreshToken(Result<bool, (RefreshTokenHash, StorageErr)>),
}

/// The view of a response: the same outcome over mathematical payloads.
pub ghost enum RespV {
    CreateUser(Result<(), (UserDataV, StorageErr)>),
    LoadUser(Result<Option<UserDataV>, StorageErr>),
    ChangePassword(Result<(), StorageErr>),
    AddRoles(Result<(), (Set<Seq<char>>, StorageErr)>),
    RemoveRoles(Result<(), (Set<Seq<char>>, StorageErr)>),
    StoreRefreshToken(Result<(), (Seq<char>, StorageErr)>),
    DeleteRefreshToken(Result<bool, (Seq<char>, StorageErr)>),
}

impl View for StorageResponse {
    type V = RespV;

    open spec fn view(&self) -> RespV {
        match self {
            StorageResponse::CreateUser(r) => RespV::CreateUser(
                match r {
                    Ok(()) => Ok(()),
                    Err((d, e)) => Err((d@, *e)),
                },
            ),
            StorageResponse::LoadUser(r) => RespV::LoadUser(
                match r {
                    Ok(Some(u)) => Ok(Some(u@)),
                    Ok(None) => Ok(None),
                    Err(e) => Err(*e),
                },
            ),
            StorageResponse::ChangePassword(r) => RespV::ChangePassword(
                match r {
                    Ok(()) => Ok(()),
                    Err(e) => Err(*e),
                },
            ),
            StorageResponse::AddRoles(r) => RespV::AddRoles(
                match r {
                    Ok(()) => Ok(()),
                    Err((p, e)) => Err((p.deep_view().to_set(), *e)),
                },
            ),
            StorageResponse::RemoveRoles(r) => RespV::RemoveRoles(
                match r {
                    Ok(()) => Ok(()),
                    Err((p, e)) => Err((p.deep_view().to_set(), *e)),
                },
            ),
            StorageResponse::StoreRefreshToken(r) => RespV::StoreRefreshToken(
                match r {
                    Ok(()) => Ok(()),
                    Err((t, e)) => Err((t@, *e)),
                },
            ),
            StorageResponse::DeleteRefreshToken(r) => RespV::DeleteRefreshToken(
                match r {
                    Ok(b) => Ok(*b),
                    Err((t, e)) => Err((t@, *e)),
                },
            ),
        }
    }
}

/// One step of the storage semantics: the model after the request, paired
/// with the response the request earns.
pub open spec fn step_model(m: StoreModel, req: ReqV) -> (StoreModel, RespV) {
    match req {
        ReqV::CreateUser(u) => {
            let (m2, r) = create_step(m, u);
            (m2, RespV::CreateUser(r))
        },
        ReqV::LoadUser(l) => (m, RespV::LoadUser(load_step(m, l))),
        ReqV::ChangePassword { login, new_pass, old_pass } => {
            let (m2, r) = change_pass_step(m, login, new_pass, old_pass);
            (m2, RespV::ChangePassword(r))
        },
        ReqV::AddRoles { login, roles } => {
            let (m2, r) = add_roles_step(m, login, roles);
            (m2, RespV::AddRoles(r))
        },
        ReqV::RemoveRoles { login, roles } => {
            let (m2, r) = remove_roles_step(m, login, roles);
            (m2, RespV::RemoveRoles(r))
        },
        ReqV::StoreRefreshToken(t) => {
            let (m2, r) = store_rt_step(m, t);
            (m2, RespV::StoreRefreshToken(r))
        },
        ReqV::DeleteRefreshToken(t) => {
            let (m2, r) = delete_rt_step(m, t);
            (m2, RespV::DeleteRefreshToken(r))
        },
    }
}

/// The model after a whole sequence of requests, applied first to last.
pub open spec fn run_model(m: StoreModel, reqs: Seq<ReqV>) -> StoreModel
    decreases reqs.len(),
{
    if reqs.len() == 0 {
        m
    } else {
        run_model(step_model(m, reqs.first()).0, reqs.drop_first())
    }
}

/// The responses a whole sequence of requests earns, first to last: the
/// `i`-th entry answers the `i`-th request, run against the model the
/// earlier requests left behind.
pub open spec fn run_responses(m: StoreModel, reqs: Seq<ReqV>) -> Seq<RespV>
    decreases reqs.len(),
{
    if reqs.len() == 0 {
        Seq::empty()
    } else {
        seq![step_model(m, reqs.first()).1] + run_responses(
            step_model(m, reqs.first()).0,
            reqs.drop_first(),
        )
    }
}

pub proof fn lemma_run_responses_len(m: StoreModel, reqs: Seq<ReqV>)
    ensures
        run_responses(m, reqs).len() == reqs.len(),
    decreases reqs.len(),
{
    if reqs.len() > 0 {
        lemma_run_responses_len(step_model(m, reqs.first()).0, reqs.drop_first());
    }
}

/// Running one more request extends the reached model by one step.
pub proof fn lemma_run_model_snoc(m: StoreModel, reqs: Seq<ReqV>, i: int)
    requires
        0 <= i < reqs.len(),
    ensures
        run_model(m, reqs.subrange(0, i + 1)) == step_model(
            run_model(m, reqs.subrange(0, i)),
            reqs[i],
        ).0,
    decreases i,
{
    if i == 0 {
        let pre = reqs.subrange(0, 0);
        assert(pre.len() == 0);
        let one = reqs.subrange(0, 1);
        assert(one.first() == reqs[0]);
        assert(one.drop_first().len() == 0);
        assert(run_model(step_model(m, reqs[0]).0, one.drop_first()) == step_model(m, reqs[0]).0);
    } else {
        let m1 = step_model(m, reqs.first()).0;
        let rest = reqs.drop_first();
        lemma_run_model_snoc(m1, rest, i - 1);
        assert(reqs.subrange(0, i + 1).first() == reqs[0]);
        assert(reqs.subrange(0, i + 1).drop_first() =~= rest.subrange(0, i));
        assert(reqs.subrange(0, i).first() == reqs[0]);
        assert(reqs.subrange(0, i).drop_first() =~= rest.subrange(0, i - 1));
        assert(rest[i - 1] == reqs[i]);
    }
}

/// Each answer in `run_responses` is the step response of the request it
/// pairs with, run against the model its predecessors reached.
pub proof fn lemma_run_responses_index(m: StoreModel, reqs: Seq<ReqV>, i: int)
    requires
        0 <= i < reqs.len(),
    ensures
        run_responses(m, reqs)[i] == step_model(run_model(m, reqs.subrange(0, i)), reqs[i]).1,
    decreases i,
{
    lemma_run_responses_len(step_model(m, reqs.first()).0, reqs.drop_first());
    if i == 0 {
        assert(reqs.subrange(0, 0).len() == 0);
    } else {
        let m1 = step_model(m, reqs.first()).0;
        let rest = reqs.drop_first();
        lemma_run_responses_index(m1, rest, i - 1);
        assert(run_responses(m, reqs)[i] == run_responses(m1, rest)[i - 1]);
        assert(rest[i - 1] == reqs[i]);
        assert(rest.subrange(0, i - 1) =~= reqs.subrange(0, i).drop_first());
        assert(reqs.subrange(0, i).first() == reqs[0]);
        assert(run_model(m, reqs.subrange(0, i)) == run_model(m1, rest.subrange(0, i - 1)));
    }
}

/// A mutating request that fails hands its payload back untouched, so the
/// caller can retry or discard without copying.
pub open spec fn resp_returns_payload(req: StorageRequest, r: StorageResponse) -> bool {
    &&& (req matches StorageRequest::CreateUser(c) ==> (r matches StorageResponse::CreateUser(
        Err(p),
    ) ==> p.0 == c.data))
    &&& (req matches StorageRequest::AddRoles(a) ==> (r matches StorageResponse::AddRoles(Err(p))
        ==> p.0 == a.roles_to_add))
    &&& (req matches StorageRequest::RemoveRoles(a) ==> (r matches StorageResponse::RemoveRoles(
        Err(p),
    ) ==> p.0 == a.roles_to_remove))
}

/// The one concrete backend selection; other backends would add variants or
/// be plugged in through the `Storage` trait.
pub enum InnerStorage {
    InMemoryLocal(in_memory::Storage),
}

impl InnerStorage {
    pub open spec fn model(&self) -> StoreModel {
        match self {
            InnerStorage::InMemoryLocal(s) => s.model(),
        }
    }

    pub open spec fn wf(&self) -> bool {
        match self {
            InnerStorage::InMemoryLocal(s) => s.wf(),
        }
    }
}

/// The single owner of the backend state. All mutations of the backend go
/// through `handle`, one request at a time, so callers observe them as if
/// applied one at a time in arrival order.
pub struct StorageActor {
    storage: InnerStorage,
}

impl StorageActor {
    pub closed spec fn model(&self) -> StoreModel {
        self.storage.model()
    }

    pub closed spec fn wf(&self) -> bool {
        self.storage.wf()
    }

    /// Take exclusive ownership of a backend.
    pub fn new(storage: InnerStorage) -> (r: Self)
        requires
            storage.wf(),
        ensures
            r.wf(),
            r.model() == storage.model(),
    {
        StorageActor { storage }
    }

    /// Execute one request against the owned backend and produce its
    /// response: exactly one step of the storage semantics.
    pub fn handle(&mut self, req: StorageRequest) -> (r: StorageResponse)
        requires
            old(self).wf(),
            req.wf(),
        ensures
            final(self).wf(),
            final(self).model() == step_model(old(self).model(), req@).0,
            r@ == step_model(old(self).model(), req@).1,
            resp_returns_payload(req, r),
            r matches StorageResponse::LoadUser(Ok(Some(u))) ==> u.wf(),
    {
        match &mut self.storage {
            InnerStorage::InMemoryLocal(storage) => match req {
                StorageRequest::CreateUser(c) => StorageResponse::CreateUser(
                    storage.create_user_data(c.data),
                ),
                StorageRequest::LoadUser(l) => StorageResponse::LoadUser(
                    storage.load_user_data(&l.login),
                ),
                StorageRequest::ChangePassword(c) => StorageResponse::ChangePassword(
                    storage.change_pass(&c.login, c.new_pass, c.old_pass),
                ),
                StorageRequest::AddRoles(a) => StorageResponse::AddRoles(
                    storage.add_roles(&a.login, a.roles_to_add),
                ),
                StorageRequest::RemoveRoles(a) => StorageResponse::RemoveRoles(
                    storage.remove_roles(&a.login, a.roles_to_remove),
                ),
                StorageRequest::StoreRefreshToken(s) => StorageResponse::StoreRefreshToken(
                    storage.store_rt(s.token),
                ),
                StorageRequest::DeleteRefreshToken(d) => StorageResponse::DeleteRefreshToken(
                    storage.delete_rt(d.token),
                ),
            },
        }
    }
}

/// No request ever removes a registered login.
pub proof fn lemma_login_persists(m: StoreModel, req: ReqV, l: Seq<char>)
    requires
        m.users.contains_key(l),
    ensures
        step_model(m, req).0.users.contains_key(l),
{
}

/// A registered login stays registered over any sequence of requests.
pub proof fn lemma_login_persists_run(m: StoreModel, reqs: Seq<ReqV>, l: Seq<char>)
    requires
        m.users.contains_key(l),
    ensures
        run_model(m, reqs).users.contains_key(l),
    decreases reqs.len(),
{
    if reqs.len() > 0 {
        lemma_login_persists(m, reqs.first(), l);
        lemma_login_persists_run(step_model(m, reqs.first()).0, reqs.drop_first(), l);
    }
}

/// Uniqueness: creating an absent login succeeds, and from then on every
/// further creation of that login fails with `LoginAlreadyRegistered` and
/// leaves the state untouched, whatever other requests run in between.
pub proof fn lemma_create_user_unique(
    m: StoreModel,
    u: UserDataV,
    between: Seq<ReqV>,
    u2: UserDataV,
)
    requires
        !m.users.contains_key(u.credentials.login),
        u2.credentials.login == u.credentials.login,
    ensures
        create_step(m, u).1 == Ok::<(), (UserDataV, StorageErr)>(()),
        ({
            let m1 = create_step(m, u).0;
            let m2 = run_model(m1, between);
            create_step(m2, u2) == (
                m2,
                Err::<(), (UserDataV, StorageErr)>((u2, StorageErr::LoginAlreadyRegistered)),
            )
        }),
{
    let m1 = create_step(m, u).0;
    lemma_login_persists_run(m1, between, u.credentials.login);
}

/// Adding a role set and then removing it, in that order, leaves the user
/// with none of those roles: the addition is never lost, the removal wins.
pub proof fn lemma_add_then_remove_roles(m: StoreModel, l: Seq<char>, roles: Set<Seq<char>>)
    requires
        m.users.contains_key(l),
    ensures
        ({
            let m1 = add_roles_step(m, l, roles).0;
            let m2 = remove_roles_step(m1, l, roles).0;
            &&& add_roles_step(m, l, roles).1 is Ok
            &&& remove_roles_step(m1, l, roles).1 is Ok
            &&& m2.users[l].roles == m.users[l].roles.difference(roles)
            &&& forall|x: Seq<char>| roles.contains(x) ==> !m2.users[l].roles.contains(x)
        }),
{
    let m1 = add_roles_step(m, l, roles).0;
    assert(m.users[l].roles.union(roles).difference(roles) =~= m.users[l].roles.difference(roles));
}

/// Adding a role set twice leaves exactly the state the first addition left.
pub proof fn lemma_add_roles_idempotent(m: StoreModel, l: Seq<char>, roles: Set<Seq<char>>)
    ensures
        add_roles_step(add_roles_step(m, l, roles).0, l, roles).0 == add_roles_step(m, l, roles).0,
{
    if m.users.contains_key(l) {
        let once = add_roles_step(m, l, roles).0;
        assert(once.users[l].roles.union(roles) =~= once.users[l].roles);
        assert(once.users.insert(
            l,
            UserDataV {
                credentials: once.users[l].credentials,
                roles: once.users[l].roles.union(roles),
            },
        ) =~= once.users);
    }
}

/// FIFO linearizability at the queue level: a queue holding an addition of a
/// role set followed by its removal, run in that order, always leaves the
/// user with none of those roles — the earlier update is never lost.
pub proof fn lemma_fifo_add_then_remove(m: StoreModel, l: Seq<char>, roles: Set<Seq<char>>)
    requires
        m.users.contains_key(l),
    ensures
        ({
            let reqs = seq![
                ReqV::AddRoles { login: l, roles },
                ReqV::RemoveRoles { login: l, roles },
            ];
            let m2 = run_model(m, reqs);
            &&& m2.users.contains_key(l)
            &&& m2.users[l].roles == m.users[l].roles.difference(roles)
            &&& forall|x: Seq<char>| roles.contains(x) ==> !m2.users[l].roles.contains(x)
        }),
{
    let reqs = seq![ReqV::AddRoles { login: l, roles }, ReqV::RemoveRoles { login: l, roles }];
    let m1 = add_roles_step(m, l, roles).0;
    lemma_add_then_remove_roles(m, l, roles);
    assert(reqs.first() == ReqV::AddRoles { login: l, roles });
    assert(step_model(m, reqs.first()).0 == m1);
    let rest = reqs.drop_first();
    assert(rest.len() == 1);
    assert(rest.first() == ReqV::RemoveRoles { login: l, roles });
    assert(rest.drop_first().len() == 0);
    let m2 = step_model(m1, rest.first()).0;
    assert(run_model(m2, rest.drop_first()) == m2);
    assert(run_model(m1, rest) == m2);
    assert(run_model(m, reqs) == run_model(m1, rest));
    assert(m2 == remove_roles_step(m1, l, roles).0);
}

/// Deleting an absent token hash reports `false` and changes nothing.
pub proof fn lemma_delete_rt_absent(m: StoreModel, t: Seq<char>)
    requires
        !m.tokens.contains(t),
    ensures
        delete_rt_step(m, t) == (m, Ok::<bool, (Seq<char>, StorageErr)>(false)),
{
    assert(m.tokens.remove(t) =~= m.tokens);
}

} // verus!

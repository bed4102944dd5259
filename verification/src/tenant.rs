//! Users and projects.
//!
//! Each user owns projects; each project has its own database directory at
//! `{data_dir}/users/{user_id}/projects/{project_id}/db`. A user is found by
//! the API token issued when the user was created.
use crate::text::{concat, hex_digits, hex_text};
use vstd::prelude::*;

verus! {

/// A (user, project) pair a request acts on.
#[derive(Debug, Clone)]
pub struct Tenant {
    pub user_id: String,
    pub project_id: String,
}

/// A user's account.
#[derive(Debug, Clone)]
pub struct UserConfig {
    pub user_id: String,
    pub email: String,
    /// `free`, `standard` or `pro`.
    pub tier: String,
    pub api_token: String,
    pub created_at: i64,
    pub storage_quota_mb: u64,
    pub monthly_recall_limit: u64,
}

impl Default for UserConfig {
    fn default() -> (r: Self)
        ensures
            r.user_id@ == Seq::<char>::empty(),
            r.email@ == Seq::<char>::empty(),
            r.tier@ == Seq::<char>::empty(),
            r.api_token@ == Seq::<char>::empty(),
            r.created_at == 0,
            r.storage_quota_mb == 0,
            r.monthly_recall_limit == 0,
    {
        UserConfig {
            user_id: String::new(),
            email: String::new(),
            tier: String::new(),
            api_token: String::new(),
            created_at: 0,
            storage_quota_mb: 0,
            monthly_recall_limit: 0,
        }
    }
}

/// A project's settings.
#[derive(Debug, Clone)]
pub struct ProjectConfig {
    pub project_id: String,
    pub user_id: String,
    pub name: String,
    pub description: String,
    pub created_at: i64,
}

impl Default for ProjectConfig {
    fn default() -> (r: Self)
        ensures
            r.project_id@ == Seq::<char>::empty(),
            r.user_id@ == Seq::<char>::empty(),
            r.name@ == Seq::<char>::empty(),
            r.description@ == Seq::<char>::empty(),
            r.created_at == 0,
    {
        ProjectConfig {
            project_id: String::new(),
            user_id: String::new(),
            name: String::new(),
            description: String::new(),
            created_at: 0,
        }
    }
}

/// Why a tenant operation failed.
#[derive(Debug, Clone, Copy, PartialEq, Eq, Structural)]
pub enum TenantError {
    /// No user holds the given API token.
    InvalidToken,
    /// A user or project id that is not a plain name (see `is_plain_name`).
    InvalidName,
}

/// `base` joined with `seg` as a POSIX path: an absolute `seg` replaces
/// `base`; otherwise a `/` separates them unless `base` is empty or already
/// ends with one.
pub open spec fn path_join(base: Seq<char>, seg: Seq<char>) -> Seq<char> {
    if seg.len() > 0 && seg[0] == '/' {
        seg
    } else if base.len() == 0 || base.last() == '/' {
        base + seg
    } else {
        base + seq!['/'] + seg
    }
}

/// The directory of a user: `{data_dir}/users/{user_id}`.
pub open spec fn spec_user_dir(data_dir: Seq<char>, user_id: Seq<char>) -> Seq<char> {
    path_join(path_join(data_dir, "users"@), user_id)
}

/// The database directory of a project: `{user_dir}/projects/{project_id}/db`.
pub open spec fn spec_project_db_path(data_dir: Seq<char>, user_id: Seq<char>, project_id: Seq<char>) -> Seq<char> {
    path_join(path_join(path_join(spec_user_dir(data_dir, user_id), "projects"@), project_id), "db"@)
}

/// Joins two path segments (see `path_join`).
pub fn join_path(base: &str, seg: &str) -> (r: String)
    ensures
        r@ == path_join(base@, seg@),
{
    if seg.unicode_len() > 0 && seg.get_char(0) == '/' {
        return String::from_str(seg);
    }
    let n = base.unicode_len();
    if n == 0 || base.get_char(n - 1) == '/' {
        return concat(base, seg);
    }
    let with_sep = concat(base, "/");
    proof {
        reveal_strlit("/");
    }
    let r = concat(with_sep.as_str(), seg);
    r
}

/// Manages the users and projects under one data directory.
pub struct TenantManager {
    data_dir: String,
}

impl TenantManager {
    /// The data directory.
    pub closed spec fn data_dir(&self) -> Seq<char> {
        self.data_dir@
    }

    pub fn new(data_dir: &str) -> (m: Self)
        ensures
            m.data_dir() == data_dir@,
    {
        TenantManager { data_dir: String::from_str(data_dir) }
    }

    /// The directory of a user: `{data_dir}/users/{user_id}`, strictly inside
    /// `{data_dir}/users`; refused unless the id is a plain name.
    pub fn user_dir(&self, user_id: &str) -> (p: Result<String, TenantError>)
        ensures
            p is Err <==> !is_plain_name(user_id@),
            p matches Err(e) ==> e == TenantError::InvalidName,
            p matches Ok(d) ==> d@ == spec_user_dir(self.data_dir(), user_id@) && is_strictly_under(
                spec_users_dir(self.data_dir()),
                d@,
            ),
    {
        if !plain_name(user_id) {
            return Err(TenantError::InvalidName);
        }
        let users = join_path(self.data_dir.as_str(), "users");
        let d = join_path(users.as_str(), user_id);
        proof {
            lemma_user_dir_shape(self.data_dir(), user_id@);
        }
        Ok(d)
    }

    /// The database directory of a project: `{data_dir}/users/{user_id}/projects/{project_id}/db`;
    /// refused unless both ids are plain names.
    pub fn project_db_path(&self, user_id: &str, project_id: &str) -> (p: Result<String, TenantError>)
        ensures
            p is Err <==> !(is_plain_name(user_id@) && is_plain_name(project_id@)),
            p matches Err(e) ==> e == TenantError::InvalidName,
            p matches Ok(d) ==> d@ == spec_project_db_path(self.data_dir(), user_id@, project_id@),
    {
        if !plain_name(project_id) {
            return Err(TenantError::InvalidName);
        }
        let u = match self.user_dir(user_id) {
            Ok(u) => u,
            Err(e) => {
                return Err(e);
            },
        };
        let projects = join_path(u.as_str(), "projects");
        let project = join_path(projects.as_str(), project_id);
        Ok(join_path(project.as_str(), "db"))
    }

    /// Finds the user holding `token` among `users` (as listed from the data
    /// directory): the first one whose API token it is.
    pub fn find_user_by_token(&self, users: &Vec<UserConfig>, token: &str) -> (r: Result<
        UserConfig,
        TenantError,
    >)
        ensures
            match r {
                Ok(u) => exists|i: int|
                    0 <= i < users@.len() && users@[i] == u && u.api_token@ == token@ && forall|
                        j: int,
                    | 0 <= j < i ==> (#[trigger] users@[j]).api_token@ != token@,
                Err(e) => e == TenantError::InvalidToken && forall|j: int|
                    0 <= j < users@.len() ==> (#[trigger] users@[j]).api_token@ != token@,
            },
    {
        let mut i: usize = 0;
        while i < users.len()
            invariant
                0 <= i <= users@.len(),
                forall|j: int| 0 <= j < i ==> (#[trigger] users@[j]).api_token@ != token@,
            decreases users@.len() - i,
        {
            if crate::text::same_text(users[i].api_token.as_str(), token) {
                let u = copy_user(&users[i]);
                return Ok(u);
            }
            i = i + 1;
        }
        Err(TenantError::InvalidToken)
    }
}

fn copy_user(u: &UserConfig) -> (r: UserConfig)
    ensures
        r == *u,
{
    UserConfig {
        user_id: u.user_id.clone(),
        email: u.email.clone(),
        tier: u.tier.clone(),
        api_token: u.api_token.clone(),
        created_at: u.created_at,
        storage_quota_mb: u.storage_quota_mb,
        monthly_recall_limit: u.monthly_recall_limit,
    }
}

/// The account of a new user: free tier, 100 MB of storage, 1000 recalls a month.
pub fn new_user_config(user_id: &str, email: &str, api_token: String, created_at: i64) -> (c: UserConfig)
    ensures
        c.user_id@ == user_id@,
        c.email@ == email@,
        c.tier@ == "free"@,
        c.api_token == api_token,
        c.created_at == created_at,
        c.storage_quota_mb == 100,
        c.monthly_recall_limit == 1000,
{
    UserConfig {
        user_id: String::from_str(user_id),
        email: String::from_str(email),
        tier: String::from_str("free"),
        api_token,
        created_at,
        storage_quota_mb: 100,
        monthly_recall_limit: 1000,
    }
}

/// The settings of a new project, with an empty description.
pub fn new_project_config(user_id: &str, project_id: &str, name: &str, created_at: i64) -> (c: ProjectConfig)
    ensures
        c.project_id@ == project_id@,
        c.user_id@ == user_id@,
        c.name@ == name@,
        c.description@ == Seq::<char>::empty(),
        c.created_at == created_at,
{
    ProjectConfig {
        project_id: String::from_str(project_id),
        user_id: String::from_str(user_id),
        name: String::from_str(name),
        description: String::new(),
        created_at,
    }
}

/// A name usable as one path segment: non-empty, without `/`, and neither
/// `.` nor `..`.
pub open spec fn is_plain_name(s: Seq<char>) -> bool {
    &&& s.len() > 0
    &&& forall|i: int| 0 <= i < s.len() ==> s[i] != '/'
    &&& s != "."@
    &&& s != ".."@
}

/// Whether `s` is a plain name (see `is_plain_name`).
pub fn plain_name(s: &str) -> (b: bool)
    ensures
        b == is_plain_name(s@),
{
    proof {
        reveal_strlit(".");
        reveal_strlit("..");
    }
    let v = crate::text::chars_of(s);
    if v.len() == 0 {
        return false;
    }
    let mut i: usize = 0;
    while i < v.len()
        invariant
            v@ == s@,
            0 <= i <= v@.len(),
            forall|j: int| 0 <= j < i ==> s@[j] != '/',
        decreases v@.len() - i,
    {
        if v[i] == '/' {
            return false;
        }
        i = i + 1;
    }
    !crate::text::same_text(s, ".") && !crate::text::same_text(s, "..")
}

/// The directory holding the users' directories: `{data_dir}/users`.
pub open spec fn spec_users_dir(data_dir: Seq<char>) -> Seq<char> {
    path_join(data_dir, "users"@)
}

/// `p` lies strictly inside directory `dir`: it is `dir`, a `/` and a plain name.
pub open spec fn is_strictly_under(dir: Seq<char>, p: Seq<char>) -> bool {
    p.len() > dir.len() + 1 && p.subrange(0, dir.len() as int) == dir && p[dir.len() as int] == '/'
        && is_plain_name(p.subrange(dir.len() as int + 1, p.len() as int))
}

proof fn lemma_user_dir_shape(d: Seq<char>, u: Seq<char>)
    requires
        is_plain_name(u),
    ensures
        spec_user_dir(d, u) == spec_users_dir(d) + seq!['/'] + u,
        is_strictly_under(spec_users_dir(d), spec_user_dir(d, u)),
{
    reveal_strlit("users");
    let a = spec_users_dir(d);
    assert(a.len() > 0 && a.last() == 's');
    assert(u[0] != '/');
    let p = spec_user_dir(d, u);
    assert(p =~= a + seq!['/'] + u);
    assert(p.subrange(0, a.len() as int) =~= a);
    assert(p.subrange(a.len() as int + 1, p.len() as int) =~= u);
}

/// Each user's directory is their own: for two different plain user ids,
/// the directories differ, and neither lies inside the other.
pub proof fn lemma_user_dirs_isolated(d: Seq<char>, a: Seq<char>, b: Seq<char>)
    requires
        is_plain_name(a),
        is_plain_name(b),
        a != b,
    ensures
        spec_user_dir(d, a) != spec_user_dir(d, b),
        !crate::text::is_prefix(spec_user_dir(d, a) + seq!['/'], spec_user_dir(d, b)),
        !crate::text::is_prefix(spec_user_dir(d, b) + seq!['/'], spec_user_dir(d, a)),
{
    lemma_user_dir_shape(d, a);
    lemma_user_dir_shape(d, b);
    let u = spec_users_dir(d);
    let n: int = u.len() as int + 1;
    let pa = spec_user_dir(d, a);
    let pb = spec_user_dir(d, b);
    assert(pa.subrange(n, pa.len() as int) =~= a);
    assert(pb.subrange(n, pb.len() as int) =~= b);
    if pa == pb {
        assert(a =~= b);
    }
    if crate::text::is_prefix(pa + seq!['/'], pb) {
        assert(pb[n + a.len()] == (pa + seq!['/'])[n + a.len()]);
        assert(b[a.len() as int] == pb[n + a.len()]);
    }
    if crate::text::is_prefix(pb + seq!['/'], pa) {
        assert(pa[n + b.len()] == (pb + seq!['/'])[n + b.len()]);
        assert(a[b.len() as int] == pa[n + b.len()]);
    }
}

/// Tenant isolation: two (user, project) pairs with plain names share a
/// database directory only if they are the same pair, and a project's database
/// lies inside its own user's directory.
pub proof fn lemma_project_paths_isolated(
    d: Seq<char>,
    u1: Seq<char>,
    p1: Seq<char>,
    u2: Seq<char>,
    p2: Seq<char>,
)
    requires
        is_plain_name(u1),
        is_plain_name(p1),
        is_plain_name(u2),
        is_plain_name(p2),
    ensures
        spec_project_db_path(d, u1, p1) == spec_project_db_path(d, u2, p2) ==> u1 == u2 && p1 == p2,
        crate::text::is_prefix(spec_user_dir(d, u1) + seq!['/'], spec_project_db_path(d, u1, p1)),
{
    reveal_strlit("users");
    reveal_strlit("projects");
    reveal_strlit("db");
    let a = path_join(d, "users"@);
    assert(a.len() > 0 && a.last() == 's');
    let tail1 = u1 + seq!['/'] + "projects"@ + seq!['/'] + p1 + seq!['/'] + "db"@;
    let tail2 = u2 + seq!['/'] + "projects"@ + seq!['/'] + p2 + seq!['/'] + "db"@;
    assert(spec_user_dir(d, u1) =~= a + seq!['/'] + u1);
    assert(spec_user_dir(d, u2) =~= a + seq!['/'] + u2);
    assert(spec_project_db_path(d, u1, p1) =~= a + seq!['/'] + tail1);
    assert(spec_project_db_path(d, u2, p2) =~= a + seq!['/'] + tail2);
    assert((spec_user_dir(d, u1) + seq!['/']) =~= spec_project_db_path(d, u1, p1).subrange(
        0,
        (spec_user_dir(d, u1) + seq!['/']).len() as int,
    ));
    if spec_project_db_path(d, u1, p1) == spec_project_db_path(d, u2, p2) {
        let n = a.len() + 1;
        assert(tail1 =~= spec_project_db_path(d, u1, p1).subrange(n as int, spec_project_db_path(d, u1, p1).len() as int));
        assert(tail2 =~= spec_project_db_path(d, u2, p2).subrange(n as int, spec_project_db_path(d, u2, p2).len() as int));
        assert(tail1 == tail2);
        if u1.len() < u2.len() {
            assert(tail1[u1.len() as int] == '/');
            assert(tail2[u1.len() as int] == u2[u1.len() as int]);
        } else if u1.len() > u2.len() {
            assert(tail2[u2.len() as int] == '/');
            assert(tail1[u2.len() as int] == u1[u2.len() as int]);
        }
        assert(u1 =~= tail1.subrange(0, u1.len() as int));
        assert(u2 =~= tail2.subrange(0, u2.len() as int));
        let m: int = u1.len() as int + 10;
        assert(p1 =~= tail1.subrange(m, m + p1.len()));
        assert(p2 =~= tail2.subrange(m, m + p2.len()));
    }
}

// ── API tokens ──
/// Draws a random `u64` through `rand::random` (the thread-local generator,
/// seeded from the OS). Trusted: nothing is stated of the value.
#[verifier::external_body]
fn random_u64() -> u64 {
    rand::random::<u64>()
}

/// The text of an API token built from two random numbers:
/// `tk_{a:016x}_{b:016x}`.
pub open spec fn token_text(a: u64, b: u64) -> Seq<char> {
    "tk_"@ + hex_digits(a as int, 16) + "_"@ + hex_digits(b as int, 16)
}

/// The API token made of two numbers (see `token_text`).
pub fn token_from(a: u64, b: u64) -> (s: String)
    ensures
        s@ == token_text(a, b),
{
    let ha = hex_text(a, 16);
    let hb = hex_text(b, 16);
    let s1 = concat("tk_", ha.as_str());
    let s2 = concat(s1.as_str(), "_");
    concat(s2.as_str(), hb.as_str())
}

/// A fresh API token: `tk_` and two random 64-bit numbers in hexadecimal.
pub fn generate_token() -> (s: String)
    ensures
        exists|a: u64, b: u64| s@ == token_text(a, b),
{
    let a = random_u64();
    let b = random_u64();
    token_from(a, b)
}

} // verus!

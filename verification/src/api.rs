//! API records: roles and what they allow, tasks, audit events, errors.
use vstd::prelude::*;

use crate::config::HostInfo;
use crate::text::{append_str, chars_of, eq_str, string_of};

verus! {

/// What a user may do.
#[derive(Clone, Copy, Debug, PartialEq, Eq, Structural)]
pub enum Role {
    Viewer,
    Operator,
    Admin,
}

impl Role {
    pub open spec fn spec_as_str(self) -> Seq<char> {
        match self {
            Role::Viewer => "viewer"@,
            Role::Operator => "operator"@,
            Role::Admin => "admin"@,
        }
    }

    pub open spec fn spec_rank(self) -> u8 {
        match self {
            Role::Viewer => 1,
            Role::Operator => 2,
            Role::Admin => 3,
        }
    }

    pub fn as_str(self) -> (r: &'static str)
        ensures
            r@ == self.spec_as_str(),
    {
        match self {
            Role::Viewer => {
                proof {
                    reveal_strlit("viewer");
                }
                "viewer"
            },
            Role::Operator => {
                proof {
                    reveal_strlit("operator");
                }
                "operator"
            },
            Role::Admin => {
                proof {
                    reveal_strlit("admin");
                }
                "admin"
            },
        }
    }

    /// Viewer 1, operator 2, admin 3.
    pub fn rank(self) -> (r: u8)
        ensures
            r == self.spec_rank(),
    {
        match self {
            Role::Viewer => 1,
            Role::Operator => 2,
            Role::Admin => 3,
        }
    }

    /// A role allows what every role of no higher rank needs.
    pub fn allows(self, needed: Role) -> (r: bool)
        ensures
            r == (self.spec_rank() >= needed.spec_rank()),
    {
        self.rank() >= needed.rank()
    }

    /// The role named `s` exactly; otherwise `unknown role '<s>'`.
    pub fn parse(s: &str) -> (r: Result<Role, String>)
        ensures
            s@ == "viewer"@ ==> r == Ok::<Role, String>(Role::Viewer),
            s@ == "operator"@ ==> r == Ok::<Role, String>(Role::Operator),
            s@ == "admin"@ ==> r == Ok::<Role, String>(Role::Admin),
            s@ != "viewer"@ && s@ != "operator"@ && s@ != "admin"@ ==> (r matches Err(e) && e@
                == "unknown role '"@ + s@ + "'"@),
    {
        proof {
            reveal_strlit("viewer");
            reveal_strlit("operator");
            reveal_strlit("admin");
        }
        let v = chars_of(s);
        if eq_str(v.as_slice(), "viewer") {
            assert("viewer"@.len() != "operator"@.len() && "viewer"@.len() != "admin"@.len());
            Ok(Role::Viewer)
        } else if eq_str(v.as_slice(), "operator") {
            assert("operator"@.len() != "admin"@.len());
            Ok(Role::Operator)
        } else if eq_str(v.as_slice(), "admin") {
            Ok(Role::Admin)
        } else {
            let mut m = chars_of("unknown role '");
            append_str(&mut m, s);
            append_str(&mut m, "'");
            Err(string_of(m.as_slice()))
        }
    }
}

impl std::str::FromStr for Role {
    type Err = String;

    fn from_str(s: &str) -> (r: Result<Role, String>)
        ensures
            s@ == "viewer"@ ==> r == Ok::<Role, String>(Role::Viewer),
            s@ == "operator"@ ==> r == Ok::<Role, String>(Role::Operator),
            s@ == "admin"@ ==> r == Ok::<Role, String>(Role::Admin),
            s@ != "viewer"@ && s@ != "operator"@ && s@ != "admin"@ ==> (r matches Err(e) && e@
                == "unknown role '"@ + s@ + "'"@),
    {
        Role::parse(s)
    }
}

/// Ranks order the roles: one role allows another's needs exactly when it ranks no lower,
/// so admin allows everything and viewer only what a viewer needs.
pub proof fn lemma_role_order(a: Role, b: Role, c: Role)
    ensures
        a.spec_rank() >= a.spec_rank(),
        (a.spec_rank() >= b.spec_rank() && b.spec_rank() >= c.spec_rank()) ==> a.spec_rank()
            >= c.spec_rank(),
        (a.spec_rank() >= b.spec_rank() && b.spec_rank() >= a.spec_rank()) ==> a == b,
        Role::Admin.spec_rank() >= a.spec_rank(),
        a.spec_rank() >= Role::Viewer.spec_rank(),
{
}

/// A stored user.
#[derive(Debug)]
pub struct UserRecord {
    pub id: String,
    pub username: String,
    pub role: Role,
}

#[derive(Debug)]
pub struct LoginRequest {
    pub username: String,
    pub password: String,
}

#[derive(Debug)]
pub struct TokenResponse {
    pub token: String,
    pub username: String,
    pub role: Role,
}

#[derive(Debug)]
pub struct CreateUserRequest {
    pub username: String,
    pub password: String,
    pub role: Role,
}

/// Where a background task stands.
#[derive(Clone, Copy, Debug, PartialEq, Eq, Structural)]
pub enum TaskStatus {
    Running,
    Done,
    Error,
}

impl TaskStatus {
    pub open spec fn spec_as_str(self) -> Seq<char> {
        match self {
            TaskStatus::Running => "running"@,
            TaskStatus::Done => "done"@,
            TaskStatus::Error => "error"@,
        }
    }

    /// The lower-case name: `running`, `done`, `error`.
    pub fn as_str(self) -> (r: &'static str)
        ensures
            r@ == self.spec_as_str(),
    {
        match self {
            TaskStatus::Running => {
                proof {
                    reveal_strlit("running");
                }
                "running"
            },
            TaskStatus::Done => {
                proof {
                    reveal_strlit("done");
                }
                "done"
            },
            TaskStatus::Error => {
                proof {
                    reveal_strlit("error");
                }
                "error"
            },
        }
    }
}

/// A background task in the log.
#[derive(Debug)]
pub struct TaskRecord {
    pub id: String,
    pub kind: String,
    pub status: TaskStatus,
    pub actor: String,
    pub target: Option<String>,
    pub error: Option<String>,
    pub created_unix: u64,
    pub finished_unix: Option<u64>,
}

/// One audited action.
#[derive(Debug)]
pub struct AuditEvent {
    pub id: String,
    pub actor: String,
    pub action: String,
    pub target: Option<String>,
    pub created_unix: u64,
}

/// The body of an error reply.
#[derive(Debug)]
pub struct ErrorBody {
    pub error: String,
}

/// `<os>-<arch>-<driver>`.
pub fn host_info_tag(info: &HostInfo) -> (r: String)
    ensures
        r@ == info.os@ + "-"@ + info.arch@ + "-"@ + info.driver.spec_as_str(),
{
    let mut v = chars_of(info.os.as_str());
    append_str(&mut v, "-");
    append_str(&mut v, info.arch.as_str());
    append_str(&mut v, "-");
    append_str(&mut v, info.driver.as_str());
    string_of(v.as_slice())
}

} // verus!

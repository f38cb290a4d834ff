//! Applications and their users, and the endpoints that query them.

use vstd::prelude::*;

use vstd::string::StringExecFns;

verus! {

/// A cloud application: one per target device class.
pub struct Application {
    pub id: u64,
    pub name: String,
    pub device_type: String,
}

/// A user that owns an application.
pub struct User {
    pub id: u64,
    pub username: String,
}

/// The payload that creates an application.
pub struct CreateApplicationRequest {
    pub name: String,
    pub device_type: String,
}

/// The endpoint that looks an application up by name.
pub fn get_application_by_name_endpoint(name: &str) -> (r: String)
    ensures
        r@ == "v5/application?$filter=app_name eq '"@ + name@ + "'"@,
{
    let mut s = String::new();
    s.append("v5/application?$filter=app_name eq '");
    s.append(name);
    s.append("'");
    proof {
        assert(Seq::<char>::empty() + "v5/application?$filter=app_name eq '"@
            =~= "v5/application?$filter=app_name eq '"@);
    }
    s
}

/// The endpoint that lists an application's users.
pub fn get_application_user_endpoint(name: &str) -> (r: String)
    ensures
        r@ == "v5/application?$expand=user($select=id,username)&$filter=app_name eq '"@ + name@
            + "'&$select=id"@,
{
    let mut s = String::new();
    s.append("v5/application?$expand=user($select=id,username)&$filter=app_name eq '");
    s.append(name);
    s.append("'&$select=id");
    proof {
        assert(Seq::<char>::empty() + "v5/application?$expand=user($select=id,username)&$filter=app_name eq '"@
            =~= "v5/application?$expand=user($select=id,username)&$filter=app_name eq '"@);
    }
    s
}

} // verus!

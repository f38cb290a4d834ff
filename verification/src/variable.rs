//! Device environment variables: the endpoint that queries them and the
//! name under which a device's API key is stored.

use vstd::prelude::*;

use vstd::string::StringExecFns;

use crate::api::{dec_digits, push_decimal};

verus! {

/// The endpoint that looks one variable of one device up.
pub fn get_device_environment_variable_endpoint(device_id: u64, name: &str) -> (r: String)
    ensures
        r@ == "v5/device_environment_variable?$filter=device eq '"@ + dec_digits(
            device_id as nat,
        ) + "' and name eq '"@ + name@ + "'"@,
{
    let mut s = String::new();
    s.append("v5/device_environment_variable?$filter=device eq '");
    push_decimal(&mut s, device_id);
    s.append("' and name eq '");
    s.append(name);
    s.append("'");
    proof {
        assert(Seq::<char>::empty() + "v5/device_environment_variable?$filter=device eq '"@
            =~= "v5/device_environment_variable?$filter=device eq '"@);
    }
    s
}

/// The variable name that stores a device's API key.
pub fn api_key_variable() -> (r: &'static str)
    ensures
        r@ == "API_KEY"@,
{
    "API_KEY"
}

} // verus!

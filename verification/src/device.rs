//! Devices: registration records, the endpoints that address them, and the
//! freshly drawn identities they are registered under.

use vstd::prelude::*;

use vstd::string::StringExecFns;

use crate::api::{dec_digits, push_decimal};

verus! {

/// The payload that registers a device.
pub struct DeviceRegistrationRequest {
    pub application_id: u64,
    pub user_id: u64,
    pub device_type: String,
    pub uuid: String,
}

/// The record a registration returns: the credentials the registry pull
/// runs under.
pub struct DeviceRegistration {
    pub id: u64,
    pub uuid: String,
    pub api_key: String,
}

/// A device as the device list returns it.
pub struct Device {
    pub id: u64,
    pub uuid: String,
    pub device_type: String,
    pub name: String,
}

/// The payload that renames a device.
pub struct DeviceNameData {
    pub device_name: String,
}

/// The endpoint that addresses one device by id.
pub fn get_device_id_endpoint(device_id: u64) -> (r: String)
    ensures
        r@ == "v5/device("@ + dec_digits(device_id as nat) + ")"@,
{
    let mut s = String::new();
    s.append("v5/device(");
    push_decimal(&mut s, device_id);
    s.append(")");
    proof {
        assert(Seq::<char>::empty() + "v5/device("@ =~= "v5/device("@);
    }
    s
}

/// The endpoint that reports a device's target state.
pub fn get_device_state_endpoint(uuid: &str) -> (r: String)
    ensures
        r@ == "device/v2/"@ + uuid@ + "/state"@,
{
    let mut s = String::new();
    s.append("device/v2/");
    s.append(uuid);
    s.append("/state");
    proof {
        assert(Seq::<char>::empty() + "device/v2/"@ =~= "device/v2/"@);
    }
    s
}

/// The endpoint that looks a device up by name within an application.
pub fn get_device_by_name_endpoint(application_id: u64, name: &str) -> (r: String)
    ensures
        r@ == "v5/device?$filter=belongs_to__application eq '"@ + dec_digits(
            application_id as nat,
        ) + "' and device_name eq '"@ + name@ + "'"@,
{
    let mut s = String::new();
    s.append("v5/device?$filter=belongs_to__application eq '");
    push_decimal(&mut s, application_id);
    s.append("' and device_name eq '");
    s.append(name);
    s.append("'");
    proof {
        assert(Seq::<char>::empty() + "v5/device?$filter=belongs_to__application eq '"@
            =~= "v5/device?$filter=belongs_to__application eq '"@);
    }
    s
}

/// The lowercase hex rendering of bytes: two digits per byte, high nibble
/// first.
pub open spec fn hex_of(bs: Seq<u8>) -> Seq<char> {
    Seq::new(
        2 * bs.len(),
        |i: int|
            if i % 2 == 0 {
                hex_char(bs[i / 2] / 16)
            } else {
                hex_char(bs[i / 2] % 16)
            },
    )
}

pub open spec fn hex_char(d: u8) -> char {
    if d == 0 {
        '0'
    } else if d == 1 {
        '1'
    } else if d == 2 {
        '2'
    } else if d == 3 {
        '3'
    } else if d == 4 {
        '4'
    } else if d == 5 {
        '5'
    } else if d == 6 {
        '6'
    } else if d == 7 {
        '7'
    } else if d == 8 {
        '8'
    } else if d == 9 {
        '9'
    } else if d == 10 {
        'a'
    } else if d == 11 {
        'b'
    } else if d == 12 {
        'c'
    } else if d == 13 {
        'd'
    } else if d == 14 {
        'e'
    } else {
        'f'
    }
}

/// Relies on getrandom::fill: on success the whole buffer was filled with
/// random bytes; nothing is promised of their values, only the length.
#[verifier::external_body]
fn random_bytes(n: usize) -> (r: Option<Vec<u8>>)
    ensures
        r matches Some(v) ==> v@.len() == n,
{
    let mut buf = vec![0u8; n];
    match getrandom::fill(&mut buf) {
        Ok(()) => Some(buf),
        Err(_) => None,
    }
}

/// Relies on hex::encode: each input byte becomes two lowercase hex
/// digits, high nibble first.
#[verifier::external_body]
fn hex_encode(data: &Vec<u8>) -> (r: String)
    ensures
        r@ == hex_of(data@),
{
    hex::encode(data.as_slice())
}

/// A fresh device identity: 16 random bytes in lowercase hex, 32 digits.
/// `None` only when the platform's randomness source fails.
pub fn new_uuid() -> (r: Option<String>)
    ensures
        r matches Some(u) ==> u@.len() == 32 && (exists|bs: Seq<u8>|
            bs.len() == 16 && u@ == hex_of(bs)),
{
    match random_bytes(16) {
        Some(bytes) => {
            let s = hex_encode(&bytes);
            proof {
                assert(bytes@.len() == 16 && s@ == hex_of(bytes@));
            }
            Some(s)
        }
        None => None,
    }
}

} // verus!

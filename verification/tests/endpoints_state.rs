use crosser::api::{api_url, u64_string};
use crosser::application::{get_application_by_name_endpoint, get_application_user_endpoint};
use crosser::builder::{builder_url, get_build_application_endpoint};
use crosser::config::config_name;
use crosser::device::{
    get_device_by_name_endpoint, get_device_id_endpoint, get_device_state_endpoint, new_uuid,
    DeviceRegistration,
};
use crosser::state::{add_device_registration, get_device_registration, State};
use crosser::variable::{api_key_variable, get_device_environment_variable_endpoint};

#[test]
fn decimal_rendering() {
    assert_eq!(u64_string(0), "0");
    assert_eq!(u64_string(7), "7");
    assert_eq!(u64_string(1234567890), "1234567890");
    assert_eq!(u64_string(u64::MAX), "18446744073709551615");
}

#[test]
fn api_and_builder_urls() {
    assert_eq!(api_url("v5/device(7)"), "https://api.balena-cloud.com/v5/device(7)");
    assert_eq!(
        builder_url("v3/build?owner=me"),
        "https://builder.balena-cloud.com/v3/build?owner=me"
    );
}

#[test]
fn application_endpoints() {
    assert_eq!(
        get_application_by_name_endpoint("my-app"),
        "v5/application?$filter=app_name eq 'my-app'"
    );
    assert_eq!(
        get_application_user_endpoint("my-app"),
        "v5/application?$expand=user($select=id,username)&$filter=app_name eq 'my-app'&$select=id"
    );
}

#[test]
fn device_endpoints() {
    assert_eq!(get_device_id_endpoint(42), "v5/device(42)");
    assert_eq!(get_device_state_endpoint("abcdef"), "device/v2/abcdef/state");
    assert_eq!(
        get_device_by_name_endpoint(9, "unit-a"),
        "v5/device?$filter=belongs_to__application eq '9' and device_name eq 'unit-a'"
    );
}

#[test]
fn variable_endpoint_and_key_name() {
    assert_eq!(
        get_device_environment_variable_endpoint(5, "API_KEY"),
        "v5/device_environment_variable?$filter=device eq '5' and name eq 'API_KEY'"
    );
    assert_eq!(api_key_variable(), "API_KEY");
}

#[test]
fn build_endpoint() {
    assert_eq!(
        get_build_application_endpoint("user1", "app1"),
        "v3/build?owner=user1&app=app1&dockerfilePath=&emulated=false&nocache=false&headless=false"
    );
}

#[test]
fn uuid_is_32_lowercase_hex_digits() {
    let u = new_uuid().expect("randomness should be available");
    assert_eq!(u.len(), 32);
    assert!(u.chars().all(|c| c.is_ascii_hexdigit() && !c.is_ascii_uppercase()));
    // Two draws almost surely differ; equal draws would mean the random
    // source was ignored.
    let v = new_uuid().expect("randomness should be available");
    assert_ne!(u, v);
}

#[test]
fn config_name_strips_directory_and_extension() {
    assert_eq!(config_name(&b"path/to/app.yml".to_vec()), Some(b"app".to_vec()));
    assert_eq!(config_name(&b"app.state.ron".to_vec()), Some(b"app.state".to_vec()));
    assert_eq!(config_name(&b"plain".to_vec()), Some(b"plain".to_vec()));
    assert_eq!(config_name(&b".hidden".to_vec()), Some(b".hidden".to_vec()));
    assert_eq!(config_name(&b"dir/".to_vec()), None);
}

fn reg(id: u64, uuid: &str, api_key: &str) -> DeviceRegistration {
    DeviceRegistration { id, uuid: String::from(uuid), api_key: String::from(api_key) }
}

#[test]
fn state_round_trip() {
    let mut st = State::new();
    assert!(get_device_registration(&st, "alpha").is_none());
    add_device_registration(&mut st, "alpha", reg(1, "u-1", "k-1"));
    add_device_registration(&mut st, "beta", reg(2, "u-2", "k-2"));
    let got = get_device_registration(&st, "alpha").expect("alpha was added");
    assert_eq!(got.id, 1);
    assert_eq!(got.uuid, "u-1");
    assert_eq!(got.api_key, "k-1");
    assert!(get_device_registration(&st, "gamma").is_none());
}

#[test]
fn state_rebinding_replaces() {
    let mut st = State::new();
    add_device_registration(&mut st, "alpha", reg(1, "u-1", "k-1"));
    add_device_registration(&mut st, "alpha", reg(9, "u-9", "k-9"));
    let got = get_device_registration(&st, "alpha").expect("alpha is bound");
    assert_eq!(got.id, 9);
}

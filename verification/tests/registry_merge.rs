use std::collections::HashMap;
use std::io::Write;

use crosser::json::{parse_value, Json, Parsed};
use crosser::merge::{FsNode, FsOp};
use crosser::registry::{
    manifest_layer_digests, parse_image_url, require_all_blobs, unpack, AuthPhase, Authenticator,
    RegistryError,
};

enum Entry<'a> {
    File(&'a str, &'a [u8]),
    Dir(&'a str),
}

fn tar_bytes(entries: &[Entry]) -> Vec<u8> {
    let mut b = tar::Builder::new(Vec::new());
    for e in entries {
        match e {
            Entry::File(path, data) => {
                let mut h = tar::Header::new_ustar();
                h.set_entry_type(tar::EntryType::Regular);
                h.set_size(data.len() as u64);
                h.set_mode(0o644);
                h.set_path(path).unwrap();
                h.set_cksum();
                b.append(&h, *data).unwrap();
            }
            Entry::Dir(path) => {
                let mut h = tar::Header::new_ustar();
                h.set_entry_type(tar::EntryType::Directory);
                h.set_size(0);
                h.set_mode(0o755);
                h.set_path(path).unwrap();
                h.set_cksum();
                b.append(&h, &[][..]).unwrap();
            }
        }
    }
    b.into_inner().unwrap()
}

fn gzip(data: &[u8]) -> Vec<u8> {
    let mut e = flate2::write::GzEncoder::new(Vec::new(), flate2::Compression::default());
    e.write_all(data).unwrap();
    e.finish().unwrap()
}

fn layer(entries: &[Entry]) -> Vec<u8> {
    gzip(&tar_bytes(entries))
}

fn key(parts: &[&str]) -> Vec<Vec<u8>> {
    parts.iter().map(|p| p.as_bytes().to_vec()).collect()
}

/// Replay an extraction plan against an in-memory tree, the way the
/// filesystem executor would against a directory.
fn apply_ops(ops: &[FsOp]) -> HashMap<Vec<Vec<u8>>, Vec<u8>> {
    let mut m: HashMap<Vec<Vec<u8>>, Vec<u8>> = HashMap::new();
    for op in ops {
        match op {
            FsOp::Write { path, node } => {
                let data = match node {
                    FsNode::File { data, .. } => data.clone(),
                    _ => Vec::new(),
                };
                m.insert(path.clone(), data);
            }
            FsOp::RemoveAll { path } => {
                m.retain(|k, _| !(k.len() >= path.len() && k[..path.len()] == path[..]));
            }
            FsOp::ClearDir { dir } => {
                m.retain(|k, _| !(k.len() > dir.len() && k[..dir.len()] == dir[..]));
            }
        }
    }
    m
}

fn merged(blobs: Vec<Vec<u8>>) -> HashMap<Vec<Vec<u8>>, Vec<u8>> {
    apply_ops(&unpack(&blobs).expect("layers should decode"))
}

#[test]
fn whiteout_deletes_earlier_file() {
    let l1 = layer(&[Entry::Dir("x/"), Entry::File("x/f", b"payload")]);
    let l2 = layer(&[Entry::File("x/.wh.f", b"")]);
    let tree = merged(vec![l1.clone(), l2.clone()]);
    assert!(!tree.contains_key(&key(&["x", "f"])));
    // Re-extracting the same layer set onto a fresh target gives the
    // same absence.
    let again = merged(vec![l1, l2]);
    assert!(!again.contains_key(&key(&["x", "f"])));
    assert_eq!(tree, again);
}

#[test]
fn whiteout_of_absent_target_is_tolerated() {
    let l1 = layer(&[Entry::File(".wh.ghost", b"")]);
    let tree = merged(vec![l1]);
    assert!(tree.is_empty());
}

#[test]
fn opaque_whiteout_clears_prior_siblings() {
    let l1 = layer(&[
        Entry::Dir("d/"),
        Entry::File("d/a", b"one"),
        Entry::File("d/b", b"two"),
    ]);
    let l2 = layer(&[Entry::File("d/.wh..wh..opq", b""), Entry::File("d/c", b"three")]);
    let tree = merged(vec![l1, l2]);
    assert!(!tree.contains_key(&key(&["d", "a"])));
    assert!(!tree.contains_key(&key(&["d", "b"])));
    assert_eq!(tree.get(&key(&["d", "c"])).map(|d| d.as_slice()), Some(&b"three"[..]));
    // The directory itself survives its opaque marker.
    assert!(tree.contains_key(&key(&["d"])));
}

#[test]
fn extraction_follows_manifest_order() {
    let l1 = layer(&[
        Entry::Dir("d/"),
        Entry::File("d/a", b"one"),
        Entry::File("d/b", b"two"),
    ]);
    let l2 = layer(&[Entry::File("d/.wh..wh..opq", b""), Entry::File("d/c", b"three")]);
    let in_order = merged(vec![l1.clone(), l2.clone()]);
    let swapped = merged(vec![l2, l1]);
    // Processing the opaque layer first leaves the content layer's files
    // in place: the merge is order-sensitive, so the engine must follow
    // manifest order, never fetch-completion order.
    assert_ne!(in_order, swapped);
    assert!(swapped.contains_key(&key(&["d", "a"])));
    assert!(!in_order.contains_key(&key(&["d", "a"])));
}

#[test]
fn one_failed_fetch_discards_everything() {
    let digests: Vec<Vec<u8>> = vec![
        b"sha256:aaa".to_vec(),
        b"sha256:bbb".to_vec(),
        b"sha256:ccc".to_vec(),
    ];
    let results = vec![
        Some(layer(&[Entry::File("a", b"1")])),
        None,
        Some(layer(&[Entry::File("c", b"3")])),
    ];
    match require_all_blobs(&results, &digests) {
        Err(RegistryError::BlobFetchFailed { digest }) => {
            assert_eq!(digest, b"sha256:bbb".to_vec());
        }
        _ => panic!("a missing blob must fail the whole fetch"),
    }
    // No extraction plan exists for the partial set: nothing reaches the
    // target directory.
}

#[test]
fn complete_fetch_keeps_manifest_order() {
    let digests: Vec<Vec<u8>> = vec![b"sha256:aaa".to_vec(), b"sha256:bbb".to_vec()];
    let results = vec![Some(b"first".to_vec()), Some(b"second".to_vec())];
    let blobs = require_all_blobs(&results, &digests).expect("all blobs present");
    assert_eq!(blobs, vec![b"first".to_vec(), b"second".to_vec()]);
}

#[test]
fn blob_that_is_not_gzip_fails_decode() {
    match unpack(&vec![b"not gzip at all".to_vec()]) {
        Err(RegistryError::LayerDecodeFailed { index }) => assert_eq!(index, 0),
        _ => panic!("garbage must not decode"),
    }
}

#[test]
fn gzip_of_garbage_tar_fails_decode() {
    let blob = gzip(&[120u8; 700]);
    match unpack(&vec![blob]) {
        Err(RegistryError::LayerDecodeFailed { index }) => assert_eq!(index, 0),
        _ => panic!("a malformed archive must not decode"),
    }
}

#[test]
fn image_url_splits_at_first_slash_and_at() {
    let url = b"registry2.example.com/v2/app-name@sha256:0123".to_vec();
    let (registry, image) = parse_image_url(&url).expect("well-formed reference");
    assert_eq!(registry, b"registry2.example.com".to_vec());
    assert_eq!(image, b"v2/app-name".to_vec());
}

#[test]
fn image_url_without_separators_is_rejected() {
    assert!(parse_image_url(&b"no-slash-here".to_vec()).is_none());
    assert!(parse_image_url(&b"host/path-without-marker".to_vec()).is_none());
}

#[test]
fn auth_flow_happy_path() {
    let mut auth = Authenticator::new();
    assert_eq!(auth.phase(), AuthPhase::NeedProbe);
    auth.on_probe(true).expect("v2 supported");
    assert_eq!(auth.phase(), AuthPhase::NeedAuthCheck);
    auth.on_auth_check(false);
    assert_eq!(auth.phase(), AuthPhase::NeedLogin);
    let scope = Authenticator::login_scope("v2/app");
    assert_eq!(scope, "repository:v2/app:pull");
    auth.on_login(String::from("token-123"));
    assert_eq!(auth.phase(), AuthPhase::NeedTokenCheck);
    auth.on_token_check(true).expect("token works");
    assert_eq!(auth.phase(), AuthPhase::Done);
    assert_eq!(auth.token().as_deref(), Some("token-123"));
}

#[test]
fn auth_flow_failures_are_fatal() {
    let mut a = Authenticator::new();
    assert!(matches!(a.on_probe(false), Err(RegistryError::UnsupportedRegistry)));
    assert_eq!(a.phase(), AuthPhase::Failed);

    let mut b = Authenticator::new();
    b.on_probe(true).unwrap();
    b.on_auth_check(false);
    b.on_login(String::from("bad"));
    assert!(matches!(b.on_token_check(false), Err(RegistryError::AuthenticationFailed)));
    assert_eq!(b.phase(), AuthPhase::Failed);
}

#[test]
fn already_authenticated_client_skips_login() {
    let mut a = Authenticator::new();
    a.on_probe(true).unwrap();
    a.on_auth_check(true);
    assert_eq!(a.phase(), AuthPhase::Done);
    assert!(a.token().is_none());
}

fn parse_json(text: &[u8]) -> Json {
    let bytes = text.to_vec();
    match parse_value(&bytes, 0) {
        Parsed::Val(j, _) => j,
        _ => panic!("test document should decode"),
    }
}

#[test]
fn manifest_digests_in_order() {
    let m = parse_json(
        b"{\"layers\":[{\"digest\":\"sha256:one\"},{\"digest\":\"sha256:two\"}]} ",
    );
    let ds = manifest_layer_digests(&m).expect("well-formed manifest");
    assert_eq!(ds, vec![b"sha256:one".to_vec(), b"sha256:two".to_vec()]);
}

#[test]
fn manifest_with_zero_layers_is_malformed() {
    let m = parse_json(b"{\"layers\":[]} ");
    assert!(matches!(
        manifest_layer_digests(&m),
        Err(RegistryError::MalformedManifest)
    ));
}

#[test]
fn manifest_without_layers_is_malformed() {
    let m = parse_json(b"{\"schemaVersion\":2} ");
    assert!(matches!(
        manifest_layer_digests(&m),
        Err(RegistryError::MalformedManifest)
    ));
}

#[test]
fn manifest_with_non_string_digest_is_malformed() {
    let m = parse_json(b"{\"layers\":[{\"digest\":5}]} ");
    assert!(matches!(
        manifest_layer_digests(&m),
        Err(RegistryError::MalformedManifest)
    ));
}

#[test]
fn later_layer_file_overwrites_earlier() {
    let l1 = layer(&[Entry::File("etc/conf", b"old")]);
    let l2 = layer(&[Entry::File("etc/conf", b"new")]);
    let tree = merged(vec![l1, l2]);
    assert_eq!(tree.get(&key(&["etc", "conf"])).map(|d| d.as_slice()), Some(&b"new"[..]));
}

#[test]
fn ustar_prefix_field_joins_the_path() {
    // A path longer than the 100-byte name field forces the ustar prefix.
    let long_dir = "d".repeat(90);
    let path = format!("{}/{}", long_dir, "f".repeat(60));
    let l = layer(&[Entry::File(&path, b"deep")]);
    let tree = merged(vec![l]);
    let k = key(&[&long_dir, &"f".repeat(60)]);
    assert_eq!(tree.get(&k).map(|d| d.as_slice()), Some(&b"deep"[..]));
}

#[test]
fn dot_prefixed_paths_normalise() {
    // Layer entries commonly carry a leading `./`.
    let l1 = layer(&[Entry::File("./etc/hosts", b"hosts")]);
    let l2 = layer(&[Entry::File("./etc/.wh.hosts", b"")]);
    let one = merged(vec![l1.clone()]);
    assert_eq!(one.get(&key(&["etc", "hosts"])).map(|d| d.as_slice()), Some(&b"hosts"[..]));
    let both = merged(vec![l1, l2]);
    assert!(!both.contains_key(&key(&["etc", "hosts"])));
}

// A raw ustar header, built by hand because tar writers refuse `..`.
fn raw_header(name: &[u8], size: usize) -> [u8; 512] {
    let mut h = [0u8; 512];
    h[..name.len()].copy_from_slice(name);
    h[100..108].copy_from_slice(b"0000644\0");
    let size_field = format!("{:011o}\0", size);
    h[124..136].copy_from_slice(size_field.as_bytes());
    h[136..148].copy_from_slice(b"00000000000\0");
    h[148..156].copy_from_slice(b"        ");
    h[156] = b'0';
    h[257..263].copy_from_slice(b"ustar\0");
    let sum: u32 = h.iter().map(|b| *b as u32).sum();
    let cksum = format!("{:06o}\0 ", sum);
    h[148..156].copy_from_slice(cksum.as_bytes());
    h
}

#[test]
fn parent_escaping_entries_are_ignored() {
    let mut archive = Vec::new();
    archive.extend_from_slice(&raw_header(b"up/../../evil", 4));
    archive.extend_from_slice(b"nope");
    archive.extend_from_slice(&[0u8; 508]);
    archive.extend_from_slice(&raw_header(b"ok", 4));
    archive.extend_from_slice(b"fine");
    archive.extend_from_slice(&[0u8; 508]);
    archive.extend_from_slice(&[0u8; 1024]);
    let tree = merged(vec![gzip(&archive)]);
    assert_eq!(tree.len(), 1);
    assert_eq!(tree.get(&key(&["ok"])).map(|d| d.as_slice()), Some(&b"fine"[..]));
}

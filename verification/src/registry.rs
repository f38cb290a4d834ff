//! The pull-only registry client: image reference parsing, the bearer-token
//! authentication flow, manifest interpretation, the all-or-nothing blob
//! barrier and the decoding of fetched layers into an extraction plan.
//!
//! The network requests themselves are the caller's: this module decides,
//! from each response, what to ask next and what the pull yields.

use vstd::prelude::*;

use vstd::string::StringExecFns;

use crate::buildlog::{find_member, lookup};
use crate::json::{arr_view, jview, lemma_arr_view, lemma_jview_shape, obj_view, Json, JsonV};
use crate::merge::{extraction_plan, ops_view, sp_all_acts, sp_merge, sp_plan_tree, FsOp, NodeV};
use crate::tar::{entries_view, gunzip_of, layer_entries, tar_entries, TarEntry, TarEntryV};

verus! {

/// Why a pull failed.
#[derive(Debug)]
pub enum RegistryError {
    /// The image reference has no registry host or no digest marker.
    BadImageRef,
    /// The registry does not speak the expected protocol version.
    UnsupportedRegistry,
    /// The token exchange did not yield a working token.
    AuthenticationFailed,
    /// The registry has no manifest for the requested tag.
    ManifestNotFound,
    /// The manifest cannot be interpreted or lists zero layers.
    MalformedManifest,
    /// One blob fetch failed: the digest of the first failed layer.
    BlobFetchFailed { digest: Vec<u8> },
    /// One fetched blob is not a gzip-compressed tar archive: the index
    /// of the first such layer in manifest order.
    LayerDecodeFailed { index: usize },
}

/// First index at or after `i` holding byte `c`, or the end of `s`.
pub open spec fn first_idx(s: Seq<u8>, c: u8, i: int) -> int
    decreases s.len() - i,
{
    if 0 <= i < s.len() && s[i] != c {
        first_idx(s, c, i + 1)
    } else {
        i
    }
}

fn scan_byte(s: &Vec<u8>, c: u8, from: usize) -> (r: usize)
    requires
        from <= s@.len(),
    ensures
        r as int == first_idx(s@, c, from as int),
        from <= r <= s@.len(),
        r < s@.len() ==> s@[r as int] == c,
        forall|k: int| from <= k < r ==> s@[k] != c,
    decreases s@.len() - from,
{
    let n = s.len();
    let mut i = from;
    while i < n && s[i] != c
        invariant
            from <= i <= n,
            n == s@.len(),
            first_idx(s@, c, from as int) == first_idx(s@, c, i as int),
            forall|k: int| from <= k < i ==> s@[k] != c,
        decreases n - i,
    {
        i = i + 1;
    }
    i
}

/// Split an image reference into registry host and image path: the host is
/// everything before the first `/`, the image everything after it up to
/// the first `@`.  `None` exactly when either separator is missing.
pub fn parse_image_url(url: &Vec<u8>) -> (r: Option<(Vec<u8>, Vec<u8>)>)
    ensures
        ({
            let sl = first_idx(url@, 47, 0);
            match r {
                Some((registry, image)) => sl < url@.len() && registry@ == url@.take(sl) && ({
                    let at = first_idx(url@, 64, sl + 1);
                    at < url@.len() && image@ == url@.subrange(sl + 1, at)
                }),
                None => sl >= url@.len() || first_idx(url@, 64, sl + 1) >= url@.len(),
            }
        }),
{
    let n = url.len();
    let sl = scan_byte(url, 47, 0);
    if sl >= n {
        return None;
    }
    let at = scan_byte(url, 64, sl + 1);
    if at >= n {
        return None;
    }
    let registry = crate::json::copy_range(url, 0, sl);
    let image = crate::json::copy_range(url, sl + 1, at);
    proof {
        assert(registry@ =~= url@.take(sl as int));
    }
    Some((registry, image))
}

/// Where the authentication flow stands: which answer it waits for next.
#[derive(PartialEq, Eq, Structural, Clone, Copy, Debug)]
pub enum AuthPhase {
    /// Ask the registry whether it supports the v2 protocol.
    NeedProbe,
    /// Ask whether the client is already authenticated.
    NeedAuthCheck,
    /// Perform the token exchange for the pull scope.
    NeedLogin,
    /// Ask whether the obtained token authenticates.
    NeedTokenCheck,
    /// Authenticated: every later registry request carries the token.
    Done,
    /// The pull is over; nothing may be retried.
    Failed,
}

/// The decisions of the registry authentication flow.  The caller performs
/// each network exchange and reports its outcome; the flow decides what
/// happens next and holds the bearer token once one is established.
pub struct Authenticator {
    phase: AuthPhase,
    token: Option<String>,
}

impl Authenticator {
    pub closed spec fn phase_of(&self) -> AuthPhase {
        self.phase
    }

    pub closed spec fn token_of(&self) -> Option<String> {
        self.token
    }

    /// A fresh flow: nothing probed yet, no token.
    pub fn new() -> (r: Self)
        ensures
            r.phase_of() == AuthPhase::NeedProbe,
            r.token_of() is None,
    {
        Authenticator { phase: AuthPhase::NeedProbe, token: None }
    }

    pub fn phase(&self) -> (r: AuthPhase)
        ensures
            r == self.phase_of(),
    {
        self.phase
    }

    /// The token established by the flow, to attach to manifest and blob
    /// requests.
    pub fn token(&self) -> (r: &Option<String>)
        ensures
            *r == self.token_of(),
    {
        &self.token
    }

    /// The scope of the token exchange for pulling `image`.
    pub fn login_scope(image: &str) -> (r: String)
        ensures
            r@ == "repository:"@ + image@ + ":pull"@,
    {
        let mut s = String::new();
        s.append("repository:");
        s.append(image);
        s.append(":pull");
        proof {
            assert(Seq::<char>::empty() + "repository:"@ =~= "repository:"@);
        }
        s
    }

    /// Report whether the registry supports the v2 protocol.  Lacking it
    /// is fatal to the pull.
    pub fn on_probe(&mut self, supported: bool) -> (r: Result<(), RegistryError>)
        requires
            old(self).phase_of() == AuthPhase::NeedProbe,
        ensures
            final(self).token_of() == old(self).token_of(),
            supported ==> (r is Ok) && final(self).phase_of() == AuthPhase::NeedAuthCheck,
            !supported ==> (r matches Err(RegistryError::UnsupportedRegistry))
                && final(self).phase_of() == AuthPhase::Failed,
    {
        if supported {
            self.phase = AuthPhase::NeedAuthCheck;
            Ok(())
        } else {
            self.phase = AuthPhase::Failed;
            Err(RegistryError::UnsupportedRegistry)
        }
    }

    /// Report whether the client is already authenticated without a token;
    /// if so the flow is done, otherwise a token exchange is next.
    pub fn on_auth_check(&mut self, authenticated: bool)
        requires
            old(self).phase_of() == AuthPhase::NeedAuthCheck,
        ensures
            final(self).token_of() == old(self).token_of(),
            authenticated ==> final(self).phase_of() == AuthPhase::Done,
            !authenticated ==> final(self).phase_of() == AuthPhase::NeedLogin,
    {
        if authenticated {
            self.phase = AuthPhase::Done;
        } else {
            self.phase = AuthPhase::NeedLogin;
        }
    }

    /// Store the token the exchange returned; it must still be checked.
    pub fn on_login(&mut self, token: String)
        requires
            old(self).phase_of() == AuthPhase::NeedLogin,
        ensures
            final(self).phase_of() == AuthPhase::NeedTokenCheck,
            final(self).token_of() == Some(token),
    {
        self.token = Some(token);
        self.phase = AuthPhase::NeedTokenCheck;
    }

    /// Report whether the stored token authenticates.  A token that does
    /// not is fatal to the pull.
    pub fn on_token_check(&mut self, authenticated: bool) -> (r: Result<(), RegistryError>)
        requires
            old(self).phase_of() == AuthPhase::NeedTokenCheck,
        ensures
            final(self).token_of() == old(self).token_of(),
            authenticated ==> (r is Ok) && final(self).phase_of() == AuthPhase::Done,
            !authenticated ==> (r matches Err(RegistryError::AuthenticationFailed))
                && final(self).phase_of() == AuthPhase::Failed,
    {
        if authenticated {
            self.phase = AuthPhase::Done;
            Ok(())
        } else {
            self.phase = AuthPhase::Failed;
            Err(RegistryError::AuthenticationFailed)
        }
    }
}

pub open spec fn key_layers() -> Seq<u8> {
    seq![108u8, 97u8, 121u8, 101u8, 114u8, 115u8]
}

pub open spec fn key_digest() -> Seq<u8> {
    seq![100u8, 105u8, 103u8, 101u8, 115u8, 116u8]
}

/// The digests of a manifest's layer list, in order: each element must be
/// an object whose `digest` member is a string.
pub open spec fn sp_digests_of(items: Seq<JsonV>) -> Option<Seq<Seq<u8>>>
    decreases items.len(),
{
    if items.len() == 0 {
        Some(Seq::empty())
    } else {
        match items.first() {
            JsonV::Obj(ms) => match lookup(ms, key_digest()) {
                Some(JsonV::Str(d)) => match sp_digests_of(items.drop_first()) {
                    Some(rest) => Some(seq![d] + rest),
                    None => None,
                },
                _ => None,
            },
            _ => None,
        }
    }
}

/// The ordered layer digests of a manifest: its `layers` member must be a
/// non-empty array of objects carrying string digests.
pub open spec fn sp_manifest_digests(v: JsonV) -> Option<Seq<Seq<u8>>> {
    match v {
        JsonV::Obj(ms) => match lookup(ms, key_layers()) {
            Some(JsonV::Arr(items)) => match sp_digests_of(items) {
                Some(ds) => if ds.len() > 0 {
                    Some(ds)
                } else {
                    None
                },
                None => None,
            },
            _ => None,
        },
        _ => None,
    }
}

pub open spec fn digests_view(s: Seq<Vec<u8>>) -> Seq<Seq<u8>> {
    Seq::new(s.len(), |i: int| s[i]@)
}

/// Extract the ordered layer digests from a decoded manifest, or reject
/// the manifest as malformed — also when it lists zero layers.
pub fn manifest_layer_digests(m: &Json) -> (r: Result<Vec<Vec<u8>>, RegistryError>)
    ensures
        match r {
            Ok(ds) => sp_manifest_digests(jview(*m)) == Some(digests_view(ds@)) && ds@.len() > 0,
            Err(e) => (e matches RegistryError::MalformedManifest) && sp_manifest_digests(
                jview(*m),
            ) is None,
        },
{
    let ms = match m {
        Json::Obj(ms) => ms,
        _ => {
            proof {
                lemma_jview_shape(*m);
            }
            return Err(RegistryError::MalformedManifest);
        }
    };
    let k_layers: [u8; 6] = [108, 97, 121, 101, 114, 115];
    let k_digest: [u8; 6] = [100, 105, 103, 101, 115, 116];
    let kl = k_layers.as_slice();
    let kd = k_digest.as_slice();
    proof {
        assert(kl@ =~= key_layers());
        assert(kd@ =~= key_digest());
    }
    let items: &Vec<Json> = match find_member(ms, kl) {
        Some(aj) => match aj {
            Json::Arr(items) => items,
            _ => {
                proof {
                    lemma_jview_shape(*aj);
                }
                return Err(RegistryError::MalformedManifest);
            }
        },
        None => {
            return Err(RegistryError::MalformedManifest);
        }
    };
    let ghost itemsv = arr_view(items@);
    proof {
        lemma_arr_view(items@);
    }
    let n = items.len();
    let mut ds: Vec<Vec<u8>> = Vec::new();
    let mut i: usize = 0;
    proof {
        assert(itemsv.skip(0) =~= itemsv);
        assert(digests_view(ds@) =~= Seq::<Seq<u8>>::empty());
        assert(digests_view(ds@) + sp_digests_of(itemsv)->Some_0 =~= sp_digests_of(
            itemsv,
        )->Some_0);
    }
    while i < n
        invariant
            i <= n,
            n == items@.len(),
            itemsv == arr_view(items@),
            itemsv.len() == n,
            kd@ == key_digest(),
            jview(*m) == JsonV::Obj(obj_view(ms@)),
            lookup(obj_view(ms@), key_layers()) == Some(JsonV::Arr(itemsv)),
            forall|k: int| 0 <= k < n ==> itemsv[k] == jview(items@[k]),
            (match sp_digests_of(itemsv.skip(i as int)) {
                Some(rest) => sp_digests_of(itemsv) == Some(digests_view(ds@) + rest),
                None => sp_digests_of(itemsv) is None,
            }),
        decreases n - i,
    {
        let ghost suffix = itemsv.skip(i as int);
        proof {
            assert(suffix.first() == itemsv[i as int]);
            assert(suffix.drop_first() =~= itemsv.skip(i + 1));
        }
        let ims = match &items[i] {
            Json::Obj(ims) => ims,
            other => {
                proof {
                    lemma_jview_shape(*other);
                }
                return Err(RegistryError::MalformedManifest);
            }
        };
        match find_member(ims, kd) {
            Some(dj) => match dj {
                Json::Str(d) => {
                    let ghost prev = ds@;
                    let dc = crate::json::copy_range(d, 0, d.len());
                    proof {
                        assert(dc@ =~= d@);
                    }
                    ds.push(dc);
                    proof {
                        assert(suffix.first() == JsonV::Obj(obj_view(ims@)));
                        assert(jview(*dj) == JsonV::Str(d@));
                        assert(lookup(obj_view(ims@), key_digest()) == Some(JsonV::Str(d@)));
                        assert(sp_digests_of(suffix) == (match sp_digests_of(suffix.drop_first()) {
                            Some(rest) => Some(seq![d@] + rest),
                            None => None,
                        }));
                        assert(digests_view(ds@) =~= digests_view(prev).push(d@));
                        match sp_digests_of(itemsv.skip(i + 1)) {
                            Some(rest) => {
                                assert(digests_view(prev) + (seq![d@] + rest) =~= digests_view(
                                    ds@,
                                ) + rest);
                            }
                            None => {}
                        }
                    }
                }
                _ => {
                    proof {
                        lemma_jview_shape(*dj);
                    }
                    return Err(RegistryError::MalformedManifest);
                }
            },
            None => {
                return Err(RegistryError::MalformedManifest);
            }
        }
        i = i + 1;
    }
    proof {
        assert(itemsv.skip(n as int) =~= Seq::<JsonV>::empty());
        assert(digests_view(ds@) + Seq::<Seq<u8>>::empty() =~= digests_view(ds@));
    }
    if ds.len() == 0 {
        return Err(RegistryError::MalformedManifest);
    }
    proof {
        assert(jview(*m) == JsonV::Obj(obj_view(ms@)));
        assert(lookup(obj_view(ms@), key_layers()) == Some(JsonV::Arr(itemsv)));
        assert(sp_digests_of(itemsv) == Some(digests_view(ds@)));
        assert(digests_view(ds@).len() > 0);
    }
    Ok(ds)
}

pub open spec fn opts_view(s: Seq<Option<Vec<u8>>>) -> Seq<Option<Seq<u8>>> {
    Seq::new(
        s.len(),
        |i: int|
            match s[i] {
                Some(b) => Some(b@),
                None => None,
            },
    )
}

/// The all-or-nothing barrier before extraction: the blobs are released
/// only if every fetch succeeded; a single failure discards everything
/// and names the digest of the first layer whose fetch failed.
pub fn require_all_blobs(results: &Vec<Option<Vec<u8>>>, digests: &Vec<Vec<u8>>) -> (r: Result<
    Vec<Vec<u8>>,
    RegistryError,
>)
    requires
        results@.len() == digests@.len(),
    ensures
        match r {
            Ok(blobs) => (forall|i: int| 0 <= i < results@.len() ==> results@[i] is Some)
                && blobs@.len() == results@.len() && (forall|i: int|
                0 <= i < blobs@.len() ==> opts_view(results@)[i] == Some(blobs@[i]@)),
            Err(e) => (e matches RegistryError::BlobFetchFailed { digest } && (exists|i: int|
                0 <= i < results@.len() && results@[i] is None && digest@ == digests@[i]@ && (
                forall|j: int| 0 <= j < i ==> results@[j] is Some))),
        },
{
    let n = results.len();
    let mut blobs: Vec<Vec<u8>> = Vec::new();
    let mut i: usize = 0;
    while i < n
        invariant
            i <= n,
            n == results@.len() == digests@.len(),
            blobs@.len() == i,
            forall|k: int| 0 <= k < i ==> results@[k] is Some,
            forall|k: int| 0 <= k < i ==> opts_view(results@)[k] == Some(blobs@[k]@),
        decreases n - i,
    {
        match &results[i] {
            Some(b) => {
                blobs.push(crate::json::copy_range(b, 0, b.len()));
            }
            None => {
                let digest = crate::json::copy_range(&digests[i], 0, digests[i].len());
                proof {
                    assert(digest@ =~= digests@[i as int]@);
                }
                return Err(RegistryError::BlobFetchFailed { digest });
            }
        }
        i = i + 1;
    }
    Ok(blobs)
}

/// The layers of an image decoded from its fetched blobs, in manifest
/// order: each blob gunzipped and its tar entries listed, or the index of
/// the first blob that is not a valid compressed layer.
pub open spec fn sp_decode_layers(bs: Seq<Seq<u8>>) -> Option<Seq<Seq<TarEntryV>>>
    decreases bs.len(),
{
    if bs.len() == 0 {
        Some(Seq::empty())
    } else {
        match gunzip_of(bs.first()) {
            Some(t) => match tar_entries(t, 0) {
                Some(es) => match sp_decode_layers(bs.drop_first()) {
                    Some(rest) => Some(seq![es] + rest),
                    None => None,
                },
                None => None,
            },
            None => None,
        }
    }
}

/// Decode every fetched blob and produce the ordered extraction plan of
/// the image.  The plan's effect is exactly the union-filesystem merge of
/// the decoded layers in manifest order.
pub fn unpack(blobs: &Vec<Vec<u8>>) -> (r: Result<Vec<FsOp>, RegistryError>)
    ensures
        match r {
            Ok(ops) => (sp_decode_layers(digests_view(blobs@)) matches Some(layers)
                && ops_view(ops@) == sp_all_acts(layers) && sp_plan_tree(
                Map::<Seq<Seq<u8>>, NodeV>::empty(),
                ops_view(ops@),
            ) == sp_merge(Map::<Seq<Seq<u8>>, NodeV>::empty(), layers)),
            Err(e) => (e matches RegistryError::LayerDecodeFailed { index } && sp_decode_layers(
                digests_view(blobs@),
            ) is None && index < blobs@.len()),
        },
{
    let n = blobs.len();
    let mut layers: Vec<Vec<TarEntry>> = Vec::new();
    let mut i: usize = 0;
    let ghost bv = digests_view(blobs@);
    proof {
        assert(bv.skip(0) =~= bv);
        assert(crate::merge::layers_view(layers@) =~= Seq::<Seq<TarEntryV>>::empty());
        assert(crate::merge::layers_view(layers@) + sp_decode_layers(bv)->Some_0
            =~= sp_decode_layers(bv)->Some_0);
    }
    while i < n
        invariant
            i <= n,
            n == blobs@.len(),
            bv == digests_view(blobs@),
            bv.len() == n,
            layers@.len() == i,
            (match sp_decode_layers(bv.skip(i as int)) {
                Some(rest) => sp_decode_layers(bv) == Some(
                    crate::merge::layers_view(layers@) + rest,
                ),
                None => sp_decode_layers(bv) is None,
            }),
        decreases n - i,
    {
        let ghost suffix = bv.skip(i as int);
        proof {
            assert(suffix.first() == bv[i as int]);
            assert(suffix.drop_first() =~= bv.skip(i + 1));
            assert(bv[i as int] == blobs@[i as int]@);
        }
        match crate::tar::layer_entries(&blobs[i]) {
            Some(es) => {
                let ghost prev = layers@;
                let ghost esv = entries_view(es@);
                layers.push(es);
                proof {
                    assert(crate::merge::layers_view(layers@) =~= crate::merge::layers_view(
                        prev,
                    ).push(esv));
                    match sp_decode_layers(bv.skip(i + 1)) {
                        Some(rest) => {
                            assert(crate::merge::layers_view(prev) + (seq![esv] + rest)
                                =~= crate::merge::layers_view(layers@) + rest);
                        }
                        None => {}
                    }
                }
            }
            None => {
                return Err(RegistryError::LayerDecodeFailed { index: i });
            }
        }
        i = i + 1;
    }
    proof {
        assert(bv.skip(n as int) =~= Seq::<Seq<u8>>::empty());
        assert(crate::merge::layers_view(layers@) + Seq::<Seq<TarEntryV>>::empty()
            =~= crate::merge::layers_view(layers@));
    }
    Ok(extraction_plan(&layers))
}

} // verus!

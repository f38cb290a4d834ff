//! The locally kept state: which device registration each target slug is
//! bound to.  Loading and saving the state file is the caller's; this
//! module owns the bindings themselves.

use vstd::prelude::*;

use crate::device::DeviceRegistration;
use crate::json::bytes_eq;

use vstd::string::StringSliceAdditionalSpecFns;

verus! {

/// Model of a stored registration.
#[verifier::ext_equal]
pub struct RegV {
    pub id: int,
    pub uuid: Seq<char>,
    pub api_key: Seq<char>,
}

pub open spec fn reg_view(r: DeviceRegistration) -> RegV {
    RegV { id: r.id as int, uuid: r.uuid@, api_key: r.api_key@ }
}

/// The bindings as a map from slug bytes to registrations; a later
/// binding of the same slug replaces the earlier one.
pub open spec fn state_map(s: Seq<(Vec<u8>, DeviceRegistration)>) -> Map<Seq<u8>, RegV>
    decreases s.len(),
{
    if s.len() == 0 {
        Map::empty()
    } else {
        state_map(s.drop_last()).insert(s.last().0@, reg_view(s.last().1))
    }
}

/// The registrations known locally, keyed by target slug.
pub struct State {
    entries: Vec<(Vec<u8>, DeviceRegistration)>,
}

impl View for State {
    type V = Map<Seq<u8>, RegV>;

    closed spec fn view(&self) -> Map<Seq<u8>, RegV> {
        state_map(self.entries@)
    }
}

impl State {
    /// A state with no bindings.
    pub fn new() -> (r: Self)
        ensures
            r@ == Map::<Seq<u8>, RegV>::empty(),
    {
        State { entries: Vec::new() }
    }
}

/// Bind `slug` to `registration`, replacing any earlier binding.
pub fn add_device_registration(state: &mut State, slug: &str, registration: DeviceRegistration)
    ensures
        final(state)@ == old(state)@.insert(slug.spec_bytes(), reg_view(registration)),
{
    let key = vstd::slice::slice_to_vec(slug.as_bytes());
    let ghost before = state.entries@;
    let ghost kv = key@;
    state.entries.push((key, registration));
    proof {
        assert(state.entries@.last().0@ == kv);
        assert(state.entries@.drop_last() =~= before);
    }
}

/// The registration bound to `slug`, if any.
pub fn get_device_registration<'a>(state: &'a State, slug: &str) -> (r: Option<
    &'a DeviceRegistration,
>)
    ensures
        match r {
            Some(reg) => state@.contains_key(slug.spec_bytes()) && state@[slug.spec_bytes()]
                == reg_view(*reg),
            None => !state@.contains_key(slug.spec_bytes()),
        },
{
    let key = slug.as_bytes();
    let n = state.entries.len();
    proof {
        assert(state.entries@.take(n as int) =~= state.entries@);
    }
    let mut k = n;
    while k > 0
        invariant
            k <= n,
            n == state.entries@.len(),
            key@ == slug.spec_bytes(),
            (state_map(state.entries@).contains_key(slug.spec_bytes()) == state_map(
                state.entries@.take(k as int),
            ).contains_key(slug.spec_bytes())),
            state_map(state.entries@.take(k as int)).contains_key(slug.spec_bytes())
                ==> state_map(state.entries@)[slug.spec_bytes()] == state_map(
                state.entries@.take(k as int),
            )[slug.spec_bytes()],
        decreases k,
    {
        let hit = bytes_eq(&state.entries[k - 1].0, key);
        proof {
            assert(state.entries@.take(k as int).last() == state.entries@[k - 1]);
            assert(state.entries@.take(k as int).drop_last() =~= state.entries@.take(k - 1));
        }
        if hit {
            return Some(&state.entries[k - 1].1);
        }
        k = k - 1;
    }
    proof {
        assert(state.entries@.take(0) =~= Seq::<(Vec<u8>, DeviceRegistration)>::empty());
    }
    None
}

} // verus!

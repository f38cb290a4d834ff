//! The build configuration: which targets to build and what to copy out
//! of the finished images, and the name derived from the file it came
//! from.

use vstd::prelude::*;

verus! {

/// The whole configuration file.
pub struct Config {
    pub source: String,
    pub copy: CopySpec,
    pub targets: Vec<Target>,
}

/// What to copy out of the extracted images.
pub struct CopySpec {
    pub from_image: Vec<String>,
    pub to: String,
}

/// One target device class to build for.
pub struct Target {
    pub slug: String,
    pub device_type: String,
    pub dockerfile: String,
}

/// The start of the last path component: the index just after the last
/// slash in `s.take(i)`, or `0`.
pub open spec fn base_start(s: Seq<u8>, i: int) -> int
    decreases i,
{
    if i <= 0 {
        0
    } else if s[i - 1] == 47 {
        i
    } else {
        base_start(s, i - 1)
    }
}

/// The index of the last dot of `b.take(i)` that is not its first byte,
/// or `b.len()` when there is none: where the extension begins.
pub open spec fn stem_end(b: Seq<u8>, i: int) -> int
    decreases i,
{
    if i <= 1 {
        b.len() as int
    } else if b[i - 1] == 46 {
        i - 1
    } else {
        stem_end(b, i - 1)
    }
}

/// The stem of the configuration file's name: the last path component
/// with its extension removed; a name that starts with its only dot keeps
/// it.  `None` when the path ends in a separator.
pub open spec fn sp_config_name(s: Seq<u8>) -> Option<Seq<u8>> {
    let b = s.subrange(base_start(s, s.len() as int), s.len() as int);
    if b.len() == 0 {
        None
    } else {
        Some(b.subrange(0, stem_end(b, b.len() as int)))
    }
}

proof fn lemma_base_start(s: Seq<u8>, i: int)
    requires
        0 <= i <= s.len(),
    ensures
        0 <= base_start(s, i) <= i,
    decreases i,
{
    if i > 0 && s[i - 1] != 47 {
        lemma_base_start(s, i - 1);
    }
}

proof fn lemma_stem_end(b: Seq<u8>, i: int)
    requires
        0 <= i <= b.len(),
    ensures
        stem_end(b, i) == b.len() || 1 <= stem_end(b, i) < i,
    decreases i,
{
    if i > 1 && b[i - 1] != 46 {
        lemma_stem_end(b, i - 1);
    }
}

/// The name of a configuration, from the path of its file.
pub fn config_name(path: &Vec<u8>) -> (r: Option<Vec<u8>>)
    ensures
        match r {
            Some(name) => sp_config_name(path@) == Some(name@),
            None => sp_config_name(path@) is None,
        },
{
    let n = path.len();
    let mut i = n;
    while i > 0 && path[i - 1] != 47
        invariant
            0 <= i <= n,
            n == path@.len(),
            base_start(path@, n as int) == base_start(path@, i as int),
        decreases i,
    {
        i = i - 1;
    }
    proof {
        assert(base_start(path@, i as int) == i);
    }
    if i == n {
        return None;
    }
    let ghost b = path@.subrange(i as int, n as int);
    let mut j = n;
    while j > i + 1 && path[j - 1] != 46
        invariant
            i < j <= n,
            n == path@.len(),
            b == path@.subrange(i as int, n as int),
            stem_end(b, (n - i) as int) == stem_end(b, (j - i) as int),
        decreases j,
    {
        j = j - 1;
    }
    let cut = if j > i + 1 {
        proof {
            assert(stem_end(b, (j - i) as int) == j - i - 1);
        }
        j - 1
    } else {
        proof {
            assert(stem_end(b, (j - i) as int) == b.len());
        }
        n
    };
    let name = crate::json::copy_range(path, i, cut);
    proof {
        assert(name@ =~= b.subrange(0, stem_end(b, b.len() as int)));
    }
    Some(name)
}

} // verus!

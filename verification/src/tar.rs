//! Decoding of tar archives (the format of a container image layer) and
//! the gzip compression around them.
//!
//! A tar archive is a sequence of 512-byte header blocks, each followed by
//! its entry's data padded to a block boundary.  The walk stops at the end
//! of the input or at an all-zero block.  Of each header this module reads
//! the entry path (with the ustar prefix field), the mode and size fields
//! (octal), the type flag and the link name — everything layer merging
//! needs.  A header whose size field is not octal, or whose data runs past
//! the end of the archive, makes the whole archive malformed.

use vstd::prelude::*;

verus! {

/// One record of a tar archive.
pub struct TarEntry {
    /// Path of the entry as stored (prefix field joined with the name).
    pub path: Vec<u8>,
    /// Type flag: `0` or NUL for a regular file, `5` for a directory,
    /// `2` for a symbolic link, `1` for a hard link.
    pub kind: u8,
    /// Permission bits from the mode field.
    pub mode: u64,
    /// Link target for link entries, empty otherwise.
    pub link: Vec<u8>,
    /// The entry's data.
    pub data: Vec<u8>,
}

/// Model of a [`TarEntry`].
#[verifier::ext_equal]
pub struct TarEntryV {
    pub path: Seq<u8>,
    pub kind: u8,
    pub mode: int,
    pub link: Seq<u8>,
    pub data: Seq<u8>,
}

pub open spec fn entry_view(e: TarEntry) -> TarEntryV {
    TarEntryV { path: e.path@, kind: e.kind, mode: e.mode as int, link: e.link@, data: e.data@ }
}

pub open spec fn entries_view(s: Seq<TarEntry>) -> Seq<TarEntryV> {
    Seq::new(s.len(), |i: int| entry_view(s[i]))
}

pub open spec fn is_oct(c: u8) -> bool {
    48 <= c <= 55
}

/// First index at or after `i` that does not hold a space.
pub open spec fn sp_end(s: Seq<u8>, i: int) -> int
    decreases s.len() - i,
{
    if 0 <= i < s.len() && s[i] == 32 {
        sp_end(s, i + 1)
    } else {
        i
    }
}

/// First index at or after `i` that does not hold an octal digit.
pub open spec fn oct_end(s: Seq<u8>, i: int) -> int
    decreases s.len() - i,
{
    if 0 <= i < s.len() && is_oct(s[i]) {
        oct_end(s, i + 1)
    } else {
        i
    }
}

/// The value of the octal digits of `s` from `i` on, onto `acc`.
pub open spec fn oct_acc(s: Seq<u8>, i: int, acc: int) -> int
    decreases s.len() - i,
{
    if 0 <= i < s.len() && is_oct(s[i]) {
        oct_acc(s, i + 1, acc * 8 + (s[i] - 48))
    } else {
        acc
    }
}

/// A well-formed numeric field: spaces, then octal digits, then NUL or
/// space padding to the end of the field, with at least one digit.
pub open spec fn field_ok(f: Seq<u8>) -> bool {
    let d = sp_end(f, 0);
    let e = oct_end(f, d);
    e > d && (forall|k: int| e <= k < f.len() ==> (f[k] == 0 || f[k] == 32))
}

/// The numeric value of a field.
pub open spec fn field_val(f: Seq<u8>) -> int {
    oct_acc(f, sp_end(f, 0), 0)
}

proof fn lemma_oct_acc_nonneg(s: Seq<u8>, i: int, acc: int)
    requires
        acc >= 0,
    ensures
        oct_acc(s, i, acc) >= 0,
    decreases s.len() - i,
{
    if 0 <= i < s.len() && is_oct(s[i]) {
        lemma_oct_acc_nonneg(s, i + 1, acc * 8 + (s[i] - 48));
    }
}

/// The bytes of a NUL-terminated field: everything before the first NUL,
/// or the whole field if none.
pub open spec fn nul_end(s: Seq<u8>, i: int, limit: int) -> int
    decreases limit - i,
{
    if 0 <= i < limit && i < s.len() && s[i] != 0 {
        nul_end(s, i + 1, limit)
    } else {
        i
    }
}

pub open spec fn field_str(s: Seq<u8>, start: int, flen: int) -> Seq<u8> {
    s.subrange(start, nul_end(s, start, start + flen))
}

/// Whether the 512 bytes at `off` are all zero (the end-of-archive mark).
pub open spec fn block_zero(s: Seq<u8>, off: int) -> bool {
    forall|k: int| off <= k < off + 512 ==> s[k] == 0
}

/// The entry path: the ustar prefix field joined to the name field with a
/// slash, or the name alone when the prefix is empty.
pub open spec fn path_of(s: Seq<u8>, off: int) -> Seq<u8> {
    let name = field_str(s, off, 100);
    let prefix = field_str(s, off + 345, 155);
    if prefix.len() == 0 {
        name
    } else {
        prefix + seq![47u8] + name
    }
}

/// The size an entry occupies after its header, data plus padding.
pub open spec fn padded(size: int) -> int {
    if size % 512 == 0 {
        size
    } else {
        size + (512 - size % 512)
    }
}

/// The entry whose header is the block at `off`.
pub open spec fn header_entry(s: Seq<u8>, off: int) -> TarEntryV {
    TarEntryV {
        path: path_of(s, off),
        kind: s[off + 156],
        mode: field_val(s.subrange(off + 100, off + 108)),
        link: field_str(s, off + 157, 100),
        data: s.subrange(off + 512, off + 512 + field_val(s.subrange(off + 124, off + 136))),
    }
}

/// The entries of the archive from `off` on, or `None` if a header is
/// malformed or an entry's data runs past the end.  The walk ends at the
/// end of the input or at an all-zero block.
pub open spec fn tar_entries(s: Seq<u8>, off: int) -> Option<Seq<TarEntryV>>
    decreases s.len() - off,
    via tar_entries_decreases
{
    if off < 0 || off + 512 > s.len() {
        Some(Seq::empty())
    } else if block_zero(s, off) {
        Some(Seq::empty())
    } else if !field_ok(s.subrange(off + 124, off + 136)) || !field_ok(
        s.subrange(off + 100, off + 108),
    ) {
        None
    } else {
        let size = field_val(s.subrange(off + 124, off + 136));
        if off + 512 + size > s.len() {
            None
        } else {
            let e = header_entry(s, off);
            let next = off + 512 + padded(size);
            if next >= s.len() {
                Some(seq![e])
            } else {
                match tar_entries(s, next) {
                    Some(rest) => Some(seq![e] + rest),
                    None => None,
                }
            }
        }
    }
}

#[via_fn]
proof fn tar_entries_decreases(s: Seq<u8>, off: int) {
    if 0 <= off && off + 512 <= s.len() {
        lemma_oct_acc_nonneg(s.subrange(off + 124, off + 136), sp_end(s.subrange(off + 124, off + 136), 0), 0);
    }
}

pub open spec fn pow8(n: nat) -> int
    decreases n,
{
    if n == 0 {
        1
    } else {
        8 * pow8((n - 1) as nat)
    }
}

proof fn lemma_pow8_pos(n: nat)
    ensures
        pow8(n) >= 1,
    decreases n,
{
    if n > 0 {
        lemma_pow8_pos((n - 1) as nat);
    }
}

proof fn lemma_pow8_mono(a: nat, b: nat)
    requires
        a <= b,
    ensures
        pow8(a) <= pow8(b),
    decreases b,
{
    if a < b {
        lemma_pow8_mono(a, (b - 1) as nat);
        lemma_pow8_pos((b - 1) as nat);
    }
}

/// Parse one numeric header field of at most 12 bytes, or report that it
/// is not well formed.
fn parse_field(s: &Vec<u8>, start: usize, flen: usize) -> (r: Option<u64>)
    requires
        start + flen <= s@.len(),
        flen <= 12,
    ensures
        ({
            let f = s@.subrange(start as int, (start + flen) as int);
            match r {
                Some(v) => field_ok(f) && v as int == field_val(f),
                None => !field_ok(f),
            }
        }),
{
    let ghost f = s@.subrange(start as int, (start + flen) as int);
    let total = s.len();
    let lim = start + flen;
    let mut i = start;
    while i < lim && s[i] == 32
        invariant
            start <= i <= lim,
            lim == start + flen,
            lim <= s@.len(),
            f == s@.subrange(start as int, lim as int),
            sp_end(f, 0) == sp_end(f, i - start),
        decreases lim - i,
    {
        i = i + 1;
    }
    proof {
        assert(sp_end(f, i - start) == i - start);
    }
    let d0 = i;
    let mut acc: u64 = 0;
    while i < lim && 48 <= s[i] && s[i] <= 55
        invariant
            start <= d0 <= i <= lim,
            lim == start + flen,
            lim <= s@.len(),
            flen <= 12,
            f == s@.subrange(start as int, lim as int),
            d0 - start == sp_end(f, 0),
            oct_acc(f, d0 - start, 0) == oct_acc(f, i - start, acc as int),
            oct_end(f, d0 - start) == oct_end(f, i - start),
            acc < pow8((i - d0) as nat),
        decreases lim - i,
    {
        proof {
            lemma_pow8_mono((i - d0) as nat, 11);
            assert(pow8(11) == 8589934592) by {
                reveal_with_fuel(pow8, 13);
            }
            assert(pow8(((i - d0) + 1) as nat) == 8 * pow8((i - d0) as nat));
        }
        acc = acc * 8 + ((s[i] - 48) as u64);
        i = i + 1;
    }
    if i == d0 {
        proof {
            assert(oct_end(f, d0 - start) == d0 - start);
        }
        return None;
    }
    proof {
        assert(oct_end(f, i - start) == i - start);
        assert(oct_acc(f, i - start, acc as int) == acc as int);
    }
    let mut j = i;
    while j < lim && (s[j] == 0 || s[j] == 32)
        invariant
            start <= i <= j <= lim,
            lim == start + flen,
            lim <= s@.len(),
            f == s@.subrange(start as int, lim as int),
            f.len() == flen,
            forall|k: int| i - start <= k < j - start ==> (f[k] == 0 || f[k] == 32),
        decreases lim - j,
    {
        proof {
            assert(f[j - start] == s@[j as int]);
        }
        j = j + 1;
    }
    if j < lim {
        proof {
            assert(!(f[j - start] == 0 || f[j - start] == 32));
        }
        return None;
    }
    Some(acc)
}

/// Copy a NUL-terminated text field.
fn read_field_str(s: &Vec<u8>, start: usize, flen: usize) -> (v: Vec<u8>)
    requires
        start + flen <= s@.len(),
    ensures
        v@ == field_str(s@, start as int, flen as int),
{
    let total = s.len();
    let lim = start + flen;
    let mut i = start;
    while i < lim && s[i] != 0
        invariant
            start <= i <= lim,
            lim == start + flen <= s@.len(),
            nul_end(s@, start as int, lim as int) == nul_end(s@, i as int, lim as int),
        decreases lim - i,
    {
        i = i + 1;
    }
    crate::json::copy_range(s, start, i)
}

fn is_block_zero(s: &Vec<u8>, off: usize) -> (r: bool)
    requires
        off + 512 <= s@.len(),
    ensures
        r == block_zero(s@, off as int),
{
    let total = s.len();
    let lim = off + 512;
    let mut i = off;
    while i < lim
        invariant
            off <= i <= lim,
            lim == off + 512 <= s@.len(),
            forall|k: int| off <= k < i ==> s@[k] == 0,
        decreases lim - i,
    {
        if s[i] != 0 {
            return false;
        }
        i = i + 1;
    }
    true
}

/// Decode a whole tar archive into its entries, or report it malformed,
/// exactly as [`tar_entries`] prescribes.
pub fn parse_tar(bytes: &Vec<u8>) -> (r: Option<Vec<TarEntry>>)
    ensures
        match r {
            Some(es) => tar_entries(bytes@, 0) == Some(entries_view(es@)),
            None => tar_entries(bytes@, 0) is None,
        },
{
    let n = bytes.len();
    let mut acc: Vec<TarEntry> = Vec::new();
    let mut off: usize = 0;
    proof {
        assert(entries_view(acc@) =~= Seq::<TarEntryV>::empty());
    }
    loop
        invariant
            off <= n,
            n == bytes@.len(),
            (match tar_entries(bytes@, off as int) {
                Some(rest) => tar_entries(bytes@, 0) == Some(entries_view(acc@) + rest),
                None => tar_entries(bytes@, 0) is None,
            }),
        decreases n - off,
    {
        if n - off < 512 {
            proof {
                assert(entries_view(acc@) + Seq::<TarEntryV>::empty() =~= entries_view(acc@));
            }
            return Some(acc);
        }
        if is_block_zero(bytes, off) {
            proof {
                assert(entries_view(acc@) + Seq::<TarEntryV>::empty() =~= entries_view(acc@));
            }
            return Some(acc);
        }
        let size = match parse_field(bytes, off + 124, 12) {
            Some(v) => v,
            None => {
                return None;
            }
        };
        let mode = match parse_field(bytes, off + 100, 8) {
            Some(v) => v,
            None => {
                return None;
            }
        };
        let n64 = n as u64;
        let off64 = off as u64;
        if size > n64 - off64 - 512 {
            return None;
        }
        let data_start = off + 512;
        let data_end = (off64 + 512 + size) as usize;
        proof {
            assert(off64 + 512 + size <= n64);
        }
        let data = crate::json::copy_range(bytes, data_start, data_end);
        let name = read_field_str(bytes, off, 100);
        let prefix = read_field_str(bytes, off + 345, 155);
        let path = if prefix.len() == 0 {
            name
        } else {
            let mut p = prefix;
            p.push(47);
            p.extend_from_slice(name.as_slice());
            proof {
                assert(p@ =~= field_str(bytes@, off + 345, 155) + seq![47u8] + field_str(
                    bytes@,
                    off as int,
                    100,
                ));
            }
            p
        };
        let kind = bytes[off + 156];
        let link = read_field_str(bytes, off + 157, 100);
        let entry = TarEntry { path, kind, mode, link, data };
        let ghost prev = acc@;
        let ghost ev = header_entry(bytes@, off as int);
        proof {
            assert(entry_view(entry) =~= ev);
        }
        acc.push(entry);
        proof {
            assert(entries_view(acc@) =~= entries_view(prev).push(ev));
        }
        let pad: u64 = if size % 512 == 0 {
            0
        } else {
            512 - size % 512
        };
        let rem_after = n64 - (off64 + 512 + size);
        if pad >= rem_after {
            // The padding reaches or passes the end of the archive: this
            // entry is the last one.
            proof {
                assert(entries_view(prev).push(ev) =~= entries_view(prev) + seq![ev]);
            }
            return Some(acc);
        }
        let next = (off64 + 512 + size + pad) as usize;
        proof {
            assert(off64 + 512 + size + pad < n64);
            assert(entries_view(prev) + (seq![ev] + tar_entries(bytes@, next as int)->Some_0)
                =~= entries_view(acc@) + tar_entries(bytes@, next as int)->Some_0) by {
                assert(entries_view(acc@) =~= entries_view(prev).push(ev));
            }
        }
        off = next;
    }
}

/// What gzip decompression yields on given bytes: a pure function of the
/// compressed input, or nothing when the input is not valid gzip data.
pub uninterp spec fn gunzip_of(s: Seq<u8>) -> Option<Seq<u8>>;

/// Relies on flate2's `GzDecoder` (`read::GzDecoder::new` and
/// `Read::read_to_end`): decompression is deterministic in the compressed
/// bytes alone, and fails exactly on inputs that are not valid gzip data.
#[verifier::external_body]
fn gunzip(data: &Vec<u8>) -> (r: Option<Vec<u8>>)
    ensures
        match r {
            Some(v) => gunzip_of(data@) == Some(v@),
            None => gunzip_of(data@) is None,
        },
{
    let mut dec = flate2::read::GzDecoder::new(data.as_slice());
    let mut out: Vec<u8> = Vec::new();
    match std::io::Read::read_to_end(&mut dec, &mut out) {
        Ok(_) => Some(out),
        Err(_) => None,
    }
}

/// The decoded entries of one compressed layer: gzip decompression
/// followed by the tar walk.  `None` exactly when the blob is not valid
/// gzip data or the archive inside it is malformed.
pub fn layer_entries(blob: &Vec<u8>) -> (r: Option<Vec<TarEntry>>)
    ensures
        match r {
            Some(es) => (gunzip_of(blob@) matches Some(t) && tar_entries(t, 0) == Some(
                entries_view(es@),
            )),
            None => gunzip_of(blob@) is None || (gunzip_of(blob@) matches Some(t)
                && tar_entries(t, 0) is None),
        },
{
    match gunzip(blob) {
        Some(t) => parse_tar(&t),
        None => None,
    }
}

} // verus!

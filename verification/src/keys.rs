//! Hashing and naming: maps an opaque remote file handle to a stable,
//! fixed-form local cache key, and renders the on-disk names derived from it.
//!
//! A `CacheKey` is a 64-bit FNV-1a style hash of the handle's characters.
//! Committed cache entries are named by the key's 16-digit lowercase hex
//! form; in-flight temporary entries carry a leading `.`, which no final
//! name ever starts with, so temporary files never participate in the
//! local/remote diff.

use crate::text::push_char;
use vstd::prelude::*;

verus! {

/// A local cache key: a fixed-width, deterministic hash of a `FileHandle`.
pub type CacheKey = u64;

/// Offset basis of the 64-bit FNV-1a hash.
pub const FNV_OFFSET_BASIS: u64 = 0xcbf29ce484222325;

/// Multiplier of the 64-bit FNV-1a hash.
pub const FNV_PRIME: u64 = 0x100000001b3;

/// Mix one character into the running hash state.
pub open spec fn key_step(h: u64, c: char) -> u64 {
    (h ^ (c as u64)).wrapping_mul(FNV_PRIME)
}

/// Hash of the first `n` characters of `s`, starting from the offset basis.
pub open spec fn key_of_prefix(s: Seq<char>, n: int) -> u64
    decreases n,
{
    if n <= 0 {
        FNV_OFFSET_BASIS
    } else {
        key_step(key_of_prefix(s, n - 1), s[n - 1])
    }
}

/// The cache key of a remote file handle: two handles that are equal always
/// map to the same key; collisions are policy-acceptable.
pub open spec fn key_of(s: Seq<char>) -> CacheKey {
    key_of_prefix(s, s.len() as int)
}

/// Compute the cache key of a handle.
pub fn hash_handle(handle: &str) -> (k: CacheKey)
    ensures
        k == key_of(handle@),
{
    let n: usize = handle.unicode_len();
    let mut h: u64 = FNV_OFFSET_BASIS;
    let mut i: usize = 0;
    while i < n
        invariant
            n == handle@.len(),
            0 <= i <= n,
            h == key_of_prefix(handle@, i as int),
        decreases n - i,
    {
        let c: char = handle.get_char(i);
        h = (h ^ (c as u64)).wrapping_mul(FNV_PRIME);
        i = i + 1;
    }
    h
}

/// The character for one hex digit (nibble value).
pub open spec fn hex_digit(d: u64) -> char {
    if d == 0 {
        '0'
    } else if d == 1 {
        '1'
    } else if d == 2 {
        '2'
    } else if d == 3 {
        '3'
    } else if d == 4 {
        '4'
    } else if d == 5 {
        '5'
    } else if d == 6 {
        '6'
    } else if d == 7 {
        '7'
    } else if d == 8 {
        '8'
    } else if d == 9 {
        '9'
    } else if d == 10 {
        'a'
    } else if d == 11 {
        'b'
    } else if d == 12 {
        'c'
    } else if d == 13 {
        'd'
    } else if d == 14 {
        'e'
    } else {
        'f'
    }
}

/// The 16-digit lowercase hex rendering of a key, most significant nibble
/// first: the fixed-form committed entry name.
pub open spec fn hex_of(k: u64) -> Seq<char> {
    Seq::new(16, |i: int| hex_digit((k >> (((15 - i) * 4) as u64)) & 0xf))
}

/// The character for one hex digit (nibble value).
pub fn hex_digit_char(d: u64) -> (c: char)
    requires
        d < 16,
    ensures
        c == hex_digit(d),
{
    if d == 0 {
        '0'
    } else if d == 1 {
        '1'
    } else if d == 2 {
        '2'
    } else if d == 3 {
        '3'
    } else if d == 4 {
        '4'
    } else if d == 5 {
        '5'
    } else if d == 6 {
        '6'
    } else if d == 7 {
        '7'
    } else if d == 8 {
        '8'
    } else if d == 9 {
        '9'
    } else if d == 10 {
        'a'
    } else if d == 11 {
        'b'
    } else if d == 12 {
        'c'
    } else if d == 13 {
        'd'
    } else if d == 14 {
        'e'
    } else {
        'f'
    }
}

/// Append the 16-digit hex rendering of `k` to `s`.
fn push_hex(s: &mut String, k: u64)
    ensures
        final(s)@ == old(s)@ + hex_of(k),
{
    let mut i: usize = 0;
    while i < 16
        invariant
            0 <= i <= 16,
            s@ == old(s)@ + hex_of(k).subrange(0, i as int),
        decreases 16 - i,
    {
        let sh: u64 = (15 - i as u64) * 4;
        let d: u64 = (k >> sh) & 0xf;
        proof {
            assert((k >> sh) & 0xf < 16) by (bit_vector);
            assert(sh == ((15 - i as int) * 4) as u64);
            assert(hex_of(k)[i as int] == hex_digit(d));
        }
        let c: char = hex_digit_char(d);
        let ghost before = s@;
        push_char(s, c);
        proof {
            assert(hex_of(k).subrange(0, i + 1 as int) =~= hex_of(k).subrange(0, i as int).push(
                hex_of(k)[i as int],
            ));
        }
        i = i + 1;
    }
    proof {
        assert(hex_of(k).subrange(0, 16) =~= hex_of(k));
    }
}

/// The name of a committed cache entry holding the file with key `k`.
pub fn cache_file_name(k: CacheKey) -> (r: String)
    ensures
        r@ == hex_of(k),
{
    let mut s: String = String::new();
    push_hex(&mut s, k);
    proof {
        assert(s@ =~= hex_of(k));
    }
    s
}

/// The name of the in-flight temporary entry for key `k`: a `.` before the
/// hex form, a shape that never matches a committed entry's name.
pub fn temp_file_name(k: CacheKey) -> (r: String)
    ensures
        r@ == seq!['.'] + hex_of(k),
{
    let mut s: String = String::new();
    push_char(&mut s, '.');
    push_hex(&mut s, k);
    proof {
        assert(s@ =~= seq!['.'] + hex_of(k));
    }
    s
}

/// The local cache filename of a remote file handle: the fixed-width hex form
/// of its deterministic hash. Equal handles always map to the same name.
pub fn file_handle_hash(handle: &str) -> (r: String)
    ensures
        r@ == hex_of(key_of(handle@)),
{
    let k: CacheKey = hash_handle(handle);
    cache_file_name(k)
}

/// Temporary entry names never collide with committed entry names, whatever
/// the two keys are, so in-flight files can never be mistaken for committed
/// downloads, never participate in the local/remote diff and are never read
/// by the loader.
pub proof fn lemma_temp_name_never_a_cache_name(k1: CacheKey, k2: CacheKey)
    ensures
        seq!['.'] + hex_of(k1) != hex_of(k2),
{
    assert((seq!['.'] + hex_of(k1)).len() == 17);
    assert(hex_of(k2).len() == 16);
}

} // verus!

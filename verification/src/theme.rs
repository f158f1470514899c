//! Layout numbers and the tiles drawn for results without an icon.
use vstd::prelude::*;
use vstd::utf8::encode_utf8;

use crate::files::{extension_of, path_extension};
use crate::text::{char_to_uppercase, char_uppercase, chars_of, string_from_chars, to_uppercase, uppercase};

verus! {

/// How many result rows the window shows at once.
pub const MAX_VISIBLE_RESULTS: usize = 7;

/// How many fallback tile colours there are.
pub const FALLBACK_TILE_COUNT: usize = 6;

/// The sum of 31 times each byte.
pub open spec fn byte_hash(bytes: Seq<u8>) -> nat
    decreases bytes.len(),
{
    if bytes.len() == 0 {
        0
    } else {
        (byte_hash(bytes.drop_last()) + 31 * bytes.last()) as nat
    }
}

/// Which fallback tile colour a name gets: its byte hash modulo the number
/// of colours.
pub open spec fn fallback_tile_of(name: Seq<u8>) -> nat {
    byte_hash(name) % (FALLBACK_TILE_COUNT as nat)
}

proof fn lemma_byte_hash_prefix(bytes: Seq<u8>, n: int)
    requires
        0 <= n <= bytes.len(),
    ensures
        byte_hash(bytes.take(n)) <= byte_hash(bytes),
    decreases bytes.len() - n,
{
    if n < bytes.len() {
        assert(bytes.take(n + 1).drop_last() =~= bytes.take(n));
        lemma_byte_hash_prefix(bytes, n + 1);
    } else {
        assert(bytes.take(n) =~= bytes);
    }
}

/// The byte hash adds up over concatenation, and one byte hashes to 31
/// times its value: the hash is 31 times the sum of the bytes.
pub proof fn lemma_byte_hash_is_weighted_sum(a: Seq<u8>, b: Seq<u8>, x: u8)
    ensures
        byte_hash(a + b) == byte_hash(a) + byte_hash(b),
        byte_hash(seq![x]) == 31 * x,
    decreases b.len(),
{
    assert(seq![x].drop_last() =~= Seq::<u8>::empty());
    assert(byte_hash(Seq::<u8>::empty()) == 0);
    assert(seq![x].last() == x);
    assert(byte_hash(seq![x]) == (byte_hash(seq![x].drop_last()) + 31 * seq![x].last()) as nat);
    if b.len() > 0 {
        lemma_byte_hash_is_weighted_sum(a, b.drop_last(), x);
        assert((a + b).drop_last() =~= a + b.drop_last());
    } else {
        assert(a + b =~= a);
    }
}

/// The index of the fallback tile colour of an application without an icon.
pub fn fallback_tile_index(name: &str) -> (res: usize)
    requires
        byte_hash(encode_utf8(name@)) <= u64::MAX,
    ensures
        res == fallback_tile_of(encode_utf8(name@)),
        res < FALLBACK_TILE_COUNT,
{
    let bytes = name.as_bytes();
    let mut hash: u64 = 0;
    let mut i: usize = 0;
    while i < bytes.len()
        invariant
            i <= bytes@.len(),
            bytes@ == encode_utf8(name@),
            byte_hash(bytes@) <= u64::MAX,
            hash == byte_hash(bytes@.take(i as int)),
        decreases bytes@.len() - i,
    {
        proof {
            assert(bytes@.take(i + 1).drop_last() =~= bytes@.take(i as int));
            lemma_byte_hash_prefix(bytes@, i + 1);
        }
        hash = hash + (bytes[i] as u64).wrapping_mul(31);
        i = i + 1;
    }
    proof {
        assert(bytes@.take(i as int) =~= bytes@);
    }
    (hash % (FALLBACK_TILE_COUNT as u64)) as usize
}

/// The text of the tile of a file result: the first three characters of the
/// name's extension in upper case, or `FILE` where that is empty or there is
/// no extension.
pub open spec fn file_tile_text(name: Seq<char>) -> Seq<char> {
    match path_extension(name) {
        Some(ext) => {
            let label = uppercase(if ext.len() <= 3 { ext } else { ext.take(3) });
            if label.len() == 0 {
                "FILE"@
            } else {
                label
            }
        },
        None => "FILE"@,
    }
}

/// The letter of the tile of an application without an icon: its name's
/// first character in upper case, `?` for an empty name.
pub open spec fn initial_text(name: Seq<char>) -> Seq<char> {
    char_uppercase(if name.len() > 0 { name[0] } else { '?' })
}

/// The text shown on a file result's tile (see `file_tile_text`).
pub fn file_tile_label(name: &str) -> (res: String)
    ensures
        res@ == file_tile_text(name@),
{
    match extension_of(name) {
        Some(ext) => {
            let chars = chars_of(ext.as_str());
            let short = if chars.len() <= 3 {
                string_from_chars(chars.as_slice())
            } else {
                proof {
                    assert(chars@.subrange(0, 3) =~= ext@.take(3));
                }
                string_from_chars(&chars.as_slice()[0..3])
            };
            let label = to_uppercase(short.as_str());
            if label.as_str().is_empty() {
                let file = "FILE";
                proof {
                    reveal_strlit("FILE");
                }
                string_from_chars(chars_of(file).as_slice())
            } else {
                label
            }
        },
        None => {
            let file = "FILE";
            proof {
                reveal_strlit("FILE");
            }
            string_from_chars(chars_of(file).as_slice())
        },
    }
}

/// The letter shown on the tile of an application without an icon (see
/// `initial_text`).
pub fn tile_initial(name: &str) -> (res: String)
    ensures
        res@ == initial_text(name@),
{
    let chars = chars_of(name);
    let first = if chars.len() > 0 {
        chars[0]
    } else {
        '?'
    };
    char_to_uppercase(first)
}

} // verus!

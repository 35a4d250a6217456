//! Where a key's blob lies below the cache root: shard directories named by
//! successive pairs of the key's hex digits, then a file named by the whole hex string.

use vstd::prelude::*;
use vstd::string::*;

verus! {

/// The lowercase hex digit of a value below 16.
pub open spec fn hex_digit(nibble: int) -> char {
    if nibble == 0 {
        '0'
    } else if nibble == 1 {
        '1'
    } else if nibble == 2 {
        '2'
    } else if nibble == 3 {
        '3'
    } else if nibble == 4 {
        '4'
    } else if nibble == 5 {
        '5'
    } else if nibble == 6 {
        '6'
    } else if nibble == 7 {
        '7'
    } else if nibble == 8 {
        '8'
    } else if nibble == 9 {
        '9'
    } else if nibble == 10 {
        'a'
    } else if nibble == 11 {
        'b'
    } else if nibble == 12 {
        'c'
    } else if nibble == 13 {
        'd'
    } else if nibble == 14 {
        'e'
    } else {
        'f'
    }
}

/// A byte string in lowercase hex: two digits for each byte, the high half first.
pub open spec fn hex_string(data: Seq<u8>) -> Seq<char> {
    Seq::new(
        2 * data.len(),
        |i: int|
            if i % 2 == 0 {
                hex_digit(data[i / 2] as int / 16)
            } else {
                hex_digit(data[i / 2] as int % 16)
            },
    )
}

/// The name that stands in for a shard level beyond the end of the hex string.
pub open spec fn placeholder() -> Seq<char> {
    seq!['_', '_']
}

/// The name of the shard directory at a level: the two hex digits at that place, or
/// the placeholder where they would run past the end of the hex string.
pub open spec fn shard_name(hex: Seq<char>, level: int) -> Seq<char> {
    if 2 * level + 2 > hex.len() {
        placeholder()
    } else {
        hex.subrange(2 * level, 2 * level + 2)
    }
}

/// The components of the path of a key's blob below the cache root: one shard
/// directory for each level, then the file.
pub open spec fn blob_path(key: Seq<u8>, depth: nat) -> Seq<Seq<char>> {
    Seq::new(
        depth + 1,
        |i: int|
            if i < depth {
                shard_name(hex_string(key), i)
            } else {
                hex_string(key)
            },
    )
}

/// Calls `hex::encode`: lowercase, two digits for each byte.
#[verifier::external_body]
fn hex_encode(data: &[u8]) -> (hex: String)
    ensures
        hex@ == hex_string(data@),
{
    hex::encode(data)
}

/// A hex string holds ASCII only.
pub proof fn lemma_hex_is_ascii(data: Seq<u8>)
    ensures
        vstd::utf8::is_ascii_chars(hex_string(data)),
{
    let hex = hex_string(data);
    assert forall|i: int| 0 <= i < hex.len() implies '\0' <= #[trigger] hex[i] <= '\u{7f}' by {
        let byte = data[i / 2] as int;
        assert(0 <= byte / 16 < 16);
        assert(0 <= byte % 16 < 16);
    }
}

/// Two values below 16 with the same hex digit are the same.
proof fn lemma_hex_digit_is_one_to_one(a: int, b: int)
    requires
        0 <= a < 16,
        0 <= b < 16,
        hex_digit(a) == hex_digit(b),
    ensures
        a == b,
{
}

/// Keys differ in their hex strings.
pub proof fn lemma_hex_is_one_to_one(a: Seq<u8>, b: Seq<u8>)
    requires
        hex_string(a) == hex_string(b),
    ensures
        a == b,
{
    assert(hex_string(a).len() == 2 * a.len());
    assert(hex_string(b).len() == 2 * b.len());
    assert(a.len() == b.len());
    assert forall|i: int| 0 <= i < a.len() implies a[i] == b[i] by {
        let x = a[i] as int;
        let y = b[i] as int;
        assert(hex_string(a)[2 * i] == hex_digit(x / 16));
        assert(hex_string(b)[2 * i] == hex_digit(y / 16));
        assert(hex_string(a)[2 * i + 1] == hex_digit(x % 16));
        assert(hex_string(b)[2 * i + 1] == hex_digit(y % 16));
        lemma_hex_digit_is_one_to_one(x / 16, y / 16);
        lemma_hex_digit_is_one_to_one(x % 16, y % 16);
    }
    assert(a =~= b);
}

/// Every key has a path of its own: under one depth, two keys never share a blob.
pub proof fn lemma_paths_differ(a: Seq<u8>, b: Seq<u8>, depth: nat)
    requires
        a != b,
    ensures
        blob_path(a, depth) != blob_path(b, depth),
{
    if blob_path(a, depth) == blob_path(b, depth) {
        assert(blob_path(a, depth)[depth as int] == hex_string(a));
        assert(blob_path(b, depth)[depth as int] == hex_string(b));
        lemma_hex_is_one_to_one(a, b);
    }
}

/// The path of a key's blob below the cache root, one string for each component.
pub fn path_from_key(key: &[u8], dir_depth: u8) -> (path: Vec<String>)
    ensures
        path.deep_view() == blob_path(key@, dir_depth as nat),
{
    let hex = hex_encode(key);
    proof {
        lemma_hex_is_ascii(key@);
    }
    let mut path: Vec<String> = Vec::new();
    let mut level: u8 = 0;
    while level < dir_depth
        invariant
            level <= dir_depth,
            hex@ == hex_string(key@),
            hex.is_ascii(),
            path@.len() == level,
            forall|i: int| 0 <= i < level ==> (#[trigger] path@[i])@ == shard_name(hex@, i),
        decreases dir_depth - level,
    {
        let name = if level as usize >= key.len() {
            proof {
                reveal_strlit("__");
                assert("__"@ =~= placeholder());
            }
            String::from_str("__")
        } else {
            let from: usize = level as usize * 2;
            String::from_str(hex.as_str().substring_ascii(from, from + 2))
        };
        path.push(name);
        level = level + 1;
    }
    path.push(hex);
    assert(path.deep_view() =~= blob_path(key@, dir_depth as nat)) by {
        assert(path.deep_view().len() == dir_depth + 1);
        assert forall|i: int| 0 <= i < dir_depth + 1 implies path.deep_view()[i] == blob_path(
            key@,
            dir_depth as nat,
        )[i] by {
            assert(path.deep_view()[i] == path@[i]@);
        }
    }
    path
}

} // verus!

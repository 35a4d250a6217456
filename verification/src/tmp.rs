//! Names for temporary files: a fixed prefix and a random alphanumeric suffix.

use vstd::prelude::*;
use vstd::string::*;

verus! {

/// Whether a byte is an ASCII letter or digit.
pub open spec fn is_alphanumeric(b: u8) -> bool {
    ||| 0x30 <= b <= 0x39
    ||| 0x41 <= b <= 0x5a
    ||| 0x61 <= b <= 0x7a
}

/// Whether `name` is `prefix` followed by `rand_len` ASCII letters and digits.
pub open spec fn is_tmpname(name: Seq<char>, prefix: Seq<char>, rand_len: nat) -> bool {
    &&& name.len() == prefix.len() + rand_len
    &&& name.subrange(0, prefix.len() as int) == prefix
    &&& forall|i: int|
        prefix.len() <= i < name.len() ==> exists|b: u8|
            is_alphanumeric(b) && #[trigger] name[i] == b as char
}

/// Samples `rand::distributions::Alphanumeric` from the thread's generator: some ASCII
/// letter or digit.
#[verifier::external_body]
fn random_alphanumeric() -> (b: u8)
    ensures
        is_alphanumeric(b),
{
    rand::Rng::sample(&mut rand::thread_rng(), rand::distributions::Alphanumeric)
}

/// Calls `String::push` with an ASCII character.
#[verifier::external_body]
fn push_ascii(s: &mut String, b: u8)
    requires
        b < 0x80,
    ensures
        final(s)@ == old(s)@.push(b as char),
{
    s.push(b as char)
}

/// A name made of `prefix` and `rand_len` random ASCII letters and digits.
pub fn tmpname(prefix: &str, rand_len: usize) -> (name: String)
    ensures
        is_tmpname(name@, prefix@, rand_len as nat),
{
    let mut name = String::from_str(prefix);
    let mut i: usize = 0;
    assert(name@.subrange(0, prefix@.len() as int) =~= prefix@);
    while i < rand_len
        invariant
            i <= rand_len,
            is_tmpname(name@, prefix@, i as nat),
        decreases rand_len - i,
    {
        let b = random_alphanumeric();
        let ghost before = name@;
        push_ascii(&mut name, b);
        proof {
            assert(name@.subrange(0, prefix@.len() as int) =~= before.subrange(
                0,
                prefix@.len() as int,
            ));
            assert forall|j: int| prefix@.len() <= j < name@.len() implies exists|c: u8|
                is_alphanumeric(c) && #[trigger] name@[j] == c as char by {
                if j < before.len() {
                    assert(name@[j] == before[j]);
                } else {
                    assert(is_alphanumeric(b) && name@[j] == b as char);
                }
            }
        }
        i += 1;
    }
    name
}

/// The components of a fresh temporary path inside the directory whose components
/// are `dir`: those of `dir`, then a name of `tmp` and ten random letters and digits.
pub fn tmppath_in(dir: Vec<String>) -> (path: Vec<String>)
    ensures
        path@.len() == dir@.len() + 1,
        path@.subrange(0, dir@.len() as int) == dir@,
        is_tmpname(path@.last()@, "tmp"@, 10),
{
    let mut path = dir;
    path.push(tmpname("tmp", 10));
    assert(path@.subrange(0, dir@.len() as int) =~= dir@);
    path
}

} // verus!

//! What a project had open, so that opening the editor on it again opens the same tabs.

use vstd::prelude::*;
use vstd::string::*;
use vstd::utf8::*;

use crate::git::told;
use crate::number::{self, to_decimal, to_hexadecimal};
use crate::path::{self, file_name, join};

verus! {

/// The files a project had open, in the order their tabs were in.
pub struct Session {
    pub files: Vec<String>,
    /// The one that was in front.
    pub focused: Option<String>,
}

/// Where the hash of nothing stands.
pub const BASIS: u64 = 0xcbf2_9ce4_8422_2325;

/// What each byte multiplies the hash by.
pub const PRIME: u64 = 0x0000_0100_0000_01b3;

/// The hash of some bytes: each is mixed into the low bits, which are then spread over all.
pub open spec fn hashed(bytes: Seq<u8>) -> u64
    decreases bytes.len(),
{
    if bytes.len() == 0 {
        BASIS
    } else {
        (hashed(bytes.drop_last()) ^ (bytes.last() as u64)).wrapping_mul(PRIME)
    }
}

/// The name of a project's folder, as far as it has one.
pub open spec fn folder(workspace: Seq<char>) -> Seq<char> {
    match path::name_of(workspace) {
        Some(name) => name,
        None => "workspace"@,
    }
}

/// A stable name for a project: its own folder's, and a hash of the whole path.
pub open spec fn key_of(workspace: Seq<char>) -> Seq<char> {
    folder(workspace) + "-"@ + number::hexadecimal(
        hashed(encode_utf8(workspace)) as nat,
        16,
    )
}

/// A stable name for a project: its own folder's, and a hash of the whole path, so that two
/// projects whose folders are called the same are not one session.
pub fn key(workspace: &str) -> (name: String)
    ensures
        name@ == key_of(workspace@),
{
    let bytes = workspace.as_bytes();
    let mut hash: u64 = BASIS;
    for i in 0..bytes.len()
        invariant
            hash == hashed(bytes@.take(i as int)),
    {
        assert(bytes@.take(i + 1).drop_last() =~= bytes@.take(i as int));
        hash = (hash ^ (bytes[i] as u64)).wrapping_mul(PRIME);
    }
    assert(bytes@.take(bytes@.len() as int) =~= bytes@);
    let mut name = match file_name(workspace) {
        Some(name) => name,
        None => "workspace".to_owned(),
    };
    name.append("-");
    name.append(to_hexadecimal(hash, 16).as_str());
    name
}

/// Where sessions are kept.
pub fn sessions_dir(data_dir: &str) -> (dir: String)
    ensures
        dir@ == path::joined(data_dir@, "sessions"@),
{
    join(data_dir, "sessions")
}

/// Where a project's session is kept.
pub fn session_file(data_dir: &str, workspace: &str) -> (file: String)
    ensures
        file@ == path::joined(
            path::joined(data_dir@, "sessions"@),
            key_of(workspace@) + ".toml"@,
        ),
{
    join(sessions_dir(data_dir).as_str(), told(key(workspace).as_str(), ".toml").as_str())
}

/// Where a project's session is written aside, before it is renamed over the one kept.
pub fn temp_file(data_dir: &str, workspace: &str, process: u32) -> (file: String)
    ensures
        file@ == path::joined(
            path::joined(data_dir@, "sessions"@),
            "."@ + key_of(workspace@) + "."@ + number::decimal(process as nat) + ".toml"@,
        ),
{
    let mut name = told(".", key(workspace).as_str());
    name.append(".");
    name.append(to_decimal(process as u64).as_str());
    name.append(".toml");
    join(sessions_dir(data_dir).as_str(), name.as_str())
}

/// The hash takes the bytes one after another: each is mixed in and the whole multiplied by a
/// prime, what does not fit in 64 bits dropped.
pub proof fn law_each_byte_is_mixed_in(bytes: Seq<u8>, byte: u8)
    ensures
        hashed(Seq::empty()) == 0xcbf29ce484222325u64,
        hashed(bytes.push(byte)) as int == ((hashed(bytes) ^ (byte as u64)) as int
            * 0x100000001b3) % 0x1_0000_0000_0000_0000,
{
    assert(bytes.push(byte).drop_last() =~= bytes);
    assert(bytes.push(byte).last() == byte);
}

/// A project's name is its folder's and sixteen digits, a dash between.
pub proof fn law_a_key_ends_in_sixteen_digits(workspace: Seq<char>)
    ensures
        ({
            let key = key_of(workspace);
            let name = folder(workspace);
            &&& key.len() == name.len() + 17
            &&& key.take(name.len() as int) == name
            &&& key[name.len() as int] == '-'
            &&& key.skip(name.len() as int + 1) == number::hexadecimal(
                hashed(encode_utf8(workspace)) as nat,
                16,
            )
        }),
{
    reveal_strlit("-");
    let key = key_of(workspace);
    let name = folder(workspace);
    number::law_each_hexadecimal_digit_has_its_worth(hashed(encode_utf8(workspace)) as nat, 16);
    assert(key.take(name.len() as int) =~= name);
    assert(key.skip(name.len() as int + 1) =~= number::hexadecimal(
        hashed(encode_utf8(workspace)) as nat,
        16,
    ));
}

} // verus!

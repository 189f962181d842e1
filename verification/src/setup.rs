//! What a peer computes before it joins the network: the bytes of its secret
//! key, and the topic that the peers of the grocery list share.
use vstd::prelude::*;

verus! {

broadcast use vstd::array::group_array_axioms;

/// The bytes of the secret key of the peer with the given id: 32 times the id.
pub fn get_key(id: u8) -> (key: [u8; 32])
    ensures
        key@.len() == 32,
        forall|i: int| 0 <= i < 32 ==> key@[i] == id,
{
    [id; 32]
}

/// The SHA-256 digest of the UTF-8 bytes of a text.
pub uninterp spec fn sha256_utf8(text: Seq<char>) -> Seq<u8>;

/// `sha2::Sha256::digest` of the UTF-8 bytes of `text`: its digest, 32 bytes.
#[verifier::external_body]
fn sha256_text(text: &str) -> (digest: Vec<u8>)
    ensures
        digest@ == sha256_utf8(text@),
        digest@.len() == 32,
{
    <sha2::Sha256 as sha2::Digest>::digest(text.as_bytes()).to_vec()
}

/// The id of the gossip topic of the grocery list: the SHA-256 digest of its
/// name.
pub fn topic_id() -> (id: Vec<u8>)
    ensures
        id@ == sha256_utf8("com.example.myapp.mytopic"@),
        id@.len() == 32,
{
    sha256_text("com.example.myapp.mytopic")
}


/// How many times the desktop shell checks for Bluetooth permission, 100 ms
/// apart, before it gives up.
pub const MAX_PERMISSION_CHECKS: u32 = 300;

/// What the desktop shell does while it waits for Bluetooth permission.
pub enum PermissionStep {
    /// The permission is granted: go on.
    Proceed,
    /// Wait 100 ms, and check again.
    Wait,
    /// The permission was not granted in time: stop.
    GiveUp,
}

/// The next step of the wait for Bluetooth permission, after `checks` checks:
/// go on once it is granted; otherwise wait while fewer than
/// `MAX_PERMISSION_CHECKS` checks were made, and give up after that.
pub fn permission_step(granted: bool, checks: u32) -> (step: PermissionStep)
    ensures
        granted ==> step is Proceed,
        !granted && checks < MAX_PERMISSION_CHECKS ==> step is Wait,
        !granted && checks >= MAX_PERMISSION_CHECKS ==> step is GiveUp,
{
    if granted {
        PermissionStep::Proceed
    } else if checks < MAX_PERMISSION_CHECKS {
        PermissionStep::Wait
    } else {
        PermissionStep::GiveUp
    }
}

} // verus!

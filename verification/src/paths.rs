//! Where the registry keeps its files, relative to a home directory that the
//! caller resolves once at startup and passes in.

use vstd::prelude::*;
use vstd::string::StringExecFns;

verus! {

/// The fixed file name SSH tooling reads the active key under.
pub const DEFAULT_SSH_KEY_NAME: &'static str = "id_rsa";

/// The file name of the persisted registry record.
pub const DEFAULT_JSON_FILE: &'static str = "keys.json";

/// The application's own directory under `home`.
pub fn get_folder(home: &str) -> (r: String)
    ensures
        r@ == home@ + "/.keyman"@,
{
    let mut s = String::from_str(home);
    s.append("/.keyman");
    s
}

/// The managed-storage directory for key copies under `home`.
pub fn get_keys_folder(home: &str) -> (r: String)
    ensures
        r@ == home@ + "/.keyman/keys"@,
{
    let mut s = String::from_str(home);
    s.append("/.keyman/keys");
    s
}

/// The user's SSH configuration directory under `home`.
pub fn get_ssh_path(home: &str) -> (r: String)
    ensures
        r@ == home@ + "/.ssh"@,
{
    let mut s = String::from_str(home);
    s.append("/.ssh");
    s
}

} // verus!

//! Decision for where the audio runtime directory lives. Playing the cue
//! itself is platform work that stays outside the core; this only picks the
//! path from the environment values the caller read.

use vstd::prelude::*;
use vstd::string::StringExecFns;

verus! {

/// The runtime directory audio playback uses: the invoking user's runtime
/// directory when running under sudo, else the already-set runtime
/// directory, else the conventional default.
pub fn get_audio_runtime_path(sudo_uid: Option<String>, xdg_runtime_dir: Option<String>) -> (r:
    String)
    ensures
        match sudo_uid {
            Some(uid) => r@ == "/run/user/"@ + uid@,
            None => match xdg_runtime_dir {
                Some(p) => r@ == p@,
                None => r@ == "/run/user/1000"@,
            },
        },
{
    match sudo_uid {
        Some(uid) => {
            let mut s = String::from_str("/run/user/");
            s.append(uid.as_str());
            s
        },
        None => match xdg_runtime_dir {
            Some(p) => p,
            None => String::from_str("/run/user/1000"),
        },
    }
}

} // verus!

//! Whether a window can be shown: the decision from the environment's
//! variables, which the caller reads.

use vstd::prelude::*;
use vstd::string::*;

verus! {

/// The kind of system the program runs on, as far as choosing a front end
/// is concerned.
#[derive(Clone, Copy, Debug, PartialEq, Eq, Structural)]
pub enum Platform {
    Windows,
    MacOs,
    /// Linux and the BSDs.
    Unix,
}

/// The value of variable `name` in `env`: the first entry for it.
pub open spec fn env_value(env: Seq<(String, String)>, name: Seq<char>) -> Option<Seq<char>>
    decreases env.len(),
{
    if env.len() == 0 {
        None
    } else if env[0].0@ == name {
        Some(env[0].1@)
    } else {
        env_value(env.drop_first(), name)
    }
}

/// Whether variable `name` is set to something non-empty.
pub open spec fn is_set(env: Seq<(String, String)>, name: Seq<char>) -> bool {
    env_value(env, name) matches Some(v) && v.len() > 0
}

/// Whether a graphical session is at hand. Windows always has a desktop
/// to draw on. On macOS a window from an SSH session opens on the Mac's
/// own desktop, or on none, not in front of the person typing. Elsewhere
/// no display server means a text console, SSH without X forwarding, or
/// a container; forwarding sets `DISPLAY`.
pub open spec fn gui_available_spec(platform: Platform, env: Seq<(String, String)>) -> bool {
    match platform {
        Platform::Windows => true,
        Platform::MacOs => !(is_set(env, "SSH_CONNECTION"@) || is_set(env, "SSH_CLIENT"@) || is_set(env, "SSH_TTY"@)),
        Platform::Unix => is_set(env, "WAYLAND_DISPLAY"@) || is_set(env, "DISPLAY"@),
    }
}

fn set_in(env: &[(String, String)], name: &str) -> (r: bool)
    ensures
        r == is_set(env@, name@),
{
    let target = crate::text::chars_of(name);
    assert(env@.subrange(0, env@.len() as int) =~= env@);
    let mut i: usize = 0;
    while i < env.len()
        invariant
            i <= env@.len(),
            target@ == name@,
            env_value(env@.subrange(i as int, env@.len() as int), name@) == env_value(env@, name@),
        decreases env@.len() - i,
    {
        let key = crate::text::chars_of(env[i].0.as_str());
        let ghost rest = env@.subrange(i as int, env@.len() as int);
        assert(rest[0] == env@[i as int]);
        assert(rest.drop_first() =~= env@.subrange(i + 1, env@.len() as int));
        if crate::paths::same_chars(&key, &target) {
            return env[i].1.unicode_len() > 0;
        }
        i = i + 1;
    }
    assert(env@.subrange(i as int, env@.len() as int) =~= Seq::<(String, String)>::empty());
    false
}

/// Whether a graphical session is at hand on `platform`, given the
/// environment's variables as (name, value) pairs.
pub fn gui_available_in(platform: Platform, env: &[(String, String)]) -> (r: bool)
    ensures
        r == gui_available_spec(platform, env@),
{
    proof {
        assert(env@.subrange(0, env@.len() as int) =~= env@);
    }
    match platform {
        Platform::Windows => true,
        Platform::MacOs => !(set_in(env, "SSH_CONNECTION") || set_in(env, "SSH_CLIENT") || set_in(env, "SSH_TTY")),
        Platform::Unix => set_in(env, "WAYLAND_DISPLAY") || set_in(env, "DISPLAY"),
    }
}

} // verus!

//! User settings kept between runs, as `key=value` lines. Reading and
//! writing the file is the caller's; this is the format.

use crate::paths::join;
use crate::session::Platform;
use crate::text::{chars_of, find_char, find_from, lines, lines_of, trim_range, trimmed};
use vstd::prelude::*;
use vstd::string::*;

verus! {

/// The settings a front end remembers.
#[derive(Clone, Copy, Debug, PartialEq, Eq, Structural)]
pub struct Settings {
    /// Windows only: the user has acknowledged that permanent deletion
    /// skips the Recycle Bin, so front ends may offer it directly.
    pub permanent_delete: bool,
}

impl Default for Settings {
    fn default() -> (r: Settings)
        ensures
            r == (Settings { permanent_delete: false }),
    {
        Settings { permanent_delete: false }
    }
}

/// The key under which [`Settings::permanent_delete`] is stored.
pub open spec fn permanent_delete_key() -> Seq<char> {
    "permanent_delete"@
}

/// What line `line` says of the permanent-delete setting, if anything: a
/// line `key=value` with the key `permanent_delete` (around which, and
/// around the value, white space does not count) sets it to whether the
/// value is `true`.
pub open spec fn line_setting(line: Seq<char>) -> Option<bool> {
    let eq = find_from(line, '=', 0);
    if eq >= line.len() {
        None
    } else if trimmed(line.subrange(0, eq)) == permanent_delete_key() {
        Some(trimmed(line.subrange(eq + 1, line.len() as int)) == "true"@)
    } else {
        None
    }
}

/// The permanent-delete setting after lines `k..` on top of `current`:
/// the last line that sets it wins.
pub open spec fn setting_from(lines: Seq<Seq<char>>, k: int, current: bool) -> bool
    decreases lines.len() - k,
{
    if k < 0 || k >= lines.len() {
        current
    } else {
        match line_setting(lines[k]) {
            Some(v) => setting_from(lines, k + 1, v),
            None => setting_from(lines, k + 1, current),
        }
    }
}

/// The settings a text holds: defaults, then whatever its lines set.
/// Lines that are not `key=value`, and unknown keys, are ignored.
pub open spec fn parsed(text: Seq<char>) -> Settings {
    Settings { permanent_delete: setting_from(lines_of(text), 0, false) }
}

/// The text of some settings.
pub open spec fn serialised(s: Settings) -> Seq<char> {
    permanent_delete_key() + seq!['='] + (if s.permanent_delete {
        "true"@
    } else {
        "false"@
    }) + seq!['\n']
}

fn line_setting_of(line: &String) -> (r: Option<bool>)
    ensures
        r == line_setting(line@),
{
    let chars = chars_of(line.as_str());
    let eq = find_char(&chars, '=', 0);
    if eq >= chars.len() {
        return None;
    }
    let key = trim_range(&chars, 0, eq);
    let key_chars = chars_of(key.as_str());
    let expected = chars_of("permanent_delete");
    proof {
        reveal_strlit("permanent_delete");
    }
    if !crate::paths::same_chars(&key_chars, &expected) {
        return None;
    }
    let value = trim_range(&chars, eq + 1, chars.len());
    let value_chars = chars_of(value.as_str());
    let yes = chars_of("true");
    proof {
        reveal_strlit("true");
    }
    Some(crate::paths::same_chars(&value_chars, &yes))
}

impl Settings {
    /// The settings `text` holds (see [`parsed`]).
    pub fn parse(text: &str) -> (r: Settings)
        ensures
            r == parsed(text@),
    {
        let all = lines(text);
        let ghost ls = all@.map_values(|l: String| l@);
        let mut value = false;
        let mut k: usize = 0;
        while k < all.len()
            invariant
                k <= all@.len(),
                ls == all@.map_values(|l: String| l@),
                ls == lines_of(text@),
                setting_from(ls, k as int, value) == setting_from(ls, 0, false),
            decreases all@.len() - k,
        {
            match line_setting_of(&all[k]) {
                Some(v) => {
                    value = v;
                },
                None => {},
            }
            k = k + 1;
        }
        Settings { permanent_delete: value }
    }

    /// The text to store (see [`serialised`]).
    pub fn serialise(&self) -> (r: String)
        ensures
            r@ == serialised(*self),
    {
        let mut out = String::from_str("permanent_delete=");
        if self.permanent_delete {
            out.append("true\n");
        } else {
            out.append("false\n");
        }
        proof {
            reveal_strlit("permanent_delete=");
            reveal_strlit("permanent_delete");
            reveal_strlit("true\n");
            reveal_strlit("false\n");
            reveal_strlit("true");
            reveal_strlit("false");
            assert(out@ =~= serialised(*self));
        }
        out
    }
}

/// Where the settings file lives, from the environment's values:
/// `%APPDATA%\dirstats\settings` on Windows,
/// `~/Library/Application Support/dirstats/settings` on macOS,
/// `$XDG_CONFIG_HOME/dirstats/settings` or `~/.config/dirstats/settings`
/// elsewhere; `None` when the variable it needs is unset.
pub fn settings_path(
    platform: Platform,
    appdata: Option<&str>,
    home: Option<&str>,
    xdg_config_home: Option<&str>,
) -> (r: Option<String>)
    ensures
        r is Some <==> match platform {
            Platform::Windows => appdata is Some,
            Platform::MacOs => home is Some,
            Platform::Unix => xdg_config_home is Some || home is Some,
        },
        r matches Some(p) ==> p@ == crate::tree::join(
            crate::tree::join(
                match platform {
                    Platform::Windows => appdata->Some_0@,
                    Platform::MacOs => crate::tree::join(home->Some_0@, "Library/Application Support"@),
                    Platform::Unix => match xdg_config_home {
                        Some(x) => x@,
                        None => crate::tree::join(home->Some_0@, ".config"@),
                    },
                },
                "dirstats"@,
            ),
            "settings"@,
        ),
{
    let base = match platform {
        Platform::Windows => match appdata {
            Some(a) => a.to_owned(),
            None => return None,
        },
        Platform::MacOs => match home {
            Some(h) => join(h, "Library/Application Support"),
            None => return None,
        },
        Platform::Unix => match xdg_config_home {
            Some(x) => x.to_owned(),
            None => match home {
                Some(h) => join(h, ".config"),
                None => return None,
            },
        },
    };
    let dir = join(base.as_str(), "dirstats");
    Some(join(dir.as_str(), "settings"))
}

/// Reading back what was stored gives the same settings.
pub proof fn settings_round_trip(s: Settings)
    ensures
        parsed(serialised(s)) == s,
{
    reveal_strlit("permanent_delete");
    reveal_strlit("true");
    reveal_strlit("false");
    let text = serialised(s);
    let line = text.subrange(0, text.len() - 1);
    let eq = permanent_delete_key().len() as int;
    assert(eq == 16);
    assert(text[text.len() - 1] == '\n');
    reveal_with_fuel(find_from, 25);
    assert forall|k: int| 0 <= k < text.len() - 1 implies text[k] != '\n' by {}
    lemma_find_stops(text, '\n', 0, text.len() - 1);
    assert(find_from(text, '\n', 0) == text.len() - 1);
    assert(text[text.len() - 2] != '\r');
    assert(lines_of(text) =~= seq![line]) by {
        assert(crate::text::lines_from(text, text.len() as int) =~= Seq::<Seq<char>>::empty());
    }
    lemma_find_stops(line, '=', 0, eq);
    assert(find_from(line, '=', 0) == eq);
    assert(line.subrange(0, eq) =~= permanent_delete_key());
    lemma_trim_plain(permanent_delete_key());
    let value = line.subrange(eq + 1, line.len() as int);
    if s.permanent_delete {
        assert(value =~= "true"@);
        lemma_trim_plain("true"@);
    } else {
        assert(value =~= "false"@);
        lemma_trim_plain("false"@);
    }
    assert(line_setting(line) == Some(s.permanent_delete));
    assert(setting_from(seq![line], 1, s.permanent_delete) == s.permanent_delete);
}

proof fn lemma_find_stops(s: Seq<char>, c: char, i: int, at: int)
    requires
        0 <= i <= at < s.len(),
        s[at] == c,
        forall|k: int| i <= k < at ==> s[k] != c,
    ensures
        find_from(s, c, i) == at,
    decreases at - i,
{
    if i < at {
        lemma_find_stops(s, c, i + 1, at);
    }
}

proof fn lemma_trim_plain(s: Seq<char>)
    requires
        s.len() > 0,
        forall|k: int| 0 <= k < s.len() ==> !crate::text::is_ws(#[trigger] s[k]),
    ensures
        trimmed(s) == s,
{
    assert(crate::text::skip_ws(s, 0) == 0);
    assert(crate::text::skip_ws_back(s, s.len() as int) == s.len());
    assert(s.subrange(0, s.len() as int) =~= s);
}

} // verus!

//! Where the Ghostty config file is, decided from what the caller found in
//! the environment and on disk.

use vstd::prelude::*;
use vstd::string::StringExecFns;

verus! {

pub open spec fn opt_text(o: Option<&str>) -> Option<Seq<char>> {
    match o {
        Some(s) => Some(s@),
        None => None,
    }
}

/// The macOS location under the home directory.
pub open spec fn spec_app_support_path(home: Seq<char>) -> Seq<char> {
    home + "/Library/Application Support/com.mitchellh.ghostty/config"@
}

/// The fallback chain: `GHOSTTY_CONFIG_PATH`; `/config/ghostty` when
/// `/config` exists (a Docker mount); `$XDG_CONFIG_HOME/ghostty/config`;
/// the macOS location under `$HOME` when it exists, else
/// `$HOME/.config/ghostty/config`; and `/config/ghostty` without a home.
pub open spec fn spec_config_path(
    ghostty_config_path: Option<Seq<char>>,
    docker_mount: bool,
    xdg_config_home: Option<Seq<char>>,
    home: Option<Seq<char>>,
    app_support_exists: bool,
) -> Seq<char> {
    match ghostty_config_path {
        Some(p) => p,
        None => if docker_mount {
            "/config/ghostty"@
        } else {
            match xdg_config_home {
                Some(x) => x + "/ghostty/config"@,
                None => match home {
                    Some(h) => if app_support_exists {
                        spec_app_support_path(h)
                    } else {
                        h + "/.config/ghostty/config"@
                    },
                    None => "/config/ghostty"@,
                },
            }
        },
    }
}

/// The macOS config location under `home`, whose existence the caller
/// checks.
pub fn app_support_path(home: &str) -> (r: String)
    ensures
        r@ == spec_app_support_path(home@),
{
    let mut s = String::new();
    s.append(home);
    s.append("/Library/Application Support/com.mitchellh.ghostty/config");
    s
}

/// Resolve the Ghostty config file path from the environment variables
/// read (`None` where unset), whether `/config` exists, and whether the
/// macOS location exists.
pub fn config_path_from(
    ghostty_config_path: Option<&str>,
    docker_mount: bool,
    xdg_config_home: Option<&str>,
    home: Option<&str>,
    app_support_exists: bool,
) -> (r: String)
    ensures
        r@ == spec_config_path(
            opt_text(ghostty_config_path),
            docker_mount,
            opt_text(xdg_config_home),
            opt_text(home),
            app_support_exists,
        ),
{
    if let Some(p) = ghostty_config_path {
        return p.to_owned();
    }
    if docker_mount {
        return "/config/ghostty".to_owned();
    }
    if let Some(x) = xdg_config_home {
        let mut s = String::new();
        s.append(x);
        s.append("/ghostty/config");
        return s;
    }
    if let Some(h) = home {
        if app_support_exists {
            return app_support_path(h);
        }
        let mut s = String::new();
        s.append(h);
        s.append("/.config/ghostty/config");
        return s;
    }
    "/config/ghostty".to_owned()
}

} // verus!

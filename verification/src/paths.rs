//! Where the program keeps its own state.
//!
//! Nothing is written into the folders being organised: no sidecar files, no
//! thumbnail directories, no stray databases in the middle of a photo library.
//! Everything lives under the platform's places for a user's data and caches.
use vstd::prelude::*;

use crate::pathname;
use crate::pathname::join;
use crate::text;

verus! {

/// The name of the program's own folders.
pub const APP: &'static str = "renamer";

/// What the environment says about places.
#[derive(Debug, Clone)]
pub struct Env {
    /// The user's home.
    pub home: Option<String>,
    /// A place for data that takes precedence over all others.
    pub data_override: Option<String>,
    /// A place for caches that takes precedence over all others.
    pub cache_override: Option<String>,
    /// The desktop's place for data.
    pub xdg_data: Option<String>,
    /// The desktop's place for caches.
    pub xdg_cache: Option<String>,
    /// Whether the platform is macOS, which has places of its own.
    pub mac: bool,
}

/// What the environment says about places, as mathematical values.
#[verifier::ext_equal]
pub struct Surroundings {
    pub home: Option<Seq<char>>,
    pub data_override: Option<Seq<char>>,
    pub cache_override: Option<Seq<char>>,
    pub xdg_data: Option<Seq<char>>,
    pub xdg_cache: Option<Seq<char>>,
    pub mac: bool,
}

impl View for Env {
    type V = Surroundings;

    open spec fn view(&self) -> Surroundings {
        Surroundings {
            home: text::opt_view(self.home),
            data_override: text::opt_view(self.data_override),
            cache_override: text::opt_view(self.cache_override),
            xdg_data: text::opt_view(self.xdg_data),
            xdg_cache: text::opt_view(self.xdg_cache),
            mac: self.mac,
        }
    }
}

/// The user's home, or the current directory as a last resort.
pub open spec fn home_of(home: Option<Seq<char>>) -> Seq<char> {
    match home {
        Some(h) => h,
        None => "."@,
    }
}

/// The desktop's place if it is an absolute path, and otherwise a place in the
/// user's home.
pub open spec fn desktop_place(
    xdg: Option<Seq<char>>,
    home: Option<Seq<char>>,
    rest: Seq<char>,
) -> Seq<char> {
    match xdg {
        Some(p) => if pathname::is_absolute(p) {
            p
        } else {
            pathname::joined(home_of(home), rest)
        },
        None => pathname::joined(home_of(home), rest),
    }
}

/// A root for the program's state.
pub open spec fn root_of(
    place: Option<Seq<char>>,
    mac: bool,
    xdg: Option<Seq<char>>,
    home: Option<Seq<char>>,
    mac_rest: Seq<char>,
    rest: Seq<char>,
) -> Seq<char> {
    match place {
        Some(p) => p,
        None => if mac {
            pathname::joined(pathname::joined(home_of(home), mac_rest), APP@)
        } else {
            pathname::joined(desktop_place(xdg, home, rest), APP@)
        },
    }
}

/// The root of what must not be lost.
pub open spec fn data_root(env: Surroundings) -> Seq<char> {
    root_of(
        env.data_override,
        env.mac,
        env.xdg_data,
        env.home,
        "Library/Application Support"@,
        ".local/share"@,
    )
}

/// The root of what can be made again.
pub open spec fn cache_root(env: Surroundings) -> Seq<char> {
    root_of(
        env.cache_override,
        env.mac,
        env.xdg_cache,
        env.home,
        "Library/Caches"@,
        ".cache"@,
    )
}

fn copy_of(s: &String) -> (r: String)
    ensures
        r@ == s@,
{
    s.clone()
}

fn home(user: &Option<String>) -> (r: String)
    ensures
        r@ == home_of(text::opt_view(*user)),
{
    match user {
        Some(h) => copy_of(h),
        None => text::string_of(text::chars_of(".").as_slice()),
    }
}

fn starts_at_root(path: &String) -> (r: bool)
    ensures
        r == pathname::is_absolute(path@),
{
    let v: Vec<char> = text::chars_of(path.as_str());
    v.len() > 0 && v[0] == '/'
}

fn find_root(
    place: &Option<String>,
    mac: bool,
    xdg: &Option<String>,
    user: &Option<String>,
    mac_rest: &str,
    rest: &str,
) -> (r: String)
    ensures
        r@ == root_of(
            text::opt_view(*place),
            mac,
            text::opt_view(*xdg),
            text::opt_view(*user),
            mac_rest@,
            rest@,
        ),
{
    if let Some(p) = place {
        return copy_of(p);
    }
    let base: String = if mac {
        join(home(user).as_str(), mac_rest)
    } else {
        match xdg {
            Some(p) => if starts_at_root(p) {
                copy_of(p)
            } else {
                join(home(user).as_str(), rest)
            },
            None => join(home(user).as_str(), rest),
        }
    };
    join(base.as_str(), APP)
}

/// The root of what must not be lost: the catalog and the quarantine.
pub fn data_dir(env: &Env) -> (r: String)
    ensures
        r@ == data_root(env@),
{
    find_root(
        &env.data_override,
        env.mac,
        &env.xdg_data,
        &env.home,
        "Library/Application Support",
        ".local/share",
    )
}

/// The root of what can be made again: thumbnails. It is safe to delete at any time.
pub fn cache_dir(env: &Env) -> (r: String)
    ensures
        r@ == cache_root(env@),
{
    find_root(
        &env.cache_override,
        env.mac,
        &env.xdg_cache,
        &env.home,
        "Library/Caches",
        ".cache",
    )
}

/// The catalog's file. One catalog covers every library.
pub fn catalog_path(env: &Env) -> (r: String)
    ensures
        r@ == pathname::joined(data_root(env@), "catalog.sqlite"@),
{
    join(data_dir(env).as_str(), "catalog.sqlite")
}

/// The folder of thumbnails.
pub fn thumbs_dir(env: &Env) -> (r: String)
    ensures
        r@ == pathname::joined(cache_root(env@), "thumbs"@),
{
    join(cache_dir(env).as_str(), "thumbs")
}

/// The quarantine: where files that were removed actually go.
pub fn quarantine_dir(env: &Env) -> (r: String)
    ensures
        r@ == pathname::joined(data_root(env@), "quarantine"@),
{
    join(data_dir(env).as_str(), "quarantine")
}

/// Where models for recognising faces are looked for.
pub fn models_dir(env: &Env) -> (r: String)
    ensures
        r@ == pathname::joined(data_root(env@), "models"@),
{
    join(data_dir(env).as_str(), "models")
}

/// The program's state never depends on the current directory, which could itself
/// be a photo folder, unless an override says so: where there is a home, both roots
/// are absolute.
pub proof fn state_is_not_relative(env: Surroundings)
    requires
        env.home matches Some(h) && pathname::is_absolute(h),
        env.data_override matches Some(p) ==> pathname::is_absolute(p),
        env.cache_override matches Some(p) ==> pathname::is_absolute(p),
    ensures
        pathname::is_absolute(data_root(env)),
        pathname::is_absolute(cache_root(env)),
{
}

/// A relative path from the desktop is ignored.
pub proof fn relative_desktop_paths_are_ignored(env: Surroundings, xdg: Seq<char>)
    requires
        !pathname::is_absolute(xdg),
    ensures
        data_root(Surroundings { xdg_data: Some(xdg), ..env }) == data_root(
            Surroundings { xdg_data: None, ..env },
        ),
        cache_root(Surroundings { xdg_cache: Some(xdg), ..env }) == cache_root(
            Surroundings { xdg_cache: None, ..env },
        ),
{
}

/// State is kept where the user says; else on a Mac in the library folder of their home,
/// and elsewhere where the desktop says, if that is a path from the root, or in the usual
/// hidden folder of their home. Without a home the working directory stands for it.
pub proof fn state_goes_where_it_belongs(env: Surroundings)
    ensures
        ({
            let home = if env.home is Some {
                env.home->0
            } else {
                "."@
            };
            let data = env.xdg_data is Some && env.xdg_data->0.len() > 0 && env.xdg_data->0[0] == '/';
            let cache = env.xdg_cache is Some && env.xdg_cache->0.len() > 0 && env.xdg_cache->0[0]
                == '/';
            &&& env.data_override is Some ==> data_root(env) == env.data_override->0
            &&& env.cache_override is Some ==> cache_root(env) == env.cache_override->0
            &&& env.data_override is None && env.mac ==> data_root(env) == pathname::joined(
                pathname::joined(home, "Library/Application Support"@),
                "renamer"@,
            )
            &&& env.cache_override is None && env.mac ==> cache_root(env) == pathname::joined(
                pathname::joined(home, "Library/Caches"@),
                "renamer"@,
            )
            &&& env.data_override is None && !env.mac && data ==> data_root(env) == pathname::joined(
                env.xdg_data->0,
                "renamer"@,
            )
            &&& env.cache_override is None && !env.mac && cache ==> cache_root(env)
                == pathname::joined(env.xdg_cache->0, "renamer"@)
            &&& env.data_override is None && !env.mac && !data ==> data_root(env)
                == pathname::joined(pathname::joined(home, ".local/share"@), "renamer"@)
            &&& env.cache_override is None && !env.mac && !cache ==> cache_root(env)
                == pathname::joined(pathname::joined(home, ".cache"@), "renamer"@)
        }),
{
}

} // verus!

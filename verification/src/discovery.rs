//! Where Steam keeps the game, its libraries and the subscribed workshop item.
//!
//! Nothing here touches the disk. The functions name the paths to look at; the
//! caller probes them and hands back one flag per path.

use vstd::prelude::*;
use crate::error::EngineError;
use crate::paths::{backslashed, flag_at, join, joined, present_at, texts, to_backslashes};

verus! {

/// What `Regex::captures_iter` of the `regex` crate yields for a pattern and a
/// haystack: for each match in order the text of capture group 1, or `None`
/// where that group took no part; `None` as a whole where the pattern does not
/// compile.
pub uninterp spec fn regex_first_groups(pattern: Seq<char>, text: Seq<char>) -> Option<
    Seq<Option<Seq<char>>>,
>;

/// The texts held by the result of a capture search.
pub open spec fn group_texts(found: Option<Vec<Option<String>>>) -> Option<Seq<Option<Seq<char>>>> {
    match found {
        Some(groups) => Some(
            Seq::new(
                groups@.len(),
                |i: int|
                    match groups@[i] {
                        Some(s) => Some(s@),
                        None => None,
                    },
            ),
        ),
        None => None,
    }
}

/// Compiles `pattern` with `regex::Regex::new` and walks the haystack with
/// `Regex::captures_iter`, keeping of each match the text of group 1
/// (`Captures::get(1)`). The contract only names the result: it is whatever
/// the crate computes from these two strings.
#[verifier::external_body]
fn first_groups(pattern: &str, text: &str) -> (found: Option<Vec<Option<String>>>)
    ensures
        group_texts(found) == regex_first_groups(pattern@, text@),
{
    match regex::Regex::new(pattern) {
        Ok(re) => Some(
            re.captures_iter(text).map(|c| c.get(1).map(|m| m.as_str().to_string())).collect(),
        ),
        Err(_) => None,
    }
}

/// The Steam root to fall back on when the registry names none.
pub open spec fn default_steam_root() -> Seq<char> {
    "C:/Program Files (x86)/Steam"@
}

/// The Steam root read from the registry, or the default install location.
pub fn steam_root_or_default(found: Option<String>) -> (root: String)
    ensures
        root@ == match found {
            Some(s) => s@,
            None => default_steam_root(),
        },
{
    match found {
        Some(s) => s,
        None => String::from_str("C:/Program Files (x86)/Steam"),
    }
}

/// The `steamapps` directory of a library root.
pub open spec fn steamapps_of(root: Seq<char>) -> Seq<char> {
    joined(root, "steamapps"@)
}

/// The library candidates named by the first `n` captured paths, behind the
/// library of the Steam root itself.
pub open spec fn candidates(steam_root: Seq<char>, groups: Seq<Option<Seq<char>>>, n: int) -> Seq<
    Seq<char>,
>
    decreases n,
{
    if n <= 0 {
        seq![steamapps_of(steam_root)]
    } else {
        match groups[n - 1] {
            Some(p) => candidates(steam_root, groups, n - 1).push(steamapps_of(p)),
            None => candidates(steam_root, groups, n - 1),
        }
    }
}

/// Turns the captured library paths into candidate `steamapps` directories.
/// The Steam root's own library always comes first.
pub fn candidates_from(steam_root: &str, groups: &Vec<Option<String>>) -> (out: Vec<String>)
    ensures
        texts(out@) == candidates(steam_root@, group_texts(Some(*groups)).unwrap(), groups@.len() as int),
{
    let ghost g = group_texts(Some(*groups)).unwrap();
    let mut out: Vec<String> = Vec::new();
    out.push(join(steam_root, "steamapps"));
    proof {
        assert(texts(out@) =~= candidates(steam_root@, g, 0));
    }
    let mut i: usize = 0;
    while i < groups.len()
        invariant
            i <= groups.len(),
            g == group_texts(Some(*groups)).unwrap(),
            texts(out@) == candidates(steam_root@, g, i as int),
        decreases groups.len() - i,
    {
        let ghost before = texts(out@);
        match &groups[i] {
            Some(p) => {
                let dir = join(p.as_str(), "steamapps");
                out.push(dir);
                proof {
                    assert(texts(out@) =~= before.push(steamapps_of(p@)));
                }
            },
            None => {},
        }
        i += 1;
    }
    out
}

/// The pattern that finds the library paths in `libraryfolders.vdf`.
pub open spec fn library_pattern() -> Seq<char> {
    "path\"\\s*\"([^\"]+)"@
}

/// The groups to build the candidates from: those of the search, or none where
/// there was no text or the search gave nothing.
pub open spec fn groups_or_none(found: Option<Seq<Option<Seq<char>>>>) -> Seq<Option<Seq<char>>> {
    match found {
        Some(g) => g,
        None => Seq::empty(),
    }
}

/// The candidate `steamapps` directories for a Steam root and the text of its
/// `libraryfolders.vdf`, where that file could be read.
pub fn library_candidates(steam_root: &str, vdf_text: Option<&str>) -> (out: Vec<String>)
    ensures
        texts(out@) == match vdf_text {
            Some(t) => {
                let g = groups_or_none(regex_first_groups(library_pattern(), t@));
                candidates(steam_root@, g, g.len() as int)
            },
            None => seq![steamapps_of(steam_root@)],
        },
{
    let groups: Vec<Option<String>> = match vdf_text {
        Some(t) => match first_groups("path\"\\s*\"([^\"]+)", t) {
            Some(g) => g,
            None => Vec::new(),
        },
        None => Vec::new(),
    };
    candidates_from(steam_root, &groups)
}

/// The first `n` candidates that are kept: the first one always, each other one
/// where its flag is set.
pub open spec fn kept(cands: Seq<Seq<char>>, flags: Seq<bool>, n: int) -> Seq<Seq<char>>
    decreases n,
{
    if n <= 0 {
        Seq::empty()
    } else if n == 1 || present_at(flags, n - 1) {
        kept(cands, flags, n - 1).push(cands[n - 1])
    } else {
        kept(cands, flags, n - 1)
    }
}

/// The libraries to search: the Steam root's own, and each further candidate
/// that was found on disk. `present` holds one flag per candidate.
pub fn parse_libraryfolders(cands: &Vec<String>, present: &Vec<bool>) -> (libs: Vec<String>)
    ensures
        texts(libs@) == kept(texts(cands@), present@, cands@.len() as int),
{
    let mut libs: Vec<String> = Vec::new();
    let mut i: usize = 0;
    proof {
        assert(texts(libs@) =~= kept(texts(cands@), present@, 0));
    }
    while i < cands.len()
        invariant
            i <= cands.len(),
            texts(libs@) == kept(texts(cands@), present@, i as int),
        decreases cands.len() - i,
    {
        let ghost before = texts(libs@);
        if i == 0 || flag_at(present, i) {
            libs.push(cands[i].clone());
            proof {
                assert(texts(libs@) =~= before.push(texts(cands@)[i as int]));
            }
        }
        i += 1;
    }
    libs
}

/// Where a library keeps the workshop item `id` of the game.
pub open spec fn workshop_item_in(lib: Seq<char>, id: Seq<char>) -> Seq<char> {
    joined(joined(joined(joined(lib, "workshop"@), "content"@), "108600"@), id)
}

/// The path of workshop item `workshop_id` below the library `lib`.
pub fn workshop_item_path(lib: &str, workshop_id: &str) -> (out: String)
    ensures
        out@ == workshop_item_in(lib@, workshop_id@),
{
    let a = join(lib, "workshop");
    let b = join(a.as_str(), "content");
    let c = join(b.as_str(), "108600");
    join(c.as_str(), workshop_id)
}

/// The workshop item in the first library that holds it, written with
/// backslashes. `present` holds one flag per library: whether
/// `workshop_item_path` of it exists.
pub fn find_workshop_item(libs: &Vec<String>, workshop_id: &str, present: &Vec<bool>) -> (out:
    Option<String>)
    ensures
        match out {
            Some(s) => exists|i: int|
                0 <= i < libs@.len() && present_at(present@, i) && (forall|j: int|
                    0 <= j < i ==> !present_at(present@, j)) && s@ == backslashed(
                    workshop_item_in(#[trigger] libs@[i]@, workshop_id@),
                ),
            None => forall|i: int| 0 <= i < libs@.len() ==> !present_at(present@, i),
        },
{
    let mut i: usize = 0;
    while i < libs.len()
        invariant
            i <= libs.len(),
            forall|j: int| 0 <= j < i ==> !present_at(present@, j),
        decreases libs.len() - i,
    {
        if flag_at(present, i) {
            let p = workshop_item_path(libs[i].as_str(), workshop_id);
            return Some(to_backslashes(p.as_str()));
        }
        i += 1;
    }
    None
}

/// Where a library keeps the installed game.
pub open spec fn install_dir_in(lib: Seq<char>) -> Seq<char> {
    joined(joined(lib, "common"@), "ProjectZomboid"@)
}

/// The install directory of the game below the library `lib`.
pub fn install_dir_path(lib: &str) -> (out: String)
    ensures
        out@ == install_dir_in(lib@),
{
    let a = join(lib, "common");
    join(a.as_str(), "ProjectZomboid")
}

/// The game's install directory in the first library that holds it. `present`
/// holds one flag per library: whether `install_dir_path` of it exists.
pub fn pz_install_dir(libs: &Vec<String>, present: &Vec<bool>) -> (out: Option<String>)
    ensures
        match out {
            Some(s) => exists|i: int|
                0 <= i < libs@.len() && present_at(present@, i) && (forall|j: int|
                    0 <= j < i ==> !present_at(present@, j)) && s@ == install_dir_in(
                    #[trigger] libs@[i]@,
                ),
            None => forall|i: int| 0 <= i < libs@.len() ==> !present_at(present@, i),
        },
{
    let mut i: usize = 0;
    while i < libs.len()
        invariant
            i <= libs.len(),
            forall|j: int| 0 <= j < i ==> !present_at(present@, j),
        decreases libs.len() - i,
    {
        if flag_at(present, i) {
            return Some(install_dir_path(libs[i].as_str()));
        }
        i += 1;
    }
    None
}

/// The file by which a library shows that the game is installed in it.
pub fn app_manifest_path(lib: &str) -> (out: String)
    ensures
        out@ == joined(lib@, "appmanifest_108600.acf"@),
{
    join(lib, "appmanifest_108600.acf")
}

/// The cache directory that the mod pack keeps inside its workshop folder.
pub open spec fn zomboid_root_in(workshop: Seq<char>) -> Seq<char> {
    joined(joined(joined(workshop, "mods"@), "13thPandemic"@), "Zomboid"@)
}

/// The game's cache directory inside the workshop item at `real_workshop_path`.
pub fn workshop_zomboid_root(real_workshop_path: &str) -> (out: String)
    ensures
        out@ == zomboid_root_in(real_workshop_path@),
{
    let a = join(real_workshop_path, "mods");
    let b = join(a.as_str(), "13thPandemic");
    join(b.as_str(), "Zomboid")
}

/// The payload tree that the mod pack ships for the install directory.
pub open spec fn payload_root_in(workshop: Seq<char>) -> Seq<char> {
    joined(joined(joined(workshop, "mods"@), "13thPandemic"@), "ProjectZomboid"@)
}

/// The payload tree inside the workshop item at `workshop_path`.
pub fn payload_root(workshop_path: &str) -> (out: String)
    ensures
        out@ == payload_root_in(workshop_path@),
{
    let a = join(workshop_path, "mods");
    let b = join(a.as_str(), "13thPandemic");
    join(b.as_str(), "ProjectZomboid")
}

/// The Steam address of a workshop item's community page.
pub fn community_page_url(workshop_id: &str) -> (url: String)
    ensures
        url@ == "steam://url/CommunityFilePage/"@ + workshop_id@,
{
    let mut url = String::from_str("steam://url/CommunityFilePage/");
    url.append(workshop_id);
    url
}

/// Whether the workshop page has to be shown: the game is installed but the
/// item's folder is unknown or gone.
pub fn needs_subscription(installed: bool, workshop_path: &str, on_disk: bool) -> (show: bool)
    ensures
        show == (installed && (workshop_path@.len() == 0 || !on_disk)),
{
    installed && (workshop_path.unicode_len() == 0 || !on_disk)
}

/// The two trees of a synchronisation of the mod pack's payload.
#[derive(Debug)]
pub struct Roots {
    /// The payload inside the workshop item.
    pub source: String,
    /// The game's install directory.
    pub dest: String,
}

/// Settles where the payload is copied from and to. It is refused as not found
/// where the workshop path is empty, the payload tree is not on disk, or no
/// install directory is known. `source_on_disk` says whether `payload_root` of
/// the workshop path exists.
pub fn payload_roots(workshop_path: &str, source_on_disk: bool, install_dir: Option<String>) -> (out:
    Result<Roots, EngineError>)
    ensures
        match out {
            Ok(r) => workshop_path@.len() > 0 && source_on_disk && install_dir is Some && r.source@
                == payload_root_in(workshop_path@) && r.dest@ == install_dir.unwrap()@,
            Err(e) => e == EngineError::NotFound && (workshop_path@.len() == 0 || !source_on_disk
                || install_dir is None),
        },
{
    if workshop_path.unicode_len() == 0 || !source_on_disk {
        return Err(EngineError::NotFound);
    }
    match install_dir {
        Some(dest) => Ok(Roots { source: payload_root(workshop_path), dest }),
        None => Err(EngineError::NotFound),
    }
}

} // verus!

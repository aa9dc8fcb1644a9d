use pz_launcher::discovery::{
    community_page_url, find_workshop_item, library_candidates, needs_subscription,
    parse_libraryfolders, payload_root, pz_install_dir, steam_root_or_default,
    workshop_item_path, workshop_zomboid_root,
};

#[test]
fn default_root_is_used_when_registry_is_silent() {
    assert_eq!(steam_root_or_default(None), "C:/Program Files (x86)/Steam");
    assert_eq!(steam_root_or_default(Some("D:/Steam".to_string())), "D:/Steam");
}

#[test]
fn candidates_come_from_the_library_file() {
    let vdf = "\"libraryfolders\"\n{\n\t\"0\"\n\t{\n\t\t\"path\"\t\t\"C:\\\\Steam\"\n\t}\n\t\"1\"\n\t{\n\t\t\"path\"\t\t\"D:\\\\Games\"\n\t}\n}\n";
    let got = library_candidates("C:/Steam", Some(vdf));
    assert_eq!(
        got,
        vec![
            "C:/Steam/steamapps".to_string(),
            "C:\\\\Steam/steamapps".to_string(),
            "D:\\\\Games/steamapps".to_string(),
        ]
    );
}

#[test]
fn candidates_without_a_library_file() {
    assert_eq!(library_candidates("C:/Steam/", None), vec!["C:/Steam/steamapps".to_string()]);
}

#[test]
fn first_library_is_kept_unprobed() {
    let cands = vec!["a".to_string(), "b".to_string(), "c".to_string()];
    assert_eq!(
        parse_libraryfolders(&cands, &vec![false, false, true]),
        vec!["a".to_string(), "c".to_string()]
    );
    assert_eq!(parse_libraryfolders(&cands, &vec![]), vec!["a".to_string()]);
}

#[test]
fn workshop_item_is_found_in_first_library_that_has_it() {
    let libs = vec!["C:/Steam/steamapps".to_string(), "D:/Lib/steamapps".to_string()];
    assert_eq!(
        workshop_item_path("D:/Lib/steamapps", "42"),
        "D:/Lib/steamapps/workshop/content/108600/42"
    );
    assert_eq!(
        find_workshop_item(&libs, "42", &vec![false, true]),
        Some("D:\\Lib\\steamapps\\workshop\\content\\108600\\42".to_string())
    );
    assert_eq!(
        find_workshop_item(&libs, "42", &vec![true, true]),
        Some("C:\\Steam\\steamapps\\workshop\\content\\108600\\42".to_string())
    );
    assert_eq!(find_workshop_item(&libs, "42", &vec![false, false]), None);
}

#[test]
fn install_dir_is_found_in_first_library_that_has_it() {
    let libs = vec!["C:/Steam/steamapps".to_string(), "D:/Lib/steamapps".to_string()];
    assert_eq!(
        pz_install_dir(&libs, &vec![false, true]),
        Some("D:/Lib/steamapps/common/ProjectZomboid".to_string())
    );
    assert_eq!(pz_install_dir(&libs, &vec![false]), None);
}

#[test]
fn mod_pack_directories() {
    assert_eq!(workshop_zomboid_root("W"), "W/mods/13thPandemic/Zomboid");
    assert_eq!(payload_root("W\\"), "W\\mods/13thPandemic/ProjectZomboid");
}

#[test]
fn community_page() {
    assert_eq!(community_page_url("123"), "steam://url/CommunityFilePage/123");
}

#[test]
fn subscription_prompt() {
    assert!(needs_subscription(true, "", true));
    assert!(needs_subscription(true, "x", false));
    assert!(!needs_subscription(true, "x", true));
    assert!(!needs_subscription(false, "", false));
}

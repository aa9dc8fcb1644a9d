use pz_launcher::discovery::{app_manifest_path, payload_roots};
use pz_launcher::error::EngineError;
use pz_launcher::launch::{
    check_path, is_process, is_running, launch_arguments, steam_executable, watch_start,
    watch_step, Watch, START_POLLS,
};
use pz_launcher::walk::TreeWalk;

#[test]
fn steam_is_started_with_the_game_and_the_server() {
    assert_eq!(steam_executable("C:/Steam"), "C:/Steam/steam.exe");
    assert_eq!(
        launch_arguments("108600", "W:/item/mods/13thPandemic/Zomboid"),
        vec![
            "-applaunch".to_string(),
            "108600".to_string(),
            "-cachedir=W:\\item\\mods\\13thPandemic\\Zomboid".to_string(),
            "-connect=pz.13thpandemic.net".to_string(),
            "-port=16261".to_string(),
        ]
    );
}

#[test]
fn process_names_ignore_case() {
    assert!(is_process("Steam.EXE", "steam.exe"));
    assert!(is_process("ProjectZomboid64.exe", "projectzomboid64.EXE"));
    assert!(!is_process("steam", "steam.exe"));
    let names = vec!["explorer.exe".to_string(), "STEAM.exe".to_string()];
    assert!(is_running(&names, "steam.exe"));
    assert!(!is_running(&names, "ProjectZomboid64.exe"));
    assert!(!is_running(&Vec::new(), "steam.exe"));
}

#[test]
fn empty_path_is_not_opened() {
    assert_eq!(check_path(""), Err(EngineError::NotFound));
    assert_eq!(check_path("x"), Ok(()));
}

#[test]
fn watch_gives_up_after_ten_looks() {
    assert_eq!(START_POLLS, 10);
    let mut state = watch_start();
    assert_eq!(state, Watch::Waiting { polls: 0 });
    let mut looks = 0;
    let mut slept = 0;
    while !matches!(state, Watch::Ended { .. }) {
        let (next, pause) = watch_step(state, false);
        state = next;
        looks += 1;
        slept += pause;
    }
    assert_eq!(looks, 10);
    assert_eq!(slept, 10);
    assert_eq!(state, Watch::Ended { found: false });
}

#[test]
fn watch_follows_the_game_until_it_ends() {
    let (state, pause) = watch_step(Watch::Waiting { polls: 3 }, false);
    assert_eq!((state, pause), (Watch::Waiting { polls: 4 }, 1));
    let (state, pause) = watch_step(state, true);
    assert_eq!((state, pause), (Watch::Running, 0));
    let (state, pause) = watch_step(state, true);
    assert_eq!((state, pause), (Watch::Running, 2));
    let (state, pause) = watch_step(state, false);
    assert_eq!((state, pause), (Watch::Ended { found: true }, 0));
    let (state, pause) = watch_step(state, true);
    assert_eq!((state, pause), (Watch::Ended { found: true }, 0));
    assert_eq!(watch_step(Watch::Waiting { polls: 9 }, true), (Watch::Running, 0));
    assert_eq!(watch_step(Watch::Waiting { polls: 200 }, false), (Watch::Ended { found: false }, 1));
}

#[test]
fn walk_reads_directories_last_in_first_out() {
    let mut walk = TreeWalk::start("root");
    assert_eq!(walk.next_dir(), Some("root".to_string()));
    walk.found("root/a".to_string(), true);
    walk.found("root/x.txt".to_string(), false);
    walk.found("root/b".to_string(), true);
    assert_eq!(walk.next_dir(), Some("root/b".to_string()));
    walk.found("root/b/y.txt".to_string(), false);
    assert_eq!(walk.next_dir(), Some("root/a".to_string()));
    assert_eq!(walk.next_dir(), None);
    assert_eq!(walk.next_dir(), None);
    assert_eq!(
        walk.into_files(),
        vec!["root/x.txt".to_string(), "root/b/y.txt".to_string()]
    );
}

#[test]
fn payload_roots_need_everything_in_place() {
    assert_eq!(app_manifest_path("L"), "L/appmanifest_108600.acf");
    let ok = payload_roots("W", true, Some("G".to_string())).unwrap();
    assert_eq!(ok.source, "W/mods/13thPandemic/ProjectZomboid");
    assert_eq!(ok.dest, "G");
    assert_eq!(payload_roots("", true, Some("G".to_string())).unwrap_err(), EngineError::NotFound);
    assert_eq!(payload_roots("W", false, Some("G".to_string())).unwrap_err(), EngineError::NotFound);
    assert_eq!(payload_roots("W", true, None).unwrap_err(), EngineError::NotFound);
}

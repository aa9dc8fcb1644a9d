use pz_launcher::error::EngineError;
use pz_launcher::relocate::{
    destination_of, fallback_succeeded, location_of, relocate, restore, Override, Overrides,
};
use pz_launcher::world::{Action, Kind, World};

const ROOT: &str = "C:/ws/123";
const LOC: &str = "C:/ws/123/mods";

fn show(kind: Kind) -> String {
    format!("{:?}", kind)
}

fn shown(actions: &Vec<Action>) -> Vec<String> {
    actions.iter().map(|a| format!("{:?}", a)).collect()
}

fn run(world: &mut World, actions: &Vec<Action>) {
    for a in actions {
        assert!(world.carry_out(a), "{:?} could not be carried out", a);
    }
}

#[test]
fn occupied_destination_is_refused_and_nothing_is_planned() {
    let mut world = World::new();
    world.set(LOC, Kind::Dir { id: 1 });
    world.set("E:/big/mods", Kind::Dir { id: 2 });
    let out = relocate(&world, &Overrides::new(), ROOT, "mods", "E:/big");
    assert_eq!(out.unwrap_err(), EngineError::AlreadyExists);
    assert_eq!(show(world.kind(LOC)), "Dir { id: 1 }");
    assert_eq!(show(world.kind("E:/big/mods")), "Dir { id: 2 }");

    world.set("E:/big/mods", Kind::File);
    let out = relocate(&world, &Overrides::new(), ROOT, "mods", "E:/big");
    assert_eq!(out.unwrap_err(), EngineError::AlreadyExists);
}

#[test]
fn directory_moves_and_a_link_takes_its_place() {
    let mut world = World::new();
    world.set(LOC, Kind::Dir { id: 1 });
    let plan = relocate(&world, &Overrides::new(), ROOT, "mods", "E:/big").unwrap();
    assert_eq!(
        shown(&plan.actions),
        vec![
            format!("MoveDir {{ from: {:?}, to: {:?} }}", LOC, "E:/big/mods"),
            format!("CreateLink {{ link: {:?}, target: {:?} }}", LOC, "E:/big/mods"),
        ]
    );
    assert_eq!(plan.overrides.get("mods"), Some("E:/big/mods".to_string()));
    run(&mut world, &plan.actions);
    assert_eq!(show(world.kind(LOC)), "Link { target: \"E:/big/mods\" }");
    assert_eq!(show(world.kind("E:/big/mods")), "Dir { id: 1 }");
}

#[test]
fn relocated_directory_moves_on_and_the_link_follows() {
    let mut world = World::new();
    world.set(LOC, Kind::Link { target: "E:/big/mods".to_string() });
    world.set("E:/big/mods", Kind::Dir { id: 1 });
    let stored = Overrides::new().with("mods", "E:/big/mods");
    let plan = relocate(&world, &stored, ROOT, "mods", "F:/other/Mods").unwrap();
    assert_eq!(
        shown(&plan.actions),
        vec![
            format!("MoveDir {{ from: {:?}, to: {:?} }}", "E:/big/mods", "F:/other/Mods"),
            format!("RemoveLink {{ link: {:?} }}", LOC),
            format!("CreateLink {{ link: {:?}, target: {:?} }}", LOC, "F:/other/Mods"),
        ]
    );
    assert_eq!(plan.overrides.get("mods"), Some("F:/other/Mods".to_string()));
    run(&mut world, &plan.actions);
    assert_eq!(show(world.kind(LOC)), "Link { target: \"F:/other/Mods\" }");
    assert_eq!(show(world.kind("F:/other/Mods")), "Dir { id: 1 }");
    assert_eq!(show(world.kind("E:/big/mods")), "Absent");
}

#[test]
fn directory_that_is_in_place_stays() {
    let mut world = World::new();
    world.set(LOC, Kind::Link { target: "E:/Big/Mods".to_string() });
    world.set("E:/Big/Mods", Kind::Dir { id: 1 });
    let stored = Overrides::new().with("mods", "E:/Big/Mods");
    let plan = relocate(&world, &stored, ROOT, "mods", "e:/big").unwrap();
    assert!(plan.actions.is_empty());
    assert_eq!(plan.overrides.get("mods"), Some("E:/Big/Mods".to_string()));

    let plan = relocate(&world, &stored, ROOT, "mods", "e:/big/MODS").unwrap();
    assert!(plan.actions.is_empty());
}

#[test]
fn missing_directory_cannot_move() {
    let world = World::new();
    let out = relocate(&world, &Overrides::new(), ROOT, "mods", "E:/big");
    assert_eq!(out.unwrap_err(), EngineError::NotFound);

    let mut dangling = World::new();
    dangling.set(LOC, Kind::Link { target: "E:/gone".to_string() });
    let out = relocate(&dangling, &Overrides::new(), ROOT, "mods", "F:/x");
    assert_eq!(out.unwrap_err(), EngineError::NotFound);
}

#[test]
fn restore_follows_the_link() {
    let mut world = World::new();
    world.set(LOC, Kind::Link { target: "E:/big/mods".to_string() });
    world.set("E:/big/mods", Kind::Dir { id: 1 });
    let stored = Overrides::new().with("mods", "E:/big/mods").with("other", "X:/y");
    let plan = restore(&world, &stored, ROOT, "mods").unwrap();
    assert_eq!(
        shown(&plan.actions),
        vec![
            format!("RemoveLink {{ link: {:?} }}", LOC),
            format!("MoveDir {{ from: {:?}, to: {:?} }}", "E:/big/mods", LOC),
        ]
    );
    assert_eq!(plan.overrides.get("mods"), None);
    assert_eq!(plan.overrides.get("other"), Some("X:/y".to_string()));
    run(&mut world, &plan.actions);
    assert_eq!(show(world.kind(LOC)), "Dir { id: 1 }");
    assert_eq!(show(world.kind("E:/big/mods")), "Absent");
}

#[test]
fn restore_falls_back_on_the_override_store() {
    let mut world = World::new();
    world.set("E:/big/mods", Kind::Dir { id: 1 });
    let stored = Overrides::new().with("mods", "E:/big/mods");
    let plan = restore(&world, &stored, ROOT, "mods").unwrap();
    assert_eq!(
        shown(&plan.actions),
        vec![format!("MoveDir {{ from: {:?}, to: {:?} }}", "E:/big/mods", LOC)]
    );
    assert_eq!(plan.overrides.get("mods"), None);
}

#[test]
fn restore_fails_when_the_directory_cannot_be_found() {
    let world = World::new();
    let out = restore(&world, &Overrides::new(), ROOT, "mods");
    assert_eq!(out.unwrap_err(), EngineError::NotFound);

    let stored = Overrides::new().with("mods", "E:/gone");
    let out = restore(&world, &stored, ROOT, "mods");
    assert_eq!(out.unwrap_err(), EngineError::NotFound);
}

#[test]
fn restore_fails_when_the_original_location_is_occupied() {
    let mut world = World::new();
    world.set(LOC, Kind::Dir { id: 9 });
    world.set("E:/big/mods", Kind::Dir { id: 1 });
    let stored = Overrides::new().with("mods", "E:/big/mods");
    let out = restore(&world, &stored, ROOT, "mods");
    assert_eq!(out.unwrap_err(), EngineError::AlreadyExists);
}

#[test]
fn relocate_and_restore_cancel_out() {
    let mut world = World::new();
    world.set(LOC, Kind::Dir { id: 1 });
    let there = relocate(&world, &Overrides::new(), ROOT, "mods", "E:/big").unwrap();
    run(&mut world, &there.actions);
    let back = restore(&world, &there.overrides, ROOT, "mods").unwrap();
    run(&mut world, &back.actions);
    assert_eq!(show(world.kind(LOC)), "Dir { id: 1 }");
    assert_eq!(show(world.kind("E:/big/mods")), "Absent");
    assert_eq!(back.overrides.get("mods"), None);
    assert!(back.overrides.entries().is_empty());
}

#[test]
fn low_exit_codes_of_the_copy_count_as_success() {
    assert!(fallback_succeeded(0));
    assert!(fallback_succeeded(1));
    assert!(fallback_succeeded(7));
    assert!(!fallback_succeeded(8));
    assert!(!fallback_succeeded(16));
    assert!(!fallback_succeeded(-1));
}

#[test]
fn override_store_keeps_one_path_per_identifier() {
    let store = Overrides::new().with("a", "1").with("b", "2").with("a", "3");
    assert_eq!(store.get("a"), Some("3".to_string()));
    assert_eq!(store.get("b"), Some("2".to_string()));
    assert_eq!(store.get("c"), None);
    assert_eq!(store.entries().len(), 2);
    let less = store.without("a");
    assert_eq!(less.get("a"), None);
    assert_eq!(less.get("b"), Some("2".to_string()));
    let copy = store.duplicate();
    assert_eq!(copy.get("a"), Some("3".to_string()));

    let loaded = Overrides::from_entries(vec![
        Override { id: "x".to_string(), path: "old".to_string() },
        Override { id: "x".to_string(), path: "new".to_string() },
    ]);
    assert_eq!(loaded.get("x"), Some("new".to_string()));
}

#[test]
fn destination_is_named_for_the_identifier() {
    assert_eq!(location_of("C:/ws/123", "mods"), "C:/ws/123/mods");
    assert_eq!(destination_of("E:/big", "mods"), "E:/big/mods");
    assert_eq!(destination_of("E:/big/Mods", "mods"), "E:/big/Mods");
    assert_eq!(destination_of("E:/big/mods/", "mods"), "E:/big/mods/mods");
    assert_eq!(destination_of("mods", "mods"), "mods");
}

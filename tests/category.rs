use rating_service::category::{is_strafe_weapons, map_matches_category, MapInfo};

fn map(weapons: &str, functions: &str) -> MapInfo {
    MapInfo { name: "m".to_string(), weapons: weapons.to_string(), functions: functions.to_string() }
}

#[test]
fn strafe_accepts_empty_weapons() {
    assert!(map_matches_category(&map("", ""), "strafe"));
}

#[test]
fn strafe_accepts_machinegun_and_shotgun() {
    assert!(map_matches_category(&map("mg,sg", ""), "strafe"));
}

#[test]
fn strafe_rejects_rocket() {
    assert!(!map_matches_category(&map("mg,rl", ""), "strafe"));
}

#[test]
fn strafe_ignores_case_spaces_and_empty_tokens() {
    assert!(is_strafe_weapons(" MG , Gt,,sg "));
    assert!(is_strafe_weapons(","));
    assert!(!is_strafe_weapons("m g"));
    assert!(!is_strafe_weapons("mgx"));
}

#[test]
fn weapon_categories_use_substrings() {
    let m = map("rl,pg,gl", "");
    assert!(map_matches_category(&m, "rocket"));
    assert!(map_matches_category(&m, "rl"));
    assert!(map_matches_category(&m, "plasma"));
    assert!(map_matches_category(&m, "grenade"));
    assert!(!map_matches_category(&m, "bfg"));
    assert!(map_matches_category(&map("bfg", ""), "bfg"));
    assert!(!map_matches_category(&map("pg", ""), "rl"));
}

#[test]
fn function_categories_read_function_tags() {
    let m = map("rl", "slick,tele");
    assert!(map_matches_category(&m, "slick"));
    assert!(map_matches_category(&m, "tele"));
    assert!(!map_matches_category(&map("slick", ""), "slick"));
}

#[test]
fn overall_and_unknown_categories_admit_every_map() {
    assert!(map_matches_category(&map("rl", ""), "overall"));
    assert!(map_matches_category(&map("rl", ""), "something"));
}

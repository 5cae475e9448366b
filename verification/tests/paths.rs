use script_copy::paths::{scripts_root, target_dir, target_path};

#[test]
fn target_file_stands_under_root_and_project() {
    assert_eq!(target_path("R", "Foo"), "R/Foo/script.cs");
}

#[test]
fn target_dir_is_root_and_project() {
    assert_eq!(target_dir("R", "Foo"), "R/Foo");
}

#[test]
fn target_path_extends_target_dir() {
    let dir = target_dir("R", "Foo");
    let file = target_path("R", "Foo");
    assert_eq!(file, format!("{}/script.cs", dir));
}

#[test]
fn scripts_root_appends_fixed_subpath() {
    assert_eq!(
        scripts_root("C:\\Users\\me\\AppData\\Roaming"),
        "C:\\Users\\me\\AppData\\Roaming\\SpaceEngineers\\IngameScripts\\local"
    );
}

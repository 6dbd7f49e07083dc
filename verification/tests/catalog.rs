use pocket_decor::catalog::{dropdown_labels, is_model_file, model_asset_path, model_asset_paths, model_label};

fn strings(v: &[&str]) -> Vec<String> {
    v.iter().map(|s| s.to_string()).collect()
}

#[test]
fn model_files_are_the_obj_files() {
    assert!(is_model_file("chair.obj"));
    assert!(is_model_file("a.obj"));
    assert!(is_model_file("..obj"));
    assert!(is_model_file("table.v2.obj"));
    assert!(!is_model_file(".obj"));
    assert!(!is_model_file("obj"));
    assert!(!is_model_file("chair.OBJ"));
    assert!(!is_model_file("chair.obj.bak"));
    assert!(!is_model_file("chair.mtl"));
    assert!(!is_model_file(""));
}

#[test]
fn asset_path_is_under_models() {
    assert_eq!(model_asset_path("chair.obj"), "models/chair.obj");
    assert_eq!(model_asset_path(""), "models/");
}

#[test]
fn loader_keeps_obj_files_in_order() {
    let names = strings(&["lamp.obj", "lamp.mtl", "readme.txt", ".obj", "sofa.obj", "desk.obj"]);
    assert_eq!(
        model_asset_paths(&names),
        strings(&["models/lamp.obj", "models/sofa.obj", "models/desk.obj"])
    );
    assert_eq!(model_asset_paths(&Vec::new()), Vec::<String>::new());
    assert_eq!(model_asset_paths(&strings(&["a.png"])), Vec::<String>::new());
}

#[test]
fn label_is_file_stem() {
    assert_eq!(model_label(Some("models/chair.obj")), "chair");
    assert_eq!(model_label(Some("models/table.v2.obj")), "table.v2");
    assert_eq!(model_label(Some("models/.hidden")), ".hidden");
    assert_eq!(model_label(Some("models/noext")), "noext");
    assert_eq!(model_label(Some("models/trailing.")), "trailing");
    assert_eq!(model_label(Some("a/b/")), "b");
    assert_eq!(model_label(Some("a/b/.")), "b");
    assert_eq!(model_label(Some("a//b.tar.gz")), "b.tar");
    assert_eq!(model_label(Some("./x.obj")), "x");
    assert_eq!(model_label(Some("sofa.obj")), "sofa");
    assert_eq!(model_label(None), "Unknown Model");
}

#[test]
fn dropdown_lists_one_label_per_model() {
    let paths = vec![Some("models/lamp.obj".to_string()), None, Some("models/sofa.obj".to_string())];
    assert_eq!(dropdown_labels(&paths), strings(&["lamp", "Unknown Model", "sofa"]));
    assert_eq!(dropdown_labels(&Vec::new()), Vec::<String>::new());
}

#[test]
fn loaded_model_is_labelled_by_its_name() {
    let names = strings(&["arm chair.obj", "x.y.obj", "notes.txt"]);
    let paths = model_asset_paths(&names);
    let labels = dropdown_labels(&paths.into_iter().map(Some).collect());
    assert_eq!(labels, strings(&["arm chair", "x.y"]));
}

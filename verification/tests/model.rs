use mslicer::model::{models_to_slice, next_id, Model, ModelUi, RenameState};
use mslicer::printer::selected_printer;
use mslicer::warnings::MeshWarnings;

#[test]
fn ids_count_up_and_wrap() {
    let mut counter = 5;
    assert_eq!(next_id(&mut counter), 5);
    assert_eq!(next_id(&mut counter), 6);
    assert_eq!(counter, 7);
    let mut counter = u32::MAX;
    assert_eq!(next_id(&mut counter), u32::MAX);
    assert_eq!(next_id(&mut counter), 0);
}

#[test]
fn model_ui_default() {
    let ui = ModelUi::default();
    assert!(!ui.toggle);
    assert_eq!(ui.rename, RenameState::Idle);
    assert!(ui.locked_scale);
}

#[test]
fn new_model_defaults() {
    let mut counter = 10;
    let model = Model::from_mesh("mesh", &mut counter);
    assert_eq!(model.id, 10);
    assert_eq!(counter, 11);
    assert_eq!(model.name, "");
    assert_eq!(model.warnings, MeshWarnings::empty());
    assert!(model.overhangs.is_none());
    assert!(!model.hidden);
    assert!(model.parent_model_id.is_none());
    assert_eq!(model.geometry, "mesh");
}

#[test]
fn builders_set_one_field() {
    let mut counter = 0;
    let model = Model::from_mesh(1u8, &mut counter)
        .with_name("cube".to_string())
        .with_hidden(true)
        .with_parent_model_id(42);
    assert_eq!(model.name, "cube");
    assert!(model.hidden);
    assert_eq!(model.parent_model_id, Some(42));
    assert_eq!(model.id, 0);
}

#[test]
fn clone_gets_fresh_id() {
    let mut counter = 0;
    let mut model = Model::from_mesh(vec![1, 2, 3], &mut counter).with_name("a".to_string());
    model.overhangs = Some(vec![4, 5]);
    model.set_out_of_bounds(true);
    let copy = model.clone_with_new_id(&mut counter);
    assert_eq!(copy.id, 1);
    assert_ne!(copy.id, model.id);
    assert_eq!(copy.name, "a");
    assert_eq!(copy.geometry, vec![1, 2, 3]);
    assert_eq!(copy.overhangs, Some(vec![4, 5]));
    assert_eq!(copy.warnings, model.warnings);
}

#[test]
fn out_of_bounds_flag_keeps_other_warnings() {
    let mut counter = 0;
    let mut model = Model::from_mesh((), &mut counter);
    model.warnings.set(MeshWarnings::non_manifold(), true);
    model.set_out_of_bounds(true);
    assert!(model.warnings.contains(MeshWarnings::out_of_bounds()));
    assert!(model.warnings.contains(MeshWarnings::non_manifold()));
    assert_eq!(model.warnings.bits(), 3);
    model.set_out_of_bounds(false);
    assert!(!model.warnings.contains(MeshWarnings::out_of_bounds()));
    assert!(model.warnings.contains(MeshWarnings::non_manifold()));
    assert_eq!(model.warnings.bits(), 1);
}

#[test]
fn warnings_set_and_contains() {
    let mut w = MeshWarnings::empty();
    assert!(!w.contains(MeshWarnings::non_manifold()));
    assert!(w.contains(MeshWarnings::empty()));
    w.set(MeshWarnings::out_of_bounds(), true);
    assert_eq!(w.bits(), 2);
    w.set(MeshWarnings::out_of_bounds(), true);
    assert_eq!(w.bits(), 2);
    w.set(MeshWarnings::non_manifold(), false);
    assert_eq!(w.bits(), 2);
    w.set(MeshWarnings::out_of_bounds(), false);
    assert_eq!(w, MeshWarnings::empty());
}

#[test]
fn slicing_takes_visible_models() {
    let mut counter = 0;
    let models = vec![
        Model::from_mesh((), &mut counter),
        Model::from_mesh((), &mut counter).with_hidden(true),
        Model::from_mesh((), &mut counter),
    ];
    assert_eq!(models_to_slice(&models), Some(vec![0, 2]));
}

#[test]
fn nothing_to_slice() {
    let mut counter = 0;
    let models = vec![Model::from_mesh((), &mut counter).with_hidden(true)];
    assert_eq!(models_to_slice(&models), None);
    assert_eq!(models_to_slice::<()>(&Vec::new()), None);
}

#[test]
fn printer_selection() {
    assert_eq!(selected_printer(&vec![false, true, true]), 2);
    assert_eq!(selected_printer(&vec![true]), 1);
    assert_eq!(selected_printer(&vec![false, false]), 0);
    assert_eq!(selected_printer(&Vec::new()), 0);
}

#[test]
fn window_titles() {
    assert_eq!(mslicer::window::window_title(Some("bracket")), "mslicer - bracket");
    assert_eq!(mslicer::window::window_title(Some("")), "mslicer - ");
    assert_eq!(mslicer::window::window_title(None), "mslicer");
}

use academy::model::TrainingModel;

#[test]
fn training_model_wraps_model() {
    let m: TrainingModel<u32, ()> = TrainingModel::new(7);
    assert_eq!(m.0, 7);
}

use argus_kv::descriptor::{
    descriptor_names, descriptor_self_test, engine_intrinsic, technique_descriptors,
    validate_occupancy, KvAxis, KvTechniqueDescriptor, MutationPhase, TensorKind,
};

fn entry(
    name: &'static str,
    axis: KvAxis,
    reads: Vec<TensorKind>,
    produces: Vec<TensorKind>,
) -> KvTechniqueDescriptor {
    KvTechniqueDescriptor { name, axis, phase: MutationPhase::KvMutate, reads, produces }
}

#[test]
fn descriptor_names_match_the_seven_technique_matrix() {
    let mut got = descriptor_names();
    got.sort_unstable();
    let mut want = vec!["attn_score", "d2o", "h2o", "h2o_plus", "quest", "sliding", "streaming"];
    want.sort_unstable();
    assert_eq!(got, want);
}

#[test]
fn live_map_satisfies_occupancy() {
    assert_eq!(validate_occupancy(&technique_descriptors(), &engine_intrinsic()), Ok(()));
    descriptor_self_test();
}

#[test]
fn orphan_read_is_rejected_then_satisfied_by_a_producer() {
    let orphaned = vec![entry("ghost", KvAxis::Stage, vec![TensorKind::Scores], vec![])];
    assert!(validate_occupancy(&orphaned, &vec![TensorKind::Key]).is_err());

    let with_producer = vec![
        entry("ghost", KvAxis::Stage, vec![TensorKind::Scores], vec![]),
        entry("source", KvAxis::Score, vec![], vec![TensorKind::Scores]),
    ];
    assert_eq!(validate_occupancy(&with_producer, &vec![TensorKind::Key]), Ok(()));
}

#[test]
fn the_first_orphan_is_named() {
    let list = vec![
        entry("fine", KvAxis::Stage, vec![TensorKind::Key], vec![]),
        entry("first", KvAxis::Stage, vec![TensorKind::Key, TensorKind::Query], vec![]),
        entry("second", KvAxis::Stage, vec![TensorKind::Value], vec![]),
    ];
    assert_eq!(
        validate_occupancy(&list, &vec![TensorKind::Key]),
        Err("technique 'first' reads Query which no descriptor produces and is not \
             engine-intrinsic (orphan read)"
            .to_string())
    );
}

#[test]
fn quest_reads_the_key_and_the_query() {
    let list = technique_descriptors();
    let quest = list.iter().find(|d| d.name == "quest").unwrap();
    assert_eq!(quest.axis, KvAxis::Read);
    assert_eq!(quest.reads, vec![TensorKind::Key, TensorKind::Query]);
    assert_eq!(list.len(), 7);
    for d in &list {
        assert_eq!(d.phase, MutationPhase::KvMutate);
    }
}

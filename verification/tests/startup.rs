//! Starting up.

use ai_graph_engine::startup::{after_probe, get_arg, AfterProbe};

#[test]
fn probes_stop_at_the_tenth() {
    assert!(matches!(after_probe(1, true), AfterProbe::Proceed));
    assert!(matches!(after_probe(1, false), AfterProbe::Wait { secs: 2 }));
    assert!(matches!(after_probe(9, false), AfterProbe::Wait { secs: 2 }));
    assert!(matches!(after_probe(10, false), AfterProbe::Unreachable));
    assert!(matches!(after_probe(10, true), AfterProbe::Proceed));
}

#[test]
fn arguments_stand_behind_their_flags() {
    let args: Vec<String> =
        ["ingest", "--input", "a.json", "--input", "b.json", "--data-dir"].map(String::from).into();
    assert_eq!(get_arg(&args, "--input"), Some("a.json".to_string()));
    assert_eq!(get_arg(&args, "--data-dir"), None);
    assert_eq!(get_arg(&args, "--other"), None);
    assert_eq!(get_arg(&vec![], "--input"), None);
}

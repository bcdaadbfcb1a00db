use topology::{DataType, Graph};

fn s(v: &str) -> String {
    v.to_string()
}

#[test]
fn empty_graph_passes_every_check() {
    let graph = Graph::default();
    assert_eq!(Ok(Vec::<Vec<String>>::new()), graph.paths());
    assert_eq!(Ok(()), graph.typecheck());
    assert_eq!(Ok(()), graph.check_inputs());
}

#[test]
fn paths_run_from_source_to_sink() {
    let mut graph = Graph::default();
    graph.add_source("in", DataType::Log);
    graph.add_transform("mid", DataType::Log, DataType::Log, vec!["in"]);
    graph.add_sink("out", DataType::Log, vec!["mid"]);
    assert_eq!(Ok(vec![vec![s("in"), s("mid"), s("out")]]), graph.paths());
}

#[test]
fn diamond_paths_are_all_listed() {
    let mut graph = Graph::default();
    graph.add_source("in", DataType::Log);
    graph.add_transform("one", DataType::Log, DataType::Log, vec!["in"]);
    graph.add_transform("two", DataType::Log, DataType::Log, vec!["in"]);
    graph.add_transform("three", DataType::Log, DataType::Log, vec!["one", "two"]);
    graph.add_sink("out", DataType::Log, vec!["three"]);
    assert_eq!(
        Ok(vec![
            vec![s("in"), s("one"), s("three"), s("out")],
            vec![s("in"), s("two"), s("three"), s("out")],
        ]),
        graph.paths()
    );
    assert_eq!(Ok(()), graph.typecheck());
    assert_eq!(Ok(()), graph.check_inputs());
}

#[test]
fn sink_without_inputs_has_no_paths() {
    let mut graph = Graph::default();
    graph.add_sink("out", DataType::Log, vec![]);
    assert_eq!(Ok(Vec::<Vec<String>>::new()), graph.paths());
}

#[test]
fn dangling_reference_ends_a_path_and_is_reported_by_check_inputs() {
    let mut graph = Graph::default();
    graph.add_transform("t", DataType::Log, DataType::Metric, vec!["missing"]);
    graph.add_sink("out", DataType::Metric, vec!["t"]);
    assert_eq!(Ok(vec![vec![s("missing"), s("t"), s("out")]]), graph.paths());
    assert_eq!(Ok(()), graph.typecheck());
    assert_eq!(
        Err(vec![s("Input \"missing\" for transform \"t\" doesn't match any components.")]),
        graph.check_inputs()
    );
}

#[test]
fn self_loop_is_reported_by_typecheck() {
    let mut graph = Graph::default();
    graph.add_transform("x", DataType::Log, DataType::Log, vec!["x"]);
    graph.add_sink("out", DataType::Log, vec!["x"]);
    assert_eq!(
        Err(vec![s("Cyclic dependency detected in the chain [ x -> x ]")]),
        graph.typecheck()
    );
}

#[test]
fn same_cycle_from_two_sinks_is_reported_once() {
    let mut graph = Graph::default();
    graph.add_transform("a", DataType::Log, DataType::Log, vec!["c"]);
    graph.add_transform("b", DataType::Log, DataType::Log, vec!["a"]);
    graph.add_transform("c", DataType::Log, DataType::Log, vec!["b"]);
    graph.add_sink("s1", DataType::Log, vec!["c"]);
    graph.add_sink("s2", DataType::Log, vec!["c"]);
    graph.add_sink("s3", DataType::Log, vec!["a"]);
    assert_eq!(
        Err(vec![
            s("Cyclic dependency detected in the chain [ a -> b -> c -> a ]"),
            s("Cyclic dependency detected in the chain [ c -> a -> b -> c ]"),
        ]),
        graph.typecheck()
    );
}

#[test]
fn mismatch_reached_twice_is_reported_once_and_sorted() {
    let mut graph = Graph::default();
    graph.add_source("s1", DataType::Log);
    graph.add_source("s2", DataType::Log);
    graph.add_source("m", DataType::Metric);
    graph.add_transform("t", DataType::Log, DataType::Log, vec!["s1", "s2"]);
    graph.add_sink("out", DataType::Metric, vec!["t"]);
    graph.add_sink("b_sink", DataType::Log, vec!["m"]);
    assert_eq!(
        Err(vec![
            s("Data type mismatch between m (Metric) and b_sink (Log)"),
            s("Data type mismatch between t (Log) and out (Metric)"),
        ]),
        graph.typecheck()
    );
}

#[test]
fn transform_output_kind_is_checked_against_its_consumer() {
    let mut graph = Graph::default();
    graph.add_source("in", DataType::Log);
    graph.add_transform("to_metric", DataType::Log, DataType::Metric, vec!["in"]);
    graph.add_transform("logs", DataType::Log, DataType::Any, vec!["to_metric"]);
    graph.add_sink("out", DataType::Any, vec!["logs"]);
    assert_eq!(
        Err(vec![s("Data type mismatch between to_metric (Metric) and logs (Log)")]),
        graph.typecheck()
    );
}

#[test]
fn any_on_either_side_never_mismatches() {
    for k in [DataType::Log, DataType::Metric, DataType::Any] {
        let mut graph = Graph::default();
        graph.add_source("a", DataType::Any);
        graph.add_source("b", k);
        graph.add_sink("x", k, vec!["a"]);
        graph.add_sink("y", DataType::Any, vec!["b"]);
        assert_eq!(Ok(()), graph.typecheck());
    }
}

#[test]
fn check_inputs_keeps_order_and_duplicates() {
    let mut graph = Graph::default();
    graph.add_source("in", DataType::Log);
    graph.add_transform("t", DataType::Log, DataType::Log, vec!["zz", "in"]);
    graph.add_sink("out", DataType::Log, vec!["nope", "t", "nope"]);
    assert_eq!(
        Err(vec![
            s("Input \"zz\" for transform \"t\" doesn't match any components."),
            s("Input \"nope\" for sink \"out\" doesn't match any components."),
            s("Input \"nope\" for sink \"out\" doesn't match any components."),
        ]),
        graph.check_inputs()
    );
}

#[test]
fn sinks_are_not_outputs() {
    let mut graph = Graph::default();
    graph.add_source("in", DataType::Log);
    graph.add_sink("first", DataType::Log, vec!["in"]);
    graph.add_sink("second", DataType::Log, vec!["first"]);
    assert_eq!(
        Err(vec![s("Input \"first\" for sink \"second\" doesn't match any components.")]),
        graph.check_inputs()
    );
}

#[test]
fn ports_only_exist_on_their_transform() {
    let mut graph = Graph::default();
    graph.add_source("in", DataType::Log);
    graph.add_transform("t", DataType::Log, DataType::Log, vec!["in"]);
    graph.add_transform_output("t", "errors");
    graph.add_transform_output("t", "dropped");
    graph.add_sink("a", DataType::Log, vec!["t.dropped", "t.errors", "in.errors"]);
    assert_eq!(
        Err(vec![s("Input \"in.errors\" for sink \"a\" doesn't match any components.")]),
        graph.check_inputs()
    );
}

#[test]
fn redeclaring_a_key_replaces_the_node() {
    let mut graph = Graph::default();
    graph.add_transform("t", DataType::Log, DataType::Log, vec![]);
    graph.add_transform_output("t", "errors");
    graph.add_transform("t", DataType::Log, DataType::Log, vec![]);
    graph.add_sink("out", DataType::Log, vec!["t.errors"]);
    assert_eq!(
        Err(vec![s("Input \"t.errors\" for sink \"out\" doesn't match any components.")]),
        graph.check_inputs()
    );
}

#[test]
fn kind_names_and_compatibility() {
    assert_eq!("Log", DataType::Log.name());
    assert_eq!("Metric", DataType::Metric.name());
    assert_eq!("Any", DataType::Any.name());
    assert!(DataType::Log.is_compatible_with(&DataType::Any));
    assert!(DataType::Any.is_compatible_with(&DataType::Metric));
    assert!(!DataType::Log.is_compatible_with(&DataType::Metric));
    assert!(DataType::Metric.is_compatible_with(&DataType::Metric));
}

use topology::{DataType, Graph};

fn s(v: &str) -> String {
    v.to_string()
}

#[test]
fn paths_detects_cycles() {
    let mut graph = Graph::default();
    graph.add_source("in", DataType::Log);
    graph.add_transform("one", DataType::Log, DataType::Log, vec!["in", "three"]);
    graph.add_transform("two", DataType::Log, DataType::Log, vec!["one"]);
    graph.add_transform("three", DataType::Log, DataType::Log, vec!["two"]);
    graph.add_sink("out", DataType::Log, vec!["three"]);

    assert_eq!(
        Err(vec![s(
            "Cyclic dependency detected in the chain [ three -> one -> two -> three ]"
        )]),
        graph.paths()
    );

    let mut graph = Graph::default();
    graph.add_source("in", DataType::Log);
    graph.add_transform("one", DataType::Log, DataType::Log, vec!["in", "three"]);
    graph.add_transform("two", DataType::Log, DataType::Log, vec!["one"]);
    graph.add_transform("three", DataType::Log, DataType::Log, vec!["two"]);
    graph.add_sink("out", DataType::Log, vec!["two"]);

    assert_eq!(
        Err(vec![s(
            "Cyclic dependency detected in the chain [ two -> three -> one -> two ]"
        )]),
        graph.paths()
    );
    assert_eq!(
        Err(vec![s(
            "Cyclic dependency detected in the chain [ two -> three -> one -> two ]"
        )]),
        graph.typecheck()
    );

    let mut graph = Graph::default();
    graph.add_source("in", DataType::Log);
    graph.add_transform("in", DataType::Log, DataType::Log, vec!["in"]);
    graph.add_sink("out", DataType::Log, vec!["in"]);

    assert_eq!(
        Err(vec![s("Cyclic dependency detected in the chain [ in -> in ]")]),
        graph.paths()
    );
}

#[test]
fn paths_doesnt_detect_noncycles() {
    let mut graph = Graph::default();
    graph.add_source("in", DataType::Log);
    graph.add_transform("one", DataType::Log, DataType::Log, vec!["in"]);
    graph.add_transform("two", DataType::Log, DataType::Log, vec!["in"]);
    graph.add_transform("three", DataType::Log, DataType::Log, vec!["one", "two"]);
    graph.add_sink("out", DataType::Log, vec!["three"]);

    graph.paths().unwrap();
}

#[test]
fn detects_type_mismatches() {
    let mut graph = Graph::default();
    graph.add_source("in", DataType::Log);
    graph.add_sink("out", DataType::Metric, vec!["in"]);

    assert_eq!(
        Err(vec![s("Data type mismatch between in (Log) and out (Metric)")]),
        graph.typecheck()
    );
}

#[test]
fn allows_log_or_metric_into_any() {
    let mut graph = Graph::default();
    graph.add_source("log_source", DataType::Log);
    graph.add_source("metric_source", DataType::Metric);
    graph.add_sink("any_sink", DataType::Any, vec!["log_source", "metric_source"]);

    assert_eq!(Ok(()), graph.typecheck());
}

#[test]
fn allows_any_into_log_or_metric() {
    let mut graph = Graph::default();
    graph.add_source("any_source", DataType::Any);
    graph.add_transform("log_to_any", DataType::Log, DataType::Any, vec!["any_source"]);
    graph.add_transform("any_to_log", DataType::Any, DataType::Log, vec!["any_source"]);
    graph.add_sink(
        "log_sink",
        DataType::Log,
        vec!["any_source", "log_to_any", "any_to_log"],
    );
    graph.add_sink("metric_sink", DataType::Metric, vec!["any_source", "log_to_any"]);

    assert_eq!(graph.typecheck(), Ok(()));
}

#[test]
fn allows_both_directions_for_metrics() {
    let mut graph = Graph::default();
    graph.add_source("log_source", DataType::Log);
    graph.add_source("metric_source", DataType::Metric);
    graph.add_transform("log_to_log", DataType::Log, DataType::Log, vec!["log_source"]);
    graph.add_transform(
        "metric_to_metric",
        DataType::Metric,
        DataType::Metric,
        vec!["metric_source"],
    );
    graph.add_transform(
        "any_to_any",
        DataType::Any,
        DataType::Any,
        vec!["log_to_log", "metric_to_metric"],
    );
    graph.add_transform("any_to_log", DataType::Any, DataType::Log, vec!["any_to_any"]);
    graph.add_transform("any_to_metric", DataType::Any, DataType::Metric, vec!["any_to_any"]);
    graph.add_sink("log_sink", DataType::Log, vec!["any_to_log"]);
    graph.add_sink("metric_sink", DataType::Metric, vec!["any_to_metric"]);

    assert_eq!(Ok(()), graph.typecheck());
}

#[test]
fn allows_multiple_transform_outputs() {
    let mut graph = Graph::default();
    graph.add_source("log_source", DataType::Log);
    graph.add_transform("log_to_log", DataType::Log, DataType::Log, vec!["log_source"]);
    graph.add_transform_output("log_to_log", "errors");
    graph.add_sink("good_log_sink", DataType::Log, vec!["log_to_log"]);
    graph.add_sink("errored_log_sink", DataType::Log, vec!["log_to_log.errors"]);

    assert_eq!(Ok(()), graph.check_inputs());

    graph.add_sink("bad_log_sink", DataType::Log, vec!["log_to_log.not_errors"]);
    let expected = "Input \"log_to_log.not_errors\" for sink \"bad_log_sink\" doesn't match any components.".to_string();
    assert_eq!(Err(vec![expected]), graph.check_inputs());
}

use m1_visualiser::cli::{
    default_out, default_start_tick, overlay_request, scenario_format, sibling_config, Format,
    OverlayRequest, UsageError,
};
use m1_visualiser::eval::ScenarioFormat;

#[test]
fn formats_have_their_extensions() {
    assert_eq!(Format::Dot.ext(), "dot");
    assert_eq!(Format::Json.ext(), "json");
    assert_eq!(Format::Html.ext(), "html");
    assert_eq!(default_out(Format::Html), "m1-graph.html");
    assert_eq!(default_out(Format::Dot), "m1-graph.dot");
}

#[test]
fn overlay_flags_choose_the_run() {
    assert_eq!(overlay_request(false, false, 0), Ok(OverlayRequest::GraphOnly));
    assert_eq!(overlay_request(true, false, 0), Ok(OverlayRequest::Scenario));
    assert_eq!(overlay_request(false, true, 0), Ok(OverlayRequest::Log));
    assert_eq!(overlay_request(false, true, 2), Ok(OverlayRequest::Diff));
}

#[test]
fn overlay_flag_misuse_fails_loud() {
    assert_eq!(overlay_request(true, true, 0), Err(UsageError::ScenarioWithLog));
    assert_eq!(overlay_request(true, true, 1), Err(UsageError::ScenarioWithLog));
    assert_eq!(overlay_request(false, false, 1), Err(UsageError::OverrideWithoutLog));
    assert_eq!(overlay_request(true, false, 1), Err(UsageError::OverrideWithoutLog));
}

#[test]
fn scenario_format_follows_extension() {
    assert_eq!(scenario_format("toml"), Some(ScenarioFormat::Toml));
    assert_eq!(scenario_format("json"), Some(ScenarioFormat::Json));
    assert_eq!(scenario_format("csv"), None);
}

#[test]
fn single_sibling_config_is_discovered_and_ambiguous_ones_ignored() {
    assert_eq!(sibling_config(vec!["parameters.m1cfg".to_string()]), Some("parameters.m1cfg".to_string()));
    assert_eq!(sibling_config(vec!["a.m1cfg".to_string(), "b.m1cfg".to_string()]), None);
    assert_eq!(sibling_config(Vec::new()), None);
}

#[test]
fn scrubber_opens_on_last_tick_by_default() {
    assert_eq!(default_start_tick(0), None);
    assert_eq!(default_start_tick(1), Some(0));
    assert_eq!(default_start_tick(5), Some(4));
}

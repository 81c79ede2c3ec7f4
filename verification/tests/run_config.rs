use cambrian::cli::parse_duration;
use cambrian::common_util::format_path;
use cambrian::controller::{ControllerAction, ControllerInput, ControllerState, SeedManager};
use cambrian::error::Error;
use cambrian::message::Command;
use cambrian::meta::{make_obj_func, AlgoConfigBuilder, MetaParamsSource};
use cambrian::number_text::{parse_usize, usize_to_decimal};
use cambrian::real_key::RealKey;
use cambrian::sync_launch::{AsyncObjectiveFunctionImpl, DetailedReportingFileInfo};
use cambrian::termination::{compile, TerminationCriterion};
use std::path::PathBuf;
use std::time::Duration;

fn real_key(x: f64) -> RealKey {
    RealKey::from_bits(x.to_bits()).unwrap()
}

#[test]
fn compile_takes_one_criterion_of_each_kind() {
    let compiled = compile(vec![
        TerminationCriterion::NumObjFuncEval(10),
        TerminationCriterion::TargetObjFuncVal(real_key(0.5)),
        TerminationCriterion::TerminateAfter(Duration::from_secs(3)),
        TerminationCriterion::Signal,
    ])
    .unwrap();
    assert_eq!(compiled.max_num_obj_func_eval, Some(10));
    assert_eq!(compiled.target_obj_func_val, Some(real_key(0.5)));
    assert_eq!(compiled.terminate_after, Some(Duration::from_secs(3)));
    assert!(compiled.terminate_on_signal);

    let empty = compile(vec![]).unwrap();
    assert_eq!(empty.max_num_obj_func_eval, None);
    assert_eq!(empty.target_obj_func_val, None);
    assert_eq!(empty.terminate_after, None);
    assert!(!empty.terminate_on_signal);
}

#[test]
fn compile_refuses_repeated_kinds() {
    for criteria in [
        vec![TerminationCriterion::NumObjFuncEval(1), TerminationCriterion::NumObjFuncEval(2)],
        vec![TerminationCriterion::Signal, TerminationCriterion::Signal],
        vec![
            TerminationCriterion::TerminateAfter(Duration::from_secs(1)),
            TerminationCriterion::Signal,
            TerminationCriterion::TerminateAfter(Duration::from_secs(1)),
        ],
        vec![TerminationCriterion::TargetObjFuncVal(real_key(1.0)), TerminationCriterion::TargetObjFuncVal(real_key(2.0))],
    ] {
        assert!(matches!(compile(criteria), Err(Error::ConflictingTerminationCriteria)));
    }
}

#[test]
fn algo_config_defaults() {
    let config = AlgoConfigBuilder::new().build().unwrap();
    assert_eq!(config.individual_sample_size, 1);
    assert_eq!(config.num_concurrent, 1);
    assert_eq!(f64::from_bits(config.obj_func_val_quantile.to_bits()), 1.0);
}

#[test]
fn algo_config_set_values() {
    let config = AlgoConfigBuilder::new()
        .individual_sample_size(5)
        .obj_func_val_quantile(real_key(0.25))
        .num_concurrent(4)
        .build()
        .unwrap();
    assert_eq!(config.individual_sample_size, 5);
    assert_eq!(config.num_concurrent, 4);
    assert_eq!(config.obj_func_val_quantile, real_key(0.25));
}

#[test]
fn algo_config_errors() {
    assert!(matches!(AlgoConfigBuilder::new().obj_func_val_quantile(real_key(1.5)).build(), Err(Error::InvalidQuantile)));
    assert!(matches!(AlgoConfigBuilder::new().obj_func_val_quantile(real_key(-0.1)).build(), Err(Error::InvalidQuantile)));
    assert!(AlgoConfigBuilder::new().obj_func_val_quantile(real_key(-0.0)).build().is_ok());
    assert!(AlgoConfigBuilder::new().obj_func_val_quantile(real_key(0.0)).build().is_ok());
    assert!(matches!(AlgoConfigBuilder::new().individual_sample_size(0).build(), Err(Error::ZeroSampleSize)));
    assert!(matches!(AlgoConfigBuilder::new().num_concurrent(0).build(), Err(Error::ZeroNumConcurrent)));
    assert!(matches!(
        AlgoConfigBuilder::new().obj_func_val_quantile(real_key(2.0)).individual_sample_size(0).build(),
        Err(Error::InvalidQuantile)
    ));
}

#[test]
fn meta_params_source_names() {
    assert_eq!(MetaParamsSource::Exploratory.name(), "Exploratory");
    assert_eq!(MetaParamsSource::Selected.name(), "Selected");
    assert_eq!(MetaParamsSource::SelectedAndMutated.name(), "SelectedAndMutated");
    assert_eq!(MetaParamsSource::Override.name(), "Override");
}

#[test]
fn objective_function_is_held() {
    let f = make_obj_func(|x: i32| x + 1);
    assert_eq!((f.obj_func())(1), 2);
    let wrapped = AsyncObjectiveFunctionImpl::wrap(7u8);
    assert_eq!(*wrapped.obj_func, 7);
}

#[test]
fn seeds_count_up() {
    let mut seeds = SeedManager::new();
    assert_eq!(seeds.next_seed(), 0);
    assert_eq!(seeds.next_seed(), 1);
    assert_eq!(seeds.next_seed(), 2);
}

fn completed(accepted: bool) -> ControllerInput {
    ControllerInput::EvalCompleted { accepted, best_seen_final: None }
}

#[test]
fn controller_respects_max_num_eval() {
    let mut state = ControllerState::new(Some(3), None);
    assert_eq!(state.start(2), 2);
    assert_eq!(state.step(completed(true)), ControllerAction::PushIndividual);
    assert_eq!(state.pushed_for_eval_count, 3);
    assert_eq!(state.step(completed(false)), ControllerAction::Wait);
    assert_eq!(state.step(completed(true)), ControllerAction::Stop);
    assert_eq!(state.count_accepted, 2);
    assert_eq!(state.count_rejected, 1);
    assert_eq!(state.outcome(true), Ok(()));
}

#[test]
fn controller_starts_no_more_than_max() {
    let mut state = ControllerState::new(Some(1), None);
    assert_eq!(state.start(8), 1);
    let mut state = ControllerState::new(None, None);
    assert_eq!(state.start(8), 8);
}

#[test]
fn controller_stops_at_target() {
    let mut state = ControllerState::new(None, Some(real_key(0.5)));
    state.start(1);
    let far = ControllerInput::EvalCompleted { accepted: true, best_seen_final: Some(real_key(2.0)) };
    assert_eq!(state.step(far), ControllerAction::PushIndividual);
    let reached = ControllerInput::EvalCompleted { accepted: true, best_seen_final: Some(real_key(0.5)) };
    assert_eq!(state.step(reached), ControllerAction::Stop);
    let below = ControllerInput::EvalCompleted { accepted: true, best_seen_final: Some(real_key(-3.0)) };
    assert_eq!(state.step(below), ControllerAction::Stop);
}

#[test]
fn controller_aborts_once() {
    let mut state = ControllerState::new(None, None);
    state.start(2);
    assert_eq!(state.step(ControllerInput::AbortSignal), ControllerAction::BroadcastAbort);
    assert_eq!(state.step(ControllerInput::AbortSignal), ControllerAction::Wait);
    assert_eq!(state.step(completed(true)), ControllerAction::Wait);
    assert_eq!(state.step(ControllerInput::AllDone), ControllerAction::Stop);
    assert_eq!(state.outcome(false), Err(Some(Error::NoIndividuals)));
}

#[test]
fn controller_records_failure() {
    let mut state = ControllerState::new(None, None);
    state.start(1);
    assert_eq!(state.step(ControllerInput::EvalFailed), ControllerAction::BroadcastAbort);
    assert!(state.error_recorded);
    assert_eq!(state.step(ControllerInput::EvalFailed), ControllerAction::Wait);
    assert_eq!(state.outcome(true), Err(None));
}

#[test]
fn paths_are_formatted() {
    assert_eq!(format_path(&[]), "(root)");
    assert_eq!(format_path(&["a"]), "a");
    assert_eq!(format_path(&["a", "b", "7"]), "a.b.7");
}

#[test]
fn durations_are_parsed() {
    assert_eq!(parse_duration("30s"), Ok(Duration::from_secs(30)));
    assert_eq!(parse_duration("1h"), Ok(Duration::from_secs(3600)));
    assert_eq!(parse_duration("10"), Ok(Duration::from_secs(10)));
    assert!(parse_duration("abc").is_err());
}

#[test]
fn commands_and_file_info() {
    assert_eq!(Command::Terminate, Command::Terminate);
    let info = DetailedReportingFileInfo {
        detailed_report_file_path: PathBuf::from("a.csv"),
        best_seen_file_path: PathBuf::from("b.json"),
    };
    assert_eq!(info.best_seen_file_path, PathBuf::from("b.json"));
}

#[test]
fn decimal_texts() {
    assert_eq!(usize_to_decimal(0), "0");
    assert_eq!(usize_to_decimal(1234), "1234");
    assert_eq!(parse_usize("+12"), Some(12));
    assert_eq!(parse_usize("0042"), Some(42));
    assert_eq!(parse_usize("x"), None);
    assert_eq!(parse_usize(""), None);
    assert_eq!(parse_usize("99999999999999999999999"), None);
}

#[test]
fn real_keys_order_reals() {
    assert_eq!(RealKey::zero(), real_key(0.0));
    assert_eq!(RealKey::zero(), real_key(-0.0));
    assert_eq!(RealKey::one(), real_key(1.0));
    assert!(real_key(-1.0).0 < real_key(-0.5).0);
    assert!(real_key(-0.5).0 < real_key(0.0).0);
    assert!(real_key(0.0).0 < real_key(1e-300).0);
    assert!(real_key(1.0).0 < real_key(2.0).0);
    assert_eq!(f64::from_bits(real_key(-2.5).to_bits()), -2.5);
    assert_eq!(RealKey::from_bits(f64::NAN.to_bits()), None);
    assert_eq!(RealKey::from_bits(f64::INFINITY.to_bits()), None);
}

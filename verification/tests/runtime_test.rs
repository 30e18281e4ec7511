use std::sync::Arc;

use rust_ai_runtime::{
    inference::{
        engine::InferenceEngine,
        models::{LocalModel, RuleBasedModel},
        traits::InferenceError,
    },
    model::{ModelInfo, ModelManager},
    runtime::{infer_once, normalize_model_name, RuntimeManager},
    scheduler::{InferenceTask, TaskResult, TaskStatus, Worker, WorkerPool},
};

fn engine() -> InferenceEngine<LocalModel> {
    let mut engine = InferenceEngine::new();
    engine.add_model(LocalModel::RuleBased(
        RuleBasedModel::from_json(r#"{"memory": "Memory safety without a collector."}"#).unwrap(),
    ));
    engine
}

#[test]
fn aliases_name_models() {
    for alias in ["rule", "Rules", "RULE_BASED", "rulebased", "RuleBasedModel"] {
        assert_eq!(normalize_model_name(alias).unwrap(), "RuleBasedModel");
    }
    for alias in ["markov", "MarkovModel", "MARKOV"] {
        assert_eq!(normalize_model_name(alias).unwrap(), "MarkovModel");
    }
    assert_eq!(normalize_model_name("gpt").unwrap_err().alias, "gpt");
}

#[test]
fn infer_once_tokenizes_and_answers() {
    let engine = engine();
    let result = infer_once(&engine, "Rust is Memory safe").unwrap();
    assert_eq!(result.response, "Memory safety without a collector.");
    assert_eq!(result.tokens, vec![1, 2, 3, 4]);
    let empty: InferenceEngine<LocalModel> = InferenceEngine::new();
    assert!(matches!(infer_once(&empty, "x"), Err(InferenceError::NoModelLoaded)));
}

#[test]
fn worker_runs_a_task() {
    let engine = Arc::new(engine());
    let worker = Worker::new(3, Arc::clone(&engine));
    assert_eq!(worker.id(), 3);
    let task = InferenceTask::new(11, "memory please".to_string());
    let result = worker.run(&task).unwrap();
    assert_eq!(result.task_id, 11);
    assert_eq!(result.status, TaskStatus::Finished);
    assert_eq!(result.response, "Memory safety without a collector.");
}

#[test]
fn task_results() {
    let task = InferenceTask::new(5, "p".to_string());
    assert_eq!(task.id, 5);
    assert_eq!(task.prompt, "p");
    let failed = TaskResult::failed(&task, "boom".to_string());
    assert_eq!(failed.task_id, 5);
    assert_eq!(failed.status, TaskStatus::Failed);
    assert_eq!(failed.response, "boom");
    let ok = TaskResult::success(&task, "fine".to_string());
    assert_eq!(ok.status, TaskStatus::Finished);
    assert!(ok.elapsed_ms < 60_000);
}

#[test]
fn pool_has_at_least_one_worker() {
    assert_eq!(WorkerPool::new(0).worker_count(), 1);
    assert_eq!(WorkerPool::new(6).worker_count(), 6);
}

#[test]
fn runtime_keeps_engine_and_size() {
    let engine = Arc::new(engine());
    let runtime = RuntimeManager::new(Arc::clone(&engine), 4);
    assert_eq!(runtime.pool_size(), 4);
    assert_eq!(runtime.engine().current_model_name(), "RuleBasedModel");
}

#[test]
fn model_manager_holds_last_model() {
    let mut manager = ModelManager::new();
    assert!(!manager.is_loaded());
    assert!(manager.get_model().is_none());
    manager.load_model(ModelInfo {
        name: "tiny".to_string(),
        version: "1".to_string(),
        vocab_size: 10,
        layers: 2,
    });
    manager.load_model(ModelInfo {
        name: "small".to_string(),
        version: "2".to_string(),
        vocab_size: 100,
        layers: 4,
    });
    assert!(manager.is_loaded());
    let m = manager.get_model().unwrap();
    assert_eq!(m.name, "small");
    assert_eq!(m.layers, 4);
    assert!(!ModelManager::default().is_loaded());
}

#[test]
fn checked_inference_and_tasks() {
    let engine = Arc::new(engine());
    let result = rust_ai_runtime::runtime::try_infer_once(&engine, "memory").unwrap().unwrap();
    assert_eq!(result.response, "Memory safety without a collector.");
    assert_eq!(result.tokens, vec![1]);
    let worker = Worker::new(0, Arc::clone(&engine));
    let task = InferenceTask::new(2, "no match here".to_string());
    let done = worker.try_run(&task).unwrap().unwrap();
    assert_eq!(done.task_id, 2);
    assert_eq!(done.response, "Sorry, I don't understand.");
}

use rust_ai_runtime::config::AppConfig;

#[test]
fn defaults() {
    let c = AppConfig::default();
    assert_eq!(c.rules_path, "assets/models/rules.json");
    assert_eq!(c.markov_corpus_path, "assets/models/markov_corpus.txt");
    assert_eq!(c.history_path, "history/history.json");
    assert_eq!(c.worker_count, 4);
}

#[test]
fn empty_text_gives_defaults() {
    let c = AppConfig::parse("");
    assert_eq!(c.rules_path, "assets/models/rules.json");
    assert_eq!(c.worker_count, 4);
}

#[test]
fn settings_are_read() {
    let text = "# settings\n\
                rules_path = \"r.json\"\n\
                markov_corpus_path=c.txt\r\n\
                \n\
                history_path =  \"h/h.json\"  \n\
                worker_count = 8\n";
    let c = AppConfig::parse(text);
    assert_eq!(c.rules_path, "r.json");
    assert_eq!(c.markov_corpus_path, "c.txt");
    assert_eq!(c.history_path, "h/h.json");
    assert_eq!(c.worker_count, 8);
}

#[test]
fn odd_lines_change_nothing() {
    let text = "no equals sign\nunknown = 3\n  # rules_path = x\nworker_count = many\n";
    let c = AppConfig::parse(text);
    assert_eq!(c.rules_path, "assets/models/rules.json");
    assert_eq!(c.worker_count, 4);
}

#[test]
fn zero_workers_become_one() {
    assert_eq!(AppConfig::parse("worker_count = 0").worker_count, 1);
}

#[test]
fn value_keeps_later_equals_signs() {
    let c = AppConfig::parse("rules_path = a=b\nrules_path = \"\"c\"\"\n");
    assert_eq!(c.rules_path, "c");
    let d = AppConfig::parse("history_path = a=b");
    assert_eq!(d.history_path, "a=b");
}

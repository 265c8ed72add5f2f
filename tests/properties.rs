use headline_classifier::{
    convert_to_array, create_class_mapping_from_labels, create_class_mapping_with_delimiter,
    create_class_mappings_from_class_names, create_vocabulary_to_index_mapping, encode,
    encode_text, f1_exceeds, f1_score, make_vocabulary, map_words_to_indices,
    multi_hot_encode_with_delimiter, pad_vector, split_on_delimiter, tokenize, F1Score,
    InferenceError, StopReason, TokenMap, TrainConfig, TrainerStatus, TrainingState,
    UNKNOWN_INDEX, UNKNOWN_TOKEN,
};

fn strings(items: &[&str]) -> Vec<String> {
    items.iter().map(|s| s.to_string()).collect()
}

fn ratio(score: F1Score) -> f64 {
    score.numerator as f64 / score.denominator as f64
}

#[test]
fn token_index_reserves_zero_and_numbers_entries_from_one() {
    let vocabulary = strings(&["pear", "fig", "kiwi", "plum"]);
    let mapping = create_vocabulary_to_index_mapping(&vocabulary);
    assert_eq!(mapping.get(UNKNOWN_TOKEN), Some(UNKNOWN_INDEX));
    assert_eq!(mapping.len(), 5);
    let mut seen = Vec::new();
    for (i, word) in vocabulary.iter().enumerate() {
        let index = mapping.get(word).unwrap();
        assert_eq!(index as usize, i + 1);
        assert!(!seen.contains(&index));
        seen.push(index);
    }
}

#[test]
fn token_index_of_empty_vocabulary_holds_only_unknown() {
    let mapping = create_vocabulary_to_index_mapping(&Vec::new());
    assert_eq!(mapping.len(), 1);
    assert_eq!(mapping.get("<UNK>"), Some(0));
}

#[test]
fn lookup_of_absent_words_gives_zero() {
    let mapping = TokenMap::from_pairs(vec![("apple".to_string(), 1), ("cherry".to_string(), 3)]);
    let result = map_words_to_indices(vec!["apple", "banana", "cherry", ""], &mapping);
    assert_eq!(result, vec![1, 0, 3, 0]);
}

#[test]
fn token_map_insert_replaces_index() {
    let mut mapping = TokenMap::new();
    mapping.insert("a".to_string(), 4);
    mapping.insert("a".to_string(), 7);
    assert_eq!(mapping.len(), 1);
    assert_eq!(mapping.get("a"), Some(7));
    assert!(!mapping.contains_key("b"));
    let other = TokenMap::from_pairs(vec![("a".to_string(), 1), ("a".to_string(), 7)]);
    assert_eq!(mapping, other);
    assert_ne!(mapping, TokenMap::from_pairs(vec![("a".to_string(), 1)]));
}

#[test]
fn encode_text_at_exact_length_keeps_indices() {
    let mapping = TokenMap::from_pairs(vec![("a".to_string(), 1), ("b".to_string(), 2)]);
    assert_eq!(encode_text("a b a", &mapping, 3), vec![1, 2, 1]);
}

#[test]
fn encode_text_truncates_to_first_indices() {
    let mapping = TokenMap::from_pairs(vec![
        ("a".to_string(), 1),
        ("b".to_string(), 2),
        ("c".to_string(), 3),
        ("d".to_string(), 4),
        ("e".to_string(), 5),
    ]);
    assert_eq!(encode_text("a b c d e", &mapping, 4), vec![1, 2, 3, 4]);
}

#[test]
fn encode_text_pads_with_zero() {
    let mapping = TokenMap::from_pairs(vec![("a".to_string(), 1)]);
    assert_eq!(encode_text("a zz", &mapping, 5), vec![1, 0, 0, 0, 0]);
    assert_eq!(encode_text("", &mapping, 3), vec![0, 0, 0]);
}

#[test]
fn pad_vector_with_value_one_from_empty() {
    assert_eq!(pad_vector(Vec::<u32>::new(), 5, 1), vec![1, 1, 1, 1, 1]);
    assert_eq!(pad_vector(vec![9u32, 8], 0, 1), Vec::<u32>::new());
}

#[test]
fn encode_lays_rows_out_one_after_another() {
    let mapping = TokenMap::from_pairs(vec![("x".to_string(), 1), ("y".to_string(), 2)]);
    let data = strings(&["x y x", "y", ""]);
    assert_eq!(encode(&data, 2, &mapping), vec![1, 2, 2, 0, 0, 0]);
}

#[test]
fn tokenize_splits_on_unicode_white_space() {
    assert_eq!(
        tokenize("  one\ttwo\nthree\u{3000}four  "),
        strings(&["one", "two", "three", "four"])
    );
    assert_eq!(tokenize(""), Vec::<String>::new());
    assert_eq!(tokenize("a\u{A0}b"), strings(&["a", "b"]));
}

#[test]
fn split_on_delimiter_keeps_empty_pieces() {
    assert_eq!(split_on_delimiter("a||b|", '|'), strings(&["a", "", "b", ""]));
    assert_eq!(split_on_delimiter("abc", '|'), strings(&["abc"]));
}

#[test]
fn make_vocabulary_strips_punctuation_in_first_seen_order() {
    let corpus = strings(&["Hello, world!", "world... <UNK> hello", ""]);
    assert_eq!(make_vocabulary(&corpus), strings(&["Hello", "world", "UNK", "hello"]));
}

#[test]
fn make_vocabulary_of_empty_corpus_is_empty() {
    assert_eq!(make_vocabulary(&Vec::new()), Vec::<String>::new());
}

#[test]
fn multi_hot_encode_with_comma_delimiter() {
    let mapping = TokenMap::from_pairs(vec![("x".to_string(), 0), ("y".to_string(), 1)]);
    let result = multi_hot_encode_with_delimiter(strings(&["y,x", "", "x"]), &mapping, ',');
    assert_eq!(result.unwrap(), vec![1, 1, 0, 0, 1, 0]);
}

#[test]
fn multi_hot_encode_names_first_missing_class() {
    let mapping = TokenMap::from_pairs(vec![("x".to_string(), 0)]);
    let result = multi_hot_encode_with_delimiter(strings(&["x", "x|q|r", "s"]), &mapping, '|');
    assert_eq!(result.unwrap_err().to_string(), "Label not found: q".to_string());
}

#[test]
fn class_mapping_follows_first_seen_order_and_is_inverse() {
    let labels = strings(&["ClassA|ClassB", "ClassC", ""]);
    let (class_to_index, index_to_class) = create_class_mapping_from_labels(&labels);
    assert_eq!(class_to_index.get("ClassA"), Some(0));
    assert_eq!(class_to_index.get("ClassB"), Some(1));
    assert_eq!(class_to_index.get("ClassC"), Some(2));
    assert_eq!(index_to_class.len(), 3);
    for (index, name) in index_to_class.iter() {
        assert_eq!(class_to_index.get(name), Some(*index));
    }
}

#[test]
fn class_mapping_with_comma_skips_repeats() {
    let labels = strings(&["b,a", "a,c,b"]);
    let (class_to_index, index_to_class) = create_class_mapping_with_delimiter(&labels, ',');
    assert_eq!(class_to_index.get("b"), Some(0));
    assert_eq!(class_to_index.get("a"), Some(1));
    assert_eq!(class_to_index.get("c"), Some(2));
    assert_eq!(index_to_class.get(&2), Some(&"c".to_string()));
}

#[test]
fn class_mappings_from_names_number_by_position() {
    let (index_to_class, class_to_index) =
        create_class_mappings_from_class_names(strings(&["sport", "weather"]));
    assert_eq!(index_to_class.get(&1), Some(&"weather".to_string()));
    assert_eq!(class_to_index.get("sport"), Some(0));
}

#[test]
fn f1_of_half_matching_prediction_is_one_half() {
    let predicted: Vec<Vec<u32>> = vec![vec![1, 0], vec![0, 1]];
    let actual: Vec<Vec<u32>> = vec![vec![1, 0], vec![1, 0]];
    let score = f1_score(&predicted, &actual);
    assert_eq!((score.numerator, score.denominator), (2, 4));
    assert_eq!(ratio(score), 0.5);
}

#[test]
fn f1_without_true_positive_is_zero() {
    let predicted: Vec<Vec<u32>> = vec![vec![0, 0], vec![0, 1]];
    let actual: Vec<Vec<u32>> = vec![vec![1, 0], vec![1, 0]];
    let score = f1_score(&predicted, &actual);
    assert_eq!(score, F1Score { numerator: 0, denominator: 1 });
    let empty: Vec<Vec<u32>> = Vec::new();
    assert_eq!(ratio(f1_score(&empty, &empty)), 0.0);
}

#[test]
fn f1_of_perfect_prediction_is_one() {
    let rows: Vec<Vec<u32>> = vec![vec![1, 0, 1]];
    assert_eq!(ratio(f1_score(&rows, &rows)), 1.0);
}

#[test]
fn f1_comparison_is_by_value() {
    let half = F1Score { numerator: 2, denominator: 4 };
    let also_half = F1Score { numerator: 1, denominator: 2 };
    let third = F1Score { numerator: 2, denominator: 6 };
    assert!(!f1_exceeds(half, also_half));
    assert!(f1_exceeds(half, third));
    assert!(!f1_exceeds(third, half));
}

fn score(numerator: u64, denominator: u64) -> F1Score {
    F1Score { numerator, denominator }
}

#[test]
fn trainer_stops_early_and_keeps_last_improvement() {
    let config = TrainConfig { n_epochs: 10, early_stop_patience: 2 };
    let mut state = TrainingState::new(&config);
    let first = state.record_epoch(&config, score(1, 4));
    assert!(first.improved && first.stop.is_none());
    let second = state.record_epoch(&config, score(1, 2));
    assert!(second.improved);
    let third = state.record_epoch(&config, score(1, 3));
    assert!(!third.improved && third.stop.is_none());
    let fourth = state.record_epoch(&config, score(2, 4));
    assert!(!fourth.improved);
    assert_eq!(fourth.stop, Some(StopReason::EarlyStopped));
    assert_eq!(state.status, TrainerStatus::Stopped(StopReason::EarlyStopped));
    assert_eq!(state.best_epoch, 2);
    assert_eq!(state.epoch, 4);
    assert_eq!(state.best_f1, score(1, 2));
    let after = state.record_epoch(&config, score(9, 10));
    assert!(!after.improved);
    assert_eq!(state.epoch, 4);
    assert_eq!(state.best_epoch, 2);
}

#[test]
fn trainer_with_zero_patience_stops_at_first_non_improvement() {
    let config = TrainConfig { n_epochs: 10, early_stop_patience: 0 };
    let mut state = TrainingState::new(&config);
    let first = state.record_epoch(&config, score(0, 1));
    assert_eq!(first.stop, Some(StopReason::EarlyStopped));
    assert_eq!(state.best_epoch, 0);
}

#[test]
fn trainer_stops_at_max_epochs() {
    let config = TrainConfig { n_epochs: 2, early_stop_patience: 5 };
    let mut state = TrainingState::new(&config);
    assert!(state.record_epoch(&config, score(1, 3)).stop.is_none());
    let last = state.record_epoch(&config, score(1, 2));
    assert_eq!(last.stop, Some(StopReason::MaxEpochsReached));
    assert_eq!(state.best_epoch, 2);
    let none = TrainConfig { n_epochs: 0, early_stop_patience: 5 };
    assert_eq!(
        TrainingState::new(&none).status,
        TrainerStatus::Stopped(StopReason::MaxEpochsReached)
    );
}

#[test]
fn train_config_defaults() {
    let config = TrainConfig::default();
    assert_eq!((config.n_epochs, config.early_stop_patience), (100, 20));
}

#[test]
fn convert_to_array_needs_exact_length() {
    let ok: Result<[u32; 3], InferenceError> = convert_to_array(vec![4, 5, 6]);
    assert_eq!(ok.unwrap(), [4, 5, 6]);
    let err: Result<[u32; 3], InferenceError> = convert_to_array(vec![4, 5]);
    assert!(matches!(err, Err(InferenceError::ArrayConversionError(_))));
}

#[test]
fn vocabulary_round_trips_through_json_with_same_index() {
    let vocabulary = make_vocabulary(&strings(&["b a", "c a d"]));
    let mut fields = serde_json::Map::new();
    fields.insert(
        "vocabulary".to_string(),
        serde_json::Value::Array(
            vocabulary.iter().map(|w| serde_json::Value::String(w.clone())).collect(),
        ),
    );
    let text = serde_json::to_string(&serde_json::Value::Object(fields)).unwrap();
    let parsed: serde_json::Value = serde_json::from_str(&text).unwrap();
    let reloaded: Vec<String> = parsed["vocabulary"]
        .as_array()
        .unwrap()
        .iter()
        .map(|v| v.as_str().unwrap().to_string())
        .collect();
    assert_eq!(reloaded, vocabulary);
    assert_eq!(
        create_vocabulary_to_index_mapping(&reloaded),
        create_vocabulary_to_index_mapping(&vocabulary)
    );
}

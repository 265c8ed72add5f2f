//! Preprocessing and model selection for a multi-label headline classifier:
//! vocabulary building, token and class indexing, padding, multi-hot label
//! encoding, micro-averaged F1 and the early-stopping training schedule.

mod encode;
mod errors;
mod metrics;
mod text;
mod token_map;
mod train;
mod types;
mod vocabulary;

pub use token_map::TokenMap;
pub use text::{split_on_delimiter, tokenize};
pub use vocabulary::{
    create_vocabulary_to_index_mapping, make_vocabulary, UNKNOWN_INDEX, UNKNOWN_TOKEN,
};
pub use encode::{
    convert_to_array, create_class_mapping_from_labels, create_class_mapping_with_delimiter,
    create_class_mappings_from_class_names, encode, encode_text, map_to_indices,
    map_words_to_indices, multi_hot_encode, multi_hot_encode_with_delimiter, pad_vector,
    LABEL_DELIMITER,
};
pub use errors::{InferenceError, MultiHotEncodeError};
pub use metrics::{
    f1_exceeds, f1_score, false_negatives, false_positives, fold_with_values, true_positives,
    F1Score,
};
pub use train::{EpochOutcome, StopReason, TrainConfig, TrainerStatus, TrainingState};
pub use types::{ModelConfig, PredictRequest, MAX_SEQ_LEN};

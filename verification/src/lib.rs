pub mod attention;
pub mod code_point;
pub mod data;
pub mod generate;
pub mod kv_cache;
pub mod sampling;
pub mod tensor;
pub mod tokenizer;

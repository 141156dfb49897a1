//! phrasegen: text, counting and decision logic behind a typing-timing
//! passphrase generator.
pub mod entropy;
pub mod generate;
pub mod import;
pub mod kgram;
pub mod model;
pub mod passphrase;
pub mod rank;
pub mod record;
pub mod score;
pub mod styles;
pub mod text;
pub mod textprep;
pub mod timing;
pub mod unicode;
pub mod wordfreq;

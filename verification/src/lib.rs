//! SOMA's verified core: note chunking, prompt construction, response
//! parsing, retrieval selection and density-based clustering.

pub mod chat;
pub mod chunking;
pub mod clustering;
pub mod embedding;
pub mod ids;
pub mod insight;
pub mod insight_loop;
pub mod json;
pub mod line_insight;
pub mod models;
pub mod parse;
pub mod prompts;
pub mod records;
pub mod retrieval;
pub mod settings;
pub mod sql;
pub mod system;
pub mod temporal;
pub mod text;

pub use chat::{parse_session_title, should_auto_title};
pub use chunking::ChunkingService;
pub use embedding::{prepare_input, EmbedTask};
pub use insight::parse_insight_response;
pub use models::{ChatMessage, ChatSession, Insight, Message, Note, NoteChunk};
pub use prompts::PromptBuilder;
pub use retrieval::RetrievalService;
pub use settings::AppSettings;
pub use system::{GpuInfo, ModelInfo, SystemStatus};

//! Verified core of wscrpt.
pub mod diagnostic_cache;
pub mod edit_laws;
pub mod file_uri;
pub mod find;
pub mod format_laws;
pub mod fuzzy;
pub mod fuzzy_laws;
pub mod grammar_laws;
pub mod health;
pub mod input_diagnostics;
pub mod json;
pub mod json_laws;
pub mod json_parse;
pub mod json_write;
pub mod launch;
pub mod lsp;
pub mod lsp_client;
pub mod lsp_command;
pub mod lsp_discover;
pub mod lsp_edits;
pub mod lsp_frame;
pub mod lsp_protocol;
pub mod lsp_queue;
pub mod lsp_session;
pub mod lsp_tables;
pub mod lsp_types;
pub mod lsp_ui;
pub mod onboarding;
pub mod order;
pub mod paths;
pub mod pattern;
pub mod pattern_laws;
pub mod position_laws;
pub mod project;
pub mod project_laws;
pub mod protocol_laws;
pub mod quick_open;
pub mod recency;
pub mod recovery;
pub mod recovery_laws;
pub mod search;
pub mod search_laws;
pub mod services;
pub mod store_laws;
pub mod text;
pub mod ui_laws;
pub mod walk_laws;
pub mod weight_laws;
pub mod wire_laws;
pub mod words_laws;

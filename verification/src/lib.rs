//! Batch shell: one request runs many shell, git and gh commands as a
//! dependency graph.
//!
//! A request is checked ([`validate`]), laid out ([`plan`]) and run step by
//! step ([`batch::Batch`]): the library decides which step starts when, what
//! is handed to the shell and what is reported, and its caller starts the
//! processes. Every decision is stated in a contract and proved.

pub mod artifact;
pub mod batch;
pub mod capture;
pub mod cli;
pub mod denial_laws;
pub mod file_laws;
pub mod front_laws;
pub mod graph;
pub mod output;
pub mod output_laws;
pub mod outside;
pub mod path_laws;
pub mod paths;
pub mod plan;
pub mod protocol;
pub mod release_laws;
pub mod request_laws;
pub mod result_laws;
pub mod run_laws;
pub mod schedule;
pub mod shell;
pub mod shell_laws;
pub mod step;
pub mod step_laws;
pub mod text;
pub mod text_laws;
pub mod update;
pub mod validation;

pub use batch::Batch;
pub use capture::MAX_STREAM_BYTES;
pub use output::gh_auth_error;
pub use output::mask_secrets;
pub use output::parse_git_stat;
pub use output::GitStatLine;
pub use plan::plan;
pub use protocol::Artifact;
pub use protocol::BatchError;
pub use protocol::BatchRequest;
pub use protocol::BatchResponse;
pub use protocol::CaptureSpec;
pub use protocol::Edge;
pub use protocol::Step;
pub use protocol::StepResult;
pub use protocol::DEFAULT_CONCURRENCY;
pub use protocol::DEFAULT_TIMEOUT_MS;
pub use protocol::MAX_COMMANDS;
pub use shell::dangerous_reason;
pub use shell::strip_cd_prefix;
pub use validation::validate;

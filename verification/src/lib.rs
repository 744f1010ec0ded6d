//! A CI/CD pipeline engine that keeps its state in git: stage results become
//! commits on `ci/<stage>` branches, result payloads become git notes and
//! artifacts become annotated tags. This crate is the verified core: the
//! stage graph, the scheduling decisions of a run, the parsing of git's
//! output and the rendering of reports. Running git and the stage commands is
//! left to the host program.

pub mod artifact;
pub mod error;
pub mod git;
pub mod graph;
pub mod pipeline;
pub mod report;
pub mod run;
pub mod stage;
pub mod text;

pub use artifact::{ArtifactMetadata, ArtifactTracker};
pub use error::PipelineError;
pub use git::command_outcome;
pub use pipeline::Pipeline;
pub use report::{PipelineReport, PipelineSummary};
pub use run::{PipelineRun, StageAction};
pub use stage::{Stage, StageResult};

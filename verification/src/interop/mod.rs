//! Conversion between RON and JSON.

pub mod anchors;
pub mod comment_trip;
pub mod comments;
pub mod emit;
pub mod grammar;
pub mod json;
pub mod json_kept;
pub mod json_reader;
pub mod json_to_ron;
pub mod jsonc;
pub mod key_literals;
pub mod literals;
pub mod loss;
pub mod loss_laws;
pub mod places;
pub mod pointer;
pub mod read_back;
pub mod reader;
pub mod remarks;
pub mod ron_to_json;
pub mod round_trip;
pub mod scaffold;
pub mod scaffold_types;
pub mod tag_laws;
pub mod tagging;

pub use comments::{Comment, CommentCarrier, CommentKind, CommentMode};
pub use emit::{render_json, JsoncStyle};
pub use json_to_ron::{json_to_ron, JsonToRon, JsonToRonBinding, MAX_JSON_DEPTH};
pub use jsonc::{parse_jsonc, JsoncDocument, JsoncError};
pub use loss::{build_loss_report, LossKind, LossRecovery, LossReport, LossyConstruct};
pub use ron_to_json::{ron_to_json, RonToJson, RonToJsonBinding};
pub use scaffold::{derive_scaffold, DeriveScaffold, MAX_DERIVE_DEPTH, UNKNOWN_SENTINEL};

//! Layered staff permissions.
//!
//! A permission is a namespaced token such as `rpc.claim`, optionally negated
//! with a leading `~`. A staff member holds any number of ranked positions,
//! each granting and revoking permissions, plus a list of personal overrides.
//! This crate flattens those layers into one ordered effective set, answers
//! whether an effective set grants a permission, and decides whether an actor
//! may change somebody else's set.
//!
//! Every function is verified against a model over sequences of characters
//! and sequences of permissions; the only code taken on trust is the small
//! boundary to the insertion-ordered map in [`applied`].
pub mod text;
pub mod sequences;
pub mod permission;
pub mod effective;
pub mod applied;
pub mod position;
pub mod ranking;
pub mod resolver;
pub mod membership;
pub mod patch;

pub use membership::{has_perm, has_perm_str, parse_all};
pub use patch::{check_patch_changes, check_patch_changes_str, contains_permission, AuthError};
pub use permission::{build, Permission};
pub use position::{PartialStaffPosition, StaffPermissions};

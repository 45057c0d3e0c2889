//! A boolean algebra over package constraints.
//!
//! A [`MatchSpecConstraints`] stands for a set of package candidates, each
//! candidate being a version together with a build number. The set is held
//! in disjunctive normal form: a list of groups, each group the conjunction
//! of one range of versions and one range of build numbers. Complement,
//! intersection and union keep that form, and every operation comes with a
//! contract that says which candidates the result holds and how its groups
//! are laid out.
//!
//! The modules build on one another:
//!
//! * `order`: three-way comparison, lexicographic order, the [`Scalar`] trait;
//! * `version`: versions, how they are read from text, and candidates;
//! * `position`: the places of an ordered line that a range is cut at;
//! * `range_model`, `range`: ranges of scalars, as a model and as code;
//! * `element_model`, `element`: one conjunctive group;
//! * `choices`: the short lists that hold the alternatives of a group;
//! * `dnf_model`, `constraints`: the disjunction of groups;
//! * `text`: how all of these are written out;
//! * `laws`: the algebraic laws that relate the operations.
pub mod choices;
pub mod constraints;
pub mod dnf_model;
pub mod element;
pub mod element_model;
pub mod laws;
pub mod order;
pub mod position;
pub mod range;
pub mod range_model;
pub mod text;
pub mod version;

pub use constraints::{MatchSpec, MatchSpecConstraints};
pub use element::MatchSpecElement;
pub use order::{Scalar, Sign};
pub use range::Range;
pub use version::{PackageRecord, Version};

//! What the configuration says of a tile distribution.
use vstd::prelude::*;
use crate::vocab::Vocab;

verus! {

/// The vocabulary of the application structures.
pub struct Aps {
    /// Type keyword of a layer frame.
    pub layer: String,
    /// Type keyword of a feature frame.
    pub feature: String,
    /// Attribute that names a layer.
    pub layer_attr: String,
    /// Attribute that identifies a feature.
    pub id_attr: String,
    /// Attribute with a feature's specification.
    pub spec_attr: String,
    /// Identifiers that stand for none.
    pub id_null: Vec<String>,
    /// Whether to drop what precedes the first letter of a layer's name.
    pub strip_layer_prefix: bool,
}

/// Which layers are kept: those whose name contains one of these texts.
pub struct Keep {
    pub layer_contains: Vec<String>,
}

/// One tier: the layer that it is, its code and its label.
pub struct TierRow {
    pub m: String,
    pub code: String,
    pub label: String,
}

/// The tiers, and the columns that their codes and labels go to.
pub struct Tier {
    pub code_column: String,
    pub label_column: String,
    pub map: Vec<TierRow>,
}

/// How a feature's specification is read: an expression whose groups are diameter, unit and
/// material code, then those of the main around it; and the materials by their codes.
pub struct Spec {
    pub regex: String,
    pub materials: Vocab,
}

/// The file that assigns grid tiles to areas, the column that the areas go to, and a section
/// of the file that is no area.
pub struct Area {
    pub file: String,
    pub column: String,
    pub skip_section: Option<String>,
}

} // verus!

//! Skin management for the DSH desktop shell: the skin metadata model, the
//! rules for listing, activating and removing skins, the planning of a skin
//! package's installation, and the small text and path computations they
//! rest on.

pub mod text;
pub mod dsh;
pub mod paths;
pub mod skin;
pub mod package;
pub mod inject;

//! What each command decides and changes.

pub mod add;
pub mod argument_laws;
pub mod arguments;
pub mod binding_laws;
pub mod cascade;
pub mod commit;
pub mod commit_laws;
pub mod connect;
pub mod cow;
pub mod create;
pub mod edit;
pub mod extract;
pub mod info;
pub mod make;
pub mod make_laws;
pub mod make_layout;
pub mod make_spec_laws;
pub mod make_specs;
pub mod map;
pub mod map_laws;
pub mod name_laws;
pub mod payload_laws;
pub mod place;
pub mod place_laws;
pub mod read;
pub mod removal_laws;
pub mod remove;
pub mod rename;
pub mod resize;
pub mod resize_laws;
pub mod selection_laws;
pub mod snapshot_status;
pub mod split_util;
pub mod status_laws;

//! Retail F.E.A.R. asset formats: archives, textures, materials and packed worlds.
pub mod arch00;
pub mod archive;
pub mod bytes;
pub mod dds;
pub mod error;
pub mod extensions;
pub mod inflate;
pub mod keys;
pub mod mat00;
pub mod rez;
pub mod world00p;
pub mod world_model_draw;
pub mod world_models;
pub mod world_objects;

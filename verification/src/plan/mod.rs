//! What a run of a network needs besides its graph: weights in their padded places, the files that
//! weights come in, and what is read off the outputs.
pub mod convnets;
pub mod deeplab;
pub mod draws;
pub mod layers;
pub mod layout;
pub mod metadata;
pub mod pillars;
pub mod predict;
pub mod tensor_file;
pub mod text;
pub mod transformers;
pub mod weights;
pub mod yolo;

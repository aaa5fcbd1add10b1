//! Graphs of tensor operations, and how proofs about them are put together.
pub mod attention_laws;
pub mod accepted;
pub mod backward;
pub mod block;
pub mod block_laws;
pub mod builder;
pub mod builder_ops;
pub mod check_finish;
pub mod check_pass;
pub mod commit;
pub mod committed;
pub mod compile;
pub mod complete;
pub mod complete_parallel;
pub mod deeplabv3plus;
pub mod dense;
pub mod embedding_laws;
pub mod equation;
pub mod exponential;
pub mod finish;
pub mod generate;
pub mod gptj;
pub mod gptj_laws;
pub mod graph;
pub mod graph_ops;
pub mod growth;
pub mod image_laws;
pub mod kahn;
pub mod last_claim;
pub mod layer_laws;
pub mod llama;
pub mod llama_laws;
pub mod lockstep;
pub mod lookup_model;
pub mod meaning;
pub mod network_laws;
pub mod norm_laws;
pub mod oneshot;
pub mod openings;
pub mod outputs;
pub mod pairs;
pub mod parallel;
pub mod partition;
pub mod pass;
pub mod pointpillar;
pub mod pointwise;
pub mod pool_laws;
pub mod prove;
pub mod range;
pub mod reading;
pub mod ready;
pub mod reduction;
pub mod resnet;
pub mod rotary_laws;
pub mod run;
pub mod schedule;
pub mod schedule_laws;
pub mod single;
pub mod sound;
pub mod spelling;
pub mod text_laws;
pub mod tidy;
pub mod transformer;
pub mod transformer_laws;
pub mod truth;
pub mod two_pow;
pub mod types;
pub mod unet3d;
pub mod verify;
pub mod verify_parallel;
pub mod vgg;
pub mod witness;

pub use crate::dag::builder::DagBuilder;
pub use crate::dag::dense::dense_add_relu;
pub use crate::dag::gptj::gpt_j_6b;
pub use crate::dag::llama::{llama3_8b, llama_2_7b};
pub use crate::dag::partition::{edge_partition_map, partition_dag, PartitionDesc};
pub use crate::dag::types::{
    AliasId, Claim, Dag, EdgeId, EdgeProof, LookupProof, Node, NodeId, NodeProof, ParallelProof,
    PartitionProof,
};
pub use crate::dag::vgg::{vgg11, vgg11_output_shape, vgg16, vgg_output_shape, VGG_FC_HIDDEN};
pub use crate::dag::witness::{DataType, PolyData, PolyType, Role, Witness};

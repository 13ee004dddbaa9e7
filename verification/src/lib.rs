//! A verified codec that carries files inside raw video frames.

pub mod bitstream;
pub mod boot;
pub mod bytes;
pub mod calibration;
pub mod checksum;
pub mod chunks;
pub mod counting;
pub mod decoder;
pub mod encoder;
pub mod envelope;
pub mod fec;
pub mod float_bits;
pub mod geom_search;
pub mod gf2;
pub mod gf256;
pub mod gf_linear;
pub mod gray;
pub mod integral;
pub mod interleave;
pub mod laws;
pub mod layout_laws;
pub mod ldpc;
pub mod ldpc_laws;
pub mod link_decoder;
pub mod link_draw;
pub mod link_encoder;
pub mod link_frame;
pub mod link_laws;
pub mod link_layout;
pub mod link_plan;
pub mod link_profile;
pub mod link_run;
pub mod llr;
pub mod lock_laws;
pub mod mapper;
pub mod marker_laws;
pub mod matrix;
pub mod params;
pub mod parity_rows;
pub mod payload_tiles;
pub mod phy_channel;
pub mod phy_layout;
pub mod poly;
pub mod probe;
pub mod protocol;
pub mod qc;
pub mod rng;
pub mod rs_codec;
pub mod rs_distance;
pub mod rs_laws;
pub mod session;
pub mod shift_laws;
pub mod soft_decisions;
pub mod stream_coder;
pub mod tile_laws;
pub mod util;

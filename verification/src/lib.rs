use vstd::prelude::*;

pub mod text;
pub mod timebase;
pub mod decode;
pub mod encoder;
pub mod frame_buffer;
pub mod proxy_cache;
pub mod relink;
pub mod navigation;
pub mod command_center;
pub mod aceleracion;
pub mod media_browser;
pub mod edl;
pub mod edl_read;
pub mod timeline;
pub mod render_graph;
pub mod efectos;
pub mod subtitulos_animados;
pub mod batch;
pub mod project;
pub mod transcripcion;
pub mod subtitles;
pub mod rounding;

verus! {

} // verus!

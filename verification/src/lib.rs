//! Native operations for a game engine runtime: the ETC1 texture codec and
//! its PKM container header, byte copies and exact vertex search over
//! buffers, decoding of encoded images into raw pixels, the error state of
//! the font rasteriser bindings, and the handles, event queues and shape
//! topology used by the physics bindings.

pub mod etc1;
pub mod buffer_ops;
pub mod gdx2d;
pub mod ft_status;
pub mod physics_support;

//! Photo development core: exposure estimation, tone tables, 3D color lookup
//! tables applied by tetrahedral interpolation, and the layout of framed,
//! captioned prints.
//!
//! - `lut3d`: the table type, its interpolation and its application to
//!   pixel buffers.
//! - `cube`: reading `.cube` table files.
//! - `exposure`: the automatic exposure correction.
//! - `tone`: applying a tone table.
//! - `frame`: background size, margins and placement of a framed print.
//! - `pipeline`: the color stage and the choice of output format.
//! - `schemas`: catalog records.
pub mod lut3d;
pub mod cube;
pub mod frame;
pub mod exposure;
pub mod tone;
pub mod schemas;
pub mod pipeline;

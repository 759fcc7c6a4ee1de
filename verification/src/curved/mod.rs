//! Curved panels: the combinatorial part of tessellating a thick panel from
//! its grid of material cells.

pub mod panel_cells;

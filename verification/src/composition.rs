//! The parameters of a mask brush of the compositor: the brush whose colours
//! show and the brush whose alpha masks them.
use vstd::prelude::*;

verus! {

/// A mask brush to be made: `source` shows where `mask` is opaque.
pub struct CompositionMaskBrushParams<Source, Mask> {
    pub source: Source,
    pub mask: Mask,
}

} // verus!

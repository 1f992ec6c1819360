//! Scan conversion of whole paths, built on a scan converter for single curves.

use vstd::prelude::*;

use std::marker::PhantomData;

verus! {

/// Scan converts bezier paths by scan converting each of their curves with a curve scan converter
pub struct BezierPathScanConverter<TPath, TCurveScanConverter> {
    path: PhantomData<TPath>,
    curve_converter: TCurveScanConverter,
}

impl<TPath, TCurveScanConverter> BezierPathScanConverter<TPath, TCurveScanConverter> {
    /// The scan converter used for the individual curves.
    pub closed spec fn spec_curve_converter(&self) -> TCurveScanConverter {
        self.curve_converter
    }

    /// Creates a bezier path scan converter that uses `scan_converter` for each curve
    pub fn with_curve_converter(scan_converter: TCurveScanConverter) -> (r: BezierPathScanConverter<TPath, TCurveScanConverter>)
        ensures
            r.spec_curve_converter() == scan_converter,
    {
        BezierPathScanConverter { path: PhantomData, curve_converter: scan_converter }
    }
}

} // verus!

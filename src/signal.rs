use vstd::prelude::*;

verus! {

/// Speed of light in metres per second.
pub const SPEED_OF_LIGHT: u64 = 299792458;

/// The signal model: what a path's length and the radio's frequency give.
pub struct Signal;

impl Signal {
    /// Wavelength in micrometres of a signal of `frequency` hertz: the
    /// speed of light over the frequency, rounded down. A frequency of zero
    /// has none.
    pub fn wavelength_um(frequency: u64) -> (r: Option<u64>)
        ensures
            frequency == 0 <==> r is None,
            r matches Some(w) ==> w == (SPEED_OF_LIGHT * 1000000) / (frequency as int),
    {
        if frequency == 0 {
            None
        } else {
            Some((SPEED_OF_LIGHT * 1000000) / frequency)
        }
    }
}

} // verus!

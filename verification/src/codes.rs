//! Plain-value codes exchanged with the detector driver: the error taxonomy
//! of its return codes and the sensor operating modes.

use vstd::prelude::*;

verus! {

/// Error kinds of the detector driver, one per negative return code.
#[derive(Debug, Clone, Copy, PartialEq, Eq, Structural)]
pub enum PxcErr {
    NotInitialized,
    InvalidDeviceIndex,
    InvalidArgument,
    CouldNotSave,
    AcqFailed,
    DeviceError,
    AcqAborted,
    CannotReconnect,
    NotAllowed,
    NotSupported,
    BufferSmall,
    CannotCalibrate,
    TooManyBadPixels,
    ZestNotLoaded,
    UnexpectedError,
}

pub type PxcResult<T> = Result<T, PxcErr>;

/// The error kind that a driver return code stands for; every code outside
/// the mapped range falls to `UnexpectedError`.
pub open spec fn err_of_code(code: i32) -> PxcErr {
    if code == -1 {
        PxcErr::NotInitialized
    } else if code == -2 {
        PxcErr::InvalidDeviceIndex
    } else if code == -3 {
        PxcErr::InvalidArgument
    } else if code == -4 {
        PxcErr::CouldNotSave
    } else if code == -5 {
        PxcErr::AcqFailed
    } else if code == -6 {
        PxcErr::DeviceError
    } else if code == -7 {
        PxcErr::AcqAborted
    } else if code == -8 {
        PxcErr::CannotReconnect
    } else if code == -9 {
        PxcErr::NotAllowed
    } else if code == -10 {
        PxcErr::NotSupported
    } else if code == -11 {
        PxcErr::BufferSmall
    } else if code == -12 {
        PxcErr::CannotCalibrate
    } else if code == -13 {
        PxcErr::TooManyBadPixels
    } else if code == -14 {
        PxcErr::ZestNotLoaded
    } else {
        PxcErr::UnexpectedError
    }
}

impl From<i32> for PxcErr {
    fn from(val: i32) -> (r: PxcErr) {
        match val {
            -1 => PxcErr::NotInitialized,
            -2 => PxcErr::InvalidDeviceIndex,
            -3 => PxcErr::InvalidArgument,
            -4 => PxcErr::CouldNotSave,
            -5 => PxcErr::AcqFailed,
            -6 => PxcErr::DeviceError,
            -7 => PxcErr::AcqAborted,
            -8 => PxcErr::CannotReconnect,
            -9 => PxcErr::NotAllowed,
            -10 => PxcErr::NotSupported,
            -11 => PxcErr::BufferSmall,
            -12 => PxcErr::CannotCalibrate,
            -13 => PxcErr::TooManyBadPixels,
            -14 => PxcErr::ZestNotLoaded,
            _ => PxcErr::UnexpectedError,
        }
    }
}

impl vstd::std_specs::convert::FromSpecImpl<i32> for PxcErr {
    open spec fn obeys_from_spec() -> bool {
        true
    }

    open spec fn from_spec(val: i32) -> PxcErr {
        err_of_code(val)
    }
}

/// Checks the return code of a driver call: negative codes are errors.
pub trait PxcErrCheck {
    fn check_rc(self) -> PxcResult<()>;
}

impl PxcErrCheck for i32 {
    /// Converts a driver return code into a `Result`: `Ok` for every
    /// non-negative code, the mapped error kind for every negative one.
    fn check_rc(self) -> (r: PxcResult<()>)
        ensures
            self >= 0 ==> r == PxcResult::<()>::Ok(()),
            self < 0 ==> r == PxcResult::<()>::Err(err_of_code(self)),
    {
        if self < 0 {
            return Err(PxcErr::from(self));
        }
        Ok(())
    }
}

/// Operating modes of the sensor, with the mode code the driver expects.
#[derive(Debug, Clone, Copy, PartialEq, Eq, Structural)]
pub enum TpxMode {
    /// counting mode
    Medipix,
    /// energy mode
    Tot,
    /// timepix mode
    Timepix,
}

/// The numeric mode code that the driver expects for a sensor mode.
pub open spec fn code_of_mode(mode: TpxMode) -> i32 {
    match mode {
        TpxMode::Medipix => 0,
        TpxMode::Tot => 1,
        TpxMode::Timepix => 3,
    }
}

impl TpxMode {
    /// The numeric mode code handed to the driver when selecting this mode.
    pub fn mode_code(self) -> (r: i32)
        ensures
            r == code_of_mode(self),
    {
        match self {
            TpxMode::Medipix => 0,
            TpxMode::Tot => 1,
            TpxMode::Timepix => 3,
        }
    }
}

} // verus!

use vstd::prelude::*;

verus! {

#[verifier::external_type_specification]
#[verifier::external_body]
pub struct ExImageError(image::ImageError);

#[verifier::external_type_specification]
#[verifier::external_body]
pub struct ExArgError(lexopt::Error);

#[verifier::external_type_specification]
#[verifier::external_body]
pub struct ExQuantError(imagequant::liq_error);

#[verifier::external_type_specification]
#[verifier::external_body]
pub struct ExIoError(std::io::Error);

/// Everything that can stop the conversion of an image.
pub enum SixelError {
    /// The input could not be decoded as an image.
    Image(image::ImageError),
    /// The command line was malformed.
    Arg(lexopt::Error),
    /// Reading or writing failed; `context` says during what.
    Io { context: String, error: std::io::Error },
    /// The palette could not be built.
    Liq(imagequant::liq_error),
}

impl From<imagequant::liq_error> for SixelError {
    fn from(e: imagequant::liq_error) -> (r: Self) {
        SixelError::Liq(e)
    }
}

impl vstd::std_specs::convert::FromSpecImpl<imagequant::liq_error> for SixelError {
    open spec fn obeys_from_spec() -> bool {
        true
    }

    open spec fn from_spec(e: imagequant::liq_error) -> Self {
        SixelError::Liq(e)
    }
}

impl From<image::ImageError> for SixelError {
    fn from(e: image::ImageError) -> (r: Self) {
        SixelError::Image(e)
    }
}

impl vstd::std_specs::convert::FromSpecImpl<image::ImageError> for SixelError {
    open spec fn obeys_from_spec() -> bool {
        true
    }

    open spec fn from_spec(e: image::ImageError) -> Self {
        SixelError::Image(e)
    }
}

impl From<lexopt::Error> for SixelError {
    fn from(e: lexopt::Error) -> (r: Self) {
        SixelError::Arg(e)
    }
}

impl vstd::std_specs::convert::FromSpecImpl<lexopt::Error> for SixelError {
    open spec fn obeys_from_spec() -> bool {
        true
    }

    open spec fn from_spec(e: lexopt::Error) -> Self {
        SixelError::Arg(e)
    }
}

} // verus!

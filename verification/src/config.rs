use vstd::prelude::*;

verus! {

/// Why a configuration is turned down before anything is computed.
#[derive(Clone, Copy, Debug, PartialEq, Eq, Structural)]
pub enum ConfigError {
    /// The kernel size is neither 3 nor 5.
    UnsupportedKernelSize,
}

impl ConfigError {
    /// The error in words.
    pub fn message(&self) -> (text: String)
        ensures
            text@ == "Kernel size must be 3 or 5"@,
    {
        "Kernel size must be 3 or 5".to_owned()
    }
}

/// The kernel sizes that the filter is run with.
pub open spec fn supported_kernel_size(kernel_size: usize) -> bool {
    kernel_size == 3 || kernel_size == 5
}

/// Accepts the kernel sizes 3 and 5 and no other.
pub fn validate_kernel_size(kernel_size: usize) -> (outcome: Result<(), ConfigError>)
    ensures
        outcome.is_ok() <==> supported_kernel_size(kernel_size),
        outcome.is_err() ==> outcome == Err::<(), ConfigError>(ConfigError::UnsupportedKernelSize),
{
    if kernel_size != 3 && kernel_size != 5 {
        return Err(ConfigError::UnsupportedKernelSize);
    }
    Ok(())
}

} // verus!

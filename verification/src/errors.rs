//! The error taxonomy of the chain logic.

use vstd::prelude::*;

verus! {

/// What went wrong while reading a configuration document.
#[derive(Debug, Clone, Copy, PartialEq, Eq, Structural)]
pub enum ConfigFault {
    /// The bytes are not one JSON value followed only by whitespace.
    Unparseable,
    /// The document's top level is not a JSON object.
    NotAnObject,
    /// The required `name` member is missing or not a string.
    MissingName,
    /// The required version member is missing or not a string.
    MissingVersion,
    /// The optional `disableCheck` member is present but not a boolean.
    BadDisableCheck,
    /// The required `plugins` member is missing or not an array.
    MissingPlugins,
    /// A `plugins` element is not an object carrying a nonempty `type` string.
    BadPlugin,
}

/// The errors a chain operation can surface.
#[derive(Debug)]
pub enum CniError {
    /// A configuration document was rejected.
    Config(ConfigFault),
    /// The named plugin type was found under no search path.
    PluginNotFound { plugin: Vec<u8> },
    /// A delegate reported a protocol-level error, or exited nonzero with
    /// unparseable output; the message is the delegate's own text.
    Execute { message: Vec<u8> },
    /// A delegate exceeded the caller-supplied time bound and was killed.
    Timeout,
    /// A delegate's output did not parse as a JSON result.
    Decode,
    /// The registry holds fewer bindings than the configured minimum.
    NotInitialized,
}

} // verus!

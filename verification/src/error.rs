use vstd::prelude::*;
use vstd::string::StringExecFns;

verus! {

/// Error kinds the planning engine can report.  Out-of-domain geometry is
/// escalated; data problems such as a full table are reported by the builder
/// that hits them; the remaining kinds mirror the conditions the serving
/// boundary distinguishes.
#[derive(Debug)]
pub enum OLPError {
    GeometryError { message: String },
    ValidationError { message: String },
    ConfigError { message: String },
    DataError { message: String },
    NetworkError { message: String },
    InternalError { message: String },
    NotFound { resource: String },
    BadRequest { message: String },
}

impl OLPError {
    pub fn geometry_error(error: &str) -> (r: OLPError)
        ensures
            r matches OLPError::GeometryError { message } && message@ == error@,
    {
        OLPError::GeometryError { message: String::from_str(error) }
    }

    pub fn validation_error(error: &str) -> (r: OLPError)
        ensures
            r matches OLPError::ValidationError { message } && message@ == error@,
    {
        OLPError::ValidationError { message: String::from_str(error) }
    }

    pub fn config_error(error: &str) -> (r: OLPError)
        ensures
            r matches OLPError::ConfigError { message } && message@ == error@,
    {
        OLPError::ConfigError { message: String::from_str(error) }
    }

    pub fn data_error(error: &str) -> (r: OLPError)
        ensures
            r matches OLPError::DataError { message } && message@ == error@,
    {
        OLPError::DataError { message: String::from_str(error) }
    }

    pub fn network_error(error: &str) -> (r: OLPError)
        ensures
            r matches OLPError::NetworkError { message } && message@ == error@,
    {
        OLPError::NetworkError { message: String::from_str(error) }
    }

    pub fn internal_error(error: &str) -> (r: OLPError)
        ensures
            r matches OLPError::InternalError { message } && message@ == error@,
    {
        OLPError::InternalError { message: String::from_str(error) }
    }

    pub fn not_found(resource: &str) -> (r: OLPError)
        ensures
            r matches OLPError::NotFound { resource: m } && m@ == resource@,
    {
        OLPError::NotFound { resource: String::from_str(resource) }
    }

    pub fn bad_request(message: &str) -> (r: OLPError)
        ensures
            r matches OLPError::BadRequest { message: m } && m@ == message@,
    {
        OLPError::BadRequest { message: String::from_str(message) }
    }

    pub fn from_error(error: &str) -> (r: OLPError)
        ensures
            r matches OLPError::InternalError { message } && message@ == error@,
    {
        OLPError::InternalError { message: String::from_str(error) }
    }

    /// The kind prefix a rendered message carries.
    pub open spec fn prefix(self) -> Seq<char> {
        match self {
            OLPError::GeometryError { .. } => "Geometry error: "@,
            OLPError::ValidationError { .. } => "Validation error: "@,
            OLPError::ConfigError { .. } => "Configuration error: "@,
            OLPError::DataError { .. } => "Data error: "@,
            OLPError::NetworkError { .. } => "Network error: "@,
            OLPError::InternalError { .. } => "Internal error: "@,
            OLPError::NotFound { .. } => "Not found: "@,
            OLPError::BadRequest { .. } => "Bad request: "@,
        }
    }

    /// The message carried by the error, without the kind prefix.
    pub open spec fn body(self) -> Seq<char> {
        match self {
            OLPError::GeometryError { message } => message@,
            OLPError::ValidationError { message } => message@,
            OLPError::ConfigError { message } => message@,
            OLPError::DataError { message } => message@,
            OLPError::NetworkError { message } => message@,
            OLPError::InternalError { message } => message@,
            OLPError::NotFound { resource } => resource@,
            OLPError::BadRequest { message } => message@,
        }
    }

    /// Human-readable rendering: the kind prefix followed by the message.
    pub fn describe(&self) -> (r: String)
        ensures
            r@ == self.prefix() + self.body(),
    {
        match self {
            OLPError::GeometryError { message } => String::from_str("Geometry error: ").concat(
                message.as_str(),
            ),
            OLPError::ValidationError { message } => String::from_str("Validation error: ").concat(
                message.as_str(),
            ),
            OLPError::ConfigError { message } => String::from_str(
                "Configuration error: ",
            ).concat(message.as_str()),
            OLPError::DataError { message } => String::from_str("Data error: ").concat(
                message.as_str(),
            ),
            OLPError::NetworkError { message } => String::from_str("Network error: ").concat(
                message.as_str(),
            ),
            OLPError::InternalError { message } => String::from_str("Internal error: ").concat(
                message.as_str(),
            ),
            OLPError::NotFound { resource } => String::from_str("Not found: ").concat(
                resource.as_str(),
            ),
            OLPError::BadRequest { message } => String::from_str("Bad request: ").concat(
                message.as_str(),
            ),
        }
    }
}

} // verus!

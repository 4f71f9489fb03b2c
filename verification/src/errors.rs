use vstd::prelude::*;

verus! {

/// The failures the decision core itself can report. Transport and file
/// faults stay with the caller that performs the network or disk
/// operation; it reports those in its own terms.
#[derive(Debug)]
pub enum Error {
    /// No name was requested and no default speaker is configured.
    NoDefaultSpeaker,
    /// The directory lookup finished and found no device of this name.
    SpeakerNotFound(String),
    /// No configuration directory exists on this host.
    NoConfigDirectory,
    /// The record does not have the expected two-field shape.
    InvalidConfig,
    /// The given text is not a value of the configuration grammar.
    JsonSyntax,
}

impl Error {
    /// A human-readable description, for the caller to print.
    pub fn message(&self) -> (r: String)
        ensures
            r@ == match self {
                Error::NoDefaultSpeaker => "No default speaker set"@,
                Error::SpeakerNotFound(name) => "Speaker not found: "@ + name@,
                Error::NoConfigDirectory => "No config directory"@,
                Error::InvalidConfig => "Invalid config"@,
                Error::JsonSyntax => "Invalid JSON value"@,
            },
    {
        match self {
            Error::NoDefaultSpeaker => "No default speaker set".to_owned(),
            Error::SpeakerNotFound(name) => {
                let r = "Speaker not found: ".to_owned();
                r.concat(name.as_str())
            },
            Error::NoConfigDirectory => "No config directory".to_owned(),
            Error::InvalidConfig => "Invalid config".to_owned(),
            Error::JsonSyntax => "Invalid JSON value".to_owned(),
        }
    }
}

} // verus!

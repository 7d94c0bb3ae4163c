//! What can go wrong.

use vstd::prelude::*;

verus! {

/// An error of the compiler or the deployer. Each variant carries the text that is shown.
#[derive(Debug)]
pub enum ConfigError {
    /// A document is not JSON; the text is the parser's.
    Json(String),
    /// The configuration breaks a rule.
    Validation(String),
    /// Secrets could not be decrypted.
    Sops(String),
    /// The target could not be reached or did not do as it was told.
    Deploy(String),
}

/// An error as the contracts speak of it.
pub enum Failure {
    Json(Seq<char>),
    Validation(Seq<char>),
    Sops(Seq<char>),
    Deploy(Seq<char>),
}

impl View for ConfigError {
    type V = Failure;

    open spec fn view(&self) -> Failure {
        match self {
            ConfigError::Json(m) => Failure::Json(m@),
            ConfigError::Validation(m) => Failure::Validation(m@),
            ConfigError::Sops(m) => Failure::Sops(m@),
            ConfigError::Deploy(m) => Failure::Deploy(m@),
        }
    }
}

impl Failure {
    /// The text that is shown.
    pub open spec fn message(self) -> Seq<char> {
        match self {
            Failure::Json(m) => "Failed to parse JSON: "@ + m,
            Failure::Validation(m) => m,
            Failure::Sops(m) => m,
            Failure::Deploy(m) => m,
        }
    }
}

impl ConfigError {
    /// The text that is shown.
    pub fn message(&self) -> (r: String)
        ensures
            r@ == self@.message(),
    {
        match self {
            ConfigError::Json(m) => {
                let mut s = "Failed to parse JSON: ".to_owned();
                s.append(m.as_str());
                s
            },
            ConfigError::Validation(m) => m.clone(),
            ConfigError::Sops(m) => m.clone(),
            ConfigError::Deploy(m) => m.clone(),
        }
    }
}

/// What is shown of an error is its own text; that of a parser is introduced.
pub proof fn errors_show_their_texts(m: Seq<char>)
    ensures
        Failure::Json(m).message() == "Failed to parse JSON: "@ + m,
        Failure::Validation(m).message() == m,
        Failure::Sops(m).message() == m,
        Failure::Deploy(m).message() == m,
{
}

} // verus!

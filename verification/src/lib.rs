//! Registration of a URI-scheme handler through a desktop-entry descriptor
//! file.
//!
//! The core is a verified parser and mutator for the descriptor format: an
//! ordered field map that is decoded from and encoded back to the textual
//! `[Desktop Entry]` shape, plus the operations that insert or remove the
//! single `x-scheme-handler/...` token of the `MimeType` field.
use vstd::prelude::*;
use vstd::string::StringExecFns;

pub mod entry;
pub mod index_map;
pub mod laws;
pub mod model;
pub mod text;

pub use entry::DesktopEntry;

verus! {

/// The ways a descriptor text can fail to decode.
#[derive(Clone, Copy, Debug, PartialEq, Eq, Structural)]
pub enum ParseError {
    /// The first line is present but is not the `[Desktop Entry]` header.
    NotDesktopEntry,
    /// A field line does not split into exactly one key and one value.
    InvalidFieldFormat,
}

impl ParseError {
    /// A human-readable description of the error.
    pub fn message(&self) -> (r: &'static str)
        ensures
            *self is NotDesktopEntry ==> r@ == "Not a desktop entry"@,
            *self is InvalidFieldFormat ==> r@ == "Invalid field format"@,
    {
        match self {
            ParseError::NotDesktopEntry => "Not a desktop entry",
            ParseError::InvalidFieldFormat => "Invalid field format",
        }
    }
}

/// Registration of one handler for one URI scheme; `name` is the descriptor
/// file's base name, `protocol_name` the scheme to be handled.
pub struct ProtocolHandler {
    pub name: String,
    pub protocol_name: String,
}

impl ProtocolHandler {
    /// The new descriptor text that registers this handler, computed from
    /// the target file's current text and the executable path.
    pub fn register(&self, content: &str, exe_path: &str) -> (r: Result<String, ParseError>)
        ensures
            r matches Ok(out) ==> model::spec_register(content@, exe_path@, self.protocol_name@)
                == Ok::<Seq<char>, ParseError>(out@),
            r matches Err(e) ==> model::spec_register(content@, exe_path@, self.protocol_name@)
                == Err::<Seq<char>, ParseError>(e),
    {
        register(content, exe_path, self.protocol_name.as_str())
    }

    /// The new descriptor text that unregisters this handler, computed from
    /// the target file's current text and the executable path.
    pub fn unregister(&self, content: &str, exe_path: &str) -> (r: Result<String, ParseError>)
        ensures
            r matches Ok(out) ==> model::spec_unregister(content@, exe_path@) == Ok::<
                Seq<char>,
                ParseError,
            >(out@),
            r matches Err(e) ==> model::spec_unregister(content@, exe_path@) == Err::<
                Seq<char>,
                ParseError,
            >(e),
    {
        unregister(content, exe_path)
    }

    /// The path of this handler's descriptor file under the given home
    /// directory.
    pub fn descriptor_path(&self, home: &str) -> (r: String)
        ensures
            r@ == home@ + "/.local/share/applications/"@ + self.name@ + ".desktop"@,
    {
        descriptor_path(home, self.name.as_str())
    }
}

/// The conventional location of the descriptor file for handler `name`
/// under the given home directory.
pub fn descriptor_path(home: &str, name: &str) -> (r: String)
    ensures
        r@ == home@ + "/.local/share/applications/"@ + name@ + ".desktop"@,
{
    let mut p = home.to_owned();
    p.append("/.local/share/applications/");
    p.append(name);
    p.append(".desktop");
    p
}

/// Compute the registered descriptor text: decode `content`, default the
/// `Exec` field to `exe_path` with the ` %u` placeholder, insert the
/// `x-scheme-handler/{protocol_name}` token, and encode. A decode failure
/// is returned unchanged, so an unparsable file is never clobbered.
pub fn register(content: &str, exe_path: &str, protocol_name: &str) -> (r: Result<
    String,
    ParseError,
>)
    ensures
        r matches Ok(out) ==> model::spec_register(content@, exe_path@, protocol_name@) == Ok::<
            Seq<char>,
            ParseError,
        >(out@),
        r matches Err(e) ==> model::spec_register(content@, exe_path@, protocol_name@) == Err::<
            Seq<char>,
            ParseError,
        >(e),
{
    let mut d = match entry::DesktopEntry::try_from(content) {
        Ok(d) => d,
        Err(e) => {
            return Err(e);
        },
    };
    d.set_default_exec(exe_path);
    let mut token = String::from_str("x-scheme-handler/");
    token.append(protocol_name);
    proof {
        assert(token@ == model::scheme_token(protocol_name@));
    }
    d.insert_scheme_handler(token);
    Ok(d.to_string())
}

/// Compute the unregistered descriptor text: decode `content`, default the
/// `Exec` field as registration does, remove the scheme-handler token, and
/// encode.
pub fn unregister(content: &str, exe_path: &str) -> (r: Result<String, ParseError>)
    ensures
        r matches Ok(out) ==> model::spec_unregister(content@, exe_path@) == Ok::<
            Seq<char>,
            ParseError,
        >(out@),
        r matches Err(e) ==> model::spec_unregister(content@, exe_path@) == Err::<
            Seq<char>,
            ParseError,
        >(e),
{
    let mut d = match entry::DesktopEntry::try_from(content) {
        Ok(d) => d,
        Err(e) => {
            return Err(e);
        },
    };
    d.set_default_exec(exe_path);
    d.delete_scheme_handler();
    Ok(d.to_string())
}

} // verus!

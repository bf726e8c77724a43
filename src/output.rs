//! Selection of the output format by name.
use vstd::prelude::*;
use vstd::string::*;
use crate::spec::same_text;

verus! {

/// Output formats of extracted comments.
#[derive(Clone, Copy, Debug, PartialEq, Eq, Structural)]
pub enum Format {
    /// One line per comment: `[index]line:start: 'text'`.
    Plain,
    /// An array of `{line, start, body}` objects.
    JSON,
}

/// An unknown output format name.
#[derive(Clone, Debug)]
pub struct ParseFormatErr {
    pub msg: String,
}

/// The format called `name`: `json` or `plain`.
pub open spec fn format_of(name: Seq<char>) -> Option<Format> {
    if name == "json"@ {
        Some(Format::JSON)
    } else if name == "plain"@ {
        Some(Format::Plain)
    } else {
        None
    }
}

/// The message of the error for the unknown name `name`.
pub open spec fn unknown_option(name: Seq<char>) -> Seq<char> {
    "unknown option `"@ + name + "`"@
}

impl ParseFormatErr {
    /// The full error message.
    pub fn message(&self) -> (r: String)
        ensures
            r@ == "format parse error: "@ + self.msg@ + ". Supported format options are `plain` or `json`"@,
    {
        let mut r = String::from_str("format parse error: ");
        r.append(self.msg.as_str());
        r.append(". Supported format options are `plain` or `json`");
        r
    }
}

impl Format {
    /// The format called `name`, or an error that names it.
    pub fn parse(name: &str) -> (r: Result<Format, ParseFormatErr>)
        ensures
            format_of(name@) is Some ==> r == Ok::<Format, ParseFormatErr>(format_of(name@)->0),
            format_of(name@) is None ==> r is Err && r->Err_0.msg@ == unknown_option(name@),
    {
        if same_text(name, "json") {
            Ok(Format::JSON)
        } else if same_text(name, "plain") {
            Ok(Format::Plain)
        } else {
            let mut msg = String::from_str("unknown option `");
            msg.append(name);
            msg.append("`");
            Err(ParseFormatErr { msg })
        }
    }
}

impl std::str::FromStr for Format {
    type Err = ParseFormatErr;

    fn from_str(s: &str) -> Result<Format, ParseFormatErr> {
        Format::parse(s)
    }
}

} // verus!

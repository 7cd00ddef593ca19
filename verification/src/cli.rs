//! Decisions on the command line.

use vstd::prelude::*;

verus! {

/// What `url::Url::parse` makes of a text: the scheme of the URL, or the message of the error.
pub uninterp spec fn parsed_url(text: Seq<char>) -> Result<Seq<char>, Seq<char>>;

/// The characters of a parsed URL's scheme or of the message.
pub open spec fn parsed_text(parsed: Result<String, String>) -> Result<Seq<char>, Seq<char>> {
    match parsed {
        Ok(scheme) => Ok(scheme@),
        Err(message) => Err(message@),
    }
}

/// `url::Url::parse` parses an absolute URL. Of the URL its `scheme` is kept, of the error its
/// text.
#[verifier::external_body]
fn parse_url(text: &str) -> (parsed: Result<String, String>)
    ensures
        parsed_text(parsed) == parsed_url(text@),
{
    match url::Url::parse(text) {
        Ok(url) => Ok(url.scheme().to_owned()),
        Err(error) => Err(error.to_string()),
    }
}

/// Whether a parsed URL can be forwarded to, and the message if not.
pub open spec fn forward_verdict(parsed: Result<Seq<char>, Seq<char>>) -> Result<(), Seq<char>> {
    match parsed {
        Ok(scheme) => if scheme == "ws"@ || scheme == "wss"@ {
            Ok(())
        } else {
            Err("must be WebSocket URL (ws:// or wss://)"@)
        },
        Err(message) => Err(message),
    }
}

/// The characters of the message of a verdict.
pub open spec fn verdict_text(verdict: Result<(), String>) -> Result<(), Seq<char>> {
    match verdict {
        Ok(()) => Ok(()),
        Err(message) => Err(message@),
    }
}

/// Judges a parsed URL: only WebSocket URLs can be forwarded to.
pub fn judge_forward_url(parsed: Result<String, String>) -> (verdict: Result<(), String>)
    ensures
        verdict_text(verdict) == forward_verdict(parsed_text(parsed)),
{
    match parsed {
        Ok(scheme) => if scheme == "ws".to_owned() || scheme == "wss".to_owned() {
            Ok(())
        } else {
            Err("must be WebSocket URL (ws:// or wss://)".to_owned())
        },
        Err(message) => Err(message),
    }
}

/// Judges the address to forward to.
pub fn validate_forward_url(s: &str) -> (verdict: Result<(), String>)
    ensures
        verdict_text(verdict) == forward_verdict(parsed_url(s@)),
{
    judge_forward_url(parse_url(s))
}

/// The level of logging for a session that comes from a file or not, with the standard input
/// and error on a terminal or not.
pub open spec fn level_of(
    has_input_file: bool,
    stdin_is_terminal: bool,
    stderr_is_terminal: bool,
    verbose: bool,
) -> Seq<char> {
    if !has_input_file && !stdin_is_terminal && stderr_is_terminal {
        "off"@
    } else if verbose {
        "debug"@
    } else {
        "info"@
    }
}

/// The level of logging. A session piped in, watched on a terminal, is not written over.
pub fn log_level(
    has_input_file: bool,
    stdin_is_terminal: bool,
    stderr_is_terminal: bool,
    verbose: bool,
) -> (level: &'static str)
    ensures
        level@ == if !has_input_file && !stdin_is_terminal && stderr_is_terminal {
            "off"@
        } else if verbose {
            "debug"@
        } else {
            "info"@
        },
        level@ == level_of(has_input_file, stdin_is_terminal, stderr_is_terminal, verbose),
{
    if !has_input_file && !stdin_is_terminal && stderr_is_terminal {
        "off"
    } else if verbose {
        "debug"
    } else {
        "info"
    }
}

/// One side of the terminal size: as given, else as the terminal has it, else `last`.
pub open spec fn side_of(given: Option<usize>, terminal: Option<u16>, last: int) -> int {
    match (given, terminal) {
        (Some(given), _) => given as int,
        (None, Some(terminal)) => terminal as int,
        (None, None) => last,
    }
}

/// The terminal size for sessions that do not tell theirs: as given, else as the terminal has
/// it, else eighty columns and twenty-four rows.
pub fn default_size(
    cols: Option<usize>,
    rows: Option<usize>,
    terminal: Option<(u16, u16)>,
) -> (size: (usize, usize))
    ensures
        size.0 == match (cols, terminal) {
            (Some(cols), _) => cols as int,
            (None, Some((cols, _))) => cols as int,
            (None, None) => 80,
        },
        size.1 == match (rows, terminal) {
            (Some(rows), _) => rows as int,
            (None, Some((_, rows))) => rows as int,
            (None, None) => 24,
        },
        size.0 == side_of(
            cols,
            match terminal {
                Some((cols, _)) => Some(cols),
                None => None,
            },
            80,
        ),
        size.1 == side_of(
            rows,
            match terminal {
                Some((_, rows)) => Some(rows),
                None => None,
            },
            24,
        ),
{
    let (terminal_cols, terminal_rows): (u16, u16) = match terminal {
        Some((cols, rows)) => (cols, rows),
        None => (80, 24),
    };
    (
        match cols {
            Some(cols) => cols,
            None => terminal_cols as usize,
        },
        match rows {
            Some(rows) => rows,
            None => terminal_rows as usize,
        },
    )
}

/// A URL can be forwarded to exactly where it parses and its scheme is one of the two of
/// WebSockets. Another scheme is refused with a fixed message, and what does not parse with
/// the message of the parser.
pub proof fn law_forward_verdict(scheme: Seq<char>, message: Seq<char>)
    ensures
        forward_verdict(Ok(scheme)) is Ok <==> scheme == "ws"@ || scheme == "wss"@,
        forward_verdict(Ok(scheme)) matches Err(refusal) ==> refusal
            == "must be WebSocket URL (ws:// or wss://)"@,
        forward_verdict(Err(message)) == Err::<(), Seq<char>>(message),
{
}

/// A verdict and its characters tell the same, and so do a parsed URL and its characters.
pub proof fn law_texts_tell(text: String)
    ensures
        verdict_text(Ok(())) is Ok,
        verdict_text(Err(text)) == Err::<(), Seq<char>>(text@),
        parsed_text(Ok(text)) == Ok::<Seq<char>, Seq<char>>(text@),
        parsed_text(Err(text)) == Err::<Seq<char>, Seq<char>>(text@),
{
}

/// Logging is off exactly for a session piped in that is watched on a terminal; else the
/// verbose flag alone decides.
pub proof fn law_log_level(file: bool, stdin: bool, stderr: bool)
    ensures
        forall|verbose: bool| #[trigger]
            level_of(file, stdin, stderr, verbose) == "off"@ <==> !file && !stdin && stderr,
        file || stdin || !stderr ==> level_of(file, stdin, stderr, true) == "debug"@ && level_of(
            file,
            stdin,
            stderr,
            false,
        ) == "info"@,
{
    reveal_strlit("off");
    reveal_strlit("debug");
    reveal_strlit("info");
    assert("off"@.len() == 3 && "debug"@.len() == 5 && "info"@.len() == 4);
}

/// What is given goes before what the terminal has, and that before the fixed size.
pub proof fn law_default_size(given: usize, terminal: u16, any: Option<u16>, last: int)
    ensures
        side_of(Some(given), any, last) == given,
        side_of(None, Some(terminal), last) == terminal,
        side_of(None, None, last) == last,
{
}

} // verus!

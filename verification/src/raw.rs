//! A raw terminal session, as `script` or a terminal leaves it.

use vstd::prelude::*;
use vstd::string::StrSliceExecFns;
use vstd::utf8;

verus! {

/// First line of a file written by `script`, with the terminal's columns and lines.
pub const SCRIPT_HEADER: &'static str = r#"\[.*COLUMNS="(\d{1,3})" LINES="(\d{1,3})".*\]"#;

/// Control sequence that sets a terminal's lines and columns.
pub const RESIZE_SEQ: &'static str = r#"\x1b\[8;(\d{1,3});(\d{1,3})t"#;

/// The two groups of the first match of a pattern in a text.
pub uninterp spec fn captured(pattern: Seq<char>, text: Seq<char>) -> Option<
    (Seq<char>, Seq<char>),
>;

/// `regex::Regex::new` compiles one of the two patterns, and `Regex::captures` finds the first
/// match in a text and its two groups. Both patterns are valid, have two groups, and match
/// only where both groups match, one to three characters each.
#[verifier::external_body]
fn captures(pattern: &str, text: &str) -> (groups: Option<(String, String)>)
    requires
        pattern@ == SCRIPT_HEADER@ || pattern@ == RESIZE_SEQ@,
    ensures
        match groups {
            Some((first, second)) => captured(pattern@, text@) == Some((first@, second@)) && 1
                <= first@.len() <= 3 && 1 <= second@.len() <= 3,
            None => captured(pattern@, text@) is None,
        },
{
    let found = regex::Regex::new(pattern).unwrap().captures(text)?;
    Some((found[1].to_owned(), found[2].to_owned()))
}

/// What `String::from_utf8_lossy` makes of some bytes.
pub uninterp spec fn lossy_text(bytes: Seq<u8>) -> Seq<char>;

/// `String::from_utf8_lossy` decodes UTF-8. Where the bytes are not UTF-8 it puts replacement
/// characters.
#[verifier::external_body]
fn decode_lossy(bytes: &[u8]) -> (text: String)
    ensures
        text@ == lossy_text(bytes@),
        utf8::valid_utf8(bytes@) ==> text@ == utf8::decode_utf8(bytes@),
{
    String::from_utf8_lossy(bytes).into_owned()
}

/// A character that is a decimal digit.
pub open spec fn is_digit(c: char) -> bool {
    '0' <= c <= '9'
}

/// The number that some decimal digits stand for.
pub open spec fn digits_value(digits: Seq<char>) -> nat
    decreases digits.len(),
{
    if digits.len() == 0 {
        0
    } else {
        (10 * digits_value(digits.drop_last()) + (digits.last() as int - '0' as int)) as nat
    }
}

/// The digits of a number that may have a plus sign.
pub open spec fn unsigned_part(text: Seq<char>) -> Seq<char> {
    if text.len() > 0 && text[0] == '+' {
        text.skip(1)
    } else {
        text
    }
}

/// The number that a text stands for: decimal digits, at least one, of a number that fits.
pub open spec fn number_of(text: Seq<char>) -> Option<usize> {
    let digits = unsigned_part(text);
    if digits.len() > 0 && (forall|i: int| 0 <= i < digits.len() ==> is_digit(#[trigger] digits[i]))
        && digits_value(digits) <= usize::MAX {
        Some(digits_value(digits) as usize)
    } else {
        None
    }
}

/// More digits never make a number smaller.
proof fn lemma_digits_value_grows(digits: Seq<char>, n: int)
    requires
        0 <= n <= digits.len(),
        forall|i: int| 0 <= i < digits.len() ==> is_digit(#[trigger] digits[i]),
    ensures
        digits_value(digits.take(n)) <= digits_value(digits),
    decreases digits.len(),
{
    if n == digits.len() {
        assert(digits.take(n) =~= digits);
    } else {
        let shorter = digits.drop_last();
        assert(is_digit(digits[digits.len() - 1]));
        lemma_digits_value_grows(shorter, n);
        assert(shorter.take(n) =~= digits.take(n));
    }
}

/// Three digits make a number below a thousand.
proof fn lemma_three_digits(digits: Seq<char>)
    requires
        digits.len() <= 3,
        forall|i: int| 0 <= i < digits.len() ==> is_digit(#[trigger] digits[i]),
    ensures
        digits_value(digits) <= 999,
{
    reveal_with_fuel(digits_value, 4);
    if digits.len() > 0 {
        assert(is_digit(digits.last()));
        let shorter = digits.drop_last();
        if shorter.len() > 0 {
            assert(is_digit(digits[shorter.len() - 1]));
            if shorter.len() > 1 {
                assert(is_digit(digits[0]));
            }
        }
    }
}

/// A number from its decimal digits.
pub fn parse_number(text: &str) -> (number: Option<usize>)
    ensures
        number == number_of(text@),
{
    let len: usize = text.unicode_len();
    let start: usize = if len > 0 && text.get_char(0) == '+' {
        1
    } else {
        0
    };
    let ghost digits = unsigned_part(text@);
    if start == len {
        return None;
    }
    let mut number: usize = 0;
    let mut i: usize = start;
    while i < len
        invariant
            len == text@.len(),
            start <= i <= len,
            start <= 1,
            digits == unsigned_part(text@),
            digits.len() == len - start,
            forall|j: int| 0 <= j < digits.len() ==> digits[j] == #[trigger] text@[j + start],
            forall|j: int| 0 <= j < i - start ==> is_digit(#[trigger] digits[j]),
            number == digits_value(digits.take(i - start)),
        decreases len - i,
    {
        let c: char = text.get_char(i);
        assert(digits[i - start] == text@[(i - start) + start]);
        if c < '0' || c > '9' {
            assert(!is_digit(digits[i - start]));
            return None;
        }
        let digit: usize = (c as u32 - '0' as u32) as usize;
        proof {
            let more = digits.take(i + 1 - start);
            assert(more.drop_last() =~= digits.take(i - start));
            assert(more.last() == c);
            if 10 * number + digit > usize::MAX && number_of(text@) is Some {
                lemma_digits_value_grows(digits, i + 1 - start);
            }
        }
        if number > (usize::MAX - digit) / 10 {
            return None;
        }
        number = 10 * number + digit;
        i = i + 1;
    }
    assert(digits.take(i - start) =~= digits);
    Some(number)
}

/// A captured number is not a decimal number.
#[derive(Clone, Copy, Debug, PartialEq, Eq, Structural)]
pub struct NotANumber {}

/// The terminal size (columns, rows) in the groups captured from a `script` header, columns
/// first, or else from a resize sequence, rows first.
pub open spec fn size_in(
    header: Option<(Seq<char>, Seq<char>)>,
    resize: Option<(Seq<char>, Seq<char>)>,
) -> Result<Option<(usize, usize)>, NotANumber> {
    let groups = match header {
        Some((cols, rows)) => Some((cols, rows)),
        None => match resize {
            Some((rows, cols)) => Some((cols, rows)),
            None => None,
        },
    };
    match groups {
        None => Ok(None),
        Some((cols, rows)) => match (number_of(cols), number_of(rows)) {
            (Some(cols), Some(rows)) => Ok(Some((cols, rows))),
            _ => Err(NotANumber {  }),
        },
    }
}

/// The characters of captured groups.
pub open spec fn groups_of(groups: Option<(String, String)>) -> Option<(Seq<char>, Seq<char>)> {
    match groups {
        Some((first, second)) => Some((first@, second@)),
        None => None,
    }
}

/// The terminal size in captured groups.
pub fn captured_size(header: Option<(String, String)>, resize: Option<(String, String)>) -> (size:
    Result<Option<(usize, usize)>, NotANumber>)
    ensures
        size == size_in(groups_of(header), groups_of(resize)),
{
    let groups: Option<(String, String)> = match header {
        Some((cols, rows)) => Some((cols, rows)),
        None => match resize {
            Some((rows, cols)) => Some((cols, rows)),
            None => None,
        },
    };
    match groups {
        None => Ok(None),
        Some((cols, rows)) => match (parse_number(cols.as_str()), parse_number(rows.as_str())) {
            (Some(cols), Some(rows)) => Ok(Some((cols, rows))),
            _ => Err(NotANumber {  }),
        },
    }
}

/// The terminal size that a text tells.
pub open spec fn size_of_text(text: Seq<char>) -> Result<Option<(usize, usize)>, NotANumber> {
    size_in(captured(SCRIPT_HEADER@, text), captured(RESIZE_SEQ@, text))
}

/// A captured number of one to three characters is below a thousand.
proof fn lemma_short_number(text: Seq<char>)
    requires
        text.len() <= 3,
    ensures
        number_of(text) matches Some(number) ==> number <= 999,
{
    if number_of(text) is Some {
        lemma_three_digits(unsigned_part(text));
    }
}

/// The terminal size that the start of a session tells, if it does.
pub fn detect_size(text: &str) -> (size: Result<Option<(usize, usize)>, NotANumber>)
    ensures
        size == size_of_text(text@),
        size matches Ok(Some((cols, rows))) ==> cols <= 999 && rows <= 999,
{
    let header: Option<(String, String)> = captures(SCRIPT_HEADER, text);
    let resize: Option<(String, String)> = if header.is_some() {
        None
    } else {
        captures(RESIZE_SEQ, text)
    };
    proof {
        if let Some((first, second)) = groups_of(header) {
            lemma_short_number(first);
            lemma_short_number(second);
        }
        if let Some((first, second)) = groups_of(resize) {
            lemma_short_number(first);
            lemma_short_number(second);
        }
    }
    captured_size(header, resize)
}

/// What follows from a read of the input.
pub enum RawStep {
    /// The session starts, of a size if that is known, with its first output.
    Start(Option<(usize, usize)>, String),
    /// More output.
    Output(String),
    /// Nothing; the input has to be read again.
    Again,
    /// The session has ended.
    End,
}

/// A step with its text as characters.
pub enum RawStepView {
    Start(Option<(usize, usize)>, Seq<char>),
    Output(Seq<char>),
    Again,
    End,
}

impl View for RawStep {
    type V = RawStepView;

    open spec fn view(&self) -> RawStepView {
        match *self {
            RawStep::Start(size, text) => RawStepView::Start(size, text@),
            RawStep::Output(text) => RawStepView::Output(text@),
            RawStep::Again => RawStepView::Again,
            RawStep::End => RawStepView::End,
        }
    }
}

/// What follows from a read, `None` where the read failed. The first read starts the session
/// even if it gave nothing, and is tried again if it failed; later the session ends when
/// nothing comes or a read fails.
pub open spec fn raw_step(started: bool, chunk: Option<Seq<u8>>) -> Result<
    RawStepView,
    NotANumber,
> {
    match chunk {
        None => Ok(
            if started {
                RawStepView::End
            } else {
                RawStepView::Again
            },
        ),
        Some(bytes) => if !started {
            match size_of_text(lossy_text(bytes)) {
                Ok(size) => Ok(RawStepView::Start(size, lossy_text(bytes))),
                Err(error) => Err(error),
            }
        } else if bytes.len() == 0 {
            Ok(RawStepView::End)
        } else {
            Ok(RawStepView::Output(lossy_text(bytes)))
        },
    }
}

/// The bytes of a read.
pub open spec fn bytes_of(chunk: Option<&[u8]>) -> Option<Seq<u8>> {
    match chunk {
        Some(bytes) => Some(bytes@),
        None => None,
    }
}

/// A step or a refusal, with its text as characters.
pub open spec fn step_of(step: Result<RawStep, NotANumber>) -> Result<RawStepView, NotANumber> {
    match step {
        Ok(step) => Ok(step@),
        Err(error) => Err(error),
    }
}

/// What follows from some reads, one after the other.
pub open spec fn steps_from(started: bool, chunks: Seq<Option<Seq<u8>>>) -> Seq<
    Result<RawStepView, NotANumber>,
>
    decreases chunks.len(),
{
    if chunks.len() == 0 {
        Seq::empty()
    } else {
        seq![raw_step(started, chunks[0])] + steps_from(true, chunks.drop_first())
    }
}

proof fn lemma_steps_from(started: bool, chunks: Seq<Option<Seq<u8>>>, i: int)
    requires
        0 <= i < chunks.len(),
    ensures
        steps_from(started, chunks).len() == chunks.len(),
        steps_from(started, chunks)[i] == raw_step(started || i > 0, chunks[i]),
    decreases chunks.len(),
{
    let later = chunks.drop_first();
    if later.len() > 0 {
        lemma_steps_from(true, later, 0);
        if i > 0 {
            lemma_steps_from(true, later, i - 1);
        }
    } else {
        assert(steps_from(true, later).len() == 0);
    }
}

/// Only the first read can start a session, and only it can be refused; every later read
/// gives output or ends the session.
pub proof fn law_starts_once(chunks: Seq<Option<Seq<u8>>>, i: int)
    requires
        0 <= i < chunks.len(),
    ensures
        steps_from(false, chunks).len() == chunks.len(),
        i == 0 ==> match steps_from(false, chunks)[i] {
            Ok(step) => step is Start || step is Again,
            Err(_) => true,
        },
        i > 0 ==> match steps_from(false, chunks)[i] {
            Ok(step) => step is Output || step is End,
            Err(_) => false,
        },
{
    lemma_steps_from(false, chunks, i);
}

/// The reading of a raw session, read by read.
pub struct RawReader {
    started: bool,
}

impl RawReader {
    /// Whether something has been tried to be read.
    pub closed spec fn started(&self) -> bool {
        self.started
    }

    /// A reader before the first read.
    pub fn new() -> (reader: Self)
        ensures
            !reader.started(),
    {
        RawReader { started: false }
    }

    /// Takes the bytes of one read, `None` where the read failed. Bytes that are UTF-8 are
    /// passed on as the text they are.
    pub fn take(&mut self, chunk: Option<&[u8]>) -> (step: Result<RawStep, NotANumber>)
        ensures
            final(self).started(),
            step_of(step) == raw_step(old(self).started(), bytes_of(chunk)),
            match step {
                Ok(RawStep::Start(_, text)) | Ok(RawStep::Output(text)) => chunk is Some && (
                utf8::valid_utf8(chunk->0@) ==> text@ == utf8::decode_utf8(chunk->0@)),
                _ => true,
            },
    {
        let first: bool = !self.started;
        self.started = true;
        match chunk {
            None => if first {
                Ok(RawStep::Again)
            } else {
                Ok(RawStep::End)
            },
            Some(bytes) => if first {
                let text: String = decode_lossy(bytes);
                match detect_size(text.as_str()) {
                    Ok(size) => Ok(RawStep::Start(size, text)),
                    Err(error) => Err(error),
                }
            } else if bytes.len() == 0 {
                Ok(RawStep::End)
            } else {
                Ok(RawStep::Output(decode_lossy(bytes)))
            },
        }
    }
}

/// A step and its view tell the same.
pub proof fn law_view_tells_step(
    size: Option<(usize, usize)>,
    text: String,
    step: RawStep,
    error: NotANumber,
)
    ensures
        step_of(Ok(step)) == Ok::<RawStepView, NotANumber>(step@),
        step_of(Err(error)) == Err::<RawStepView, NotANumber>(error),
        RawStep::Start(size, text)@ == RawStepView::Start(size, text@),
        RawStep::Output(text)@ == RawStepView::Output(text@),
        RawStep::Again@ == RawStepView::Again,
        RawStep::End@ == RawStepView::End,
{
}

/// After the first read, a read that gave bytes gives their text as output, however many they
/// are; the session ends exactly at a read that failed or gave nothing.
pub proof fn law_every_read_passed_on(chunks: Seq<Option<Seq<u8>>>, i: int)
    requires
        0 < i < chunks.len(),
    ensures
        steps_from(false, chunks)[i] == Ok::<RawStepView, NotANumber>(RawStepView::End)
            <==> chunks[i] is None || chunks[i]->0.len() == 0,
        chunks[i] is Some && chunks[i]->0.len() > 0 ==> steps_from(false, chunks)[i] == Ok::<
            RawStepView,
            NotANumber,
        >(RawStepView::Output(lossy_text(chunks[i]->0))),
{
    lemma_steps_from(false, chunks, i);
}

/// The first read starts the session with its own text, even an empty one, and with the size
/// that the text tells; it is refused exactly where that size is no number, and tried again
/// exactly where it failed.
pub proof fn law_first_read_starts(chunks: Seq<Option<Seq<u8>>>, bytes: Seq<u8>)
    requires
        chunks.len() > 0,
    ensures
        steps_from(false, chunks)[0] == Ok::<RawStepView, NotANumber>(RawStepView::Again)
            <==> chunks[0] is None,
        chunks[0] == Some(bytes) ==> match steps_from(false, chunks)[0] {
            Ok(RawStepView::Start(size, text)) => text == lossy_text(bytes) && size_of_text(text)
                == Ok::<Option<(usize, usize)>, NotANumber>(size),
            Ok(_) => false,
            Err(_) => size_of_text(lossy_text(bytes)) is Err,
        },
{
    lemma_steps_from(false, chunks, 0);
}

/// A header of `script` tells the columns, then the lines, and goes before a resize sequence,
/// which tells the lines, then the columns. Without either the size is not known. A size is
/// refused exactly where one of its two numbers is none.
pub proof fn law_size_of_text(
    text: Seq<char>,
    first: Seq<char>,
    second: Seq<char>,
    m: usize,
    n: usize,
)
    ensures
        ({
            let header = captured(r#"\[.*COLUMNS="(\d{1,3})" LINES="(\d{1,3})".*\]"#@, text);
            let resize = captured(r#"\x1b\[8;(\d{1,3});(\d{1,3})t"#@, text);
            let numbers = number_of(first) == Some(m) && number_of(second) == Some(n);
            let refused = number_of(first) is None || number_of(second) is None;
            &&& header == Some((first, second)) && numbers ==> size_of_text(text) == Ok::<
                Option<(usize, usize)>,
                NotANumber,
            >(Some((m, n)))
            &&& header == Some((first, second)) && refused ==> size_of_text(text) is Err
            &&& header is None && resize == Some((first, second)) && numbers ==> size_of_text(text)
                == Ok::<Option<(usize, usize)>, NotANumber>(Some((n, m)))
            &&& header is None && resize == Some((first, second)) && refused ==> size_of_text(
                text,
            ) is Err
            &&& header is None && resize is None ==> size_of_text(text) == Ok::<
                Option<(usize, usize)>,
                NotANumber,
            >(None)
        }),
{
}

/// A single digit stands for itself; a digit behind a number makes ten times the number and
/// the digit, and no number where that does not fit.
pub proof fn law_number_by_digits(text: Seq<char>, digit: char, n: usize)
    requires
        '0' <= digit <= '9',
    ensures
        number_of(seq![digit]) == Some((digit as u32 - 48) as usize),
        number_of(text) == Some(n) && 10 * n + (digit as u32 - 48) <= usize::MAX ==> number_of(
            text.push(digit),
        ) == Some((10 * n + (digit as u32 - 48)) as usize),
        number_of(text) == Some(n) && 10 * n + (digit as u32 - 48) > usize::MAX ==> number_of(
            text.push(digit),
        ) is None,
{
    let one = seq![digit];
    assert(unsigned_part(one) =~= one);
    assert(one.drop_last() =~= Seq::empty());
    reveal_with_fuel(digits_value, 2);
    assert(digits_value(one) == digit as u32 - 48);
    if number_of(text) == Some(n) {
        let digits = unsigned_part(text);
        let more = unsigned_part(text.push(digit));
        assert(more =~= digits.push(digit));
        assert(more.drop_last() =~= digits);
        assert(digits_value(more) == 10 * n + (digit as u32 - 48));
        assert forall|i: int| 0 <= i < more.len() implies is_digit(#[trigger] more[i]) by {
            if i < digits.len() {
                assert(is_digit(digits[i]));
            }
        }
    }
}

/// A plus sign before digits changes nothing. Nothing, a lone sign, and a text with any other
/// character, or with a sign behind its start, are no numbers.
pub proof fn law_what_is_no_number(text: Seq<char>, i: int)
    ensures
        number_of(Seq::empty()) is None,
        number_of(seq!['+']) is None,
        text.len() > 0 && text[0] != '+' ==> number_of(seq!['+'] + text) == number_of(text),
        0 <= i < text.len() && !('0' <= text[i] <= '9') && !(i == 0 && text[i] == '+')
            ==> number_of(text) is None,
{
    assert(unsigned_part(Seq::<char>::empty()).len() == 0);
    assert(unsigned_part(seq!['+']).len() == 0);
    if text.len() > 0 && text[0] != '+' {
        assert(unsigned_part(seq!['+'] + text) =~= text);
    }
    if 0 <= i < text.len() && !('0' <= text[i] <= '9') && !(i == 0 && text[i] == '+') {
        let digits = unsigned_part(text);
        let j = if text[0] == '+' {
            i - 1
        } else {
            i
        };
        assert(digits[j] == text[i]);
        assert(!is_digit(digits[j]));
    }
}

/// The bytes of a read and the characters of captured groups are those that were read and
/// captured.
pub proof fn law_view_tells_input(bytes: &[u8], first: String, second: String)
    ensures
        bytes_of(Some(bytes)) == Some(bytes@),
        bytes_of(None) is None,
        groups_of(Some((first, second))) == Some((first@, second@)),
        groups_of(None) is None,
{
}

} // verus!

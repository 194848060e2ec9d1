use vstd::prelude::*;
use vstd::slice::slice_subrange;
use vstd::string::*;
use vstd::utf8::*;
use crate::fs_scan::{extension_of, extension_start, FileRecord, KifuKind};
use crate::text::text_from_utf8;
use crate::traverse::Jkf;

verus! {

/// The text encodings that are tried on a game record.
#[derive(Debug, Clone, Copy, PartialEq, Eq, Structural)]
pub enum TextEncoding {
    Utf8,
    Utf16Le,
    Utf16Be,
    ShiftJis,
    EucJp,
    Iso2022Jp,
}

/// The two formats that are written as text in one of several encodings.
#[derive(Debug, Clone, Copy, PartialEq, Eq, Structural)]
pub enum TextFormat {
    Kif,
    Ki2,
}

/// Why a file gave no game record.
#[derive(Debug, Clone)]
pub enum KifuReadError {
    /// The file is longer than `MAX_TEXT_BYTES`.
    TooLarge,
    /// No attempt to read the file as a game record succeeded; `message`
    /// tells what each attempt found.
    ParseFailed { path: String, message: String },
}

/// The longest file that is decoded.
pub const MAX_TEXT_BYTES: usize = 0x3fff_ffff;

/// What `encoding_rs` decodes `bytes` to when asked for the encoding `enc`:
/// the text, and whether malformed sequences were replaced.
pub uninterp spec fn decoded_text(enc: TextEncoding, bytes: Seq<u8>) -> (Seq<char>, bool);

/// What lossy UTF-8 decoding makes of `bytes`.
pub uninterp spec fn utf8_lossy_text(bytes: Seq<u8>) -> Seq<char>;

/// `encoding_rs::Encoding::decode`: the text that `bytes` stand for in the
/// encoding `enc`, or in the encoding of a byte order mark they start with;
/// malformed sequences are replaced, and the flag says whether there were
/// any. The outside function gives up on an input whose size times three
/// does not fit the machine, which the bound on the length keeps away.
#[verifier::external_body]
fn decode_text(enc: TextEncoding, bytes: &[u8]) -> (r: (String, bool))
    requires
        bytes@.len() <= MAX_TEXT_BYTES,
    ensures
        (r.0@, r.1) == decoded_text(enc, bytes@),
{
    let e = match enc {
        TextEncoding::Utf8 => encoding_rs::UTF_8,
        TextEncoding::Utf16Le => encoding_rs::UTF_16LE,
        TextEncoding::Utf16Be => encoding_rs::UTF_16BE,
        TextEncoding::ShiftJis => encoding_rs::SHIFT_JIS,
        TextEncoding::EucJp => encoding_rs::EUC_JP,
        TextEncoding::Iso2022Jp => encoding_rs::ISO_2022_JP,
    };
    let (text, _, had_errors) = e.decode(bytes);
    (text.into_owned(), had_errors)
}

/// `String::from_utf8_lossy`: the text of `bytes` read as UTF-8, every
/// invalid sequence replaced. Valid UTF-8 is read as it is.
#[verifier::external_body]
fn lossy_text(bytes: &[u8]) -> (r: String)
    ensures
        r@ == utf8_lossy_text(bytes@),
        valid_utf8(bytes@) ==> r@ == decode_utf8(bytes@),
{
    String::from_utf8_lossy(bytes).into_owned()
}

/// `bytes` without the UTF-8 byte order mark they may start with.
pub open spec fn spec_strip_bom(bytes: Seq<u8>) -> Seq<u8> {
    if bytes.len() >= 3 && bytes[0] == 0xef && bytes[1] == 0xbb && bytes[2] == 0xbf {
        bytes.skip(3)
    } else {
        bytes
    }
}

pub fn strip_utf8_bom(bytes: &[u8]) -> (r: &[u8])
    ensures
        r@ == spec_strip_bom(bytes@),
{
    if bytes.len() >= 3 && bytes[0] == 0xef && bytes[1] == 0xbb && bytes[2] == 0xbf {
        let r = slice_subrange(bytes, 3, bytes.len());
        proof {
            assert(r@ =~= bytes@.skip(3));
        }
        r
    } else {
        bytes
    }
}

/// The name of an encoding in messages.
pub open spec fn spec_label(enc: TextEncoding) -> Seq<char> {
    match enc {
        TextEncoding::Utf8 => "utf-8"@,
        TextEncoding::Utf16Le => "utf-16le"@,
        TextEncoding::Utf16Be => "utf-16be"@,
        TextEncoding::ShiftJis => "shift_jis"@,
        TextEncoding::EucJp => "euc-jp"@,
        TextEncoding::Iso2022Jp => "iso-2022-jp"@,
    }
}

fn label(enc: TextEncoding) -> (s: &'static str)
    ensures
        s@ == spec_label(enc),
{
    match enc {
        TextEncoding::Utf8 => "utf-8",
        TextEncoding::Utf16Le => "utf-16le",
        TextEncoding::Utf16Be => "utf-16be",
        TextEncoding::ShiftJis => "shift_jis",
        TextEncoding::EucJp => "euc-jp",
        TextEncoding::Iso2022Jp => "iso-2022-jp",
    }
}

/// The message with one more line, which says what the attempt named
/// `name` found.
pub open spec fn with_line(msg: Seq<char>, name: Seq<char>, found: Seq<char>) -> Seq<char> {
    msg + "\n- "@ + name + ": "@ + found
}

/// The name of an attempt with an encoding: the encoding's name, and a
/// note where malformed sequences were replaced.
pub open spec fn attempt_name(enc: TextEncoding, had_errors: bool) -> Seq<char> {
    if had_errors {
        spec_label(enc) + " (had_errors)"@
    } else {
        spec_label(enc)
    }
}

fn add_line(msg: &mut String, name: &str, note: &str, found: &str)
    ensures
        final(msg)@ == with_line(old(msg)@, name@ + note@, found@),
{
    msg.append("\n- ");
    msg.append(name);
    msg.append(note);
    msg.append(": ");
    msg.append(found);
    proof {
        assert(msg@ =~= with_line(old(msg)@, name@ + note@, found@));
    }
}

/// The extension that stands for Shift_JIS text of `format`: `kif` or
/// `ki2`.
pub open spec fn legacy_extension(format: TextFormat) -> Seq<u8> {
    match format {
        TextFormat::Kif => seq![0x6bu8, 0x69u8, 0x66u8],
        TextFormat::Ki2 => seq![0x6bu8, 0x69u8, 0x32u8],
    }
}

/// The extension that stands for UTF-8 text of `format`: `kifu` or `ki2u`.
pub open spec fn utf8_extension(format: TextFormat) -> Seq<u8> {
    legacy_extension(format).push(0x75u8)
}

/// The encoding that the extension of a path asks for in a file of
/// `format`, letter for letter; `None` for any other extension.
pub open spec fn standard_encoding(format: TextFormat, path: Seq<u8>) -> Option<TextEncoding> {
    match extension_of(path) {
        None => None,
        Some(ext) => if ext == legacy_extension(format) {
            Some(TextEncoding::ShiftJis)
        } else if ext == utf8_extension(format) {
            Some(TextEncoding::Utf8)
        } else {
            None
        },
    }
}

fn standard_encoding_of(format: TextFormat, path: &[u8]) -> (r: Option<TextEncoding>)
    ensures
        r == standard_encoding(format, path@),
{
    let i = match extension_start(path) {
        Some(i) => i,
        None => {
            return None;
        },
    };
    let ghost ext = path@.skip(i as int);
    let n = path.len() - i;
    let third: u8 = match format {
        TextFormat::Kif => 0x66,
        TextFormat::Ki2 => 0x32,
    };
    proof {
        let l = legacy_extension(format);
        let u = utf8_extension(format);
        assert(l.len() == 3 && l[0] == 0x6b && l[1] == 0x69 && l[2] == third);
        assert(u.len() == 4 && u[0] == 0x6b && u[1] == 0x69 && u[2] == third && u[3] == 0x75);
    }
    if n == 3 && path[i] == 0x6b && path[i + 1] == 0x69 && path[i + 2] == third {
        proof {
            assert(ext =~= legacy_extension(format));
        }
        Some(TextEncoding::ShiftJis)
    } else if n == 4 && path[i] == 0x6b && path[i + 1] == 0x69 && path[i + 2] == third && path[i
        + 3] == 0x75 {
        proof {
            assert(ext =~= utf8_extension(format));
        }
        Some(TextEncoding::Utf8)
    } else {
        proof {
            if ext == legacy_extension(format) {
                assert(ext[0] == path@[i as int]);
                assert(ext[1] == path@[i + 1]);
                assert(ext[2] == path@[i + 2]);
            }
            if ext == utf8_extension(format) {
                assert(ext[0] == path@[i as int]);
                assert(ext[1] == path@[i + 1]);
                assert(ext[2] == path@[i + 2]);
                assert(ext[3] == path@[i + 3]);
            }
        }
        None
    }
}

/// One way of getting a text out of the bytes of a file. The attempts are
/// made in the order in which they are listed here.
#[derive(Debug, Clone, Copy, PartialEq, Eq, Structural)]
pub enum Attempt {
    /// The encoding that goes with the file's extension, accepted only
    /// where no malformed sequence was replaced.
    Standard,
    /// The bytes as they are, where they are valid UTF-8.
    Utf8,
    Utf16Le,
    Utf16Be,
    ShiftJis,
    EucJp,
    Iso2022Jp,
    /// The bytes as UTF-8 with every invalid sequence replaced.
    Lossy,
}

/// The text format of a kind of file that is tried in several encodings;
/// `None` for the kinds that must be valid UTF-8.
pub open spec fn spec_text_format(kind: KifuKind) -> Option<TextFormat> {
    match kind {
        KifuKind::Kif => Some(TextFormat::Kif),
        KifuKind::Ki2 => Some(TextFormat::Ki2),
        _ => None,
    }
}

fn text_format(kind: KifuKind) -> (f: Option<TextFormat>)
    ensures
        f == spec_text_format(kind),
{
    match kind {
        KifuKind::Kif => Some(TextFormat::Kif),
        KifuKind::Ki2 => Some(TextFormat::Ki2),
        _ => None,
    }
}

/// The encoding that an attempt decodes with, for the five attempts that
/// name one.
pub open spec fn spec_encoding_of(a: Attempt) -> Option<TextEncoding> {
    match a {
        Attempt::Utf16Le => Some(TextEncoding::Utf16Le),
        Attempt::Utf16Be => Some(TextEncoding::Utf16Be),
        Attempt::ShiftJis => Some(TextEncoding::ShiftJis),
        Attempt::EucJp => Some(TextEncoding::EucJp),
        Attempt::Iso2022Jp => Some(TextEncoding::Iso2022Jp),
        _ => None,
    }
}

fn encoding_of(a: Attempt) -> (e: Option<TextEncoding>)
    ensures
        e == spec_encoding_of(a),
{
    match a {
        Attempt::Utf16Le => Some(TextEncoding::Utf16Le),
        Attempt::Utf16Be => Some(TextEncoding::Utf16Be),
        Attempt::ShiftJis => Some(TextEncoding::ShiftJis),
        Attempt::EucJp => Some(TextEncoding::EucJp),
        Attempt::Iso2022Jp => Some(TextEncoding::Iso2022Jp),
        _ => None,
    }
}

/// The first attempt on a file of `kind`: a KIF or KI2 file is first read
/// the way its extension asks for, a CSA or JKF file as UTF-8.
pub open spec fn spec_first_attempt(kind: KifuKind) -> Attempt {
    if spec_text_format(kind) is Some {
        Attempt::Standard
    } else {
        Attempt::Utf8
    }
}

/// The attempt that follows `a` on a file of `kind`. A KIF or KI2 file goes
/// through all of them; a CSA or JKF file has one attempt only.
pub open spec fn spec_next_attempt(kind: KifuKind, a: Attempt) -> Option<Attempt> {
    if spec_text_format(kind) is None {
        None
    } else {
        match a {
            Attempt::Standard => Some(Attempt::Utf8),
            Attempt::Utf8 => Some(Attempt::Utf16Le),
            Attempt::Utf16Le => Some(Attempt::Utf16Be),
            Attempt::Utf16Be => Some(Attempt::ShiftJis),
            Attempt::ShiftJis => Some(Attempt::EucJp),
            Attempt::EucJp => Some(Attempt::Iso2022Jp),
            Attempt::Iso2022Jp => Some(Attempt::Lossy),
            Attempt::Lossy => None,
        }
    }
}

fn next_attempt(kind: KifuKind, a: Attempt) -> (n: Option<Attempt>)
    ensures
        n == spec_next_attempt(kind, a),
{
    if text_format(kind).is_none() {
        return None;
    }
    match a {
        Attempt::Standard => Some(Attempt::Utf8),
        Attempt::Utf8 => Some(Attempt::Utf16Le),
        Attempt::Utf16Le => Some(Attempt::Utf16Be),
        Attempt::Utf16Be => Some(Attempt::ShiftJis),
        Attempt::ShiftJis => Some(Attempt::EucJp),
        Attempt::EucJp => Some(Attempt::Iso2022Jp),
        Attempt::Iso2022Jp => Some(Attempt::Lossy),
        Attempt::Lossy => None,
    }
}

/// How many attempts are left from `from` on, at most.
pub open spec fn attempts_left(from: Option<Attempt>) -> nat {
    match from {
        None => 0,
        Some(Attempt::Standard) => 8,
        Some(Attempt::Utf8) => 7,
        Some(Attempt::Utf16Le) => 6,
        Some(Attempt::Utf16Be) => 5,
        Some(Attempt::ShiftJis) => 4,
        Some(Attempt::EucJp) => 3,
        Some(Attempt::Iso2022Jp) => 2,
        Some(Attempt::Lossy) => 1,
    }
}

/// The bytes that are read as UTF-8: those of a KIF or KI2 file without a
/// byte order mark, those of a CSA or JKF file as they are.
pub open spec fn utf8_part(kind: KifuKind, bytes: Seq<u8>) -> Seq<u8> {
    if spec_text_format(kind) is Some {
        spec_strip_bom(bytes)
    } else {
        bytes
    }
}

/// The text that the attempt `a` gets out of `bytes`, with the flag that
/// says whether malformed sequences were replaced; `None` where the
/// attempt gives no text to parse.
pub open spec fn attempt_text(kind: KifuKind, path: Seq<char>, bytes: Seq<u8>, a: Attempt) -> Option<
    (Seq<char>, bool),
> {
    match a {
        Attempt::Standard => match spec_text_format(kind) {
            None => None,
            Some(format) => match standard_encoding(format, encode_utf8(path)) {
                None => None,
                Some(enc) => if decoded_text(enc, bytes).1 {
                    None
                } else {
                    Some(decoded_text(enc, bytes))
                },
            },
        },
        Attempt::Utf8 => if valid_utf8(utf8_part(kind, bytes)) {
            Some((decode_utf8(utf8_part(kind, bytes)), false))
        } else {
            None
        },
        Attempt::Lossy => Some((utf8_lossy_text(utf8_part(kind, bytes)), false)),
        _ => Some(decoded_text(spec_encoding_of(a)->Some_0, bytes)),
    }
}

/// The message before any attempt was made.
pub open spec fn message_start(kind: KifuKind) -> Seq<char> {
    if spec_text_format(kind) is Some {
        "all decode+parse attempts failed:"@
    } else {
        Seq::empty()
    }
}

/// The message after the attempt `a` gave no text. On a KIF or KI2 file
/// only the UTF-8 attempt leaves a line; on a CSA or JKF file the message
/// says that the bytes are not UTF-8.
pub open spec fn after_skip(kind: KifuKind, a: Attempt, msg: Seq<char>) -> Seq<char> {
    if spec_text_format(kind) is None {
        "invalid utf-8"@
    } else if a == Attempt::Utf8 {
        with_line(msg, "utf-8"@, "invalid bytes"@)
    } else {
        msg
    }
}

/// The message after the text of the attempt `a` did not parse, the parser
/// having found `found`. On a KIF or KI2 file every attempt but the first
/// leaves a line; on a CSA or JKF file the message is what the parser found.
pub open spec fn after_failure(
    kind: KifuKind,
    a: Attempt,
    had_errors: bool,
    msg: Seq<char>,
    found: Seq<char>,
) -> Seq<char> {
    if spec_text_format(kind) is None {
        found
    } else {
        match a {
            Attempt::Standard => msg,
            Attempt::Utf8 => with_line(msg, "utf-8"@, found),
            Attempt::Lossy => with_line(msg, "utf-8 lossy"@, found),
            _ => with_line(msg, attempt_name(spec_encoding_of(a)->Some_0, had_errors), found),
        }
    }
}

/// What looking for the next text to parse comes to.
pub enum Sought {
    /// The attempt `attempt` gives `text`; `message` tells what the
    /// attempts before it found.
    Text { attempt: Attempt, text: Seq<char>, had_errors: bool, message: Seq<char> },
    /// No attempt is left.
    Nothing { message: Seq<char> },
}

/// Looks for the next text to parse from the attempt `from` on: the first
/// attempt that gives a text, the attempts that give none being passed over.
pub open spec fn seek(
    kind: KifuKind,
    path: Seq<char>,
    bytes: Seq<u8>,
    from: Option<Attempt>,
    msg: Seq<char>,
) -> Sought
    decreases attempts_left(from),
{
    match from {
        None => Sought::Nothing { message: msg },
        Some(a) => match attempt_text(kind, path, bytes, a) {
            Some((text, had_errors)) => Sought::Text { attempt: a, text, had_errors, message: msg },
            None => seek(kind, path, bytes, spec_next_attempt(kind, a), after_skip(kind, a, msg)),
        },
    }
}

/// Where the reading of one file stands while a text of it is out for
/// parsing.
#[derive(Debug, Clone)]
pub struct TextRead {
    pub kind: KifuKind,
    /// The attempt that gave the text.
    pub attempt: Attempt,
    /// Whether malformed sequences were replaced in the text.
    pub had_errors: bool,
    /// What the attempts before this one found.
    pub message: String,
}

/// What to do next to read a file.
#[derive(Debug)]
pub enum ReadStep {
    /// Parse the text as a game record of the state's kind, and hand the
    /// outcome to `try_parse_text_with_fallback`.
    Parse(TextRead, String),
    /// The file is read, or it gives no record.
    Done(Result<Jkf, KifuReadError>),
}

/// Whether `step` is what `sought` asks for: the text to parse with the
/// state that goes with it, or the failure of the file at `path` with the
/// message of all attempts.
pub open spec fn step_matches(step: ReadStep, kind: KifuKind, path: Seq<char>, sought: Sought) -> bool {
    match sought {
        Sought::Text { attempt, text, had_errors, message } => step matches ReadStep::Parse(st, t)
            && t@ == text && st.kind == kind && st.attempt == attempt && st.had_errors
            == had_errors && st.message@ == message,
        Sought::Nothing { message } => step matches ReadStep::Done(
            Err(KifuReadError::ParseFailed { path: p, message: m }),
        ) && p@ == path && m@ == message,
    }
}

fn text_of_attempt(kind: KifuKind, path: &str, bytes: &[u8], a: Attempt) -> (r: Option<
    (String, bool),
>)
    requires
        bytes@.len() <= MAX_TEXT_BYTES,
    ensures
        match (r, attempt_text(kind, path@, bytes@, a)) {
            (Some((s, h)), Some((text, had_errors))) => s@ == text && h == had_errors,
            (None, None) => true,
            _ => false,
        },
{
    match a {
        Attempt::Standard => {
            let format = match text_format(kind) {
                Some(f) => f,
                None => {
                    return None;
                },
            };
            match standard_encoding_of(format, path.as_bytes()) {
                Some(enc) => {
                    let (text, had_errors) = decode_text(enc, bytes);
                    if had_errors {
                        None
                    } else {
                        Some((text, false))
                    }
                },
                None => None,
            }
        },
        Attempt::Utf8 => {
            let part = if text_format(kind).is_some() {
                strip_utf8_bom(bytes)
            } else {
                bytes
            };
            match text_from_utf8(part) {
                Some(s) => Some((s, false)),
                None => None,
            }
        },
        Attempt::Lossy => {
            let part = if text_format(kind).is_some() {
                strip_utf8_bom(bytes)
            } else {
                bytes
            };
            Some((lossy_text(part), false))
        },
        _ => {
            let enc = encoding_of(a).unwrap();
            Some(decode_text(enc, bytes))
        },
    }
}

fn note_skip(kind: KifuKind, a: Attempt, msg: &mut String)
    ensures
        final(msg)@ == after_skip(kind, a, old(msg)@),
{
    if text_format(kind).is_none() {
        *msg = "invalid utf-8".to_owned();
    } else {
        match a {
            Attempt::Utf8 => {
                add_line(msg, "utf-8", "", "invalid bytes");
                proof {
                    reveal_strlit("");
                    assert("utf-8"@ + ""@ =~= "utf-8"@);
                }
            },
            _ => {},
        }
    }
}

fn note_failure(kind: KifuKind, a: Attempt, had_errors: bool, msg: &mut String, found: &str)
    ensures
        final(msg)@ == after_failure(kind, a, had_errors, old(msg)@, found@),
{
    if text_format(kind).is_none() {
        *msg = found.to_owned();
        return;
    }
    proof {
        reveal_strlit("");
    }
    match a {
        Attempt::Standard => {},
        Attempt::Utf8 => {
            add_line(msg, "utf-8", "", found);
            proof {
                assert("utf-8"@ + ""@ =~= "utf-8"@);
            }
        },
        Attempt::Lossy => {
            add_line(msg, "utf-8 lossy", "", found);
            proof {
                assert("utf-8 lossy"@ + ""@ =~= "utf-8 lossy"@);
            }
        },
        _ => {
            let enc = encoding_of(a).unwrap();
            if had_errors {
                add_line(msg, label(enc), " (had_errors)", found);
            } else {
                add_line(msg, label(enc), "", found);
                proof {
                    assert(spec_label(enc) + ""@ =~= spec_label(enc));
                }
            }
        },
    }
}

fn seek_from(kind: KifuKind, path: &str, bytes: &[u8], from: Option<Attempt>, message: String) -> (step:
    ReadStep)
    requires
        bytes@.len() <= MAX_TEXT_BYTES,
    ensures
        step_matches(step, kind, path@, seek(kind, path@, bytes@, from, message@)),
{
    let mut cur = from;
    let mut msg = message;
    loop
        invariant
            bytes@.len() <= MAX_TEXT_BYTES,
            seek(kind, path@, bytes@, cur, msg@) == seek(kind, path@, bytes@, from, message@),
        decreases attempts_left(cur),
    {
        let a = match cur {
            Some(a) => a,
            None => {
                return ReadStep::Done(
                    Err(KifuReadError::ParseFailed { path: path.to_owned(), message: msg }),
                );
            },
        };
        match text_of_attempt(kind, path, bytes, a) {
            Some((text, had_errors)) => {
                return ReadStep::Parse(
                    TextRead { kind, attempt: a, had_errors, message: msg },
                    text,
                );
            },
            None => {
                note_skip(kind, a, &mut msg);
                cur = next_attempt(kind, a);
            },
        }
    }
}

/// What reading the file at `path` begins with: the first text to parse, or
/// the failure of a file that gives no text at all.
pub open spec fn first_step(kind: KifuKind, path: Seq<char>, bytes: Seq<u8>) -> Sought {
    seek(kind, path, bytes, Some(spec_first_attempt(kind)), message_start(kind))
}

/// What reading goes on with after the text of the state `st` did not
/// parse, the parser having found `found`: the next text to parse, or the
/// failure with the message of all attempts.
pub open spec fn step_after_failure(
    st: TextRead,
    path: Seq<char>,
    bytes: Seq<u8>,
    found: Seq<char>,
) -> Sought {
    seek(
        st.kind,
        path,
        bytes,
        spec_next_attempt(st.kind, st.attempt),
        after_failure(st.kind, st.attempt, st.had_errors, st.message@, found),
    )
}

/// Begins to read the bytes of the file at `path` as a game record of
/// `kind`. A file longer than `MAX_TEXT_BYTES` is refused. Any other file
/// gives the first text to parse: a KIF or KI2 file in the encoding that
/// goes with its extension, then as UTF-8, then in each of the fallback
/// encodings, at last as UTF-8 with invalid sequences replaced; a CSA or
/// JKF file as UTF-8 only.
pub fn read_path_to_jkf(path: &str, kind: KifuKind, bytes: &[u8]) -> (step: ReadStep)
    ensures
        bytes@.len() > MAX_TEXT_BYTES ==> step matches ReadStep::Done(Err(KifuReadError::TooLarge)),
        bytes@.len() <= MAX_TEXT_BYTES ==> step_matches(
            step,
            kind,
            path@,
            first_step(kind, path@, bytes@),
        ),
{
    if bytes.len() > MAX_TEXT_BYTES {
        return ReadStep::Done(Err(KifuReadError::TooLarge));
    }
    let first = if text_format(kind).is_some() {
        Attempt::Standard
    } else {
        Attempt::Utf8
    };
    let message = if text_format(kind).is_some() {
        "all decode+parse attempts failed:".to_owned()
    } else {
        String::new()
    };
    seek_from(kind, path, bytes, Some(first), message)
}

/// Begins to read the bytes of a scanned file as a game record.
pub fn read_to_jkf(rec: &FileRecord, bytes: &[u8]) -> (step: ReadStep)
    ensures
        bytes@.len() > MAX_TEXT_BYTES ==> step matches ReadStep::Done(Err(KifuReadError::TooLarge)),
        bytes@.len() <= MAX_TEXT_BYTES ==> step_matches(
            step,
            rec.kind,
            rec.path@,
            first_step(rec.kind, rec.path@, bytes@),
        ),
{
    read_path_to_jkf(rec.path.as_str(), rec.kind, bytes)
}

/// Takes the outcome of parsing the text that the state `st` stands for. A
/// record ends the reading. A failure leads to the next attempt: its text
/// is to be parsed next, and where no attempt is left the file gives no
/// record, with a message that tells what each attempt found.
pub fn try_parse_text_with_fallback(
    st: TextRead,
    path: &str,
    bytes: &[u8],
    outcome: Result<Jkf, String>,
) -> (step: ReadStep)
    ensures
        match outcome {
            Ok(g) => step matches ReadStep::Done(Ok(j)) && j == g,
            Err(found) => if bytes@.len() > MAX_TEXT_BYTES {
                step matches ReadStep::Done(Err(KifuReadError::TooLarge))
            } else {
                step_matches(step, st.kind, path@, step_after_failure(st, path@, bytes@, found@))
            },
        },
{
    let found = match outcome {
        Ok(g) => {
            return ReadStep::Done(Ok(g));
        },
        Err(found) => found,
    };
    if bytes.len() > MAX_TEXT_BYTES {
        return ReadStep::Done(Err(KifuReadError::TooLarge));
    }
    let mut msg = st.message;
    note_failure(st.kind, st.attempt, st.had_errors, &mut msg, found.as_str());
    seek_from(st.kind, path, bytes, next_attempt(st.kind, st.attempt), msg)
}

/// The files of `outcomes` that gave a game record, each with its record,
/// in their order.
pub open spec fn read_successes(outcomes: Seq<(FileRecord, Result<Jkf, KifuReadError>)>) -> Seq<
    (FileRecord, Jkf),
>
    decreases outcomes.len(),
{
    if outcomes.len() == 0 {
        Seq::empty()
    } else {
        let rest = read_successes(outcomes.drop_last());
        match outcomes.last().1 {
            Ok(g) => rest.push((outcomes.last().0, g)),
            Err(_) => rest,
        }
    }
}

/// The files of `outcomes` that gave no game record, each with the reason,
/// in their order.
pub open spec fn read_failures(outcomes: Seq<(FileRecord, Result<Jkf, KifuReadError>)>) -> Seq<
    (FileRecord, KifuReadError),
>
    decreases outcomes.len(),
{
    if outcomes.len() == 0 {
        Seq::empty()
    } else {
        let rest = read_failures(outcomes.drop_last());
        match outcomes.last().1 {
            Ok(_) => rest,
            Err(e) => rest.push((outcomes.last().0, e)),
        }
    }
}

/// Tells apart, among the outcomes of reading many files, those that gave
/// a game record and those that did not.
pub fn read_many_to_jkf(outcomes: Vec<(FileRecord, Result<Jkf, KifuReadError>)>) -> (r: (
    Vec<(FileRecord, Jkf)>,
    Vec<(FileRecord, KifuReadError)>,
))
    ensures
        r.0@ == read_successes(outcomes@),
        r.1@ == read_failures(outcomes@),
{
    let ghost all = outcomes@;
    let mut rest = crate::index_store::reversed(outcomes);
    let mut ok: Vec<(FileRecord, Jkf)> = Vec::new();
    let mut ng: Vec<(FileRecord, KifuReadError)> = Vec::new();
    while rest.len() > 0
        invariant
            rest@.len() <= all.len(),
            rest@ == all.reverse().take(rest@.len() as int),
            ok@ == read_successes(all.take(all.len() - rest@.len())),
            ng@ == read_failures(all.take(all.len() - rest@.len())),
        decreases rest@.len(),
    {
        let ghost done = all.len() - rest@.len();
        let (rec, outcome) = rest.pop().unwrap();
        proof {
            assert(all.take(done + 1).drop_last() == all.take(done));
            assert(all.take(done + 1).last() == all[done]);
            assert(all.reverse()[all.len() - 1 - done] == all[done]);
        }
        match outcome {
            Ok(g) => {
                ok.push((rec, g));
            },
            Err(e) => {
                ng.push((rec, e));
            },
        }
    }
    proof {
        assert(all.take(all.len() as int) == all);
    }
    (ok, ng)
}

impl KifuReadError {
    /// The error in words.
    pub open spec fn spec_message(self) -> Seq<char> {
        match self {
            KifuReadError::TooLarge => "file too large"@,
            KifuReadError::ParseFailed { path, message } => "parse failed: "@ + path@ + ": "@
                + message@,
        }
    }

    /// The error in words.
    pub fn message(&self) -> (s: String)
        ensures
            s@ == self.spec_message(),
    {
        let mut s = String::new();
        match self {
            KifuReadError::TooLarge => {
                s.append("file too large");
            },
            KifuReadError::ParseFailed { path, message } => {
                s.append("parse failed: ");
                s.append(path.as_str());
                s.append(": ");
                s.append(message.as_str());
            },
        }
        proof {
            assert(s@ =~= self.spec_message());
        }
        s
    }
}

} // verus!

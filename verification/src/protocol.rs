//! The rmate protocol.
//!
//! A client sends commands. `open` announces a file: header lines of the form `key: value`
//! follow, the last of them `data` with the size of the body in bytes, and then the body. A
//! single dot ends the commands. The server answers with `save` commands that carry the changed
//! contents of a file, and with `close` at the end.

use crate::number::{decimal, parse_u64, parsed_u64, push_decimal};
use crate::path::{
    file_name, is_absolute, is_plain_name, joined, last_name,
    law_last_name_is_behind_the_last_slash, law_last_name_is_plain, law_paths_without_last_name,
    law_plain_name_stays_in_directory, law_slash_and_dot_keep_the_last_name, names, starts_here,
};
use crate::text::{
    ascii_lower, eq_ignore_ascii_case, from_chars, law_only_white_space_is_trimmed, law_trimmed,
    replace_char, same_ignoring_case, same_text, to_chars, trim_end, trimmed, white_space,
    with_replaced,
};
use vstd::prelude::*;
use vstd::string::StringExecFns;

verus! {

/// The line that identifies the server at the start of a connection.
pub const SERVER_ID: &'static str = "Zed-Mate-Server 0\n";

/// The command that ends a connection.
pub const CLOSE: &'static str = "close\n";

/// The file name for a file that comes with no usable name.
pub const DEFAULT_NAME: &'static str = "rmate-file.txt";

/// What is wrong with a line from the client.
#[derive(Debug, Clone, Copy, PartialEq, Eq, Structural)]
pub enum ProtocolError {
    /// The line is not a command.
    Command,
    /// The line is not a header.
    Header,
    /// The value of a header does not fit its key.
    Value,
}

impl ProtocolError {
    /// The text for people.
    pub open spec fn text(self) -> Seq<char> {
        match self {
            ProtocolError::Command => "Protocol error"@,
            ProtocolError::Header => "Protocol header error"@,
            ProtocolError::Value => "Protocol value error"@,
        }
    }

    /// The text for people.
    pub fn message(self) -> (m: &'static str)
        ensures
            m@ == self.text(),
    {
        match self {
            ProtocolError::Command => "Protocol error",
            ProtocolError::Header => "Protocol header error",
            ProtocolError::Value => "Protocol value error",
        }
    }
}

/// A text that stands for neither truth value.
#[derive(Debug, Clone, Copy, PartialEq, Eq, Structural)]
pub struct ParseBoolError;

/// The texts that stand for true.
pub open spec fn says_yes(s: Seq<char>) -> bool {
    ||| same_ignoring_case(s, "true"@)
    ||| same_ignoring_case(s, "t"@)
    ||| same_ignoring_case(s, "yes"@)
    ||| same_ignoring_case(s, "y"@)
    ||| s == "1"@
}

/// The texts that stand for false.
pub open spec fn says_no(s: Seq<char>) -> bool {
    ||| same_ignoring_case(s, "false"@)
    ||| same_ignoring_case(s, "f"@)
    ||| same_ignoring_case(s, "no"@)
    ||| same_ignoring_case(s, "n"@)
    ||| s == "0"@
}

/// The truth value that `s` stands for.
pub open spec fn parsed_bool(s: Seq<char>) -> Option<bool> {
    if says_yes(s) {
        Some(true)
    } else if says_no(s) {
        Some(false)
    } else {
        None
    }
}

/// Reads a truth value: `true`, `t`, `yes`, `y`, `1` and `false`, `f`, `no`, `n`, `0`, the letters
/// in either case.
pub fn parse_bool(s: &str) -> (r: Result<bool, ParseBoolError>)
    ensures
        match parsed_bool(s@) {
            Some(b) => r == Ok::<bool, ParseBoolError>(b),
            None => r == Err::<bool, ParseBoolError>(ParseBoolError),
        },
{
    let chars: Vec<char> = to_chars(s);
    if eq_ignore_ascii_case(s, "true") || eq_ignore_ascii_case(s, "t") || eq_ignore_ascii_case(
        s,
        "yes",
    ) || eq_ignore_ascii_case(s, "y") || same_text(chars.as_slice(), "1") {
        Ok(true)
    } else if eq_ignore_ascii_case(s, "false") || eq_ignore_ascii_case(s, "f")
        || eq_ignore_ascii_case(s, "no") || eq_ignore_ascii_case(s, "n") || same_text(
        chars.as_slice(),
        "0",
    ) {
        Ok(false)
    } else {
        Err(ParseBoolError)
    }
}

/// A remote file as the client describes it.
#[derive(Debug)]
pub struct RmateFile {
    pub display_name: String,
    pub real_path: String,
    pub data_on_save: bool,
    pub re_activate: bool,
    pub token: String,
    pub new: bool,
    /// `<line>[:<column>][-<line>[:<column>]]`
    pub selection: String,
    pub file_type: String,
    /// The size of the body in bytes.
    pub data: u64,
}

/// What the description of a remote file says.
#[verifier::ext_equal]
pub struct FileModel {
    pub display_name: Seq<char>,
    pub real_path: Seq<char>,
    pub data_on_save: bool,
    pub re_activate: bool,
    pub token: Seq<char>,
    pub new: bool,
    pub selection: Seq<char>,
    pub file_type: Seq<char>,
    pub data: u64,
}

impl FileModel {
    /// A description that says nothing.
    pub open spec fn blank() -> FileModel {
        FileModel {
            display_name: Seq::empty(),
            real_path: Seq::empty(),
            data_on_save: false,
            re_activate: false,
            token: Seq::empty(),
            new: false,
            selection: Seq::empty(),
            file_type: Seq::empty(),
            data: 0,
        }
    }

    /// The description after a header. A header with an unknown key changes nothing.
    pub open spec fn with_header(self, key: Seq<char>, value: Seq<char>) -> Result<
        FileModel,
        ProtocolError,
    > {
        if key == "display-name"@ {
            Ok(FileModel { display_name: value, ..self })
        } else if key == "real-path"@ {
            Ok(FileModel { real_path: value, ..self })
        } else if key == "data-on-save"@ {
            match parsed_bool(value) {
                Some(b) => Ok(FileModel { data_on_save: b, ..self }),
                None => Err(ProtocolError::Value),
            }
        } else if key == "re-activate"@ {
            match parsed_bool(value) {
                Some(b) => Ok(FileModel { re_activate: b, ..self }),
                None => Err(ProtocolError::Value),
            }
        } else if key == "token"@ {
            Ok(FileModel { token: value, ..self })
        } else if key == "new"@ {
            match parsed_bool(value) {
                Some(b) => Ok(FileModel { new: b, ..self }),
                None => Err(ProtocolError::Value),
            }
        } else if key == "selection"@ {
            Ok(FileModel { selection: value, ..self })
        } else if key == "file-type"@ {
            Ok(FileModel { file_type: value, ..self })
        } else if key == "data"@ {
            match parsed_u64(value) {
                Some(n) => Ok(FileModel { data: n, ..self }),
                None => Err(ProtocolError::Value),
            }
        } else {
            Ok(self)
        }
    }

    /// The name that the client gives the file: the display name, or else the path.
    pub open spec fn given_name(self) -> Seq<char> {
        if self.display_name.len() > 0 {
            self.display_name
        } else if self.real_path.len() > 0 {
            self.real_path
        } else {
            DEFAULT_NAME@
        }
    }

    /// The last name of the given name, with tildes for colons.
    pub open spec fn safe_name(self) -> Seq<char> {
        match last_name(with_replaced(self.given_name(), ':', '~')) {
            Some(name) => name,
            None => DEFAULT_NAME@,
        }
    }
}

/// Whether `": "` stands at position `i` of a line.
pub open spec fn separator_at(line: Seq<char>, i: int) -> bool {
    0 <= i && i + 1 < line.len() && line[i] == ':' && line[i + 1] == ' '
}

/// Whether the first `": "` of a line stands at position `i`.
pub open spec fn first_separator(line: Seq<char>, i: int) -> bool {
    separator_at(line, i) && forall|j: int| 0 <= j < i ==> !separator_at(line, j)
}

/// The key and the value of a header line: what stands before and after the first `": "`, the
/// value without white space at its end.
pub open spec fn header(line: Seq<char>) -> Option<(Seq<char>, Seq<char>)> {
    if exists|i: int| first_separator(line, i) {
        let i = choose|i: int| first_separator(line, i);
        Some((line.take(i), trimmed(line.skip(i + 2))))
    } else {
        None
    }
}

/// The keys that say something about a file.
pub open spec fn is_known_key(key: Seq<char>) -> bool {
    ||| key == "display-name"@
    ||| key == "real-path"@
    ||| key == "data-on-save"@
    ||| key == "re-activate"@
    ||| key == "token"@
    ||| key == "new"@
    ||| key == "selection"@
    ||| key == "file-type"@
    ||| key == "data"@
}

/// The key and the value of a header line with an unknown key, while headers are read.
pub open spec fn ignored_header(pending: Option<FileModel>, line: Seq<char>) -> Option<
    (Seq<char>, Seq<char>),
> {
    match header(line) {
        Some((key, value)) if pending is Some && !is_known_key(key) => Some((key, value)),
        _ => None,
    }
}

/// What a header line does to the description of a file, and whether the body comes next.
pub open spec fn after_header(file: FileModel, line: Seq<char>) -> Result<
    (FileModel, bool),
    ProtocolError,
> {
    match header(line) {
        None => Err(ProtocolError::Header),
        Some((key, value)) => match file.with_header(key, value) {
            Ok(next) => Ok((next, key == "data"@)),
            Err(e) => Err(e),
        },
    }
}

/// The command that announces the contents of a file with `size` bytes.
pub open spec fn save_header(token: Seq<char>, size: u64) -> Seq<char> {
    "save\ntoken: "@ + token + "\ndata: "@ + decimal(size as nat) + "\n"@
}

/// The first `": "` of a line is what divides it.
pub(crate) proof fn lemma_first_separator(line: Seq<char>, i: int)
    requires
        first_separator(line, i),
    ensures
        header(line) == Some((line.take(i), trimmed(line.skip(i + 2)))),
{
    let k = choose|k: int| first_separator(line, k);
    assert(k == i);
}

/// The key and the value of a header line.
fn split_header(line: &str) -> (r: Option<(Vec<char>, Vec<char>)>)
    ensures
        match r {
            Some((key, value)) => header(line@) == Some((key@, value@)),
            None => header(line@) is None,
        },
{
    let chars: Vec<char> = to_chars(line);
    let mut i: usize = 0;
    while i < chars.len() && chars.len() - i >= 2
        invariant
            chars@ == line@,
            i <= chars@.len(),
            forall|j: int| 0 <= j < i ==> !separator_at(line@, j),
        decreases chars.len() - i,
    {
        if chars[i] == ':' && chars[i + 1] == ' ' {
            proof {
                lemma_first_separator(line@, i as int);
            }
            let key = vstd::slice::slice_to_vec(
                vstd::slice::slice_subrange(chars.as_slice(), 0, i),
            );
            let rest = vstd::slice::slice_subrange(chars.as_slice(), i + 2, chars.len());
            assert(rest@ == line@.skip(i + 2));
            return Some((key, vstd::slice::slice_to_vec(trim_end(rest))));
        }
        i = i + 1;
    }
    assert forall|k: int| !first_separator(line@, k) by {
        if separator_at(line@, k) {
            assert(k < i);
        }
    }
    None
}

/// Whether a key says something about a file.
fn knows_key(key: &[char]) -> (yes: bool)
    ensures
        yes == is_known_key(key@),
{
    same_text(key, "display-name") || same_text(key, "real-path") || same_text(key, "data-on-save")
        || same_text(key, "re-activate") || same_text(key, "token") || same_text(key, "new")
        || same_text(key, "selection") || same_text(key, "file-type") || same_text(key, "data")
}

impl View for RmateFile {
    type V = FileModel;

    open spec fn view(&self) -> FileModel {
        FileModel {
            display_name: self.display_name@,
            real_path: self.real_path@,
            data_on_save: self.data_on_save,
            re_activate: self.re_activate,
            token: self.token@,
            new: self.new,
            selection: self.selection@,
            file_type: self.file_type@,
            data: self.data,
        }
    }
}

impl Default for RmateFile {
    fn default() -> (file: RmateFile)
        ensures
            file@ == FileModel::blank(),
    {
        RmateFile {
            display_name: String::new(),
            real_path: String::new(),
            data_on_save: false,
            re_activate: false,
            token: String::new(),
            new: false,
            selection: String::new(),
            file_type: String::new(),
            data: 0,
        }
    }
}

impl RmateFile {
    /// Takes one header line of an `open` command.
    ///
    /// Says whether the line was the last of the headers, after which the body of `data` bytes
    /// comes. A line that is refused leaves the description as it was.
    pub fn recv_file(&mut self, line: &str) -> (r: Result<bool, ProtocolError>)
        ensures
            match after_header(old(self)@, line@) {
                Ok((next, last)) => r == Ok::<bool, ProtocolError>(last) && final(self)@ == next,
                Err(e) => r == Err::<bool, ProtocolError>(e) && final(self)@ == old(self)@,
            },
    {
        let (key_chars, value_chars) = match split_header(line) {
            Some(pair) => pair,
            None => return Err(ProtocolError::Header),
        };
        let key = key_chars.as_slice();
        let value: String = from_chars(value_chars.as_slice());
        let last: bool = same_text(key, "data");
        if same_text(key, "display-name") {
            self.display_name = value;
        } else if same_text(key, "real-path") {
            self.real_path = value;
        } else if same_text(key, "data-on-save") {
            match parse_bool(value.as_str()) {
                Ok(b) => self.data_on_save = b,
                Err(_) => return Err(ProtocolError::Value),
            }
        } else if same_text(key, "re-activate") {
            match parse_bool(value.as_str()) {
                Ok(b) => self.re_activate = b,
                Err(_) => return Err(ProtocolError::Value),
            }
        } else if same_text(key, "token") {
            self.token = value;
        } else if same_text(key, "new") {
            match parse_bool(value.as_str()) {
                Ok(b) => self.new = b,
                Err(_) => return Err(ProtocolError::Value),
            }
        } else if same_text(key, "selection") {
            self.selection = value;
        } else if same_text(key, "file-type") {
            self.file_type = value;
        } else if last {
            match parse_u64(value_chars.as_slice()) {
                Some(n) => self.data = n,
                None => return Err(ProtocolError::Value),
            }
        }
        Ok(last)
    }

    /// A name for a local copy of the file.
    ///
    /// Zed has problems with colons in file names, so they become tildes. Of a path only the last
    /// name is kept.
    pub fn safe_display_name(&self) -> (name: String)
        ensures
            name@ == self@.safe_name(),
    {
        let mut s: String = self.display_name.clone();
        if s.as_str().is_empty() {
            s = self.real_path.clone();
        }
        if s.as_str().is_empty() {
            s = DEFAULT_NAME.to_owned();
        }
        let s: String = replace_char(s.as_str(), ':', '~');
        match file_name(s.as_str()) {
            Some(name) => name,
            None => DEFAULT_NAME.to_owned(),
        }
    }

    /// What goes before and after the contents of the file in a `save` command.
    ///
    /// `size` is the length of the contents in bytes.
    pub fn send_file(&self, size: u64) -> (frame: (String, String))
        ensures
            frame.0@ == save_header(self@.token, size),
            frame.1@ == "\n"@,
    {
        let mut header: String = "save\ntoken: ".to_owned();
        header.append(self.token.as_str());
        header.append("\ndata: ");
        push_decimal(&mut header, size);
        header.append("\n");
        (header, "\n".to_owned())
    }
}

/// What a line from the client leads to.
#[derive(Debug)]
pub enum Received {
    /// Another line has to be read.
    More,
    /// A file is announced, and its body comes next.
    File(RmateFile),
    /// The client has no more commands.
    End,
}

/// What a line from the client leads to, without its representation.
pub enum ReceivedModel {
    More,
    File(FileModel),
    End,
}

impl View for Received {
    type V = ReceivedModel;

    open spec fn view(&self) -> ReceivedModel {
        match self {
            Received::More => ReceivedModel::More,
            Received::File(file) => ReceivedModel::File(file@),
            Received::End => ReceivedModel::End,
        }
    }
}

/// What a line leads to, with the state of the connection after it.
///
/// The state is the description of the file whose headers are being read, if any. Outside the
/// headers a line is a command; there blank lines are skipped.
pub open spec fn after_line(pending: Option<FileModel>, line: Seq<char>) -> (
    Option<FileModel>,
    Result<ReceivedModel, ProtocolError>,
) {
    match pending {
        None => {
            let command = trimmed(line);
            if command.len() == 0 {
                (None, Ok(ReceivedModel::More))
            } else if command == "open"@ {
                (Some(FileModel::blank()), Ok(ReceivedModel::More))
            } else if command == "."@ {
                (None, Ok(ReceivedModel::End))
            } else {
                (None, Err(ProtocolError::Command))
            }
        },
        Some(file) => match after_header(file, line) {
            Ok((next, true)) => (None, Ok(ReceivedModel::File(next))),
            Ok((next, false)) => (Some(next), Ok(ReceivedModel::More)),
            Err(e) => (None, Err(e)),
        },
    }
}

/// The server's side of an rmate connection.
///
/// It is handed the lines that the client sends and says what they mean; reading and writing the
/// stream is up to the caller.
pub struct RmateConnection {
    pending: Option<RmateFile>,
}

impl View for RmateConnection {
    type V = Option<FileModel>;

    closed spec fn view(&self) -> Option<FileModel> {
        match self.pending {
            None => None,
            Some(file) => Some(file@),
        }
    }
}

impl RmateConnection {
    /// Opens a connection, with the identification to send to the client first.
    pub fn new() -> (r: (RmateConnection, String))
        ensures
            r.0@ is None,
            r.1@ == SERVER_ID@,
    {
        (RmateConnection { pending: None }, SERVER_ID.to_owned())
    }

    /// Takes a line from the client.
    ///
    /// The accepted commands are `open` and `.`; empty lines are skipped silently.
    ///
    /// After a file its body has to be read from the stream before the next line. After the end
    /// the client sends no more commands.
    pub fn recv(&mut self, line: &str) -> (r: Result<Received, ProtocolError>)
        ensures
            final(self)@ == after_line(old(self)@, line@).0,
            match after_line(old(self)@, line@).1 {
                Ok(received) => r matches Ok(got) && got@ == received,
                Err(e) => r == Err::<Received, ProtocolError>(e),
            },
    {
        match self.pending.take() {
            Some(mut file) => {
                match file.recv_file(line) {
                    Ok(true) => Ok(Received::File(file)),
                    Ok(false) => {
                        self.pending = Some(file);
                        Ok(Received::More)
                    },
                    Err(e) => Err(e),
                }
            },
            None => {
                let chars: Vec<char> = to_chars(line);
                let command = trim_end(chars.as_slice());
                if command.len() == 0 {
                    Ok(Received::More)
                } else if same_text(command, "open") {
                    self.pending = Some(RmateFile::default());
                    Ok(Received::More)
                } else if same_text(command, ".") {
                    Ok(Received::End)
                } else {
                    Err(ProtocolError::Command)
                }
            },
        }
    }

    /// The key and the value of a line that will be ignored, because it is a header with an
    /// unknown key.
    pub fn ignored_header(&self, line: &str) -> (r: Option<(String, String)>)
        ensures
            match ignored_header(self@, line@) {
                Some((key, value)) => r matches Some((k, v)) && k@ == key && v@ == value,
                None => r is None,
            },
    {
        if self.pending.is_none() {
            return None;
        }
        match split_header(line) {
            Some((key, value)) => {
                if knows_key(key.as_slice()) {
                    None
                } else {
                    Some((from_chars(key.as_slice()), from_chars(value.as_slice())))
                }
            },
            None => None,
        }
    }

    /// Takes note that the client has closed the stream where a line was to be read.
    ///
    /// Between commands that ends the connection; among the headers of a file it is an error.
    pub fn recv_closed(&mut self) -> (r: Result<(), ProtocolError>)
        ensures
            final(self)@ is None,
            match old(self)@ {
                None => r == Ok::<(), ProtocolError>(()),
                Some(_) => r == Err::<(), ProtocolError>(ProtocolError::Header),
            },
    {
        match self.pending.take() {
            None => Ok(()),
            Some(_) => Err(ProtocolError::Header),
        }
    }

    /// What goes before and after the contents of a file that is sent back.
    pub fn send(&self, req: &RmateFile, size: u64) -> (frame: (String, String))
        ensures
            frame.0@ == save_header(req@.token, size),
            frame.1@ == "\n"@,
    {
        req.send_file(size)
    }

    /// The command that ends the connection.
    pub fn close(&self) -> (command: String)
        ensures
            command@ == CLOSE@,
    {
        CLOSE.to_owned()
    }
}

/// A blank line between commands is skipped.
pub proof fn law_blank_line_is_skipped(line: Seq<char>)
    requires
        forall|i: int| 0 <= i < line.len() ==> white_space(#[trigger] line[i]),
    ensures
        after_line(None, line).0 is None,
        after_line(None, line).1 == Ok::<ReceivedModel, ProtocolError>(ReceivedModel::More),
{
    law_trimmed(line);
    let n = trimmed(line).len();
    if n > 0 {
        assert(white_space(line[n - 1]));
    }
}

/// The order of headers with different keys does not matter.
pub proof fn law_headers_commute(
    file: FileModel,
    key1: Seq<char>,
    value1: Seq<char>,
    key2: Seq<char>,
    value2: Seq<char>,
)
    requires
        key1 != key2,
    ensures
        file.with_header(key1, value1) matches Ok(a) ==> file.with_header(
            key2,
            value2,
        ) matches Ok(b) ==> a.with_header(key2, value2) == b.with_header(key1, value1),
{
}

/// Of two headers with one key the later counts.
pub proof fn law_later_header_counts(
    file: FileModel,
    key: Seq<char>,
    value1: Seq<char>,
    value2: Seq<char>,
)
    ensures
        file.with_header(key, value1) matches Ok(a) ==> a.with_header(key, value2)
            == file.with_header(key, value2),
{
}

/// A line that is reported as ignored changes nothing.
pub proof fn law_ignored_header_changes_nothing(file: FileModel, line: Seq<char>)
    requires
        ignored_header(Some(file), line) is Some,
    ensures
        after_line(Some(file), line).0 == Some(file),
        after_line(Some(file), line).1 == Ok::<ReceivedModel, ProtocolError>(ReceivedModel::More),
{
}

/// The case of letters does not matter to a truth value.
pub proof fn law_truth_values_ignore_case(s: Seq<char>, t: Seq<char>)
    requires
        same_ignoring_case(s, t),
    ensures
        parsed_bool(s) == parsed_bool(t),
{
    reveal_strlit("1");
    reveal_strlit("0");
    lemma_digit_has_no_case(s, "1"@);
    lemma_digit_has_no_case(t, "1"@);
    lemma_digit_has_no_case(s, "0"@);
    lemma_digit_has_no_case(t, "0"@);
    lemma_case_is_shared(s, t);
    lemma_case_is_shared(t, s);
}

proof fn lemma_digit_has_no_case(s: Seq<char>, digit: Seq<char>)
    requires
        digit.len() == 1,
        '0' <= digit[0] <= '9',
    ensures
        same_ignoring_case(s, digit) <==> s == digit,
{
    if same_ignoring_case(s, digit) {
        assert(ascii_lower(s[0]) == ascii_lower(digit[0]));
        assert(s == digit);
    }
}

proof fn lemma_case_is_shared(s: Seq<char>, t: Seq<char>)
    requires
        same_ignoring_case(s, t),
    ensures
        same_ignoring_case(t, s),
        forall|u: Seq<char>| same_ignoring_case(t, u) ==> same_ignoring_case(s, u),
{
    assert forall|i: int| 0 <= i < t.len() implies ascii_lower(#[trigger] t[i]) == ascii_lower(
        s[i],
    ) by {
        assert(ascii_lower(s[i]) == ascii_lower(t[i]));
    }
    assert forall|u: Seq<char>| same_ignoring_case(t, u) implies same_ignoring_case(s, u) by {
        assert forall|i: int| 0 <= i < s.len() implies ascii_lower(#[trigger] s[i]) == ascii_lower(
            u[i],
        ) by {
            assert(ascii_lower(t[i]) == ascii_lower(u[i]));
        }
    }
}

/// No text stands for both truth values.
pub proof fn law_truth_values_exclude_each_other(s: Seq<char>)
    ensures
        !(says_yes(s) && says_no(s)),
{
    reveal_strlit("true");
    reveal_strlit("t");
    reveal_strlit("yes");
    reveal_strlit("y");
    reveal_strlit("1");
    reveal_strlit("false");
    reveal_strlit("f");
    reveal_strlit("no");
    reveal_strlit("n");
    reveal_strlit("0");
    if says_yes(s) && says_no(s) {
        assert(s.len() == 1);
        assert(ascii_lower(s[0]) == 't' || ascii_lower(s[0]) == 'y' || ascii_lower(s[0]) == '1');
        assert(ascii_lower(s[0]) == 'f' || ascii_lower(s[0]) == 'n' || ascii_lower(s[0]) == '0');
    }
}

/// The name for a local copy is a plain name without colons.
pub proof fn law_safe_name_is_plain(file: FileModel)
    ensures
        is_plain_name(file.safe_name()),
        !file.safe_name().contains(':'),
{
    let replaced = with_replaced(file.given_name(), ':', '~');
    law_last_name_is_plain(replaced);
    reveal_strlit("rmate-file.txt");
    assert(DEFAULT_NAME@ == seq![
        'r',
        'm',
        'a',
        't',
        'e',
        '-',
        'f',
        'i',
        'l',
        'e',
        '.',
        't',
        'x',
        't',
    ]);
}

/// A local copy under its name lies directly in the directory it is put in.
pub proof fn law_local_copy_stays_in_directory(file: FileModel, dir: Seq<char>)
    ensures
        names(joined(dir, file.safe_name())) == names(dir).push(file.safe_name()),
        is_absolute(joined(dir, file.safe_name())) == is_absolute(dir),
        starts_here(joined(dir, file.safe_name())) == starts_here(dir),
{
    law_safe_name_is_plain(file);
    law_plain_name_stays_in_directory(dir, file.safe_name());
}


/// No two keys of headers are the same.
pub(crate) proof fn lemma_keys_differ()
    ensures
        "real-path"@ != "display-name"@,
        "data-on-save"@ != "display-name"@,
        "data-on-save"@ != "real-path"@,
        "re-activate"@ != "display-name"@,
        "re-activate"@ != "real-path"@,
        "re-activate"@ != "data-on-save"@,
        "token"@ != "display-name"@,
        "token"@ != "real-path"@,
        "token"@ != "data-on-save"@,
        "token"@ != "re-activate"@,
        "new"@ != "display-name"@,
        "new"@ != "real-path"@,
        "new"@ != "data-on-save"@,
        "new"@ != "re-activate"@,
        "new"@ != "token"@,
        "selection"@ != "display-name"@,
        "selection"@ != "real-path"@,
        "selection"@ != "data-on-save"@,
        "selection"@ != "re-activate"@,
        "selection"@ != "token"@,
        "selection"@ != "new"@,
        "file-type"@ != "display-name"@,
        "file-type"@ != "real-path"@,
        "file-type"@ != "data-on-save"@,
        "file-type"@ != "re-activate"@,
        "file-type"@ != "token"@,
        "file-type"@ != "new"@,
        "file-type"@ != "selection"@,
        "data"@ != "display-name"@,
        "data"@ != "real-path"@,
        "data"@ != "data-on-save"@,
        "data"@ != "re-activate"@,
        "data"@ != "token"@,
        "data"@ != "new"@,
        "data"@ != "selection"@,
        "data"@ != "file-type"@,
{
    reveal_strlit("display-name");
    reveal_strlit("real-path");
    reveal_strlit("data-on-save");
    reveal_strlit("re-activate");
    reveal_strlit("token");
    reveal_strlit("new");
    reveal_strlit("selection");
    reveal_strlit("file-type");
    reveal_strlit("data");
    assert("display-name"@.len() == 12);
    assert("real-path"@.len() == 9);
    assert("data-on-save"@.len() == 12);
    assert("re-activate"@.len() == 11);
    assert("token"@.len() == 5);
    assert("new"@.len() == 3);
    assert("selection"@.len() == 9);
    assert("file-type"@.len() == 9);
    assert("data"@.len() == 4);
    assert("display-name"@[1] == 'i' && "data-on-save"@[1] == 'a');
    assert("real-path"@[0] == 'r' && "selection"@[0] == 's' && "file-type"@[0] == 'f');
}

/// What is received is told with the file that it holds, and the description of a file says what
/// the file says.
pub proof fn law_description_is_of_the_file(file: RmateFile)
    ensures
        Received::File(file)@ == ReceivedModel::File(file@),
        Received::More@ is More,
        Received::End@ is End,
        file@.display_name == file.display_name@,
        file@.real_path == file.real_path@,
        file@.data_on_save == file.data_on_save,
        file@.re_activate == file.re_activate,
        file@.token == file.token@,
        file@.new == file.new,
        file@.selection == file.selection@,
        file@.file_type == file.file_type@,
        file@.data == file.data,
{
}

/// Every way to say yes or no is one of five words, in letters of either case, and every such word
/// is understood.
pub proof fn law_truth_words(s: Seq<char>)
    ensures
        parsed_bool(s) == Some(true) <==> same_ignoring_case(s, "true"@) || same_ignoring_case(
            s,
            "t"@,
        ) || same_ignoring_case(s, "yes"@) || same_ignoring_case(s, "y"@) || s == "1"@,
        parsed_bool(s) == Some(false) <==> same_ignoring_case(s, "false"@) || same_ignoring_case(
            s,
            "f"@,
        ) || same_ignoring_case(s, "no"@) || same_ignoring_case(s, "n"@) || s == "0"@,
{
    law_truth_values_exclude_each_other(s);
}

/// The first colon with a space behind it divides a header line: the key stands before them, the
/// value after them, and white space at the end belongs to neither.
pub proof fn law_header_is_divided_at_the_first_separator(
    key: Seq<char>,
    value: Seq<char>,
    end: Seq<char>,
)
    requires
        forall|i: int| 0 < i < key.len() ==> #[trigger] key[i] != ' ' || key[i - 1] != ':',
        value.len() > 0 ==> !white_space(value.last()),
        forall|i: int| 0 <= i < end.len() ==> white_space(#[trigger] end[i]),
    ensures
        header(key + seq![':', ' '] + value + end) == Some((key, value)),
{
    let line = key + seq![':', ' '] + value + end;
    let n = key.len() as int;
    assert(line[n] == ':' && line[n + 1] == ' ');
    assert forall|j: int| 0 <= j < n implies !separator_at(line, j) by {
        assert(line[j] == key[j]);
        if j + 1 < n {
            assert(line[j + 1] == key[j + 1]);
        }
    }
    assert(first_separator(line, n));
    lemma_first_separator(line, n);
    assert(line.take(n) == key);
    assert(line.skip(n + 2) == value + end);
    law_only_white_space_is_trimmed(value, end);
}

/// A line is no header exactly if no colon in it has a space behind it.
pub proof fn law_header_needs_a_separator(line: Seq<char>)
    ensures
        header(line) is None <==> forall|i: int|
            0 < i < line.len() ==> #[trigger] line[i] != ' ' || line[i - 1] != ':',
{
    if forall|i: int| 0 < i < line.len() ==> #[trigger] line[i] != ' ' || line[i - 1] != ':' {
        assert forall|i: int| !first_separator(line, i) by {
            if separator_at(line, i) {
                assert(line[i + 1] != ' ' || line[i] != ':');
            }
        }
    } else {
        let i = choose|i: int|
            0 < i < line.len() && !(#[trigger] line[i] != ' ' || line[i - 1] != ':');
        assert(separator_at(line, i - 1));
        lemma_has_first_separator(line, i - 1);
    }
}

proof fn lemma_has_first_separator(line: Seq<char>, i: int)
    requires
        separator_at(line, i),
    ensures
        exists|k: int| first_separator(line, k),
    decreases i,
{
    if exists|j: int| 0 <= j < i && separator_at(line, j) {
        let j = choose|j: int| 0 <= j < i && separator_at(line, j);
        lemma_has_first_separator(line, j);
    } else {
        assert(first_separator(line, i));
    }
}

/// A header with a text for its value says that text of the file, and leaves the rest of the
/// description as it was.
pub proof fn law_text_headers(file: FileModel, line: Seq<char>, key: Seq<char>, value: Seq<char>)
    requires
        header(line) == Some((key, value)),
    ensures
        key == "display-name"@ ==> after_header(file, line) == Ok::<_, ProtocolError>(
            (FileModel { display_name: value, ..file }, false),
        ),
        key == "real-path"@ ==> after_header(file, line) == Ok::<_, ProtocolError>(
            (FileModel { real_path: value, ..file }, false),
        ),
        key == "token"@ ==> after_header(file, line) == Ok::<_, ProtocolError>(
            (FileModel { token: value, ..file }, false),
        ),
        key == "selection"@ ==> after_header(file, line) == Ok::<_, ProtocolError>(
            (FileModel { selection: value, ..file }, false),
        ),
        key == "file-type"@ ==> after_header(file, line) == Ok::<_, ProtocolError>(
            (FileModel { file_type: value, ..file }, false),
        ),
{
    lemma_keys_differ();
}

/// A header with a truth value for its value says it of the file, and leaves the rest of the
/// description as it was. A value that is none is refused.
pub proof fn law_truth_headers(file: FileModel, line: Seq<char>, key: Seq<char>, value: Seq<char>)
    requires
        header(line) == Some((key, value)),
        key == "data-on-save"@ || key == "re-activate"@ || key == "new"@,
    ensures
        parsed_bool(value) is None ==> after_header(file, line) == Err::<
            (FileModel, bool),
            ProtocolError,
        >(ProtocolError::Value),
        parsed_bool(value) matches Some(b) ==> {
            &&& key == "data-on-save"@ ==> after_header(file, line) == Ok::<_, ProtocolError>(
                (FileModel { data_on_save: b, ..file }, false),
            )
            &&& key == "re-activate"@ ==> after_header(file, line) == Ok::<_, ProtocolError>(
                (FileModel { re_activate: b, ..file }, false),
            )
            &&& key == "new"@ ==> after_header(file, line) == Ok::<_, ProtocolError>(
                (FileModel { new: b, ..file }, false),
            )
        },
{
    lemma_keys_differ();
}

/// The header `data` says the size of the body, leaves the rest of the description as it was, and
/// is the only one after which the body comes. A value that is no number is refused. A header with
/// any other key than those that say something changes nothing.
pub proof fn law_size_and_unknown_headers(
    file: FileModel,
    line: Seq<char>,
    key: Seq<char>,
    value: Seq<char>,
)
    requires
        header(line) == Some((key, value)),
    ensures
        key == "data"@ ==> after_header(file, line) == match parsed_u64(value) {
            Some(n) => Ok::<_, ProtocolError>((FileModel { data: n, ..file }, true)),
            None => Err(ProtocolError::Value),
        },
        after_header(file, line) matches Ok((_, true)) ==> key == "data"@,
        key != "display-name"@ && key != "real-path"@ && key != "data-on-save"@ && key
            != "re-activate"@ && key != "token"@ && key != "new"@ && key != "selection"@ && key
            != "file-type"@ && key != "data"@ ==> after_header(file, line) == Ok::<
            _,
            ProtocolError,
        >((file, false)) && ignored_header(Some(file), line) == Some((key, value)),
{
    lemma_keys_differ();
}

/// A header with a key that says something is not reported as ignored, and neither is a line that
/// is no header or that comes between commands.
pub proof fn law_what_is_not_ignored(file: FileModel, line: Seq<char>)
    ensures
        ignored_header(None, line) is None,
        header(line) is None ==> ignored_header(Some(file), line) is None,
        header(line) matches Some((key, _)) && (key == "display-name"@ || key == "real-path"@ || key
            == "data-on-save"@ || key == "re-activate"@ || key == "token"@ || key == "new"@ || key
            == "selection"@ || key == "file-type"@ || key == "data"@) ==> ignored_header(
            Some(file),
            line,
        ) is None,
{
}

/// Among the headers of a file a line that is no header ends the command with an error, and so
/// does one with a value that does not fit. The header `data` completes the file. After every
/// other header more lines are read, with what the header says.
pub proof fn law_line_among_headers(file: FileModel, line: Seq<char>)
    ensures
        header(line) is None ==> after_header(file, line) == Err::<
            (FileModel, bool),
            ProtocolError,
        >(ProtocolError::Header),
        match after_header(file, line) {
            Err(e) => after_line(Some(file), line) == (
                None::<FileModel>,
                Err::<ReceivedModel, ProtocolError>(e),
            ),
            Ok((next, last)) => if last {
                after_line(Some(file), line) == (
                    None::<FileModel>,
                    Ok::<ReceivedModel, ProtocolError>(ReceivedModel::File(next)),
                )
            } else {
                after_line(Some(file), line) == (
                    Some(next),
                    Ok::<ReceivedModel, ProtocolError>(ReceivedModel::More),
                )
            },
        },
{
}

/// Between commands, and whatever white space ends the line, `open` starts a description that says
/// nothing yet, a dot ends the commands, an empty line is skipped, and any other line is refused.
pub proof fn law_line_between_commands(word: Seq<char>, end: Seq<char>)
    requires
        word.len() > 0 ==> !white_space(word.last()),
        forall|i: int| 0 <= i < end.len() ==> white_space(#[trigger] end[i]),
    ensures
        word == "open"@ ==> after_line(None, word + end).1 == Ok::<ReceivedModel, ProtocolError>(
            ReceivedModel::More,
        ) && (after_line(None, word + end).0 matches Some(file) && file.display_name.len() == 0
            && file.real_path.len() == 0 && file.token.len() == 0 && file.selection.len() == 0
            && file.file_type.len() == 0 && !file.data_on_save && !file.re_activate && !file.new
            && file.data == 0),
        word == "."@ ==> after_line(None, word + end) == (
            None::<FileModel>,
            Ok::<ReceivedModel, ProtocolError>(ReceivedModel::End),
        ),
        word.len() == 0 ==> after_line(None, word + end) == (
            None::<FileModel>,
            Ok::<ReceivedModel, ProtocolError>(ReceivedModel::More),
        ),
        word.len() > 0 && word != "open"@ && word != "."@ ==> after_line(None, word + end) == (
            None::<FileModel>,
            Err::<ReceivedModel, ProtocolError>(ProtocolError::Command),
        ),
{
    law_only_white_space_is_trimmed(word, end);
    reveal_strlit("open");
    reveal_strlit(".");
    assert("open"@.len() == 4 && "."@.len() == 1);
}

/// The name for a local copy is the last name in what the client calls the file, character by
/// character, but for the colons, which become tildes. The client calls it by the display name, or
/// by the path if there is no display name. Slashes behind the last name make no difference.
pub proof fn law_safe_name_is_the_last_name(
    file: FileModel,
    parent: Seq<char>,
    name: Seq<char>,
    end: Seq<char>,
)
    requires
        parent.len() == 0 || parent.last() == '/',
        name.len() > 0 && name != seq!['.'] && name != seq!['.', '.'] && !name.contains('/'),
        end.len() == 0 || end == seq!['/'] || end == seq!['/', '.'],
        file.display_name == parent + name + end || (file.display_name.len() == 0 && file.real_path
            == parent + name + end),
    ensures
        file.safe_name().len() == name.len(),
        forall|i: int|
            0 <= i < name.len() ==> #[trigger] file.safe_name()[i] == if name[i] == ':' {
                '~'
            } else {
                name[i]
            },
{
    let given = parent + name + end;
    assert(given.len() > 0);
    assert(file.given_name() == given);
    let above = with_replaced(parent, ':', '~');
    let plain = with_replaced(name, ':', '~');
    let replaced = with_replaced(given, ':', '~');
    assert(replaced == above + plain + end);
    assert forall|i: int| 0 <= i < plain.len() implies plain[i] != '/' by {
        assert(name[i] != '/');
    }
    if plain == seq!['.'] {
        assert(plain[0] == '.');
        assert(name == seq!['.']);
    }
    if plain == seq!['.', '.'] {
        assert(plain[0] == '.' && plain[1] == '.');
        assert(name == seq!['.', '.']);
    }
    law_last_name_is_behind_the_last_slash(above, plain);
    if end.len() == 0 {
        assert(replaced == above + plain);
    } else if end.len() == 1 {
        assert(replaced == (above + plain).push('/'));
    } else {
        assert(replaced == (above + plain).push('/').push('.'));
    }
}

/// A slash behind what the client calls a file makes no difference to the name for a local copy,
/// nor do a slash and a dot, however many there are.
pub proof fn law_slashes_behind_keep_the_safe_name(a: FileModel, b: FileModel)
    requires
        a.display_name.len() > 0,
        b.display_name == a.display_name.push('/') || b.display_name == a.display_name.push(
            '/',
        ).push('.'),
    ensures
        a.safe_name() == b.safe_name(),
{
    let replaced = with_replaced(a.display_name, ':', '~');
    law_slash_and_dot_keep_the_last_name(replaced);
    if b.display_name == a.display_name.push('/') {
        assert(with_replaced(b.display_name, ':', '~') == replaced.push('/'));
    } else {
        assert(with_replaced(b.display_name, ':', '~') == replaced.push('/').push('.'));
    }
}

/// The name for a local copy depends on nothing but what the client calls the file: on the display
/// name, and on the path only where there is no display name, in the same way.
pub proof fn law_safe_name_comes_from_the_given_name(a: FileModel, b: FileModel)
    ensures
        a.display_name.len() > 0 && b.display_name == a.display_name ==> a.safe_name()
            == b.safe_name(),
        a.display_name.len() == 0 && b.display_name.len() == 0 && b.real_path == a.real_path
            ==> a.safe_name() == b.safe_name(),
        a.display_name.len() > 0 && b.display_name.len() == 0 && b.real_path == a.display_name
            ==> a.safe_name() == b.safe_name(),
{
}

/// A file that the client calls nothing, or by a path of slashes and single dots, or by one that
/// ends with two dots, has no name of its own: the local copy goes by the default name.
pub proof fn law_default_name(file: FileModel, given: Seq<char>)
    requires
        file.display_name == given || (file.display_name.len() == 0 && file.real_path == given),
        ({
            ||| given.len() == 0 && file.real_path.len() == 0
            ||| given.len() >= 2 && given[given.len() - 1] == '.' && given[given.len() - 2] == '.'
                && (given.len() == 2 || given[given.len() - 3] == '/')
            ||| given.len() > 0 && (forall|i: int|
                0 <= i < given.len() ==> #[trigger] given[i] == '/' || given[i] == '.') && (forall|
                i: int,
            |
                0 < i < given.len() ==> #[trigger] given[i] == '/' || given[i - 1] == '/')
        }),
    ensures
        file.safe_name() == "rmate-file.txt"@,
{
    let none = Seq::<char>::empty();
    if given.len() == 0 && file.real_path.len() == 0 {
        reveal_strlit("rmate-file.txt");
        let name = "rmate-file.txt"@;
        assert(name.len() == 14);
        assert(file.given_name() == name);
        assert(with_replaced(name, ':', '~') == name);
        assert(!name.contains('/'));
        law_last_name_is_behind_the_last_slash(none, name);
        assert(none + name == name);
    } else {
        assert(file.given_name() == given);
        let replaced = with_replaced(given, ':', '~');
        if given.len() >= 2 && given[given.len() - 1] == '.' && given[given.len() - 2] == '.' && (
        given.len() == 2 || given[given.len() - 3] == '/') {
            let parent = replaced.take(given.len() - 2);
            assert(replaced == parent.push('.').push('.'));
            law_paths_without_last_name(parent, none);
        } else {
            assert(replaced == given);
            law_paths_without_last_name(none, given);
        }
    }
}

/// What announces the contents of a file is the command with the token as it is, and then the size
/// in decimal, each on its line.
pub proof fn law_save_header(token: Seq<char>, size: u64)
    ensures
        ({
            let s = save_header(token, size);
            let n = token.len() as int;
            let digits = decimal(size as nat);
            &&& s.len() == 12 + n + 7 + digits.len() + 1
            &&& s.take(12) == "save\ntoken: "@
            &&& s.subrange(12, 12 + n) == token
            &&& s.subrange(12 + n, 19 + n) == "\ndata: "@
            &&& s.subrange(19 + n, 19 + n + digits.len()) == digits
            &&& s.last() == '\n'
        }),
{
    reveal_strlit("save\ntoken: ");
    reveal_strlit("\ndata: ");
    reveal_strlit("\n");
    let s = save_header(token, size);
    let n = token.len() as int;
    let digits = decimal(size as nat);
    assert("save\ntoken: "@.len() == 12 && "\ndata: "@.len() == 7);
    assert(s.take(12) == "save\ntoken: "@);
    assert(s.subrange(12, 12 + n) == token);
    assert(s.subrange(12 + n, 19 + n) == "\ndata: "@);
    assert(s.subrange(19 + n, 19 + n + digits.len()) == digits);
}

/// Each error has a text of its own.
pub proof fn law_error_texts()
    ensures
        ProtocolError::Command.text() == "Protocol error"@,
        ProtocolError::Header.text() == "Protocol header error"@,
        ProtocolError::Value.text() == "Protocol value error"@,
{
}

} // verus!

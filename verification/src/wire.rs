//! The bytes that a session receives.
//!
//! A session is handed lines of text, and is told when a body is stored; splitting the stream of
//! a connection into lines, taking them as UTF-8 and cutting off the bodies is up to the caller.
//! `received` says what the stages of a session come to for a caller that does so. The laws here
//! hold of such a caller: what a client writes is then what is stored and edited.

use crate::number::{decimal, is_digit, law_decimal_is_read_back, lemma_decimal_digits};
use crate::path::{joined, same_location};
use crate::protocol::{
    after_header, after_line, first_separator, header, law_truth_values_exclude_each_other,
    lemma_first_separator, lemma_keys_differ, parsed_bool, separator_at, FileModel, ProtocolError,
    ReceivedModel,
};
use crate::server::{
    law_files_in_different_directories_differ, ReceivingModel, Stage, StoringModel, TmpModel,
};
use crate::text::{law_trimmed, same_ignoring_case, trimmed, white_space};
use vstd::math::min;
use vstd::prelude::*;
use vstd::utf8::{
    decode_utf8, decode_utf8_encode_utf8, encode_scalar, encode_utf8, encode_utf8_decode_utf8,
    encode_utf8_valid_utf8, valid_utf8,
};

verus! {

/// The byte that ends a line.
pub const NEWLINE: u8 = 10;

/// Whether the first `n` bytes of a stream are its first line, with the byte that ends it.
pub open spec fn is_first_line(stream: Seq<u8>, n: int) -> bool {
    &&& 0 < n <= stream.len()
    &&& stream[n - 1] == NEWLINE
    &&& forall|i: int| 0 <= i < n - 1 ==> stream[i] != NEWLINE
}

/// The first line of a stream, with the byte that ends it, and what follows. Where no byte ends a
/// line, the line is all there is.
pub open spec fn next_line(stream: Seq<u8>) -> (Seq<u8>, Seq<u8>) {
    if exists|n: int| is_first_line(stream, n) {
        let n = choose|n: int| is_first_line(stream, n);
        (stream.take(n), stream.skip(n))
    } else {
        (stream, Seq::empty())
    }
}

/// What a session comes to that receives a stream.
#[verifier::ext_equal]
pub enum Outcome {
    /// The files are stored with these bodies, and what follows in the stream is not a command.
    Edit { files: Seq<TmpModel>, bodies: Seq<Seq<u8>>, rest: Seq<u8> },
    /// A line is refused.
    Refused(ProtocolError),
    /// A line is not text.
    NotText,
    /// The stream ends between commands.
    Closed,
}

/// What a session in the receiving stage comes to, with the bodies that are stored, when a caller
/// hands it the lines of a stream and stores the bodies. The file with index `i` is stored in the
/// directory `dirs[i]`.
#[verifier::opaque]
pub open spec fn received(
    stage: ReceivingModel,
    bodies: Seq<Seq<u8>>,
    dirs: Seq<Seq<char>>,
    stream: Seq<u8>,
) -> Outcome
    decreases stream.len(),
{
    if stream.len() == 0 {
        match stage.pending {
            None => Outcome::Closed,
            Some(_) => Outcome::Refused(ProtocolError::Header),
        }
    } else {
        let (line, rest) = next_line(stream);
        if !valid_utf8(line) {
            Outcome::NotText
        } else {
            match stage.after_line(decode_utf8(line)) {
                Err(e) => Outcome::Refused(e),
                Ok(Stage::Line(next)) => received(next, bodies, dirs, rest),
                Ok(Stage::Body(storing)) => {
                    let n = min(storing.file.data as int, rest.len() as int);
                    received(
                        storing.after_stored(dirs[storing.files.len() as int]),
                        bodies.push(rest.take(n)),
                        dirs,
                        rest.skip(n),
                    )
                },
                Ok(Stage::Edit(files)) => Outcome::Edit { files, bodies, rest },
            }
        }
    }
}

/// A line of text: it ends with a line feed and holds no other.
pub open spec fn is_line(line: Seq<char>) -> bool {
    &&& line.len() > 0
    &&& line.last() == '\n'
    &&& !line.drop_last().contains('\n')
}

proof fn lemma_first_line(stream: Seq<u8>, n: int)
    requires
        is_first_line(stream, n),
    ensures
        next_line(stream) == (stream.take(n), stream.skip(n)),
{
    let k = choose|k: int| is_first_line(stream, k);
    assert(k == n);
}

/// Only a line feed is encoded with the byte that ends a line.
proof fn lemma_char_bytes(ch: char)
    ensures
        encode_scalar(ch as u32).len() > 0,
        ch == '\n' ==> encode_scalar(ch as u32) == seq![NEWLINE],
        ch != '\n' ==> !encode_scalar(ch as u32).contains(NEWLINE),
{
    let c = ch as u32;
    assert(c <= 0x7f ==> (c & 0x7f) as u8 == c) by (bit_vector);
    assert(0xc0 | ((c >> 6) & 0x1f) as u8 >= 0x80) by (bit_vector);
    assert(0xe0 | ((c >> 12) & 0x0f) as u8 >= 0x80) by (bit_vector);
    assert(0xf0 | ((c >> 18) & 0x7) as u8 >= 0x80) by (bit_vector);
    assert(0x80 | (c & 0x3f) as u8 >= 0x80) by (bit_vector);
    assert(0x80 | ((c >> 6) & 0x3f) as u8 >= 0x80) by (bit_vector);
    assert(0x80 | ((c >> 12) & 0x3f) as u8 >= 0x80) by (bit_vector);
}

/// The encoding of a line feed.
pub(crate) proof fn lemma_feed_bytes()
    ensures
        encode_utf8(seq!['\n']) == seq![NEWLINE],
{
    let feed = seq!['\n'];
    lemma_char_bytes('\n');
    assert(feed.drop_first() == Seq::<char>::empty());
    assert(encode_utf8(feed.drop_first()) == Seq::<u8>::empty());
}

/// The encoding of a text is that of its parts.
pub(crate) proof fn lemma_encode_concat(a: Seq<char>, b: Seq<char>)
    ensures
        encode_utf8(a + b) == encode_utf8(a) + encode_utf8(b),
    decreases a.len(),
{
    if a.len() == 0 {
        assert(a + b == b);
    } else {
        lemma_encode_concat(a.drop_first(), b);
        assert((a + b).drop_first() == a.drop_first() + b);
    }
}

proof fn lemma_encode_without_newline(s: Seq<char>)
    requires
        !s.contains('\n'),
    ensures
        !encode_utf8(s).contains(NEWLINE),
    decreases s.len(),
{
    if s.len() > 0 {
        let tail = s.drop_first();
        assert forall|i: int| 0 <= i < tail.len() implies tail[i] != '\n' by {
            assert(s[i + 1] != '\n');
        }
        lemma_encode_without_newline(tail);
        assert(s[0] != '\n');
        lemma_char_bytes(s[0]);
        let head = encode_scalar(s[0] as u32);
        assert forall|i: int| 0 <= i < encode_utf8(s).len() implies encode_utf8(s)[i]
            != NEWLINE by {
            if i < head.len() {
                assert(head[i] != NEWLINE);
            } else {
                assert(encode_utf8(tail)[i - head.len()] != NEWLINE);
            }
        }
    }
}

/// Whether a line is read whole from a stream in which `rest` follows it: it ends with a line
/// feed and holds no other, or it holds none and the stream ends.
pub open spec fn is_whole_line(line: Seq<char>, rest: Seq<u8>) -> bool {
    is_line(line) || (line.len() > 0 && !line.contains('\n') && rest.len() == 0)
}

/// A line that is written to a stream is read from it as it was.
pub proof fn law_line_is_read_back(line: Seq<char>, rest: Seq<u8>)
    requires
        is_whole_line(line, rest),
    ensures
        next_line(encode_utf8(line) + rest) == (encode_utf8(line), rest),
        encode_utf8(line).len() > 0,
        valid_utf8(encode_utf8(line)),
        decode_utf8(encode_utf8(line)) == line,
{
    let bytes = encode_utf8(line);
    let n = bytes.len() as int;
    let stream = bytes + rest;
    if is_line(line) {
        let content = line.drop_last();
        let feed = seq!['\n'];
        assert(line == content + feed);
        lemma_encode_concat(content, feed);
        lemma_encode_without_newline(content);
        lemma_feed_bytes();
        assert forall|i: int| 0 <= i < n - 1 implies stream[i] != NEWLINE by {
            assert(stream[i] == encode_utf8(content)[i]);
        }
        lemma_first_line(stream, n);
        assert(stream.take(n) == bytes);
        assert(stream.skip(n) == rest);
    } else {
        lemma_encode_without_newline(line);
        lemma_char_bytes(line[0]);
        assert(stream == bytes);
        assert(rest == Seq::<u8>::empty());
        assert forall|k: int| !is_first_line(stream, k) by {
            if 0 < k <= stream.len() {
                assert(bytes[k - 1] != NEWLINE);
            }
        }
    }
    encode_utf8_valid_utf8(line);
    encode_utf8_decode_utf8(line);
}

/// The line of a header.
pub open spec fn header_line(key: Seq<char>, value: Seq<char>) -> Seq<char> {
    key + ": "@ + value + "\n"@
}

/// Whether a key and a value can stand in a header line: each on one line, the key without what
/// separates them, the value without white space at its end.
pub open spec fn fits_header(key: Seq<char>, value: Seq<char>) -> bool {
    &&& !key.contains('\n')
    &&& forall|i: int| !separator_at(key, i)
    &&& !value.contains('\n')
    &&& trimmed(value) == value
}

/// A header that is written as a line is read from it as it was.
pub proof fn law_header_is_read_back(key: Seq<char>, value: Seq<char>)
    requires
        fits_header(key, value),
    ensures
        header(header_line(key, value)) == Some((key, value)),
        is_line(header_line(key, value)),
{
    reveal_strlit(": ");
    reveal_strlit("\n");
    let line = header_line(key, value);
    let n = key.len() as int;
    assert(line[n] == ':' && line[n + 1] == ' ');
    assert forall|j: int| 0 <= j < n implies !separator_at(line, j) by {
        assert(!separator_at(key, j));
    }
    assert(first_separator(line, n));
    lemma_first_separator(line, n);
    assert(line.take(n) == key);
    let rest = line.skip(n + 2);
    assert(rest == value.push('\n'));
    assert(rest.drop_last() == value);
    assert forall|i: int| 0 <= i < line.len() - 1 implies line[i] != '\n' by {
        if i < n {
            assert(key[i] != '\n');
        } else if i >= n + 2 {
            assert(value[i - n - 2] != '\n');
        }
    }
}

/// The description that a list of header lines gives, if each of them is accepted and none gives
/// the size of the body.
pub open spec fn described(headers: Seq<Seq<char>>) -> Option<FileModel>
    decreases headers.len(),
{
    if headers.len() == 0 {
        Some(FileModel::blank())
    } else {
        match described(headers.drop_last()) {
            Some(file) => match after_header(file, headers.last()) {
                Ok((next, false)) => Some(next),
                _ => None,
            },
            None => None,
        }
    }
}

/// Lines as bytes.
pub open spec fn lines_bytes(lines: Seq<Seq<char>>) -> Seq<u8>
    decreases lines.len(),
{
    if lines.len() == 0 {
        Seq::empty()
    } else {
        encode_utf8(lines[0]) + lines_bytes(lines.drop_first())
    }
}

/// Whether every item of a list is a line.
pub open spec fn are_lines(lines: Seq<Seq<char>>) -> bool {
    forall|i: int| 0 <= i < lines.len() ==> is_line(#[trigger] lines[i])
}

/// Whether every item of a list is a line of white space.
pub open spec fn are_blank_lines(lines: Seq<Seq<char>>) -> bool {
    are_lines(lines) && forall|i: int|
        0 <= i < lines.len() ==> trimmed(#[trigger] lines[i]).len() == 0
}

/// A file that a client sends, line by line.
pub struct Upload {
    /// Blank lines before the command.
    pub blanks: Seq<Seq<char>>,
    /// The line of the command.
    pub command: Seq<char>,
    /// The lines of the headers other than the size of the body.
    pub headers: Seq<Seq<char>>,
    /// The line of the header with the size of the body.
    pub size: Seq<char>,
    pub body: Seq<u8>,
}

impl Upload {
    /// Whether the server accepts the file: the lines are the command and accepted headers, and
    /// the size is that of the body. White space at the end of a line does not matter.
    pub open spec fn valid(self) -> bool {
        &&& are_blank_lines(self.blanks)
        &&& is_line(self.command)
        &&& trimmed(self.command) == "open"@
        &&& are_lines(self.headers)
        &&& is_line(self.size)
        &&& described(self.headers) matches Some(file)
        &&& after_header(file, self.size) matches Ok((next, last))
        &&& last
        &&& next.data == self.body.len()
    }

    /// What the client says about the file.
    pub open spec fn file(self) -> FileModel {
        after_header(described(self.headers)->0, self.size)->Ok_0.0
    }

    /// What the client writes.
    pub open spec fn bytes(self) -> Seq<u8> {
        lines_bytes(self.blanks) + encode_utf8(self.command) + lines_bytes(self.headers)
            + encode_utf8(self.size) + self.body
    }
}

/// What a client writes to have the files edited: the files, and after blank lines the line that
/// ends the commands.
pub open spec fn session_bytes(
    uploads: Seq<Upload>,
    blanks: Seq<Seq<char>>,
    end: Seq<char>,
) -> Seq<u8>
    decreases uploads.len(),
{
    if uploads.len() == 0 {
        lines_bytes(blanks) + encode_utf8(end)
    } else {
        uploads[0].bytes() + session_bytes(uploads.drop_first(), blanks, end)
    }
}

/// The files of a client, stored in the directories from `from` on.
pub open spec fn stored(uploads: Seq<Upload>, dirs: Seq<Seq<char>>, from: int) -> Seq<TmpModel> {
    Seq::new(uploads.len(), |i: int| TmpModel::in_directory(uploads[i].file(), dirs[from + i]))
}

/// A stage that takes one more line from a stream.
proof fn lemma_receive_line(
    stage: ReceivingModel,
    bodies: Seq<Seq<u8>>,
    dirs: Seq<Seq<char>>,
    line: Seq<char>,
    rest: Seq<u8>,
)
    requires
        is_whole_line(line, rest),
    ensures
        stage.after_line(line) matches Ok(Stage::Line(next)) ==> received(
            stage,
            bodies,
            dirs,
            encode_utf8(line) + rest,
        ) == received(next, bodies, dirs, rest),
        stage.after_line(line) matches Ok(Stage::Body(storing)) ==> received(
            stage,
            bodies,
            dirs,
            encode_utf8(line) + rest,
        ) == ({
            let n = min(storing.file.data as int, rest.len() as int);
            received(
                storing.after_stored(dirs[storing.files.len() as int]),
                bodies.push(rest.take(n)),
                dirs,
                rest.skip(n),
            )
        }),
        stage.after_line(line) matches Ok(Stage::Edit(files)) ==> received(
            stage,
            bodies,
            dirs,
            encode_utf8(line) + rest,
        ) == (Outcome::Edit { files, bodies, rest }),
{
    reveal(received);
    law_line_is_read_back(line, rest);
}

proof fn lemma_receive_blanks(
    files: Seq<TmpModel>,
    bodies: Seq<Seq<u8>>,
    dirs: Seq<Seq<char>>,
    blanks: Seq<Seq<char>>,
    rest: Seq<u8>,
)
    requires
        are_blank_lines(blanks),
    ensures
        received(
            ReceivingModel { pending: None, files },
            bodies,
            dirs,
            lines_bytes(blanks) + rest,
        ) == received(ReceivingModel { pending: None, files }, bodies, dirs, rest),
    decreases blanks.len(),
{
    if blanks.len() == 0 {
        assert(lines_bytes(blanks) + rest == rest);
    } else {
        let stage = ReceivingModel { pending: None, files };
        let others = blanks.drop_first();
        let line = blanks[0];
        assert(is_line(line) && trimmed(line).len() == 0);
        assert forall|i: int| 0 <= i < others.len() implies is_line(#[trigger] others[i])
            && trimmed(others[i]).len() == 0 by {
            assert(others[i] == blanks[i + 1]);
        }
        assert(stage.after_line(line) == Ok::<Stage, ProtocolError>(Stage::Line(stage)));
        assert(lines_bytes(blanks) + rest == encode_utf8(line) + (lines_bytes(others) + rest));
        lemma_receive_line(stage, bodies, dirs, line, lines_bytes(others) + rest);
        lemma_receive_blanks(files, bodies, dirs, others, rest);
    }
}

proof fn lemma_described_prefix(headers: Seq<Seq<char>>, k: int)
    requires
        described(headers) is Some,
        0 <= k <= headers.len(),
    ensures
        described(headers.take(k)) is Some,
    decreases headers.len(),
{
    if k == headers.len() {
        assert(headers.take(k) == headers);
    } else {
        lemma_described_prefix(headers.drop_last(), k);
        assert(headers.drop_last().take(k) == headers.take(k));
    }
}

proof fn lemma_receive_headers(
    files: Seq<TmpModel>,
    bodies: Seq<Seq<u8>>,
    dirs: Seq<Seq<char>>,
    headers: Seq<Seq<char>>,
    k: int,
    rest: Seq<u8>,
)
    requires
        are_lines(headers),
        described(headers) is Some,
        0 <= k <= headers.len(),
    ensures
        received(
            ReceivingModel { pending: described(headers.take(k)), files },
            bodies,
            dirs,
            lines_bytes(headers.skip(k)) + rest,
        ) == received(
            ReceivingModel { pending: described(headers), files },
            bodies,
            dirs,
            rest,
        ),
    decreases headers.len() - k,
{
    if k == headers.len() {
        assert(headers.take(k) == headers);
        assert(lines_bytes(headers.skip(k)) + rest == rest);
    } else {
        lemma_described_prefix(headers, k);
        lemma_described_prefix(headers, k + 1);
        let line = headers[k];
        assert(is_line(line));
        assert(headers.take(k + 1).drop_last() == headers.take(k));
        assert(headers.take(k + 1).last() == line);
        let stage = ReceivingModel { pending: described(headers.take(k)), files };
        let next = ReceivingModel { pending: described(headers.take(k + 1)), files };
        assert(stage.after_line(line) == Ok::<Stage, ProtocolError>(Stage::Line(next)));
        let tail = lines_bytes(headers.skip(k + 1));
        assert(headers.skip(k).drop_first() == headers.skip(k + 1));
        assert(headers.skip(k)[0] == line);
        assert(lines_bytes(headers.skip(k)) + rest == encode_utf8(line) + (tail + rest));
        lemma_receive_line(stage, bodies, dirs, line, tail + rest);
        lemma_receive_headers(files, bodies, dirs, headers, k + 1, rest);
    }
}

proof fn lemma_receive_upload(
    files: Seq<TmpModel>,
    bodies: Seq<Seq<u8>>,
    dirs: Seq<Seq<char>>,
    upload: Upload,
    rest: Seq<u8>,
)
    requires
        upload.valid(),
    ensures
        received(
            ReceivingModel { pending: None, files },
            bodies,
            dirs,
            upload.bytes() + rest,
        ) == received(
            ReceivingModel {
                pending: None,
                files: files.push(
                    TmpModel::in_directory(upload.file(), dirs[files.len() as int]),
                ),
            },
            bodies.push(upload.body),
            dirs,
            rest,
        ),
{
    let after_size = upload.body + rest;
    let after_headers = encode_utf8(upload.size) + after_size;
    let after_command = lines_bytes(upload.headers) + after_headers;
    let after_blanks = encode_utf8(upload.command) + after_command;
    assert(upload.bytes() + rest == lines_bytes(upload.blanks) + after_blanks);
    lemma_receive_blanks(files, bodies, dirs, upload.blanks, after_blanks);

    reveal_strlit("open");
    let start = ReceivingModel { pending: None, files };
    let opened = ReceivingModel { pending: Some(FileModel::blank()), files };
    assert(start.after_line(upload.command) == Ok::<Stage, ProtocolError>(Stage::Line(opened)));
    lemma_receive_line(start, bodies, dirs, upload.command, after_command);

    assert(upload.headers.take(0) == Seq::<Seq<char>>::empty());
    assert(described(upload.headers.take(0)) == Some(FileModel::blank()));
    assert(upload.headers.skip(0) == upload.headers);
    lemma_receive_headers(files, bodies, dirs, upload.headers, 0, after_headers);

    let pending = ReceivingModel { pending: described(upload.headers), files };
    let storing = StoringModel { file: upload.file(), files };
    assert(pending.after_line(upload.size) == Ok::<Stage, ProtocolError>(Stage::Body(storing)));
    lemma_receive_line(pending, bodies, dirs, upload.size, after_size);
    let n = upload.body.len() as int;
    assert(after_size.take(n) == upload.body);
    assert(after_size.skip(n) == rest);
}

/// What a client writes is what is received: from the lines and bodies of any files that the
/// server accepts, each is stored with its description and its body, in their order, and then they
/// are edited.
pub proof fn law_session_is_received(
    files: Seq<TmpModel>,
    bodies: Seq<Seq<u8>>,
    dirs: Seq<Seq<char>>,
    uploads: Seq<Upload>,
    blanks: Seq<Seq<char>>,
    end: Seq<char>,
    rest: Seq<u8>,
)
    requires
        forall|i: int| 0 <= i < uploads.len() ==> (#[trigger] uploads[i]).valid(),
        are_blank_lines(blanks),
        is_whole_line(end, rest),
        trimmed(end) == "."@,
    ensures
        received(
            ReceivingModel { pending: None, files },
            bodies,
            dirs,
            session_bytes(uploads, blanks, end) + rest,
        ) == (Outcome::Edit {
            files: files + stored(uploads, dirs, files.len() as int),
            bodies: bodies + uploads.map_values(|upload: Upload| upload.body),
            rest,
        }),
    decreases uploads.len(),
{
    let start = ReceivingModel { pending: None, files };
    if uploads.len() == 0 {
        reveal_strlit(".");
        reveal_strlit("open");
        assert("."@.len() == 1 && "open"@.len() == 4);
        assert(session_bytes(uploads, blanks, end) + rest == lines_bytes(blanks) + (encode_utf8(end)
            + rest));
        lemma_receive_blanks(files, bodies, dirs, blanks, encode_utf8(end) + rest);
        assert(start.after_line(end) == Ok::<Stage, ProtocolError>(Stage::Edit(files)));
        lemma_receive_line(start, bodies, dirs, end, rest);
        assert(files + stored(uploads, dirs, files.len() as int) == files);
        assert(bodies + uploads.map_values(|upload: Upload| upload.body) == bodies);
    } else {
        let first = uploads[0];
        let others = uploads.drop_first();
        let more = session_bytes(others, blanks, end) + rest;
        assert(session_bytes(uploads, blanks, end) + rest == first.bytes() + more);
        lemma_receive_upload(files, bodies, dirs, first, more);
        let file = TmpModel::in_directory(first.file(), dirs[files.len() as int]);
        assert forall|i: int| 0 <= i < others.len() implies (#[trigger] others[i]).valid() by {
            assert(uploads[i + 1].valid());
        }
        law_session_is_received(
            files.push(file),
            bodies.push(first.body),
            dirs,
            others,
            blanks,
            end,
            rest,
        );
        assert(files.push(file) + stored(others, dirs, files.len() as int + 1) == files + stored(
            uploads,
            dirs,
            files.len() as int,
        ));
        assert(bodies.push(first.body) + others.map_values(|upload: Upload| upload.body) == bodies
            + uploads.map_values(|upload: Upload| upload.body));
    }
}

/// Whether a text can be the value of a header.
pub open spec fn is_value(s: Seq<char>) -> bool {
    !s.contains('\n') && trimmed(s) == s
}

/// Whether every text of a description can be the value of a header.
pub open spec fn is_sendable(file: FileModel) -> bool {
    &&& is_value(file.display_name)
    &&& is_value(file.real_path)
    &&& is_value(file.token)
    &&& is_value(file.selection)
    &&& is_value(file.file_type)
}

/// The text for a truth value.
pub open spec fn truth_text(b: bool) -> Seq<char> {
    if b {
        "yes"@
    } else {
        "no"@
    }
}

/// The header lines with which a client describes a file.
pub open spec fn headers_of(file: FileModel) -> Seq<Seq<char>> {
    seq![
        header_line("display-name"@, file.display_name),
        header_line("real-path"@, file.real_path),
        header_line("data-on-save"@, truth_text(file.data_on_save)),
        header_line("re-activate"@, truth_text(file.re_activate)),
        header_line("token"@, file.token),
        header_line("new"@, truth_text(file.new)),
        header_line("selection"@, file.selection),
        header_line("file-type"@, file.file_type),
    ]
}

/// The lines with which a client sends a file.
pub open spec fn upload_of(file: FileModel, body: Seq<u8>) -> Upload {
    Upload {
        blanks: Seq::empty(),
        command: "open\n"@,
        headers: headers_of(file),
        size: header_line("data"@, decimal(body.len())),
        body,
    }
}

/// A number can be the value of the size header.
pub(crate) proof fn lemma_decimal_fits(n: nat)
    ensures
        fits_header("data"@, decimal(n)),
{
    reveal_strlit("data");
    lemma_decimal_digits(n);
    let digits = decimal(n);
    assert forall|i: int| 0 <= i < digits.len() implies digits[i] != '\n' by {
        assert(is_digit(digits[i]));
    }
    assert(is_digit(digits[digits.len() - 1]));
}

proof fn lemma_truth_text(b: bool)
    ensures
        parsed_bool(truth_text(b)) == Some(b),
        is_value(truth_text(b)),
{
    reveal_strlit("yes");
    reveal_strlit("no");
    law_truth_values_exclude_each_other("yes"@);
    law_truth_values_exclude_each_other("no"@);
    assert(same_ignoring_case("yes"@, "yes"@));
    assert(same_ignoring_case("no"@, "no"@));
}

/// No key of a header holds what separates it from the value.
pub(crate) proof fn lemma_keys_fit()
    ensures
        forall|i: int| !separator_at("display-name"@, i),
        forall|i: int| !separator_at("real-path"@, i),
        forall|i: int| !separator_at("data-on-save"@, i),
        forall|i: int| !separator_at("re-activate"@, i),
        forall|i: int| !separator_at("token"@, i),
        forall|i: int| !separator_at("new"@, i),
        forall|i: int| !separator_at("selection"@, i),
        forall|i: int| !separator_at("file-type"@, i),
        !"display-name"@.contains('\n'),
        !"real-path"@.contains('\n'),
        !"data-on-save"@.contains('\n'),
        !"re-activate"@.contains('\n'),
        !"token"@.contains('\n'),
        !"new"@.contains('\n'),
        !"selection"@.contains('\n'),
        !"file-type"@.contains('\n'),
{
    reveal_strlit("display-name");
    reveal_strlit("real-path");
    reveal_strlit("data-on-save");
    reveal_strlit("re-activate");
    reveal_strlit("token");
    reveal_strlit("new");
    reveal_strlit("selection");
    reveal_strlit("file-type");
}

proof fn lemma_described_next(
    headers: Seq<Seq<char>>,
    k: int,
    key: Seq<char>,
    value: Seq<char>,
    next: FileModel,
)
    requires
        0 <= k < headers.len(),
        headers[k] == header_line(key, value),
        fits_header(key, value),
        key != "data"@,
        described(headers.take(k)) matches Some(file) && file.with_header(key, value) == Ok::<
            FileModel,
            ProtocolError,
        >(next),
    ensures
        described(headers.take(k + 1)) == Some(next),
        is_line(headers[k]),
{
    law_header_is_read_back(key, value);
    assert(headers.take(k + 1).drop_last() == headers.take(k));
    assert(headers.take(k + 1).last() == headers[k]);
}

proof fn lemma_headers_are_accepted(file: FileModel)
    requires
        is_sendable(file),
    ensures
        are_lines(headers_of(file)),
        described(headers_of(file)) == Some(FileModel { data: 0, ..file }),
{
    let headers = headers_of(file);
    lemma_keys_differ();
    lemma_keys_fit();
    lemma_truth_text(file.data_on_save);
    lemma_truth_text(file.re_activate);
    lemma_truth_text(file.new);
    let blank = FileModel::blank();
    let f1 = FileModel { display_name: file.display_name, ..blank };
    let f2 = FileModel { real_path: file.real_path, ..f1 };
    let f3 = FileModel { data_on_save: file.data_on_save, ..f2 };
    let f4 = FileModel { re_activate: file.re_activate, ..f3 };
    let f5 = FileModel { token: file.token, ..f4 };
    let f6 = FileModel { new: file.new, ..f5 };
    let f7 = FileModel { selection: file.selection, ..f6 };
    let f8 = FileModel { file_type: file.file_type, ..f7 };
    assert(described(headers.take(0)) == Some(blank));
    lemma_described_next(headers, 0, "display-name"@, file.display_name, f1);
    lemma_described_next(headers, 1, "real-path"@, file.real_path, f2);
    lemma_described_next(headers, 2, "data-on-save"@, truth_text(file.data_on_save), f3);
    lemma_described_next(headers, 3, "re-activate"@, truth_text(file.re_activate), f4);
    lemma_described_next(headers, 4, "token"@, file.token, f5);
    lemma_described_next(headers, 5, "new"@, truth_text(file.new), f6);
    lemma_described_next(headers, 6, "selection"@, file.selection, f7);
    lemma_described_next(headers, 7, "file-type"@, file.file_type, f8);
    assert(headers.take(8) == headers);
    assert forall|i: int| 0 <= i < headers.len() implies is_line(#[trigger] headers[i]) by {
        assert(i == 0 || i == 1 || i == 2 || i == 3 || i == 4 || i == 5 || i == 6 || i == 7);
    }
}

/// Every description that can be written in headers, with any body, is accepted as it was.
pub proof fn law_description_is_received(file: FileModel, body: Seq<u8>)
    requires
        is_sendable(file),
        body.len() <= u64::MAX,
    ensures
        upload_of(file, body).valid(),
        upload_of(file, body).file() == (FileModel { data: body.len() as u64, ..file }),
{
    lemma_headers_are_accepted(file);
    lemma_keys_differ();
    lemma_decimal_fits(body.len());
    law_decimal_is_read_back(body.len() as u64);
    law_header_is_read_back("data"@, decimal(body.len()));
    let command = "open\n"@;
    assert(is_line(command) && trimmed(command) == "open"@) by {
        reveal_strlit("open");
        reveal_strlit("open\n");
        assert(command.drop_last() == "open"@);
        assert(trimmed(command.drop_last()) == "open"@);
    }
}

/// A line as it is read from a stream: a line feed can only be its last character.
pub open spec fn is_read_line(line: Seq<char>) -> bool {
    forall|i: int| 0 <= i < line.len() - 1 ==> line[i] != '\n'
}

/// The texts of a description come from the values of headers: reading lines keeps them such.
pub proof fn law_received_texts_are_values(pending: Option<FileModel>, line: Seq<char>)
    requires
        pending matches Some(file) ==> is_sendable(file),
        is_read_line(line),
    ensures
        after_line(pending, line).0 matches Some(file) ==> is_sendable(file),
        after_line(pending, line).1 matches Ok(ReceivedModel::File(file)) ==> is_sendable(file),
{
    let none = Seq::<char>::empty();
    assert(is_value(none));
    if header(line) is Some {
        let (key, value) = header(line).unwrap();
        let i = choose|i: int| first_separator(line, i);
        let rest = line.skip(i + 2);
        law_trimmed(rest);
        assert forall|k: int| 0 <= k < value.len() implies value[k] != '\n' by {
            assert(value[k] == line[i + 2 + k]);
            if k == rest.len() - 1 {
                assert(!white_space(value.last()));
            }
        }
        assert(is_value(value));
    }
}

/// A stream with the byte that ends a line has a first line.
proof fn lemma_line_ends(stream: Seq<u8>, i: int)
    requires
        0 <= i < stream.len(),
        stream[i] == NEWLINE,
    ensures
        exists|n: int| is_first_line(stream, n),
    decreases i,
{
    if exists|j: int| 0 <= j < i && stream[j] == NEWLINE {
        let j = choose|j: int| 0 <= j < i && stream[j] == NEWLINE;
        lemma_line_ends(stream, j);
    } else {
        assert(is_first_line(stream, i + 1));
    }
}

proof fn lemma_next_line_is_read_line(stream: Seq<u8>)
    requires
        valid_utf8(next_line(stream).0),
    ensures
        is_read_line(decode_utf8(next_line(stream).0)),
{
    let bytes = next_line(stream).0;
    let line = decode_utf8(bytes);
    decode_utf8_encode_utf8(bytes);
    assert forall|i: int| 0 <= i < line.len() - 1 implies line[i] != '\n' by {
        if line[i] == '\n' {
            let before = line.take(i);
            let after = line.skip(i + 1);
            let feed = seq!['\n'];
            assert(line == before + (feed + after));
            lemma_encode_concat(before, feed + after);
            lemma_encode_concat(feed, after);
            lemma_feed_bytes();
            lemma_char_bytes(after[0]);
            assert(encode_utf8(after).len() > 0);
            let k = encode_utf8(before).len() as int;
            assert(bytes[k] == NEWLINE);
            assert(k < bytes.len() - 1);
            assert(stream[k] == NEWLINE);
            lemma_line_ends(stream, k);
        }
    }
}

/// Whether the stored files are complete: the body of each has the size that its description
/// gives, and its description can be sent back.
pub open spec fn are_complete(files: Seq<TmpModel>, bodies: Seq<Seq<u8>>) -> bool {
    &&& files.len() == bodies.len()
    &&& forall|i: int|
        0 <= i < files.len() ==> bodies[i].len() == (#[trigger] files[i]).remote_file.data
            && is_sendable(files[i].remote_file)
}

/// Whatever a client writes, the files that are edited are complete.
pub proof fn law_edited_files_are_complete(
    stage: ReceivingModel,
    bodies: Seq<Seq<u8>>,
    dirs: Seq<Seq<char>>,
    stream: Seq<u8>,
)
    requires
        stage.pending matches Some(file) ==> is_sendable(file),
        are_complete(stage.files, bodies),
    ensures
        received(stage, bodies, dirs, stream) matches Outcome::Edit {
            files,
            bodies: all,
            rest: _,
        } ==> are_complete(files, all),
    decreases stream.len(),
{
    reveal(received);
    if stream.len() > 0 {
        let (bytes, rest) = next_line(stream);
        if valid_utf8(bytes) {
            let line = decode_utf8(bytes);
            lemma_next_line_is_read_line(stream);
            law_received_texts_are_values(stage.pending, line);
            match stage.after_line(line) {
                Ok(Stage::Line(next)) => {
                    law_edited_files_are_complete(next, bodies, dirs, rest);
                },
                Ok(Stage::Body(storing)) => {
                    let n = min(storing.file.data as int, rest.len() as int);
                    let next = storing.after_stored(dirs[storing.files.len() as int]);
                    if n == storing.file.data {
                        law_edited_files_are_complete(
                            next,
                            bodies.push(rest.take(n)),
                            dirs,
                            rest.skip(n),
                        );
                    } else {
                        assert(rest.skip(n).len() == 0);
                    }
                },
                _ => {},
            }
        }
    }
}

/// What is stored stays as it was while more is received: the files and bodies that were there come
/// first, in their order, and each further file is in its own directory under its safe name.
pub proof fn law_stored_files_stay(
    stage: ReceivingModel,
    bodies: Seq<Seq<u8>>,
    dirs: Seq<Seq<char>>,
    stream: Seq<u8>,
)
    ensures
        received(stage, bodies, dirs, stream) matches Outcome::Edit {
            files,
            bodies: all,
            rest: _,
        } ==> {
            &&& stage.files.len() <= files.len()
            &&& files.take(stage.files.len() as int) == stage.files
            &&& bodies.len() <= all.len()
            &&& all.take(bodies.len() as int) == bodies
            &&& forall|i: int|
                stage.files.len() <= i < files.len() ==> #[trigger] files[i]
                    == TmpModel::in_directory(files[i].remote_file, dirs[i])
        },
    decreases stream.len(),
{
    reveal(received);
    let outcome = received(stage, bodies, dirs, stream);
    if stream.len() > 0 && valid_utf8(next_line(stream).0) {
        let (bytes, rest) = next_line(stream);
        match stage.after_line(decode_utf8(bytes)) {
            Ok(Stage::Line(next)) => {
                law_stored_files_stay(next, bodies, dirs, rest);
            },
            Ok(Stage::Body(storing)) => {
                let n = min(storing.file.data as int, rest.len() as int);
                let next = storing.after_stored(dirs[storing.files.len() as int]);
                let more = bodies.push(rest.take(n));
                law_stored_files_stay(next, more, dirs, rest.skip(n));
                if outcome is Edit {
                    let files = outcome->files;
                    let k = stage.files.len() as int;
                    assert(next.files == stage.files.push(next.files.last()));
                    assert(files.take(k) == files.take(k + 1).take(k));
                    assert(next.files.take(k) == stage.files);
                    assert(files[k] == files.take(k + 1)[k]);
                    let m = bodies.len() as int;
                    assert(outcome->bodies.take(m) == outcome->bodies.take(m + 1).take(m));
                    assert(more.take(m) == bodies);
                }
            },
            _ => {},
        }
    }
}

/// Where every file has a directory of its own, no two files of a session are at one place,
/// whatever the client calls them.
pub proof fn law_edited_files_are_at_different_places(
    dirs: Seq<Seq<char>>,
    stream: Seq<u8>,
    a: int,
    b: int,
)
    requires
        received(ReceivingModel::initial(), Seq::empty(), dirs, stream) matches Outcome::Edit {
            files,
            bodies: _,
            rest: _,
        } && 0 <= a < files.len() && 0 <= b < files.len(),
        !same_location(dirs[a], dirs[b]),
    ensures
        ({
            let files = received(ReceivingModel::initial(), Seq::empty(), dirs, stream)->files;
            !same_location(files[a].file_path, files[b].file_path)
        }),
{
    let files = received(ReceivingModel::initial(), Seq::empty(), dirs, stream)->files;
    law_stored_files_stay(ReceivingModel::initial(), Seq::empty(), dirs, stream);
    law_files_in_different_directories_differ(
        files[a].remote_file,
        dirs[a],
        files[b].remote_file,
        dirs[b],
    );
}

/// The files that are edited are those that the client sent: each with all that the client says
/// about it, and with its body.
pub proof fn law_edited_files_are_those_that_were_sent(
    dirs: Seq<Seq<char>>,
    uploads: Seq<Upload>,
    blanks: Seq<Seq<char>>,
    end: Seq<char>,
    rest: Seq<u8>,
    i: int,
)
    requires
        forall|k: int| 0 <= k < uploads.len() ==> (#[trigger] uploads[k]).valid(),
        are_blank_lines(blanks),
        is_whole_line(end, rest),
        trimmed(end) == "."@,
        0 <= i < uploads.len(),
    ensures
        received(
            ReceivingModel::initial(),
            Seq::empty(),
            dirs,
            session_bytes(uploads, blanks, end) + rest,
        ) matches Outcome::Edit { files, bodies, rest: more } && {
            &&& files.len() == uploads.len()
            &&& bodies.len() == uploads.len()
            &&& more == rest
            &&& bodies[i] == uploads[i].body
            &&& files[i].remote_file == uploads[i].file()
            &&& files[i].file_path == joined(dirs[i], uploads[i].file().safe_name())
        },
{
    law_session_is_received(Seq::empty(), Seq::empty(), dirs, uploads, blanks, end, rest);
    let files = stored(uploads, dirs, 0);
    assert(Seq::<TmpModel>::empty() + files == files);
    let bodies = uploads.map_values(|upload: Upload| upload.body);
    assert(Seq::<Seq<u8>>::empty() + bodies == bodies);
}

} // verus!

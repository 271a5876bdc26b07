//! The bytes that a session sends.
//!
//! A session says what to send: the identification, what goes before and after the contents of a
//! file, and the last command. Writing it to the connection, with the contents, is up to the
//! caller. `session_output` says what a caller has sent that does so and that, for every file,
//! announces the size of the contents that it sends. The laws here hold of such a caller.

use crate::number::{decimal, law_decimal_is_read_back, parsed_u64};
use crate::path::{same_location, views};
use crate::protocol::{header, save_header, CLOSE, SERVER_ID};
use crate::server::{
    action_after, indices_at, law_changed_file_is_saved, law_found_files_are_at_the_paths,
    ActionModel, DataChange, EditEvent, EventKind, FileEvent, ModifyKind, ReceivingModel, TmpModel,
};
use crate::wire::{
    are_complete, header_line, is_line, is_value, law_edited_files_are_complete,
    law_header_is_read_back, law_line_is_read_back, lemma_decimal_fits, lemma_encode_concat,
    lemma_feed_bytes, lemma_keys_fit, next_line, received, Outcome, NEWLINE,
};
use vstd::prelude::*;
use vstd::utf8::{decode_utf8, encode_utf8};

verus! {

/// The contents of a file that are sent to the client under the token of the file.
#[verifier::ext_equal]
pub struct Save {
    pub token: Seq<char>,
    pub contents: Seq<u8>,
}

impl Save {
    /// What is written to send the contents.
    pub open spec fn bytes(self) -> Seq<u8> {
        encode_utf8(save_header(self.token, self.contents.len() as u64)) + self.contents
            + encode_utf8("\n"@)
    }
}

/// What is written to send the contents of several files.
pub open spec fn saves_bytes(saves: Seq<Save>) -> Seq<u8>
    decreases saves.len(),
{
    if saves.len() == 0 {
        Seq::empty()
    } else {
        saves[0].bytes() + saves_bytes(saves.drop_first())
    }
}

/// What is sent begins with three lines: the command, the token and the size. The contents, of
/// that size, and one line feed follow, and nothing else. The token can be any text on one line.
pub proof fn law_save_is_three_lines_and_the_contents(
    token: Seq<char>,
    contents: Seq<u8>,
    rest: Seq<u8>,
)
    requires
        !token.contains('\n'),
        contents.len() <= u64::MAX,
    ensures
        ({
            let (line1, rest1) = next_line((Save { token, contents }).bytes() + rest);
            let (line2, rest2) = next_line(rest1);
            let (line3, rest3) = next_line(rest2);
            &&& decode_utf8(line1) == "save\n"@
            &&& decode_utf8(line2) == "token: "@ + token + "\n"@
            &&& decode_utf8(line3) == "data: "@ + decimal(contents.len()) + "\n"@
            &&& rest3 == contents + seq![NEWLINE] + rest
        }),
{
    reveal_strlit("save\ntoken: ");
    reveal_strlit("\ndata: ");
    reveal_strlit("\n");
    reveal_strlit("save\n");
    reveal_strlit("token: ");
    reveal_strlit("data: ");
    let size = decimal(contents.len());
    let save = "save\n"@;
    let feed = "\n"@;
    let token_line = "token: "@ + token + feed;
    let size_line = "data: "@ + size + feed;
    lemma_decimal_fits(contents.len());
    assert(save_header(token, contents.len() as u64) == save + (token_line + size_line));
    lemma_encode_concat(save, token_line + size_line);
    lemma_encode_concat(token_line, size_line);
    assert(feed == seq!['\n']);
    lemma_feed_bytes();
    let after_size = contents + seq![NEWLINE] + rest;
    let after_token = encode_utf8(size_line) + after_size;
    let after_save = encode_utf8(token_line) + after_token;
    assert((Save { token, contents }).bytes() + rest == encode_utf8(save) + after_save);
    assert(is_line(save));
    assert forall|i: int| 0 <= i < token_line.len() - 1 implies token_line[i] != '\n' by {
        if i >= 7 {
            assert(token_line[i] == token[i - 7]);
        }
    }
    assert forall|i: int| 0 <= i < size_line.len() - 1 implies size_line[i] != '\n' by {
        if i >= 6 {
            assert(size_line[i] == size[i - 6]);
        }
    }
    law_line_is_read_back(save, after_save);
    law_line_is_read_back(token_line, after_token);
    law_line_is_read_back(size_line, after_size);
}

/// What a client reads from a stream: the contents that it is sent, and whether the last command
/// comes after them. There is nothing for a stream that it does not understand.
#[verifier::opaque]
pub open spec fn read_replies(stream: Seq<u8>) -> Option<(Seq<Save>, bool)>
    decreases stream.len(),
{
    let (line1, rest1) = next_line(stream);
    if stream.len() == 0 {
        Some((Seq::empty(), false))
    } else if decode_utf8(line1) == "close\n"@ && rest1.len() == 0 {
        Some((Seq::empty(), true))
    } else if decode_utf8(line1) == "save\n"@ {
        let (line2, rest2) = next_line(rest1);
        let (line3, rest3) = next_line(rest2);
        match (header(decode_utf8(line2)), read_size(decode_utf8(line3))) {
            (Some((key, token)), Some(n)) if key == "token"@ && n < rest3.len() && rest3[n as int]
                == NEWLINE => {
                let save = Save { token, contents: rest3.take(n as int) };
                match read_replies(rest3.skip(n + 1)) {
                    Some((saves, closed)) => Some((seq![save] + saves, closed)),
                    None => None,
                }
            },
            _ => None,
        }
    } else {
        None
    }
}

/// The size that a header line gives.
pub open spec fn read_size(line: Seq<char>) -> Option<u64> {
    match header(line) {
        Some((key, value)) if key == "data"@ => parsed_u64(value),
        _ => None,
    }
}

/// Whether a client can read what it is sent: the token is the value of a header, as the token of
/// every received file is.
pub open spec fn is_readable(save: Save) -> bool {
    is_value(save.token) && save.contents.len() <= u64::MAX
}

/// What is sent is what a client reads: the contents with their tokens, in their order, and the
/// last command.
pub proof fn law_saves_are_read_back(saves: Seq<Save>, closed: bool)
    requires
        forall|i: int| 0 <= i < saves.len() ==> is_readable(#[trigger] saves[i]),
    ensures
        read_replies(
            saves_bytes(saves) + if closed {
                encode_utf8(CLOSE@)
            } else {
                Seq::empty()
            },
        ) == Some((saves, closed)),
{
    let end = if closed {
        encode_utf8(CLOSE@)
    } else {
        Seq::empty()
    };
    reveal(read_replies);
    if closed {
        lemma_close_is_read();
    }
    lemma_saves_are_read(saves, end, closed);
}

proof fn lemma_close_is_read()
    ensures
        read_replies(encode_utf8(CLOSE@)) == Some((Seq::<Save>::empty(), true)),
{
    reveal(read_replies);
    let stream = encode_utf8(CLOSE@);
    reveal_strlit("close\n");
    assert(is_line(CLOSE@));
    law_line_is_read_back(CLOSE@, Seq::empty());
    assert(stream + Seq::<u8>::empty() == stream);
}

proof fn lemma_saves_are_read(saves: Seq<Save>, end: Seq<u8>, closed: bool)
    requires
        forall|i: int| 0 <= i < saves.len() ==> is_readable(#[trigger] saves[i]),
        read_replies(end) == Some((Seq::<Save>::empty(), closed)),
    ensures
        read_replies(saves_bytes(saves) + end) == Some((saves, closed)),
    decreases saves.len(),
{
    if saves.len() == 0 {
        assert(saves_bytes(saves) + end == end);
        assert(saves == Seq::<Save>::empty());
    } else {
        let others = saves.drop_first();
        let first = saves[0];
        let rest = saves_bytes(others) + end;
        assert(is_readable(first));
        assert forall|i: int| 0 <= i < others.len() implies is_readable(#[trigger] others[i]) by {
            assert(others[i] == saves[i + 1]);
        }
        lemma_saves_are_read(others, end, closed);
        assert(saves_bytes(saves) + end == first.bytes() + rest);
        lemma_first_save_is_read(first, rest);
        assert(seq![first] + others == saves);
    }
}

proof fn lemma_first_save_is_read(save: Save, rest: Seq<u8>)
    requires
        is_readable(save),
        read_replies(rest) is Some,
    ensures
        ({
            let (saves, closed) = read_replies(rest)->0;
            read_replies(save.bytes() + rest) == Some((seq![save] + saves, closed))
        }),
{
    reveal(read_replies);
    let stream = save.bytes() + rest;
    let n = save.contents.len() as int;
    law_save_is_three_lines_and_the_contents(save.token, save.contents, rest);
    lemma_keys_fit();
    lemma_decimal_fits(save.contents.len());
    law_decimal_is_read_back(save.contents.len() as u64);
    law_header_is_read_back("token"@, save.token);
    law_header_is_read_back("data"@, decimal(save.contents.len()));
    assert("token: "@ + save.token + "\n"@ == header_line("token"@, save.token)) by {
        reveal_strlit("token: ");
        reveal_strlit("token");
        reveal_strlit(": ");
    }
    let size = decimal(save.contents.len());
    assert("data: "@ + size + "\n"@ == header_line("data"@, size)) by {
        reveal_strlit("data: ");
        reveal_strlit("data");
        reveal_strlit(": ");
    }
    assert("save\n"@ != "close\n"@) by {
        reveal_strlit("save\n");
        reveal_strlit("close\n");
        assert("save\n"@.len() == 5 && "close\n"@.len() == 6);
    }
    let rest3 = save.contents + seq![NEWLINE] + rest;
    assert(encode_utf8("\n"@).len() > 0 && stream.len() > 0) by {
        reveal_strlit("\n");
        assert("\n"@ == seq!['\n']);
        lemma_feed_bytes();
    }
    assert(rest3[n] == NEWLINE);
    assert(rest3.take(n) == save.contents);
    assert(rest3.skip(n + 1) == rest);
}

/// An event while the files are edited, and the contents that are then read from the files that
/// are to be sent, in the order in which they are sent.
pub struct Step {
    pub event: EditEvent,
    pub contents: Seq<Seq<u8>>,
}

/// What is sent for the files with the given indices.
pub open spec fn files_sent(
    files: Seq<TmpModel>,
    indices: Seq<usize>,
    contents: Seq<Seq<u8>>,
) -> Seq<Save> {
    Seq::new(
        indices.len(),
        |k: int|
            Save { token: files[indices[k] as int].remote_file.token, contents: contents[k] },
    )
}

/// What has been sent when a caller has done what the editing stage says after each of the events.
/// No event is handled after the one that ends the session.
pub open spec fn editing_output(files: Seq<TmpModel>, steps: Seq<Step>) -> Seq<u8>
    decreases steps.len(),
{
    if steps.len() == 0 {
        Seq::empty()
    } else {
        let rest = steps.drop_first();
        match action_after(files, steps[0].event) {
            ActionModel::Wait => editing_output(files, rest),
            ActionModel::Save(indices) => saves_bytes(
                files_sent(files, indices, steps[0].contents),
            ) + editing_output(files, rest),
            ActionModel::Removed(_) => editing_output(files, rest),
            ActionModel::Close(command) => encode_utf8(command),
            ActionModel::Stop => Seq::empty(),
        }
    }
}

/// What has been sent in a session: the identification, and what is sent while the files are
/// edited, if the session comes to that.
pub open spec fn session_output(outcome: Outcome, steps: Seq<Step>) -> Seq<u8> {
    encode_utf8(SERVER_ID@) + match outcome {
        Outcome::Edit { files, bodies: _, rest: _ } => editing_output(files, steps),
        _ => Seq::empty(),
    }
}

/// Whether an event ends the session.
pub open spec fn ends_session(event: EditEvent) -> bool {
    event is EditorClosed || event is ClientClosed
}

/// Whether the session ends with the event with index `n`, or after all the events if there are
/// only `n`.
pub open spec fn ends_at(steps: Seq<Step>, n: int) -> bool {
    &&& 0 <= n <= steps.len()
    &&& forall|i: int| 0 <= i < n ==> !ends_session((#[trigger] steps[i]).event)
    &&& n < steps.len() ==> ends_session(steps[n].event)
}

/// The files that are sent after an event.
pub open spec fn saves_after(files: Seq<TmpModel>, step: Step) -> Seq<Save> {
    match action_after(files, step.event) {
        ActionModel::Save(indices) => files_sent(files, indices, step.contents),
        _ => Seq::empty(),
    }
}

/// The files that are sent after the events, in their order.
pub open spec fn saves_of(files: Seq<TmpModel>, steps: Seq<Step>) -> Seq<Save>
    decreases steps.len(),
{
    if steps.len() == 0 {
        Seq::empty()
    } else {
        saves_after(files, steps[0]) + saves_of(files, steps.drop_first())
    }
}

/// The last command, if the session ends because the editor has closed.
pub open spec fn last_command(steps: Seq<Step>, n: int) -> Seq<u8> {
    if n < steps.len() && steps[n].event is EditorClosed {
        encode_utf8(CLOSE@)
    } else {
        Seq::empty()
    }
}

proof fn lemma_saves_bytes_concat(a: Seq<Save>, b: Seq<Save>)
    ensures
        saves_bytes(a + b) == saves_bytes(a) + saves_bytes(b),
    decreases a.len(),
{
    if a.len() == 0 {
        assert(a + b == b);
        assert(saves_bytes(a) + saves_bytes(b) == saves_bytes(b));
    } else {
        lemma_saves_bytes_concat(a.drop_first(), b);
        assert((a + b).drop_first() == a.drop_first() + b);
        assert(a[0].bytes() + (saves_bytes(a.drop_first()) + saves_bytes(b)) == (a[0].bytes()
            + saves_bytes(a.drop_first())) + saves_bytes(b));
    }
}

proof fn lemma_editing_output(files: Seq<TmpModel>, steps: Seq<Step>, n: int)
    requires
        ends_at(steps, n),
    ensures
        editing_output(files, steps) == saves_bytes(saves_of(files, steps.take(n)))
            + last_command(steps, n),
    decreases steps.len(),
{
    let before = steps.take(n);
    if n == 0 {
        assert(saves_of(files, before) == Seq::<Save>::empty());
        assert(saves_bytes(saves_of(files, before)) + last_command(steps, n) == last_command(
            steps,
            n,
        ));
    } else {
        let rest = steps.drop_first();
        assert(!ends_session(steps[0].event));
        assert forall|i: int| 0 <= i < n - 1 implies !ends_session(
            (#[trigger] rest[i]).event,
        ) by {
            assert(rest[i] == steps[i + 1]);
        }
        lemma_editing_output(files, rest, n - 1);
        assert(before.drop_first() == rest.take(n - 1));
        assert(before[0] == steps[0]);
        let saves = saves_after(files, steps[0]);
        let others = saves_of(files, rest.take(n - 1));
        lemma_saves_bytes_concat(saves, others);
        assert(last_command(rest, n - 1) == last_command(steps, n));
        assert(saves_bytes(saves) + (saves_bytes(others) + last_command(steps, n)) == (saves_bytes(
            saves,
        ) + saves_bytes(others)) + last_command(steps, n));
        assert(saves_bytes(Seq::<Save>::empty()) + editing_output(files, rest) == editing_output(
            files,
            rest,
        ));
    }
}

/// What is sent in a session is the identification, then whole messages with the contents of
/// changed files, and then, if the editor has closed, the last command, once and at the end. What
/// happens after the event that ends the session is not seen. A session that does not come to
/// editing sends the identification only.
pub proof fn law_session_sends_whole_messages(outcome: Outcome, steps: Seq<Step>, n: int)
    requires
        ends_at(steps, n),
    ensures
        outcome matches Outcome::Edit { files, bodies: _, rest: _ } ==> session_output(
            outcome,
            steps,
        ) == encode_utf8("Zed-Mate-Server 0\n"@) + saves_bytes(saves_of(files, steps.take(n)))
            + if n < steps.len() && steps[n].event is EditorClosed {
            encode_utf8("close\n"@)
        } else {
            Seq::empty()
        },
        outcome !is Edit ==> session_output(outcome, steps) == encode_utf8(
            "Zed-Mate-Server 0\n"@,
        ),
{
    match outcome {
        Outcome::Edit { files, bodies: _, rest: _ } => {
            lemma_editing_output(files, steps, n);
            let id = encode_utf8(SERVER_ID@);
            let saves = saves_bytes(saves_of(files, steps.take(n)));
            assert(id + (saves + last_command(steps, n)) == id + saves + last_command(steps, n));
        },
        _ => {
            assert(session_output(outcome, steps) == encode_utf8(SERVER_ID@));
        },
    }
}

/// Whether the contents that are sent after the events are no larger than a size can say.
pub open spec fn are_sizable(files: Seq<TmpModel>, steps: Seq<Step>) -> bool {
    forall|i: int, k: int|
        0 <= i < steps.len() && 0 <= k < saves_after(files, steps[i]).len()
            ==> #[trigger] saves_after(files, steps[i])[k].contents.len() <= u64::MAX
}

/// Every message goes under the token of one of the files, and a client can read it.
pub proof fn law_saves_are_of_the_files(
    files: Seq<TmpModel>,
    bodies: Seq<Seq<u8>>,
    steps: Seq<Step>,
)
    requires
        are_complete(files, bodies),
        are_sizable(files, steps),
    ensures
        forall|k: int| #![trigger saves_of(files, steps)[k]]
            0 <= k < saves_of(files, steps).len() ==> is_readable(saves_of(files, steps)[k])
                && exists|i: int|
                0 <= i < files.len() && (#[trigger] files[i]).remote_file.token == saves_of(
                    files,
                    steps,
                )[k].token,
    decreases steps.len(),
{
    if steps.len() > 0 {
        let rest = steps.drop_first();
        let first = saves_after(files, steps[0]);
        assert forall|i: int, k: int|
            0 <= i < rest.len() && 0 <= k < saves_after(files, rest[i]).len() implies (
        #[trigger] saves_after(files, rest[i])[k]).contents.len() <= u64::MAX by {
            assert(rest[i] == steps[i + 1]);
            assert(saves_after(files, steps[i + 1])[k].contents.len() <= u64::MAX);
        }
        law_saves_are_of_the_files(files, bodies, rest);
        let all = saves_of(files, steps);
        assert forall|k: int| 0 <= k < all.len() implies is_readable(#[trigger] all[k]) && exists|
            i: int,
        |
            0 <= i < files.len() && (#[trigger] files[i]).remote_file.token == all[k].token by {
            if k < first.len() {
                assert(all[k] == first[k]);
                assert(saves_after(files, steps[0])[k].contents.len() <= u64::MAX);
                lemma_sent_file_is_there(files, steps[0], k);
            } else {
                assert(all[k] == saves_of(files, rest)[k - first.len()]);
            }
        }
    }
}

/// A file that is sent after an event is one of the files.
proof fn lemma_sent_file_is_there(files: Seq<TmpModel>, step: Step, k: int)
    requires
        0 <= k < saves_after(files, step).len(),
    ensures
        exists|i: int|
            0 <= i < files.len() && (#[trigger] files[i]).remote_file.token == saves_after(
                files,
                step,
            )[k].token,
{
    match step.event {
        EditEvent::Watcher(Some(e)) => {
            law_found_files_are_at_the_paths(files, views(e.paths@));
            let i = indices_at(files, views(e.paths@))[k];
            assert(files[i as int].remote_file.token == saves_after(files, step)[k].token);
        },
        _ => {},
    }
}

/// Whatever a client writes to have files edited, it can read what is sent in the session: the
/// identification on a line, then the contents of the changed files under their tokens, in the
/// order of the changes, and then the last command if the editor has closed.
pub proof fn law_client_reads_the_session(
    dirs: Seq<Seq<char>>,
    stream: Seq<u8>,
    steps: Seq<Step>,
    n: int,
)
    requires
        received(ReceivingModel::initial(), Seq::empty(), dirs, stream) matches Outcome::Edit {
            files,
            bodies: _,
            rest: _,
        } && are_sizable(files, steps.take(n)),
        ends_at(steps, n),
    ensures
        ({
            let outcome = received(ReceivingModel::initial(), Seq::empty(), dirs, stream);
            let files = outcome->files;
            let (line, replies) = next_line(session_output(outcome, steps));
            &&& decode_utf8(line) == "Zed-Mate-Server 0\n"@
            &&& read_replies(replies) == Some(
                (
                    saves_of(files, steps.take(n)),
                    n < steps.len() && steps[n].event is EditorClosed,
                ),
            )
        }),
{
    let outcome = received(ReceivingModel::initial(), Seq::empty(), dirs, stream);
    let files = outcome->files;
    let bodies = outcome->bodies;
    let before = steps.take(n);
    let saves = saves_of(files, before);
    let closed = n < steps.len() && steps[n].event is EditorClosed;
    law_edited_files_are_complete(ReceivingModel::initial(), Seq::empty(), dirs, stream);
    law_saves_are_of_the_files(files, bodies, before);
    law_saves_are_read_back(saves, closed);
    lemma_editing_output(files, steps, n);
    assert(is_line(SERVER_ID@)) by {
        reveal_strlit("Zed-Mate-Server 0\n");
    }
    law_line_is_read_back(SERVER_ID@, editing_output(files, steps));
}

/// When the contents of a file change, they are sent to the client under the token that the client
/// gave the file.
pub proof fn law_changed_file_is_sent_back(
    files: Seq<TmpModel>,
    event: FileEvent,
    contents: Seq<Seq<u8>>,
    i: usize,
    j: int,
)
    requires
        event.kind == EventKind::Modify(ModifyKind::Data(DataChange::Content)),
        i < files.len(),
        0 <= j < event.paths@.len(),
        same_location(files[i as int].file_path, event.paths@[j]@),
        forall|a: int, b: int|
            0 <= a < b < files.len() ==> !same_location(
                (#[trigger] files[a]).file_path,
                (#[trigger] files[b]).file_path,
            ),
    ensures
        ({
            let step = Step { event: EditEvent::Watcher(Some(event)), contents };
            exists|k: int|
                0 <= k < saves_after(files, step).len() && (#[trigger] saves_after(files, step)[k])
                    == (Save { token: files[i as int].remote_file.token, contents: contents[k] })
        }),
{
    law_changed_file_is_saved(files, event, i, j);
    let step = Step { event: EditEvent::Watcher(Some(event)), contents };
    match action_after(files, step.event) {
        ActionModel::Save(saved) => {
            let k = choose|k: int| 0 <= k < saved.len() && saved[k] == i;
            assert(saves_after(files, step)[k] == (Save {
                token: files[i as int].remote_file.token,
                contents: contents[k],
            }));
        },
        _ => {},
    }
}

} // verus!

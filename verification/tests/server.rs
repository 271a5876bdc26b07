use zed_rmate_server::protocol::{ProtocolError, RmateFile};
use zed_rmate_server::server::{
    find_file, find_files, on_accept, Accepted, DataChange, EditAction, EditEvent, Editing,
    EventKind, FileEvent, ModifyKind, Next, Receiving, Storing, TmpFile,
};

fn more(stage: Receiving, line: &str) -> Receiving {
    match stage.on_line(line) {
        Ok(Next::Line(next)) => next,
        _ => panic!("no further line after {:?}", line),
    }
}

fn body(stage: Receiving, line: &str) -> Storing {
    match stage.on_line(line) {
        Ok(Next::Body(next)) => next,
        _ => panic!("no body after {:?}", line),
    }
}

fn edit(stage: Receiving, line: &str) -> Editing {
    match stage.on_line(line) {
        Ok(Next::Edit(next)) => next,
        _ => panic!("no editing after {:?}", line),
    }
}

fn error(stage: Receiving, line: &str) -> ProtocolError {
    match stage.on_line(line) {
        Err(e) => e,
        Ok(_) => panic!("no error after {:?}", line),
    }
}

fn tmp(path: &str, selection: &str, new: bool) -> TmpFile {
    let file = RmateFile { selection: selection.to_string(), new, ..RmateFile::default() };
    TmpFile { remote_file: file, file_path: path.to_string() }
}

/// A session with the files `/t/1/a` and `/t/2/b`.
fn editing() -> Editing {
    let (stage, _) = Receiving::start();
    let stage = more(stage, "open\n");
    let stage = more(stage, "display-name: a\n");
    let stage = more(stage, "token: first\n");
    let stage = body(stage, "data: 3\n").on_stored("/t/1");
    let stage = more(stage, "\n");
    let stage = more(stage, "open\n");
    let stage = more(stage, "display-name: b\n");
    let stage = more(stage, "token: second\n");
    let stage = more(stage, "selection: 5:2\n");
    let stage = body(stage, "data: 0\n").on_stored("/t/2");
    edit(stage, ".\n")
}

fn event(kind: EventKind, paths: &[&str]) -> EditEvent {
    let paths = paths.iter().map(|p| p.to_string()).collect();
    EditEvent::Watcher(Some(FileEvent { kind, paths }))
}

const CONTENT: EventKind = EventKind::Modify(ModifyKind::Data(DataChange::Content));

#[test]
fn a_session_starts_with_the_identification() {
    let (stage, id) = Receiving::start();
    assert_eq!(id, "Zed-Mate-Server 0\n");
    assert_eq!(stage.on_closed(), Ok(()));
}

#[test]
fn files_are_kept_in_the_order_of_the_commands() {
    let stage = editing();
    let files = stage.files();
    assert_eq!(files.len(), 2);
    assert_eq!(files[0].remote_file.token, "first");
    assert_eq!(files[0].remote_file.data, 3);
    assert_eq!(files[0].file_path, "/t/1/a");
    assert_eq!(files[1].remote_file.token, "second");
    assert_eq!(files[1].remote_file.data, 0);
    assert_eq!(files[1].file_path, "/t/2/b");
}

#[test]
fn a_body_is_stored_under_a_safe_name() {
    let (stage, _) = Receiving::start();
    let stage = more(stage, "open\n");
    let stage = more(stage, "display-name: host:/etc/my:file\n");
    let storing = body(stage, "data: 26\n");
    assert_eq!(storing.file_name(), "my~file");
    assert_eq!(storing.path_in("/t/1"), "/t/1/my~file");
    assert_eq!(storing.path_in("/t/1/"), "/t/1/my~file");
    assert_eq!(storing.path_in(""), "my~file");
    assert_eq!(storing.size(), 26);
    let stage = edit(storing.on_stored("/t/1"), ".\n");
    assert_eq!(stage.files()[0].file_path, "/t/1/my~file");
}

#[test]
fn a_session_without_files_opens_the_editor() {
    let (stage, _) = Receiving::start();
    let stage = edit(stage, ".\n");
    assert_eq!(stage.files().len(), 0);
    assert_eq!(stage.editor_args(), vec!["--wait"]);
}

#[test]
fn errors_end_the_session() {
    let (stage, _) = Receiving::start();
    assert_eq!(error(stage, "quit\n"), ProtocolError::Command);
    let (stage, _) = Receiving::start();
    assert_eq!(error(more(stage, "open\n"), "\n"), ProtocolError::Header);
    let (stage, _) = Receiving::start();
    assert_eq!(error(more(stage, "open\n"), "data: x\n"), ProtocolError::Value);
}

#[test]
fn the_client_may_close_between_commands_only() {
    let (stage, _) = Receiving::start();
    let stage = more(stage, "open\n");
    assert_eq!(stage.on_closed(), Err(ProtocolError::Header));
    let (stage, _) = Receiving::start();
    let stage = body(more(stage, "open\n"), "data: 1\n").on_stored("/t/x");
    assert_eq!(stage.on_closed(), Ok(()));
}

#[test]
fn a_selection_is_added_to_the_path() {
    assert_eq!(tmp("/t/a", "", false).tmp_file_path_with_selection(), "/t/a");
    assert_eq!(tmp("/t/a", "5", false).tmp_file_path_with_selection(), "/t/a:5");
    assert_eq!(tmp("/t/a", "5:2-7", false).tmp_file_path_with_selection(), "/t/a:5:2-7");
}

#[test]
fn the_editor_waits_and_gets_the_files() {
    assert_eq!(editing().editor_args(), vec!["--wait", "/t/1/a", "/t/2/b:5:2"]);
}

#[test]
fn one_file_can_ask_for_a_new_window() {
    let files = vec![tmp("/t/a", "", false), tmp("/t/b", "", true), tmp("/t/c", "1", false)];
    assert_eq!(TmpFile::spawn_zed(&files), vec!["--wait", "--new", "/t/a", "/t/b", "/t/c:1"]);
}

#[test]
fn the_first_file_at_a_path_is_found() {
    let files = vec![tmp("/t/a", "", false), tmp("/t/b", "", false), tmp("/t//b", "", false)];
    assert_eq!(find_file(&files, "/t/b"), Some(1));
    assert_eq!(find_file(&files, "/t/./a/"), Some(0));
    assert_eq!(find_file(&files, "/t/c"), None);
    assert_eq!(find_file(&files, "t/a"), None);
    let paths = ["/t/b", "/x", "/t/a", "/t/b"].map(|p| p.to_string()).to_vec();
    assert_eq!(find_files(&files, &paths), vec![1, 0, 1]);
}

#[test]
fn changed_contents_are_saved() {
    let stage = editing();
    match stage.on_event(&event(CONTENT, &["/t/2/b"])) {
        EditAction::Save(indices) => assert_eq!(indices, vec![1]),
        other => panic!("{:?}", other),
    }
    match stage.on_event(&event(CONTENT, &["/t/2/b", "/t/3/c", "/t/1/a"])) {
        EditAction::Save(indices) => assert_eq!(indices, vec![1, 0]),
        other => panic!("{:?}", other),
    }
    match stage.on_event(&event(CONTENT, &["/t/3/c"])) {
        EditAction::Save(indices) => assert!(indices.is_empty()),
        other => panic!("{:?}", other),
    }
}

#[test]
fn removed_files_are_noted() {
    match editing().on_event(&event(EventKind::Remove, &["/t/1/a"])) {
        EditAction::Removed(indices) => assert_eq!(indices, vec![0]),
        other => panic!("{:?}", other),
    }
}

#[test]
fn other_events_are_ignored() {
    let stage = editing();
    for kind in [
        EventKind::Any,
        EventKind::Access,
        EventKind::Create,
        EventKind::Other,
        EventKind::Modify(ModifyKind::Any),
        EventKind::Modify(ModifyKind::Metadata),
        EventKind::Modify(ModifyKind::Name),
        EventKind::Modify(ModifyKind::Other),
        EventKind::Modify(ModifyKind::Data(DataChange::Any)),
        EventKind::Modify(ModifyKind::Data(DataChange::Size)),
        EventKind::Modify(ModifyKind::Data(DataChange::Other)),
    ] {
        assert!(matches!(stage.on_event(&event(kind, &["/t/1/a"])), EditAction::Wait));
    }
    assert!(matches!(stage.on_event(&EditEvent::Watcher(None)), EditAction::Wait));
}

#[test]
fn the_session_ends_with_the_editor_or_the_client() {
    let stage = editing();
    match stage.on_event(&EditEvent::EditorClosed) {
        EditAction::Close(command) => assert_eq!(command, "close\n"),
        other => panic!("{:?}", other),
    }
    assert!(matches!(stage.on_event(&EditEvent::ClientClosed), EditAction::Stop));
}

#[test]
fn a_file_is_sent_under_its_token() {
    let stage = editing();
    let (before, after) = stage.send_file(1, 30);
    assert_eq!(before, "save\ntoken: second\ndata: 30\n");
    assert_eq!(after, "\n");
}

#[test]
fn a_server_that_runs_once_stops_after_a_connection() {
    assert_eq!(on_accept(true), Accepted::HandleAndStop);
    assert_eq!(on_accept(false), Accepted::HandleInBackground);
}

/// Reads a stream as the server does: lines as text, bodies as bytes.
fn run(stream: &[u8]) -> (Editing, Vec<Vec<u8>>) {
    match receive(stream) {
        Ok(Some(outcome)) => outcome,
        Ok(None) => panic!("closed"),
        Err(e) => panic!("{:?}", e),
    }
}

fn receive(stream: &[u8]) -> Result<Option<(Editing, Vec<Vec<u8>>)>, ProtocolError> {
    let (mut stage, _) = Receiving::start();
    let mut bodies: Vec<Vec<u8>> = vec![];
    let mut at: usize = 0;
    loop {
        if at == stream.len() {
            return stage.on_closed().map(|_| None);
        }
        let end = match stream[at..].iter().position(|b| *b == b'\n') {
            Some(i) => at + i + 1,
            None => stream.len(),
        };
        let line = std::str::from_utf8(&stream[at..end]).unwrap();
        at = end;
        stage = match stage.on_line(line)? {
            Next::Line(next) => next,
            Next::Body(storing) => {
                let n = std::cmp::min(storing.size() as usize, stream.len() - at);
                bodies.push(stream[at..at + n].to_vec());
                at += n;
                storing.on_stored(&format!("/t/{}", bodies.len()))
            }
            Next::Edit(editing) => return Ok(Some((editing, bodies))),
        };
    }
}

#[test]
fn a_stream_is_received_as_it_was_written() {
    let first = "open\ndisplay-name: \u{e4}:1\nreal-path: /x\ndata-on-save: yes\nre-activate: no\n\
                 token: t 1\nnew: no\nselection: \nfile-type: text\ndata: 10\nopen\n.\n\n\n\n\n";
    let second = "open\ntoken: t2\ndata: 0\n\n";
    let (stage, bodies) = run(format!("{first}{second}.\n").as_bytes());
    assert_eq!(bodies, vec![b"open\n.\n\n\n\n"[..10].to_vec(), vec![]]);
    let files = stage.files();
    assert_eq!(files.len(), 2);
    assert_eq!(files[0].remote_file.display_name, "\u{e4}:1");
    assert_eq!(files[0].remote_file.real_path, "/x");
    assert!(files[0].remote_file.data_on_save);
    assert!(!files[0].remote_file.re_activate);
    assert_eq!(files[0].remote_file.token, "t 1");
    assert_eq!(files[0].remote_file.file_type, "text");
    assert_eq!(files[0].file_path, "/t/1/\u{e4}~1");
    assert_eq!(files[1].remote_file.token, "t2");
    assert_eq!(files[1].file_path, "/t/2/rmate-file.txt");
}

#[test]
fn an_example_session() {
    let stream = b"open\ndisplay-name: myremote:myfile.txt\nreal-path: /tmp/myfile.txt\n\
                   data-on-save: yes\nre-activate: yes\ntoken: myfile.txt\ndata: 26\n\
                   Some random file contents\n\n.\n";
    let (stage, bodies) = run(stream);
    assert_eq!(bodies, vec![b"Some random file contents\n".to_vec()]);
    assert_eq!(stage.files()[0].remote_file.safe_display_name(), "myremote~myfile.txt");
    assert_eq!(stage.editor_args(), vec!["--wait", "/t/1/myremote~myfile.txt"]);
    assert_eq!(stage.send_file(0, 30).0, "save\ntoken: myfile.txt\ndata: 30\n");
}

#[test]
fn edited_files_are_complete() {
    let stream = b"open\ntoken: a\ndata: 3\nabc\nopen\ntoken: b \ndata: 0\n.";
    let (stage, bodies) = run(stream);
    for (file, body) in stage.files().iter().zip(&bodies) {
        assert_eq!(file.remote_file.data as usize, body.len());
        assert_eq!(file.remote_file.token.trim_end(), file.remote_file.token);
    }
    assert_eq!(bodies.len(), 2);
}

#[test]
fn a_body_that_is_cut_short_is_not_edited() {
    assert!(matches!(receive(b"open\ndata: 5\nab\n"), Ok(None)));
    assert!(matches!(receive(b"open\ndata: 2\nab"), Ok(None)));
    assert!(matches!(receive(b""), Ok(None)));
    assert!(matches!(receive(b"open\n"), Err(ProtocolError::Header)));
    assert!(matches!(receive(b"open\ndata: 1\nab\n"), Err(ProtocolError::Command)));
}

#[test]
fn a_temporary_file_is_in_its_directory() {
    let file = RmateFile { display_name: "../a:b".to_string(), ..RmateFile::default() };
    let file = TmpFile::with_remotefile(file, "/t/1");
    assert_eq!(file.file_path, "/t/1/a~b");
    assert_eq!(file.remote_file.display_name, "../a:b");
}

#[test]
fn files_with_one_name_are_told_apart_by_their_directories() {
    let stream = b"open\ndisplay-name: a\ndata: 0\nopen\ndisplay-name: x/a\ndata: 0\n.\n";
    let (stage, _) = run(stream);
    assert_eq!(stage.files()[0].file_path, "/t/1/a");
    assert_eq!(stage.files()[1].file_path, "/t/2/a");
    assert_eq!(find_file(stage.files(), "/t/2/a"), Some(1));
}

#[test]
fn an_unknown_header_is_reported_before_it_is_ignored() {
    let (stage, _) = Receiving::start();
    assert_eq!(stage.ignored_header("size: 5\n"), None);
    let stage = more(stage, "open\n");
    let unknown = Some(("size".to_string(), "5".to_string()));
    assert_eq!(stage.ignored_header("size: 5 \r\n"), unknown);
    assert_eq!(stage.ignored_header("token: 5\n"), None);
    assert_eq!(stage.ignored_header("size 5\n"), None);
    let stage = more(stage, "size: 5\n");
    let stage = edit(body(stage, "data: 0\n").on_stored("/t"), ".\n");
    assert_eq!(stage.files()[0].remote_file.data, 0);
    assert_eq!(stage.files()[0].file_path, "/t/rmate-file.txt");
}

#[test]
fn white_space_at_the_end_of_lines_does_not_matter() {
    let stream = b" \r\n\nopen\t\r\ndisplay-name: a b \r\nother: x\r\ntoken: t\t\r\n\
                   data: 4 \r\n\r\n \n\r\n\n. \r\nmore";
    let (stage, bodies) = run(stream);
    assert_eq!(bodies, vec![b"\r\n \n".to_vec()]);
    assert_eq!(stage.files().len(), 1);
    assert_eq!(stage.files()[0].remote_file.display_name, "a b");
    assert_eq!(stage.files()[0].remote_file.token, "t");
    assert_eq!(stage.files()[0].file_path, "/t/1/a b");
}

#[test]
fn the_last_line_needs_no_line_feed() {
    let (stage, bodies) = run(b"open\ntoken: t\ndata: 1\nx.");
    assert_eq!(bodies, vec![b"x".to_vec()]);
    assert_eq!(stage.files()[0].remote_file.token, "t");
}

/// What a session sends that sees these events, where the contents of the files are `contents`.
fn output(stage: &Editing, events: &[EditEvent], contents: &[&str]) -> String {
    let (_, mut sent) = Receiving::start();
    for event in events {
        match stage.on_event(event) {
            EditAction::Wait | EditAction::Removed(_) => {}
            EditAction::Save(indices) => {
                for i in indices {
                    let (before, after) = stage.send_file(i, contents[i].len() as u64);
                    sent.push_str(&format!("{before}{}{after}", contents[i]));
                }
            }
            EditAction::Close(command) => {
                sent.push_str(&command);
                return sent;
            }
            EditAction::Stop => return sent,
        }
    }
    sent
}

#[test]
fn a_session_sends_whole_messages_and_then_the_last_command() {
    let stage = editing();
    let contents = ["save\n", "close\n."];
    let events = [
        event(CONTENT, &["/t/2/b"]),
        event(EventKind::Access, &["/t/1/a"]),
        event(EventKind::Remove, &["/t/1/a"]),
        event(CONTENT, &["/t/1/a", "/t/2/b"]),
        EditEvent::EditorClosed,
        event(CONTENT, &["/t/1/a"]),
        EditEvent::EditorClosed,
    ];
    let first = "save\ntoken: first\ndata: 5\nsave\n\n";
    let second = "save\ntoken: second\ndata: 7\nclose\n.\n";
    assert_eq!(
        output(&stage, &events, &contents),
        format!("Zed-Mate-Server 0\n{second}{first}{second}close\n")
    );
    assert_eq!(
        output(&stage, &events[..2], &contents),
        format!("Zed-Mate-Server 0\n{second}")
    );
}

#[test]
fn a_session_that_the_client_ends_sends_no_last_command() {
    let events = [
        event(CONTENT, &["/t/1/a"]),
        EditEvent::ClientClosed,
        event(CONTENT, &["/t/1/a"]),
        EditEvent::EditorClosed,
    ];
    assert_eq!(
        output(&editing(), &events, &["abc", ""]),
        "Zed-Mate-Server 0\nsave\ntoken: first\ndata: 3\nabc\n"
    );
    assert_eq!(output(&editing(), &[], &[]), "Zed-Mate-Server 0\n");
}

#[test]
fn what_is_stored_stays_while_more_is_received() {
    let one = "open\ndisplay-name: a\ntoken: 1\ndata: 2\nxy";
    let two = format!("{one}open\ndisplay-name: /b/a\ntoken: 2\ndata: 3\nxyz");
    let (short, short_bodies) = run(format!("{one}.\n").as_bytes());
    let (long, long_bodies) = run(format!("{two}.\n").as_bytes());
    assert_eq!(long_bodies[..1], short_bodies[..]);
    assert_eq!(long_bodies[1], b"xyz");
    assert_eq!(long.files()[0].file_path, short.files()[0].file_path);
    assert_eq!(long.files()[0].remote_file.token, short.files()[0].remote_file.token);
    assert_ne!(long.files()[1].file_path, long.files()[0].file_path);
}

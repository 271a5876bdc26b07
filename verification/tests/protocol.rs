use zed_rmate_server::protocol::{
    parse_bool, ParseBoolError, ProtocolError, Received, RmateConnection, RmateFile,
};

fn named(display_name: &str, real_path: &str) -> String {
    let file = RmateFile {
        display_name: display_name.to_string(),
        real_path: real_path.to_string(),
        ..RmateFile::default()
    };
    file.safe_display_name()
}

fn opened() -> RmateConnection {
    let (mut conn, _) = RmateConnection::new();
    assert!(matches!(conn.recv("open\n"), Ok(Received::More)));
    conn
}

fn received(conn: &mut RmateConnection, line: &str) -> RmateFile {
    match conn.recv(line) {
        Ok(Received::File(file)) => file,
        other => panic!("no file: {:?}", other),
    }
}

#[test]
fn truth_values_are_recognized() {
    for s in ["true", "t", "yes", "y", "1", "TRUE", "T", "Yes", "Y"] {
        assert_eq!(parse_bool(s), Ok(true), "{:?}", s);
    }
    for s in ["false", "f", "no", "n", "0", "FALSE", "F", "No", "N"] {
        assert_eq!(parse_bool(s), Ok(false), "{:?}", s);
    }
}

#[test]
fn other_texts_are_no_truth_values() {
    for s in ["", " ", "on", "off", "2", "10", "yes ", "truee", "tr", "\u{131}"] {
        assert_eq!(parse_bool(s), Err(ParseBoolError), "{:?}", s);
    }
}

#[test]
fn the_server_identifies_itself() {
    let (_, id) = RmateConnection::new();
    assert_eq!(id, "Zed-Mate-Server 0\n");
}

#[test]
fn the_connection_is_closed_by_a_command() {
    let (conn, _) = RmateConnection::new();
    assert_eq!(conn.close(), "close\n");
}

#[test]
fn empty_lines_are_skipped() {
    let (mut conn, _) = RmateConnection::new();
    for line in ["", "\n", "\r\n", "  \t\n", "\u{3000}\n"] {
        assert!(matches!(conn.recv(line), Ok(Received::More)), "{:?}", line);
    }
    assert!(matches!(conn.recv(".\n"), Ok(Received::End)));
}

#[test]
fn a_dot_ends_the_commands() {
    for line in [".", ".\n", ".\r\n", ". \n"] {
        let (mut conn, _) = RmateConnection::new();
        assert!(matches!(conn.recv(line), Ok(Received::End)), "{:?}", line);
    }
}

#[test]
fn unknown_commands_are_refused() {
    for line in ["close\n", "OPEN\n", " open\n", "..\n", "open file\n", "data: 5\n"] {
        let (mut conn, _) = RmateConnection::new();
        assert!(matches!(conn.recv(line), Err(ProtocolError::Command)), "{:?}", line);
    }
}

#[test]
fn the_headers_describe_the_file() {
    let mut conn = opened();
    for line in [
        "display-name: myremote:myfile.txt\n",
        "real-path: /tmp/myfile.txt\n",
        "data-on-save: yes\n",
        "re-activate: yes\n",
        "token: myfile.txt\n",
        "new: yes\n",
        "selection: 5\n",
        "file-type: text/plain\n",
    ] {
        assert!(matches!(conn.recv(line), Ok(Received::More)), "{:?}", line);
    }
    let file = received(&mut conn, "data: 26\n");
    assert_eq!(file.display_name, "myremote:myfile.txt");
    assert_eq!(file.real_path, "/tmp/myfile.txt");
    assert!(file.data_on_save);
    assert!(file.re_activate);
    assert_eq!(file.token, "myfile.txt");
    assert!(file.new);
    assert_eq!(file.selection, "5");
    assert_eq!(file.file_type, "text/plain");
    assert_eq!(file.data, 26);
    assert_eq!(file.safe_display_name(), "myremote~myfile.txt");

    // The body of 26 bytes is followed by an empty line and the end of the commands
    assert!(matches!(conn.recv("\n"), Ok(Received::More)));
    assert!(matches!(conn.recv(".\n"), Ok(Received::End)));
}

#[test]
fn headers_that_do_not_come_are_blank() {
    let mut conn = opened();
    let file = received(&mut conn, "data: 0\n");
    assert_eq!(file.display_name, "");
    assert_eq!(file.real_path, "");
    assert!(!file.data_on_save);
    assert!(!file.re_activate);
    assert_eq!(file.token, "");
    assert!(!file.new);
    assert_eq!(file.selection, "");
    assert_eq!(file.file_type, "");
    assert_eq!(file.data, 0);
}

#[test]
fn the_first_separator_divides_a_header() {
    let mut file = RmateFile::default();
    assert_eq!(file.recv_file("token: a: b :c \r\n"), Ok(false));
    assert_eq!(file.token, "a: b :c");
    assert_eq!(file.recv_file("selection: \n"), Ok(false));
    assert_eq!(file.selection, "");
    assert_eq!(file.recv_file("real-path::: x\n"), Ok(false));
    assert_eq!(file.real_path, "");
    assert_eq!(file.recv_file("display-name:  x\n"), Ok(false));
    assert_eq!(file.display_name, " x");
}

#[test]
fn unknown_headers_are_ignored() {
    let mut file = RmateFile::default();
    for line in ["wait: yes\n", ": x\n", " token: x\n", "Token: x\n", "data : 5\n"] {
        assert_eq!(file.recv_file(line), Ok(false), "{:?}", line);
    }
    assert_eq!(file.token, "");
    assert_eq!(file.data, 0);
}

#[test]
fn lines_without_separator_are_no_headers() {
    for line in ["", "\n", "data:5\n", "data:\n", ".\n", "token\n"] {
        let mut conn = opened();
        assert!(matches!(conn.recv(line), Err(ProtocolError::Header)), "{:?}", line);
    }
}

#[test]
fn values_have_to_fit_their_keys() {
    for line in [
        "data-on-save: maybe\n",
        "re-activate: \n",
        "new: 2\n",
        "data: \n",
        "data: -1\n",
        "data: 26 bytes\n",
        "data: 18446744073709551616\n",
    ] {
        let mut conn = opened();
        assert!(matches!(conn.recv(line), Err(ProtocolError::Value)), "{:?}", line);
    }
}

#[test]
fn a_refused_header_leaves_the_description() {
    let mut file = RmateFile::default();
    assert_eq!(file.recv_file("new: yes\n"), Ok(false));
    assert_eq!(file.recv_file("new: perhaps\n"), Err(ProtocolError::Value));
    assert!(file.new);
}

#[test]
fn after_an_error_the_next_line_is_a_command() {
    let mut conn = opened();
    assert!(matches!(conn.recv("\n"), Err(ProtocolError::Header)));
    assert!(matches!(conn.recv("\n"), Ok(Received::More)));
    assert!(matches!(conn.recv("token: x\n"), Err(ProtocolError::Command)));
}

#[test]
fn the_order_of_headers_does_not_matter() {
    let mut a = RmateFile::default();
    let mut b = RmateFile::default();
    for line in ["token: t\n", "new: y\n"] {
        assert_eq!(a.recv_file(line), Ok(false));
    }
    for line in ["new: y\n", "token: t\n"] {
        assert_eq!(b.recv_file(line), Ok(false));
    }
    assert_eq!(format!("{:?}", a), format!("{:?}", b));
}

#[test]
fn the_later_of_two_headers_counts() {
    let mut file = RmateFile::default();
    assert_eq!(file.recv_file("token: a\n"), Ok(false));
    assert_eq!(file.recv_file("token: b\n"), Ok(false));
    assert_eq!(file.token, "b");
}

#[test]
fn the_stream_may_end_between_commands_only() {
    let (mut conn, _) = RmateConnection::new();
    assert_eq!(conn.recv_closed(), Ok(()));
    let mut conn = opened();
    assert_eq!(conn.recv_closed(), Err(ProtocolError::Header));
    assert_eq!(conn.recv_closed(), Ok(()));
}

#[test]
fn errors_have_messages() {
    assert_eq!(ProtocolError::Command.message(), "Protocol error");
    assert_eq!(ProtocolError::Header.message(), "Protocol header error");
    assert_eq!(ProtocolError::Value.message(), "Protocol value error");
}

#[test]
fn colons_become_tildes() {
    assert_eq!(named("host:a:b.txt", ""), "host~a~b.txt");
}

#[test]
fn paths_are_removed_from_names() {
    assert_eq!(named("host:/etc/passwd", ""), "passwd");
    assert_eq!(named("../../x", ""), "x");
    assert_eq!(named("dir/", ""), "dir");
    assert_eq!(named("a/b/.", ""), "b");
}

#[test]
fn the_real_path_stands_in_for_the_display_name() {
    assert_eq!(named("", "/tmp/my:file.txt"), "my~file.txt");
    assert_eq!(named("shown", "/tmp/file.txt"), "shown");
}

#[test]
fn there_is_always_a_name() {
    assert_eq!(named("", ""), "rmate-file.txt");
    assert_eq!(named("/", "/tmp/file.txt"), "rmate-file.txt");
    assert_eq!(named("..", ""), "rmate-file.txt");
    assert_eq!(named("a/..", ""), "rmate-file.txt");
    assert_eq!(named(".", ""), "rmate-file.txt");
}

#[test]
fn names_lead_nowhere_else() {
    for name in ["", "/", "..", "a/..", "./..", "host:/a/b", "::", "a//", "...", ".hidden", "/:/"] {
        let safe = named(name, "");
        assert!(!safe.is_empty() && safe != "." && safe != "..", "{:?}", name);
        assert!(!safe.contains('/') && !safe.contains(':'), "{:?}", name);
    }
}

#[test]
fn contents_are_framed_by_a_save_command() {
    let file = RmateFile { token: "myfile.txt".to_string(), ..RmateFile::default() };
    let (before, after) = file.send_file(30);
    assert_eq!(before, "save\ntoken: myfile.txt\ndata: 30\n");
    assert_eq!(after, "\n");
    let (conn, _) = RmateConnection::new();
    assert_eq!(conn.send(&file, 0).0, "save\ntoken: myfile.txt\ndata: 0\n");
    assert_eq!(conn.send(&file, 0).1, "\n");
}

#[test]
fn what_is_sent_can_be_read_as_headers() {
    let file = RmateFile { token: "a: b".to_string(), ..RmateFile::default() };
    let (before, _) = file.send_file(18446744073709551615);
    let lines: Vec<&str> = before.split_inclusive('\n').collect();
    assert_eq!(lines.len(), 3);
    assert_eq!(lines[0], "save\n");
    let mut read = RmateFile::default();
    assert_eq!(read.recv_file(lines[1]), Ok(false));
    assert_eq!(read.recv_file(lines[2]), Ok(true));
    assert_eq!(read.token, "a: b");
    assert_eq!(read.data, 18446744073709551615);
}

#[test]
fn unknown_headers_are_named() {
    let (conn, _) = RmateConnection::new();
    assert_eq!(conn.ignored_header("colour: red\n"), None);
    let conn = opened();
    let named = |line: &str| conn.ignored_header(line);
    assert_eq!(named("colour: red\r\n"), Some(("colour".to_string(), "red".to_string())));
    assert_eq!(named("a: b: c"), Some(("a".to_string(), "b: c".to_string())));
    assert_eq!(named(": x\n"), Some(("".to_string(), "x".to_string())));
    assert_eq!(named("Token: x\n"), Some(("Token".to_string(), "x".to_string())));
    for key in [
        "display-name", "real-path", "data-on-save", "re-activate", "token", "new", "selection",
        "file-type", "data",
    ] {
        assert_eq!(named(&format!("{key}: x\n")), None, "{:?}", key);
    }
    assert_eq!(named("colour:red\n"), None);
    assert_eq!(named("\n"), None);
}

#[test]
fn a_token_is_sent_back_as_it_is() {
    let file = RmateFile { token: " a: b \t".to_string(), ..RmateFile::default() };
    let (conn, _) = RmateConnection::new();
    let (before, after) = conn.send(&file, 3);
    let lines: Vec<&str> = before.split_inclusive('\n').collect();
    assert_eq!(lines, vec!["save\n", "token:  a: b \t\n", "data: 3\n"]);
    assert_eq!(after, "\n");
}

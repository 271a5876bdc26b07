//! The editing session of a client.
//!
//! A session goes through stages: it receives the client's commands, stores the body of each file
//! that they announce in a temporary file, and then has the files edited until the editor or the
//! client goes away. Each stage says what to do next; doing it is up to the caller.

use crate::path::{
    join, joined, law_files_differ_by_directory_or_name, law_joined, same_location, same_path,
    views,
};
use crate::protocol::{
    after_line, ignored_header, law_safe_name_is_plain, save_header, FileModel, ProtocolError,
    Received, ReceivedModel, RmateConnection, RmateFile, CLOSE, SERVER_ID,
};
use vstd::prelude::*;
use vstd::string::StringExecFns;

verus! {

/// A temporary file with the body of a remote file.
#[derive(Debug)]
pub struct TmpFile {
    pub remote_file: RmateFile,
    pub file_path: String,
}

/// A temporary file, without its representation.
#[verifier::ext_equal]
pub struct TmpModel {
    pub remote_file: FileModel,
    pub file_path: Seq<char>,
}

impl View for TmpFile {
    type V = TmpModel;

    open spec fn view(&self) -> TmpModel {
        TmpModel { remote_file: self.remote_file@, file_path: self.file_path@ }
    }
}

/// A list of temporary files, without its representation.
pub open spec fn models(files: Seq<TmpFile>) -> Seq<TmpModel> {
    files.map_values(|file: TmpFile| file@)
}

impl TmpModel {
    /// The temporary file with the body of a remote file in the directory `dir`.
    pub open spec fn in_directory(remote_file: FileModel, dir: Seq<char>) -> TmpModel {
        TmpModel { remote_file, file_path: joined(dir, remote_file.safe_name()) }
    }

    /// The path, with the selection to open the file at, if any.
    pub open spec fn location(self) -> Seq<char> {
        if self.remote_file.selection.len() == 0 {
            self.file_path
        } else {
            self.file_path + ":"@ + self.remote_file.selection
        }
    }
}

/// The locations of the files.
pub open spec fn locations(files: Seq<TmpModel>) -> Seq<Seq<char>> {
    files.map_values(|file: TmpModel| file.location())
}

/// Whether some file is to be opened in a new window.
pub open spec fn wants_new_window(files: Seq<TmpModel>) -> bool {
    exists|i: int| 0 <= i < files.len() && (#[trigger] files[i]).remote_file.new
}

/// The arguments with which the editor is started for the files.
pub open spec fn editor_args(files: Seq<TmpModel>) -> Seq<Seq<char>> {
    let options = if wants_new_window(files) {
        seq!["--wait"@, "--new"@]
    } else {
        seq!["--wait"@]
    };
    options + locations(files)
}

/// Whether the first of the files at `path` is the one with index `i`.
pub open spec fn first_at(files: Seq<TmpModel>, path: Seq<char>, i: usize) -> bool {
    &&& i < files.len()
    &&& same_location(files[i as int].file_path, path)
    &&& forall|j: int| 0 <= j < i ==> !same_location((#[trigger] files[j]).file_path, path)
}

/// The index of the first of the files at `path`.
pub open spec fn index_at(files: Seq<TmpModel>, path: Seq<char>) -> Option<usize> {
    if exists|i: usize| first_at(files, path, i) {
        Some(choose|i: usize| first_at(files, path, i))
    } else {
        None
    }
}

/// The files at the paths, in the order of the paths. A path with no file is passed over.
pub open spec fn indices_at(files: Seq<TmpModel>, paths: Seq<Seq<char>>) -> Seq<usize>
    decreases paths.len(),
{
    if paths.len() == 0 {
        Seq::empty()
    } else {
        let before = indices_at(files, paths.drop_last());
        match index_at(files, paths.last()) {
            Some(i) => before.push(i),
            None => before,
        }
    }
}

impl TmpFile {
    /// The temporary file that holds the body of `remote_file`: it lies in the directory `dir`,
    /// under a safe name.
    pub fn with_remotefile(remote_file: RmateFile, dir: &str) -> (file: TmpFile)
        ensures
            file@ == TmpModel::in_directory(remote_file@, dir@),
    {
        let file_path: String = join(dir, remote_file.safe_display_name().as_str());
        TmpFile { remote_file, file_path }
    }

    /// The path, with the selection added if there is one.
    ///
    /// The editor opens a file at a place in it by the syntax `path:line:row`.
    pub fn tmp_file_path_with_selection(&self) -> (location: String)
        ensures
            location@ == self@.location(),
    {
        let mut location: String = self.file_path.clone();
        if !self.remote_file.selection.as_str().is_empty() {
            location.append(":");
            location.append(self.remote_file.selection.as_str());
        }
        location
    }

    /// The arguments with which the editor is started for the files.
    pub fn spawn_zed(files: &Vec<TmpFile>) -> (args: Vec<String>)
        ensures
            views(args@) == editor_args(models(files@)),
    {
        let mut arg_new: bool = false;
        for i in 0..files.len()
            invariant
                arg_new == exists|j: int| 0 <= j < i && (#[trigger] files@[j]).remote_file.new,
        {
            if files[i].remote_file.new {
                arg_new = true;
            }
        }
        proof {
            let all = models(files@);
            if arg_new {
                let j = choose|j: int|
                    0 <= j < files@.len() && (#[trigger] files@[j]).remote_file.new;
                assert(all[j].remote_file.new);
            }
            if wants_new_window(all) {
                let j = choose|j: int| 0 <= j < all.len() && (#[trigger] all[j]).remote_file.new;
                assert(files@[j].remote_file.new);
            }
        }
        let mut args: Vec<String> = Vec::new();
        args.push("--wait".to_owned());
        if arg_new {
            args.push("--new".to_owned());
        }
        let ghost options = views(args@);
        let ghost all = models(files@);
        assert(options == if arg_new {
            seq!["--wait"@, "--new"@]
        } else {
            seq!["--wait"@]
        });
        for i in 0..files.len()
            invariant
                all == models(files@),
                views(args@) == options + locations(all).take(i as int),
        {
            let ghost before = args@;
            let location: String = files[i].tmp_file_path_with_selection();
            args.push(location);
            assert(views(args@) == views(before).push(location@));
            assert(locations(all).take(i + 1) == locations(all).take(i as int).push(location@));
        }
        assert(locations(all).take(all.len() as int) == locations(all));
        args
    }
}

proof fn lemma_first_at(files: Seq<TmpModel>, path: Seq<char>, i: usize)
    requires
        first_at(files, path, i),
    ensures
        index_at(files, path) == Some(i),
{
    let k = choose|k: usize| first_at(files, path, k);
    if k < i {
        assert(same_location(files[k as int].file_path, path));
    }
    if i < k {
        assert(same_location(files[i as int].file_path, path));
    }
}

/// The index of the first of the files at `path`.
pub fn find_file(files: &Vec<TmpFile>, path: &str) -> (r: Option<usize>)
    ensures
        r == index_at(models(files@), path@),
{
    let ghost all = models(files@);
    for i in 0..files.len()
        invariant
            all == models(files@),
            forall|j: int| 0 <= j < i ==> !same_location((#[trigger] all[j]).file_path, path@),
    {
        assert(all[i as int] == files@[i as int]@);
        if same_path(files[i].file_path.as_str(), path) {
            proof {
                lemma_first_at(all, path@, i);
            }
            return Some(i);
        }
    }
    assert forall|k: usize| !first_at(all, path@, k) by {
        if k < all.len() {
            assert(!same_location(all[k as int].file_path, path@));
        }
    }
    None
}

/// The files at the paths, in the order of the paths.
pub fn find_files(files: &Vec<TmpFile>, paths: &Vec<String>) -> (indices: Vec<usize>)
    ensures
        indices@ == indices_at(models(files@), views(paths@)),
{
    let mut indices: Vec<usize> = Vec::new();
    for i in 0..paths.len()
        invariant
            indices@ == indices_at(models(files@), views(paths@).take(i as int)),
    {
        assert(views(paths@).take(i + 1).drop_last() == views(paths@).take(i as int));
        assert(views(paths@).take(i + 1).last() == paths@[i as int]@);
        if let Some(index) = find_file(files, paths[i].as_str()) {
            indices.push(index);
        }
    }
    assert(views(paths@).take(paths@.len() as int) == views(paths@));
    indices
}

/// How the data of a file changed.
#[derive(Debug, Clone, Copy, PartialEq, Eq, Structural)]
pub enum DataChange {
    Any,
    Size,
    Content,
    Other,
}

/// How a file was modified.
#[derive(Debug, Clone, Copy, PartialEq, Eq, Structural)]
pub enum ModifyKind {
    Any,
    Data(DataChange),
    Metadata,
    Name,
    Other,
}

/// What happened to a file.
#[derive(Debug, Clone, Copy, PartialEq, Eq, Structural)]
pub enum EventKind {
    Any,
    Access,
    Create,
    Modify(ModifyKind),
    Remove,
    Other,
}

/// Something that happened to the files at some paths.
#[derive(Debug)]
pub struct FileEvent {
    pub kind: EventKind,
    pub paths: Vec<String>,
}

/// Something that happens while the files are edited.
#[derive(Debug)]
pub enum EditEvent {
    /// The file watcher reports an event, or that there will be no more of them.
    Watcher(Option<FileEvent>),
    /// The editor has closed.
    EditorClosed,
    /// The client has closed the connection.
    ClientClosed,
}

/// What to do next while the files are edited.
#[derive(Debug)]
pub enum EditAction {
    /// Wait for the next event.
    Wait,
    /// Send the files with these indices to the client, in this order, and wait for the next
    /// event.
    Save(Vec<usize>),
    /// Note that the files with these indices were removed, and wait for the next event.
    Removed(Vec<usize>),
    /// Send this command to the client, remove the temporary files and stop.
    Close(String),
    /// Remove the temporary files and stop.
    Stop,
}

/// What to do next, without its representation.
pub enum ActionModel {
    Wait,
    Save(Seq<usize>),
    Removed(Seq<usize>),
    Close(Seq<char>),
    Stop,
}

impl View for EditAction {
    type V = ActionModel;

    open spec fn view(&self) -> ActionModel {
        match self {
            EditAction::Wait => ActionModel::Wait,
            EditAction::Save(indices) => ActionModel::Save(indices@),
            EditAction::Removed(indices) => ActionModel::Removed(indices@),
            EditAction::Close(command) => ActionModel::Close(command@),
            EditAction::Stop => ActionModel::Stop,
        }
    }
}

/// What to do after an event. Of the watcher's events only changed contents and removed files
/// matter.
pub open spec fn action_after(files: Seq<TmpModel>, event: EditEvent) -> ActionModel {
    match event {
        EditEvent::Watcher(Some(e)) => match e.kind {
            EventKind::Modify(ModifyKind::Data(DataChange::Content)) => ActionModel::Save(
                indices_at(files, views(e.paths@)),
            ),
            EventKind::Remove => ActionModel::Removed(indices_at(files, views(e.paths@))),
            _ => ActionModel::Wait,
        },
        EditEvent::Watcher(None) => ActionModel::Wait,
        EditEvent::EditorClosed => ActionModel::Close(CLOSE@),
        EditEvent::ClientClosed => ActionModel::Stop,
    }
}

/// The stage in which the client's commands are received.
pub struct Receiving {
    conn: RmateConnection,
    files: Vec<TmpFile>,
}

/// The stage in which the body of a file is stored.
pub struct Storing {
    conn: RmateConnection,
    files: Vec<TmpFile>,
    file: RmateFile,
}

/// The stage in which the files are edited.
pub struct Editing {
    conn: RmateConnection,
    files: Vec<TmpFile>,
}

/// The stage after a line from the client.
pub enum Next {
    /// Another line has to be read.
    Line(Receiving),
    /// The body of a file has to be stored.
    Body(Storing),
    /// The files have to be watched and opened in the editor.
    Edit(Editing),
}

/// What the receiving stage knows: the description of the file whose headers are being read, if
/// any, and the files that are stored.
#[verifier::ext_equal]
pub struct ReceivingModel {
    pub pending: Option<FileModel>,
    pub files: Seq<TmpModel>,
}

/// What the storing stage knows: the file whose body is being stored, and the files that are
/// stored.
#[verifier::ext_equal]
pub struct StoringModel {
    pub file: FileModel,
    pub files: Seq<TmpModel>,
}

/// A stage, without its representation. The editing stage knows the files.
#[verifier::ext_equal]
pub enum Stage {
    Line(ReceivingModel),
    Body(StoringModel),
    Edit(Seq<TmpModel>),
}

impl View for Receiving {
    type V = ReceivingModel;

    closed spec fn view(&self) -> ReceivingModel {
        ReceivingModel { pending: self.conn@, files: models(self.files@) }
    }
}

impl View for Storing {
    type V = StoringModel;

    closed spec fn view(&self) -> StoringModel {
        StoringModel { file: self.file@, files: models(self.files@) }
    }
}

impl View for Editing {
    type V = Seq<TmpModel>;

    closed spec fn view(&self) -> Seq<TmpModel> {
        models(self.files@)
    }
}

impl View for Next {
    type V = Stage;

    open spec fn view(&self) -> Stage {
        match self {
            Next::Line(stage) => Stage::Line(stage@),
            Next::Body(stage) => Stage::Body(stage@),
            Next::Edit(stage) => Stage::Edit(stage@),
        }
    }
}

impl ReceivingModel {
    /// The start of a session.
    pub open spec fn initial() -> ReceivingModel {
        ReceivingModel { pending: None, files: Seq::empty() }
    }

    /// The stage after a line from the client.
    pub open spec fn after_line(self, line: Seq<char>) -> Result<Stage, ProtocolError> {
        let (pending, received) = after_line(self.pending, line);
        match received {
            Ok(ReceivedModel::More) => Ok(
                Stage::Line(ReceivingModel { pending, files: self.files }),
            ),
            Ok(ReceivedModel::File(file)) => Ok(
                Stage::Body(StoringModel { file, files: self.files }),
            ),
            Ok(ReceivedModel::End) => Ok(Stage::Edit(self.files)),
            Err(e) => Err(e),
        }
    }
}

impl StoringModel {
    /// The stage after the body is stored in the directory `dir`.
    pub open spec fn after_stored(self, dir: Seq<char>) -> ReceivingModel {
        ReceivingModel {
            pending: None,
            files: self.files.push(TmpModel::in_directory(self.file, dir)),
        }
    }
}

impl Receiving {
    /// Starts a session, with the identification to send to the client first.
    pub fn start() -> (r: (Receiving, String))
        ensures
            r.0@ == ReceivingModel::initial(),
            r.1@ == SERVER_ID@,
    {
        let (conn, id) = RmateConnection::new();
        let files: Vec<TmpFile> = Vec::new();
        assert(models(files@) == Seq::<TmpModel>::empty());
        (Receiving { conn, files }, id)
    }

    /// Takes a line from the client.
    pub fn on_line(self, line: &str) -> (r: Result<Next, ProtocolError>)
        ensures
            match self@.after_line(line@) {
                Ok(stage) => r matches Ok(next) && next@ == stage,
                Err(e) => r matches Err(got) && got == e,
            },
    {
        let Receiving { mut conn, files } = self;
        match conn.recv(line) {
            Ok(Received::More) => Ok(Next::Line(Receiving { conn, files })),
            Ok(Received::File(file)) => Ok(Next::Body(Storing { conn, files, file })),
            Ok(Received::End) => Ok(Next::Edit(Editing { conn, files })),
            Err(e) => Err(e),
        }
    }

    /// The key and the value of a line that will be ignored, because it is a header with an
    /// unknown key.
    pub fn ignored_header(&self, line: &str) -> (r: Option<(String, String)>)
        ensures
            match ignored_header(self@.pending, line@) {
                Some((key, value)) => r matches Some((k, v)) && k@ == key && v@ == value,
                None => r is None,
            },
    {
        self.conn.ignored_header(line)
    }

    /// Takes note that the client has closed the connection.
    ///
    /// The session is over and the temporary files are to be removed.
    pub fn on_closed(self) -> (r: Result<(), ProtocolError>)
        ensures
            match self@.pending {
                None => r == Ok::<(), ProtocolError>(()),
                Some(_) => r == Err::<(), ProtocolError>(ProtocolError::Header),
            },
    {
        let Receiving { mut conn, files: _ } = self;
        conn.recv_closed()
    }
}

impl Storing {
    /// No headers are being read while a body is stored.
    #[verifier::type_invariant]
    spec fn between_commands(self) -> bool {
        self.conn@ is None
    }

    /// The name for the temporary file.
    pub fn file_name(&self) -> (name: String)
        ensures
            name@ == self@.file.safe_name(),
    {
        self.file.safe_display_name()
    }

    /// The number of bytes to read from the client and to store.
    pub fn size(&self) -> (size: u64)
        ensures
            size == self@.file.data,
    {
        self.file.data
    }

    /// The path for the temporary file in the directory `dir`.
    pub fn path_in(&self, dir: &str) -> (path: String)
        ensures
            path@ == joined(dir@, self@.file.safe_name()),
    {
        join(dir, self.file_name().as_str())
    }

    /// Takes note that the body is stored in the directory `dir`, under the name for it.
    pub fn on_stored(self, dir: &str) -> (next: Receiving)
        ensures
            next@ == self@.after_stored(dir@),
    {
        proof {
            use_type_invariant(&self);
        }
        let Storing { conn, mut files, file } = self;
        files.push(TmpFile::with_remotefile(file, dir));
        Receiving { conn, files }
    }
}

impl Editing {
    /// The files, in the order in which the client announced them.
    pub fn files(&self) -> (files: &Vec<TmpFile>)
        ensures
            models(files@) == self@,
    {
        &self.files
    }

    /// The arguments with which the editor is started.
    pub fn editor_args(&self) -> (args: Vec<String>)
        ensures
            views(args@) == editor_args(self@),
    {
        TmpFile::spawn_zed(&self.files)
    }

    /// What to do after an event.
    pub fn on_event(&self, event: &EditEvent) -> (action: EditAction)
        ensures
            action@ == action_after(self@, *event),
    {
        match event {
            EditEvent::Watcher(Some(e)) => match e.kind {
                EventKind::Modify(ModifyKind::Data(DataChange::Content)) => EditAction::Save(
                    find_files(&self.files, &e.paths),
                ),
                EventKind::Remove => EditAction::Removed(find_files(&self.files, &e.paths)),
                _ => EditAction::Wait,
            },
            EditEvent::Watcher(None) => EditAction::Wait,
            EditEvent::EditorClosed => EditAction::Close(self.conn.close()),
            EditEvent::ClientClosed => EditAction::Stop,
        }
    }

    /// What goes before and after the contents of the file with index `i` when it is sent to the
    /// client. `size` is the length of the contents in bytes.
    pub fn send_file(&self, i: usize, size: u64) -> (frame: (String, String))
        requires
            i < self@.len(),
        ensures
            frame.0@ == save_header(self@[i as int].remote_file.token, size),
            frame.1@ == "\n"@,
    {
        self.conn.send(&self.files[i].remote_file, size)
    }
}

/// How an accepted connection is handled.
#[derive(Debug, Clone, Copy, PartialEq, Eq, Structural)]
pub enum Accepted {
    /// Handle the connection, then stop the server with its outcome.
    HandleAndStop,
    /// Handle the connection in the background and accept the next one.
    HandleInBackground,
}

/// How an accepted connection is handled by a server that runs once or for ever.
pub fn on_accept(once: bool) -> (how: Accepted)
    ensures
        how == if once {
            Accepted::HandleAndStop
        } else {
            Accepted::HandleInBackground
        },
{
    if once {
        Accepted::HandleAndStop
    } else {
        Accepted::HandleInBackground
    }
}

/// Only files at the paths of an event are found.
pub proof fn law_found_files_are_at_the_paths(files: Seq<TmpModel>, paths: Seq<Seq<char>>)
    ensures
        indices_at(files, paths).len() <= paths.len(),
        forall|k: int|
            0 <= k < indices_at(files, paths).len() ==> {
                let i = #[trigger] indices_at(files, paths)[k];
                i < files.len() && exists|j: int|
                    0 <= j < paths.len() && same_location(
                        files[i as int].file_path,
                        #[trigger] paths[j],
                    )
            },
    decreases paths.len(),
{
    if paths.len() > 0 {
        let before = paths.drop_last();
        law_found_files_are_at_the_paths(files, before);
        assert forall|k: int| 0 <= k < indices_at(files, paths).len() implies ({
            let i = #[trigger] indices_at(files, paths)[k];
            i < files.len() && exists|j: int|
                0 <= j < paths.len() && same_location(
                    files[i as int].file_path,
                    #[trigger] paths[j],
                )
        }) by {
            let i = indices_at(files, paths)[k];
            if k < indices_at(files, before).len() {
                assert(i == indices_at(files, before)[k]);
                let j = choose|j: int|
                    0 <= j < before.len() && same_location(
                        files[i as int].file_path,
                        #[trigger] before[j],
                    );
                assert(paths[j] == before[j]);
            } else {
                assert(first_at(files, paths.last(), i));
                assert(paths[paths.len() - 1] == paths.last());
            }
        }
    }
}

/// Where no two files are at one place, every file at a path of an event is found.
pub proof fn law_file_at_a_path_is_found(
    files: Seq<TmpModel>,
    paths: Seq<Seq<char>>,
    i: usize,
    j: int,
)
    requires
        forall|a: int, b: int|
            0 <= a < b < files.len() ==> !same_location(
                (#[trigger] files[a]).file_path,
                (#[trigger] files[b]).file_path,
            ),
        i < files.len(),
        0 <= j < paths.len(),
        same_location(files[i as int].file_path, paths[j]),
    ensures
        indices_at(files, paths).contains(i),
    decreases paths.len(),
{
    let before = indices_at(files, paths.drop_last());
    if j == paths.len() - 1 {
        assert forall|a: int| 0 <= a < i implies !same_location(
            (#[trigger] files[a]).file_path,
            paths[j],
        ) by {
            assert(!same_location(files[a].file_path, files[i as int].file_path));
        }
        lemma_first_at(files, paths[j], i);
        assert(indices_at(files, paths)[before.len() as int] == i);
    } else {
        law_file_at_a_path_is_found(files, paths.drop_last(), i, j);
        let k = choose|k: int| 0 <= k < before.len() && before[k] == i;
        assert(indices_at(files, paths)[k] == i);
    }
}

/// Temporary files in different directories are at different places, whatever the client calls
/// them.
pub proof fn law_files_in_different_directories_differ(
    file1: FileModel,
    dir1: Seq<char>,
    file2: FileModel,
    dir2: Seq<char>,
)
    requires
        !same_location(dir1, dir2),
    ensures
        !same_location(
            TmpModel::in_directory(file1, dir1).file_path,
            TmpModel::in_directory(file2, dir2).file_path,
        ),
{
    law_safe_name_is_plain(file1);
    law_safe_name_is_plain(file2);
    law_files_differ_by_directory_or_name(dir1, file1.safe_name(), dir2, file2.safe_name());
}

/// The session ends when the editor closes, which the client is told, or when the client closes
/// the connection, and not otherwise.
pub proof fn law_session_ends_with_editor_or_client(files: Seq<TmpModel>, event: EditEvent)
    ensures
        event is EditorClosed <==> action_after(files, event) == ActionModel::Close("close\n"@),
        event is EditorClosed <==> action_after(files, event) is Close,
        event is ClientClosed <==> action_after(files, event) is Stop,
{
}

/// A list of files is told file by file: the description and the path are those of the file.
pub proof fn law_models_are_of_the_files(files: Seq<TmpFile>, i: int)
    requires
        0 <= i < files.len(),
    ensures
        models(files).len() == files.len(),
        models(files)[i].remote_file == files[i].remote_file@,
        models(files)[i].file_path == files[i].file_path@,
        files[i]@.remote_file == files[i].remote_file@,
        files[i]@.file_path == files[i].file_path@,
{
}

/// An action is told with all that it holds, and the stage after a line with what it knows.
pub proof fn law_actions_are_told_in_full(action: EditAction, next: Next)
    ensures
        action is Wait ==> action@ is Wait,
        action matches EditAction::Save(indices) ==> action@ == ActionModel::Save(indices@),
        action matches EditAction::Removed(indices) ==> action@ == ActionModel::Removed(indices@),
        action matches EditAction::Close(command) ==> action@ == ActionModel::Close(command@),
        action is Stop ==> action@ is Stop,
        next matches Next::Line(stage) ==> next@ == Stage::Line(stage@),
        next matches Next::Body(stage) ==> next@ == Stage::Body(stage@),
        next matches Next::Edit(stage) ==> next@ == Stage::Edit(stage@),
{
}

/// Storing a file keeps all that the client says about it, and puts it in the directory, under its
/// safe name.
pub proof fn law_stored_file_keeps_its_description(file: FileModel, dir: Seq<char>)
    ensures
        ({
            let stored = TmpModel::in_directory(file, dir);
            let n = file.safe_name().len() as int;
            &&& stored.remote_file.display_name == file.display_name
            &&& stored.remote_file.real_path == file.real_path
            &&& stored.remote_file.data_on_save == file.data_on_save
            &&& stored.remote_file.re_activate == file.re_activate
            &&& stored.remote_file.token == file.token
            &&& stored.remote_file.new == file.new
            &&& stored.remote_file.selection == file.selection
            &&& stored.remote_file.file_type == file.file_type
            &&& stored.remote_file.data == file.data
            &&& dir.len() == 0 ==> stored.file_path == file.safe_name()
            &&& dir.len() > 0 && dir.last() == '/' ==> stored.file_path == dir + file.safe_name()
            &&& dir.len() > 0 && dir.last() != '/' ==> stored.file_path == dir.push('/')
                + file.safe_name()
        }),
{
    law_joined(dir, file.safe_name());
    let path = joined(dir, file.safe_name());
    if dir.len() > 0 {
        if dir.last() == '/' {
            law_joined(dir.drop_last(), file.safe_name());
            assert(dir.drop_last().push('/') == dir);
        } else {
            let start = path.take(dir.len() as int);
            let name = path.skip(dir.len() as int + 1);
            assert(path == start.push('/') + name);
        }
    }
}

/// A file with a selection is opened at its path, a colon and the whole selection, and one without
/// at its path. So at one path different selections are different locations.
pub proof fn law_location_is_path_and_selection(file: TmpModel, other: TmpModel)
    ensures
        file.remote_file.selection.len() == 0 ==> file.location() == file.file_path,
        file.remote_file.selection.len() > 0 ==> {
            let n = file.file_path.len() as int;
            &&& file.location().len() == n + 1 + file.remote_file.selection.len()
            &&& file.location().take(n) == file.file_path
            &&& file.location()[n] == ':'
            &&& file.location().skip(n + 1) == file.remote_file.selection
        },
        file.file_path == other.file_path && file.location() == other.location()
            ==> file.remote_file.selection == other.remote_file.selection,
{
    if file.remote_file.selection.len() > 0 {
        lemma_location_parts(file);
    }
    if other.remote_file.selection.len() > 0 {
        lemma_location_parts(other);
    }
}

proof fn lemma_location_parts(file: TmpModel)
    requires
        file.remote_file.selection.len() > 0,
    ensures
        file.location().len() == file.file_path.len() + 1 + file.remote_file.selection.len(),
        file.location().take(file.file_path.len() as int) == file.file_path,
        file.location()[file.file_path.len() as int] == ':',
        file.location().skip(file.file_path.len() as int + 1) == file.remote_file.selection,
{
    reveal_strlit(":");
    let n = file.file_path.len() as int;
    assert(file.location().take(n) == file.file_path);
    assert(file.location().skip(n + 1) == file.remote_file.selection);
}

/// The editor is asked to wait, first of all. It is asked for a new window, next, exactly if one of
/// the files asks for it. Then come the files, each at its location, in their order, and nothing
/// else.
pub proof fn law_editor_arguments(files: Seq<TmpModel>, i: int)
    requires
        0 <= i < files.len(),
    ensures
        editor_args(files)[0] == "--wait"@,
        files[i].remote_file.new ==> {
            &&& editor_args(files).len() == files.len() + 2
            &&& editor_args(files)[1] == "--new"@
        },
        (forall|j: int| 0 <= j < files.len() ==> !(#[trigger] files[j]).remote_file.new) ==> {
            &&& editor_args(files).len() == files.len() + 1
            &&& editor_args(files)[i + 1] == files[i].location()
        },
        editor_args(files)[editor_args(files).len() - files.len() + i] == files[i].location(),
{
}

/// Without files the editor is only asked to wait.
pub proof fn law_editor_arguments_without_files(files: Seq<TmpModel>)
    requires
        files.len() == 0,
    ensures
        editor_args(files) == seq!["--wait"@],
{
    assert(editor_args(files) == seq!["--wait"@]);
}

/// When the contents of files change, the action is to save, and the files at the paths of the
/// event are among those that are saved: where no two files are at one place, every one of them.
pub proof fn law_changed_file_is_saved(files: Seq<TmpModel>, event: FileEvent, i: usize, j: int)
    requires
        event.kind == EventKind::Modify(ModifyKind::Data(DataChange::Content)),
        i < files.len(),
        0 <= j < event.paths@.len(),
        same_location(files[i as int].file_path, event.paths@[j]@),
    ensures
        action_after(files, EditEvent::Watcher(Some(event))) is Save,
        ({
            let saved = action_after(files, EditEvent::Watcher(Some(event)))->Save_0;
            exists|k: int|
                0 <= k < saved.len() && #[trigger] saved[k] <= i && same_location(
                    files[saved[k] as int].file_path,
                    event.paths@[j]@,
                )
        }),
        (forall|a: int, b: int|
            0 <= a < b < files.len() ==> !same_location(
                (#[trigger] files[a]).file_path,
                (#[trigger] files[b]).file_path,
            )) ==> action_after(files, EditEvent::Watcher(Some(event)))->Save_0.contains(i),
{
    let paths = views(event.paths@);
    assert(paths[j] == event.paths@[j]@);
    let saved = indices_at(files, paths);
    lemma_first_file_is_found(files, paths, i, j);
    let k = choose|k: int|
        0 <= k < saved.len() && saved[k] <= i && same_location(
            files[#[trigger] saved[k] as int].file_path,
            paths[j],
        );
    let action = action_after(files, EditEvent::Watcher(Some(event)));
    assert(action == ActionModel::Save(saved));
    assert(action->Save_0[k] <= i);
    assert(same_location(files[action->Save_0[k] as int].file_path, event.paths@[j]@));
    if forall|a: int, b: int|
        0 <= a < b < files.len() ==> !same_location(
            (#[trigger] files[a]).file_path,
            (#[trigger] files[b]).file_path,
        ) {
        law_file_at_a_path_is_found(files, paths, i, j);
    }
}

proof fn lemma_has_first_at(files: Seq<TmpModel>, path: Seq<char>, i: usize)
    requires
        i < files.len(),
        same_location(files[i as int].file_path, path),
    ensures
        index_at(files, path) matches Some(k) && k <= i && first_at(files, path, k),
    decreases i,
{
    if exists|j: int| 0 <= j < i && same_location((#[trigger] files[j]).file_path, path) {
        let j = choose|j: int| 0 <= j < i && same_location((#[trigger] files[j]).file_path, path);
        lemma_has_first_at(files, path, j as usize);
    } else {
        lemma_first_at(files, path, i);
    }
}

proof fn lemma_first_file_is_found(
    files: Seq<TmpModel>,
    paths: Seq<Seq<char>>,
    i: usize,
    j: int,
)
    requires
        i < files.len(),
        0 <= j < paths.len(),
        same_location(files[i as int].file_path, paths[j]),
    ensures
        exists|k: int|
            0 <= k < indices_at(files, paths).len() && indices_at(files, paths)[k] <= i
                && same_location(
                files[#[trigger] indices_at(files, paths)[k] as int].file_path,
                paths[j],
            ),
    decreases paths.len(),
{
    let before = indices_at(files, paths.drop_last());
    let found = indices_at(files, paths);
    if j == paths.len() - 1 {
        lemma_has_first_at(files, paths[j], i);
        let k = before.len() as int;
        assert(found[k] <= i && same_location(files[found[k] as int].file_path, paths[j]));
    } else {
        lemma_first_file_is_found(files, paths.drop_last(), i, j);
        let k = choose|k: int|
            0 <= k < before.len() && before[k] <= i && same_location(
                files[#[trigger] before[k] as int].file_path,
                paths[j],
            );
        assert(found[k] == before[k]);
    }
}

/// Nothing else is saved: every file that is saved is at one of the paths of the event.
pub proof fn law_only_changed_files_are_saved(files: Seq<TmpModel>, event: FileEvent, k: int)
    requires
        action_after(files, EditEvent::Watcher(Some(event))) matches ActionModel::Save(saved) && 0
            <= k < saved.len(),
    ensures
        event.kind == EventKind::Modify(ModifyKind::Data(DataChange::Content)),
        action_after(files, EditEvent::Watcher(Some(event))) matches ActionModel::Save(saved)
            && saved[k] < files.len() && exists|j: int|
            0 <= j < event.paths@.len() && same_location(
                files[saved[k] as int].file_path,
                (#[trigger] event.paths@[j])@,
            ),
{
    let paths = views(event.paths@);
    law_found_files_are_at_the_paths(files, paths);
    let i = indices_at(files, paths)[k];
    let j = choose|j: int|
        0 <= j < paths.len() && same_location(files[i as int].file_path, #[trigger] paths[j]);
    assert(paths[j] == event.paths@[j]@);
}

/// The files of an event are taken path by path, in the order of the paths: one more path adds the
/// first file at it to the end, or nothing if there is none. So it is for changed contents and for
/// removed files.
pub proof fn law_paths_are_taken_in_order(
    files: Seq<TmpModel>,
    shorter: FileEvent,
    longer: FileEvent,
    path: Seq<char>,
)
    requires
        views(longer.paths@) == views(shorter.paths@).push(path),
        longer.kind == shorter.kind,
        shorter.kind == EventKind::Remove || shorter.kind == EventKind::Modify(
            ModifyKind::Data(DataChange::Content),
        ),
    ensures
        ({
            let before = action_after(files, EditEvent::Watcher(Some(shorter)));
            let after = action_after(files, EditEvent::Watcher(Some(longer)));
            let (a, b) = match (before, after) {
                (ActionModel::Save(a), ActionModel::Save(b)) => (a, b),
                (ActionModel::Removed(a), ActionModel::Removed(b)) => (a, b),
                _ => (seq![0usize], Seq::empty()),
            };
            &&& shorter.kind == EventKind::Remove <==> before is Removed && after is Removed
            &&& shorter.kind != EventKind::Remove <==> before is Save && after is Save
            &&& shorter.paths@.len() == 0 ==> a.len() == 0
            &&& (forall|i: int|
                0 <= i < files.len() ==> !same_location((#[trigger] files[i]).file_path, path))
                ==> b == a
            &&& forall|i: usize|
                i < files.len() && same_location((#[trigger] files[i as int]).file_path, path) && (
                forall|j: int|
                    0 <= j < i ==> !same_location((#[trigger] files[j]).file_path, path)) ==> b
                    == a.push(i)
        }),
{
    let paths = views(longer.paths@);
    assert(paths.drop_last() == views(shorter.paths@));
    assert(paths.last() == path);
    let a = indices_at(files, views(shorter.paths@));
    let b = indices_at(files, paths);
    if forall|i: int|
        0 <= i < files.len() ==> !same_location((#[trigger] files[i]).file_path, path) {
        assert forall|i: usize| !first_at(files, path, i) by {
            if i < files.len() {
                assert(!same_location(files[i as int].file_path, path));
            }
        }
        assert(b == a);
    }
    assert forall|i: usize|
        i < files.len() && same_location((#[trigger] files[i as int]).file_path, path) && (forall|
            j: int,
        |
            0 <= j < i ==> !same_location((#[trigger] files[j]).file_path, path)) implies b
        == a.push(i) by {
        assert(first_at(files, path, i));
        lemma_first_at(files, path, i);
    }
}

/// The first file at a path is the one that is found, and none is found where there is none.
pub proof fn law_first_file_is_found(files: Seq<TmpModel>, path: Seq<char>, i: usize)
    requires
        i < files.len(),
    ensures
        index_at(files, path) == Some(i) <==> same_location(files[i as int].file_path, path) && (
        forall|j: int| 0 <= j < i ==> !same_location((#[trigger] files[j]).file_path, path)),
        index_at(files, path) is None ==> !same_location(files[i as int].file_path, path),
        index_at(files, path) matches Some(k) ==> k < files.len(),
{
    if same_location(files[i as int].file_path, path) {
        lemma_has_first_at(files, path, i);
    }
    if first_at(files, path, i) {
        lemma_first_at(files, path, i);
    }
}

/// Every other event of the watcher, and its end, is waited out.
pub proof fn law_other_events_are_waited_out(files: Seq<TmpModel>, event: FileEvent)
    ensures
        action_after(files, EditEvent::Watcher(None)) == ActionModel::Wait,
        action_after(files, EditEvent::Watcher(Some(event))) == ActionModel::Wait <==> event.kind
            != EventKind::Remove && event.kind != EventKind::Modify(
            ModifyKind::Data(DataChange::Content),
        ),
{
}

/// A session starts with no file and between commands. A line keeps the files that are stored, and
/// leads to the stage that the line asks for, with what it says.
pub proof fn law_stages_follow_the_lines(stage: ReceivingModel, line: Seq<char>)
    ensures
        ReceivingModel::initial().pending is None,
        ReceivingModel::initial().files.len() == 0,
        after_line(stage.pending, line).1 matches Err(e) ==> stage.after_line(line) == Err::<
            Stage,
            ProtocolError,
        >(e),
        after_line(stage.pending, line).1 == Ok::<ReceivedModel, ProtocolError>(ReceivedModel::More)
            ==> (stage.after_line(line) matches Ok(Stage::Line(next)) && next.files == stage.files
            && next.pending == after_line(stage.pending, line).0),
        after_line(stage.pending, line).1 matches Ok(ReceivedModel::File(file)) ==> (
        stage.after_line(line) matches Ok(Stage::Body(storing)) && storing.files == stage.files
            && storing.file == file),
        after_line(stage.pending, line).1 == Ok::<ReceivedModel, ProtocolError>(ReceivedModel::End)
            ==> (stage.after_line(line) matches Ok(Stage::Edit(files)) && files == stage.files),
{
}

/// Storing a body adds one file at the end, with the description that came before the body, and
/// leaves the others as they were. After it a command is expected.
pub proof fn law_storing_adds_the_file(storing: StoringModel, dir: Seq<char>)
    ensures
        storing.after_stored(dir).pending is None,
        storing.after_stored(dir).files.len() == storing.files.len() + 1,
        storing.after_stored(dir).files.drop_last() == storing.files,
        storing.after_stored(dir).files.last().remote_file == storing.file,
        storing.after_stored(dir).files.last().file_path == joined(dir, storing.file.safe_name()),
{
    assert(storing.after_stored(dir).files.drop_last() == storing.files);
}

} // verus!

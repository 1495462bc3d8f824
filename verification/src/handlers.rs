//! Request handling: virtual hosts, routes, static files, directory
//! listings, uploads, deletions, redirections, sessions and error pages.
//!
//! The handler decides; it does not touch the file system. Where an answer
//! depends on a file, a directory or a program, it names what is to be done as an
//! [`Effect`], and goes on when it is told what came of it.

use vstd::prelude::*;
use vstd::slice::{slice_subrange, slice_to_vec};

use crate::config;
use crate::config::{RouteConfig, ServerConfig, ServerView};
use crate::http;
use crate::http::{Request, RequestView, Response, ResponseView};
use crate::pages;
use crate::pages::{DirEntry, EntryView};
use crate::paths;
use crate::sessions;
use crate::sessions::{SessionStore, Visits};
use crate::text;
use crate::uploads;
use crate::uploads::{FileView, UploadedFile};

verus! {

// ------------------------------------------------------------ effects and replies

/// What a path leads to.
#[derive(Debug, Clone, Copy, PartialEq, Eq, Structural)]
pub enum PathKind {
    Dir,
    File,
    /// Something else, or nothing at all.
    Other,
}

/// What has to be done before an answer can be given.
pub enum Effect {
    /// Find out what a path leads to.
    Probe(String),
    /// Read a file.
    ReadFile(String),
    /// List the entries of a directory.
    ListDirectory(String),
    /// Run a script, with the request as its input.
    RunProgram { interpreter: String, script: String },
    /// Write a file.
    WriteFile { path: String, content: Vec<u8> },
    /// Write files into a directory, which is made if it is missing, one after the
    /// other as long as none fails.
    SaveFiles { dir: String, files: Vec<UploadedFile> },
    /// Remove a file.
    RemoveFile(String),
}

/// What an effect says.
#[verifier::ext_equal]
pub enum EffectView {
    Probe(Seq<char>),
    ReadFile(Seq<char>),
    ListDirectory(Seq<char>),
    RunProgram { interpreter: Seq<char>, script: Seq<char> },
    WriteFile { path: Seq<char>, content: Seq<u8> },
    SaveFiles { dir: Seq<char>, files: Seq<FileView> },
    RemoveFile(Seq<char>),
}

impl View for Effect {
    type V = EffectView;

    open spec fn view(&self) -> EffectView {
        match self {
            Effect::Probe(path) => EffectView::Probe(path@),
            Effect::ReadFile(path) => EffectView::ReadFile(path@),
            Effect::ListDirectory(path) => EffectView::ListDirectory(path@),
            Effect::RunProgram { interpreter, script } => EffectView::RunProgram {
                interpreter: interpreter@,
                script: script@,
            },
            Effect::WriteFile { path, content } => EffectView::WriteFile {
                path: path@,
                content: content@,
            },
            Effect::SaveFiles { dir, files } => EffectView::SaveFiles {
                dir: dir@,
                files: uploads::file_views(files@),
            },
            Effect::RemoveFile(path) => EffectView::RemoveFile(path@),
        }
    }
}

/// What came of an effect.
pub enum Reply {
    /// What a path leads to.
    Kind(PathKind),
    /// The content of a file that could be read.
    Content(Option<Vec<u8>>),
    /// The entries of a directory that could be listed.
    Entries(Option<Vec<DirEntry>>),
    /// The answer of a program that ran.
    Program(Option<Response>),
    /// Whether it was done.
    Done(bool),
}

/// What a reply says.
pub enum ReplyView {
    Kind(PathKind),
    Content(Option<Seq<u8>>),
    Entries(Option<Seq<EntryView>>),
    Program(Option<ResponseView>),
    Done(bool),
}

impl View for Reply {
    type V = ReplyView;

    open spec fn view(&self) -> ReplyView {
        match self {
            Reply::Kind(kind) => ReplyView::Kind(*kind),
            Reply::Content(Some(content)) => ReplyView::Content(Some(content@)),
            Reply::Content(None) => ReplyView::Content(None),
            Reply::Entries(Some(entries)) => ReplyView::Entries(Some(pages::entry_views(entries@))),
            Reply::Entries(None) => ReplyView::Entries(None),
            Reply::Program(Some(response)) => ReplyView::Program(Some(response@)),
            Reply::Program(None) => ReplyView::Program(None),
            Reply::Done(done) => ReplyView::Done(*done),
        }
    }
}

impl EffectView {
    /// The reply answers this effect.
    pub open spec fn answered_by(self, reply: ReplyView) -> bool {
        match self {
            EffectView::Probe(_) => reply is Kind,
            EffectView::ReadFile(_) => reply is Content,
            EffectView::ListDirectory(_) => reply is Entries,
            EffectView::RunProgram { .. } => reply is Program,
            EffectView::WriteFile { .. } => reply is Done,
            EffectView::SaveFiles { .. } => reply is Done,
            EffectView::RemoveFile(_) => reply is Done,
        }
    }
}

// ------------------------------------------------------------------- unfinished answers

/// What every answer to a request gets in the end.
struct Ending {
    /// The id of a session that the client does not know yet.
    cookie: Option<String>,
    /// The body is left out.
    head: bool,
}

/// What every answer to a request gets in the end.
#[verifier::ext_equal]
pub struct EndingView {
    pub cookie: Option<Seq<char>>,
    pub head: bool,
}

impl Ending {
    spec fn view(&self) -> EndingView {
        EndingView { cookie: text::shown(self.cookie), head: self.head }
    }
}

/// The server and the path that an answer is about.
struct Case {
    server: usize,
    path: String,
    ending: Ending,
}

/// The server and the path that an answer is about.
#[verifier::ext_equal]
pub struct CaseView {
    pub server: int,
    pub path: Seq<char>,
    pub ending: EndingView,
}

impl Case {
    spec fn view(&self) -> CaseView {
        CaseView { server: self.server as int, path: self.path@, ending: self.ending.view() }
    }
}

/// What an unfinished answer waits for.
enum Stage {
    ErrorPage { status: u16, allow: Option<String> },
    Script { interpreter: String },
    Program,
    Get { index: Option<String>, listing: bool },
    Index { candidate: String, listing: bool },
    File { path: String },
    Listing,
    Post,
    Save { names: Vec<String> },
    Store,
    Delete,
    Remove,
}

/// What an unfinished answer waits for.
#[verifier::ext_equal]
pub enum StageView {
    /// The custom page for an error.
    ErrorPage { status: u16, allow: Option<Seq<char>> },
    /// Whether the script is there.
    Script { interpreter: Seq<char> },
    /// The answer of the script.
    Program,
    /// What the path leads to.
    Get { index: Option<Seq<char>>, listing: bool },
    /// Whether the default file of the directory is there.
    Index { candidate: Seq<char>, listing: bool },
    /// The content of the file.
    File { path: Seq<char> },
    /// The entries of the directory.
    Listing,
    /// What the target of an upload leads to.
    Post,
    /// The files of a form.
    Save { names: Seq<Seq<char>> },
    /// The body of the request.
    Store,
    /// What the path leads to.
    Delete,
    /// The removal of the file.
    Remove,
}

impl Stage {
    spec fn view(&self) -> StageView {
        match self {
            Stage::ErrorPage { status, allow } => StageView::ErrorPage {
                status: *status,
                allow: text::shown(*allow),
            },
            Stage::Script { interpreter } => StageView::Script { interpreter: interpreter@ },
            Stage::Program => StageView::Program,
            Stage::Get { index, listing } => StageView::Get {
                index: text::shown(*index),
                listing: *listing,
            },
            Stage::Index { candidate, listing } => StageView::Index {
                candidate: candidate@,
                listing: *listing,
            },
            Stage::File { path } => StageView::File { path: path@ },
            Stage::Listing => StageView::Listing,
            Stage::Post => StageView::Post,
            Stage::Save { names } => StageView::Save { names: text::texts(names@) },
            Stage::Store => StageView::Store,
            Stage::Delete => StageView::Delete,
            Stage::Remove => StageView::Remove,
        }
    }
}

/// An answer that waits for an effect.
pub struct Task {
    case: Case,
    stage: Stage,
}

/// An answer that waits for an effect.
#[verifier::ext_equal]
pub struct TaskView {
    pub case: CaseView,
    pub stage: StageView,
}

impl View for Task {
    type V = TaskView;

    closed spec fn view(&self) -> TaskView {
        TaskView { case: self.case.view(), stage: self.stage.view() }
    }
}

impl StageView {
    /// The reply is one that is waited for.
    pub open spec fn takes(self, reply: ReplyView) -> bool {
        match self {
            StageView::ErrorPage { .. } => reply is Content,
            StageView::Script { .. } => reply is Kind,
            StageView::Program => reply is Program,
            StageView::Get { .. } => reply is Kind,
            StageView::Index { .. } => reply is Kind,
            StageView::File { .. } => reply is Content,
            StageView::Listing => reply is Entries,
            StageView::Post => reply is Kind,
            StageView::Save { .. } => reply is Done,
            StageView::Store => reply is Done,
            StageView::Delete => reply is Kind,
            StageView::Remove => reply is Done,
        }
    }
}

/// How far an answer has come.
pub enum Step {
    /// The answer.
    Done(Response),
    /// The answer waits for an effect.
    Await { task: Task, effect: Effect },
}

/// How far an answer has come.
#[verifier::ext_equal]
pub enum StepView {
    Done(ResponseView),
    Await { task: TaskView, effect: EffectView },
}

impl View for Step {
    type V = StepView;

    open spec fn view(&self) -> StepView {
        match self {
            Step::Done(response) => StepView::Done(response@),
            Step::Await { task, effect } => StepView::Await { task: task@, effect: effect@ },
        }
    }
}

// ------------------------------------------------------------------- the decisions

/// The answer as it is sent: with the cookie of a new session, and without a body
/// where only the head was asked for.
pub open spec fn finished(response: ResponseView, ending: EndingView) -> ResponseView {
    let r = match ending.cookie {
        Some(id) => response.with_header("Set-Cookie"@, "SID="@ + id + "; Path=/; HttpOnly"@),
        None => response,
    };
    if ending.head {
        ResponseView { suppress_body: true, ..r }
    } else {
        r
    }
}

/// The answer for an error: the custom page where it could be read, or else the
/// built-in one.
pub open spec fn error_reply(
    status: u16,
    allow: Option<Seq<char>>,
    custom: Option<Seq<u8>>,
) -> ResponseView {
    let r = match custom {
        Some(content) => ResponseView::with_body(status, http::html_type(), content),
        None => ResponseView::html(status, pages::error_text(status)),
    };
    match allow {
        Some(methods) => r.with_header("Allow"@, methods),
        None => r,
    }
}

/// The answer is an error.
pub open spec fn failing(
    servers: Seq<ServerView>,
    case: CaseView,
    status: u16,
    allow: Option<Seq<char>>,
) -> StepView {
    let custom = servers[case.server].error_pages;
    if custom.dom().contains(status) {
        StepView::Await {
            task: TaskView { case, stage: StageView::ErrorPage { status, allow } },
            effect: EffectView::ReadFile(custom[status]),
        }
    } else {
        StepView::Done(finished(error_reply(status, allow, None), case.ending))
    }
}

/// The answer is there.
pub open spec fn answering(case: CaseView, response: ResponseView) -> StepView {
    StepView::Done(finished(response, case.ending))
}

/// The answer waits.
pub open spec fn waiting(case: CaseView, stage: StageView, effect: EffectView) -> StepView {
    StepView::Await { task: TaskView { case, stage }, effect }
}

/// The texts with a separator between them.
pub open spec fn listed(items: Seq<Seq<char>>, separator: Seq<char>) -> Seq<char>
    decreases items.len(),
{
    if items.len() == 0 {
        seq![]
    } else if items.len() == 1 {
        items[0]
    } else {
        listed(items.drop_last(), separator) + separator + items.last()
    }
}

/// The acknowledgement of a payload that is not stored.
pub open spec fn acknowledged(request: RequestView) -> ResponseView {
    ResponseView::html(
        200,
        pages::bytes_text("<h1>POST received</h1><p>"@, request.body.len(), " bytes.</p>"@),
    )
}

/// The next step for a request whose path has been mapped into the file system.
pub open spec fn mapped(
    servers: Seq<ServerView>,
    request: RequestView,
    route: config::RouteView,
    case: CaseView,
) -> StepView {
    match paths::interpreter_of(route, case.path) {
        Some(interpreter) => waiting(
            case,
            StageView::Script { interpreter },
            EffectView::Probe(case.path),
        ),
        None => if request.method == "GET"@ || request.method == "HEAD"@ {
            waiting(
                case,
                StageView::Get { index: route.index, listing: route.directory_listing },
                EffectView::Probe(case.path),
            )
        } else if request.method == "POST"@ {
            if route.upload {
                waiting(case, StageView::Post, EffectView::Probe(case.path))
            } else {
                answering(case, acknowledged(request))
            }
        } else if request.method == "DELETE"@ {
            waiting(case, StageView::Delete, EffectView::Probe(case.path))
        } else {
            failing(servers, case, 501, None)
        },
    }
}

/// The first step for a request. `id` is its session, which has been seen on its
/// own page `count` times.
pub open spec fn dispatched(
    servers: Seq<ServerView>,
    request: RequestView,
    case: CaseView,
    id: Seq<char>,
    count: u64,
) -> StepView {
    let server = servers[case.server];
    if request.body.len() > server.max_body_size {
        failing(servers, case, 413, None)
    } else if request.path == "/session"@ {
        answering(case, ResponseView::html(200, pages::session_text(id, count)))
    } else {
        match server.route(request.path) {
            None => failing(servers, case, 404, None),
            Some(route) => if !route.allows(request.method) {
                failing(servers, case, 405, Some(listed(route.methods, ", "@)))
            } else {
                match route.redirect {
                    Some(target) => answering(
                        case,
                        ResponseView::html(301, pages::moved_text(target)).with_header(
                            "Location"@,
                            target,
                        ),
                    ),
                    None => {
                        let root = match route.root {
                            Some(root) => root,
                            None => "."@,
                        };
                        match paths::resolved(root, route.prefix, request.path) {
                            None => failing(servers, case, 403, None),
                            Some(path) => mapped(
                                servers,
                                request,
                                route,
                                CaseView { path, ..case },
                            ),
                        }
                    },
                }
            },
        }
    }
}

/// The listing of a directory, where listings are allowed.
pub open spec fn listing_or_refusal(
    servers: Seq<ServerView>,
    case: CaseView,
    listing: bool,
) -> StepView {
    if listing {
        waiting(case, StageView::Listing, EffectView::ListDirectory(case.path))
    } else {
        failing(servers, case, 403, None)
    }
}

/// The next step for a download.
pub open spec fn get_probed(
    servers: Seq<ServerView>,
    request: RequestView,
    case: CaseView,
    index: Option<Seq<char>>,
    listing: bool,
    kind: PathKind,
) -> StepView {
    match kind {
        PathKind::Dir => if request.path.len() == 0 || request.path.last() != '/' {
            // Directories have a slash at their end.
            answering(
                case,
                ResponseView::html(301, seq![]).with_header("Location"@, request.path + "/"@),
            )
        } else {
            match index {
                Some(name) => {
                    let candidate = paths::joined(case.path, name);
                    waiting(
                        case,
                        StageView::Index { candidate, listing },
                        EffectView::Probe(candidate),
                    )
                },
                None => listing_or_refusal(servers, case, listing),
            }
        },
        PathKind::File => waiting(
            case,
            StageView::File { path: case.path },
            EffectView::ReadFile(case.path),
        ),
        PathKind::Other => failing(servers, case, 404, None),
    }
}

/// The media type that a request announces for its body.
pub open spec fn content_type_of(request: RequestView) -> Seq<char> {
    match request.header("content-type"@) {
        Some(value) => value,
        None => ""@,
    }
}

/// The names of files.
pub open spec fn file_names(files: Seq<FileView>) -> Seq<Seq<char>> {
    Seq::new(files.len(), |i: int| files[i].name)
}

/// The next step for an upload.
pub open spec fn post_probed(request: RequestView, case: CaseView, kind: PathKind) -> StepView {
    match uploads::boundary_of(content_type_of(request)) {
        Some(boundary) => {
            let files = uploads::form_files(request.body, boundary);
            let dir = if kind is Dir {
                case.path
            } else {
                paths::parent_of(case.path)
            };
            if files.len() == 0 {
                answering(case, ResponseView::html(200, "<h1>No file in the upload</h1>"@))
            } else {
                waiting(
                    case,
                    StageView::Save { names: file_names(files) },
                    EffectView::SaveFiles { dir, files },
                )
            }
        },
        None => if kind is Dir {
            answering(case, acknowledged(request))
        } else {
            waiting(
                case,
                StageView::Store,
                EffectView::WriteFile { path: case.path, content: request.body },
            )
        },
    }
}

/// The next step for an answer that waited for this reply.
pub open spec fn resumed(
    servers: Seq<ServerView>,
    request: RequestView,
    task: TaskView,
    reply: ReplyView,
) -> StepView {
    let case = task.case;
    match (task.stage, reply) {
        (StageView::ErrorPage { status, allow }, ReplyView::Content(content)) => answering(
            case,
            error_reply(status, allow, content),
        ),
        (StageView::Script { interpreter }, ReplyView::Kind(kind)) => if kind is File {
            waiting(
                case,
                StageView::Program,
                EffectView::RunProgram { interpreter, script: case.path },
            )
        } else {
            failing(servers, case, 404, None)
        },
        (StageView::Program, ReplyView::Program(Some(response))) => answering(case, response),
        (StageView::Program, ReplyView::Program(None)) => failing(servers, case, 500, None),
        (StageView::Get { index, listing }, ReplyView::Kind(kind)) => get_probed(
            servers,
            request,
            case,
            index,
            listing,
            kind,
        ),
        (StageView::Index { candidate, listing }, ReplyView::Kind(kind)) => if kind is File {
            waiting(case, StageView::File { path: candidate }, EffectView::ReadFile(candidate))
        } else {
            listing_or_refusal(servers, case, listing)
        },
        (StageView::File { path }, ReplyView::Content(Some(content))) => answering(
            case,
            ResponseView::with_body(200, paths::media_type_of(path), content),
        ),
        (StageView::File { path }, ReplyView::Content(None)) => failing(servers, case, 403, None),
        (StageView::Listing, ReplyView::Entries(Some(entries))) => answering(
            case,
            ResponseView::html(200, pages::listing_text(request.path, entries)),
        ),
        (StageView::Listing, ReplyView::Entries(None)) => failing(servers, case, 403, None),
        (StageView::Post, ReplyView::Kind(kind)) => post_probed(request, case, kind),
        (StageView::Save { names }, ReplyView::Done(done)) => if done {
            answering(case, ResponseView::html(201, pages::stored_text(names)))
        } else {
            failing(servers, case, 500, None)
        },
        (StageView::Store, ReplyView::Done(done)) => if done {
            answering(
                case,
                ResponseView::html(
                    201,
                    pages::bytes_text(
                        "<h1>201 Created</h1><p>"@,
                        request.body.len(),
                        " bytes stored.</p>"@,
                    ),
                ),
            )
        } else {
            failing(servers, case, 500, None)
        },
        (StageView::Delete, ReplyView::Kind(kind)) => match kind {
            PathKind::Dir => failing(servers, case, 403, None),
            PathKind::File => waiting(case, StageView::Remove, EffectView::RemoveFile(case.path)),
            PathKind::Other => failing(servers, case, 404, None),
        },
        (StageView::Remove, ReplyView::Done(done)) => if done {
            answering(case, ResponseView::html(200, "<h1>Deleted</h1>"@))
        } else {
            failing(servers, case, 403, None)
        },
        _ => arbitrary(),
    }
}

// ---------------------------------------------------------------- virtual servers

/// The first server of a group that goes by the name.
pub open spec fn named_server(
    servers: Seq<ServerView>,
    group: Seq<usize>,
    host: Seq<char>,
) -> Option<usize>
    decreases group.len(),
{
    if group.len() == 0 {
        None
    } else {
        match servers[group[0] as int].server_name {
            Some(name) => if text::same_letters(name, host) {
                Some(group[0])
            } else {
                named_server(servers, group.skip(1), host)
            },
            None => named_server(servers, group.skip(1), host),
        }
    }
}

/// The servers behind each listener, and the sessions.
#[verifier::ext_equal]
pub struct HandlerView {
    pub servers: Seq<ServerView>,
    pub groups: Seq<Seq<usize>>,
    pub sessions: Map<Seq<char>, Visits>,
}

impl HandlerView {
    /// There is at least one server behind the listener.
    pub open spec fn serves(self, listener: int) -> bool {
        &&& 0 <= listener < self.groups.len()
        &&& self.groups[listener].len() > 0
        &&& forall|i: int|
            0 <= i < self.groups[listener].len() ==> (#[trigger] self.groups[listener][i])
                < self.servers.len()
    }

    /// The server for a host name: the first one behind the listener that goes by
    /// it, or else the first one.
    pub open spec fn server_index(self, listener: int, host: Option<Seq<char>>) -> usize {
        let group = self.groups[listener];
        match host {
            Some(name) => match named_server(self.servers, group, name) {
                Some(index) => index,
                None => group[0],
            },
            None => group[0],
        }
    }

    /// The answer is about one of the servers.
    pub open spec fn knows(self, task: TaskView) -> bool {
        0 <= task.case.server < self.servers.len()
    }

    /// An answer that waits can be taken up with any reply to the effect that it
    /// waits for.
    pub open spec fn can_resume(self, step: StepView) -> bool {
        step matches StepView::Await { task, effect } ==> {
            &&& self.knows(task)
            &&& forall|reply: ReplyView| #[trigger]
                effect.answered_by(reply) ==> task.stage.takes(reply)
        }
    }
}

/// The server goes by the name.
pub open spec fn goes_by(server: ServerView, host: Seq<char>) -> bool {
    server.server_name matches Some(name) && text::same_letters(name, host)
}

proof fn lemma_named_server(servers: Seq<ServerView>, group: Seq<usize>, host: Seq<char>)
    ensures
        match named_server(servers, group, host) {
            Some(index) => exists|k: int|
                #![trigger group[k]]
                0 <= k < group.len() && group[k] == index && goes_by(
                    servers[index as int],
                    host,
                ) && forall|j: int| 0 <= j < k ==> !goes_by(servers[#[trigger] group[j] as int], host),
            None => forall|j: int|
                0 <= j < group.len() ==> !goes_by(servers[#[trigger] group[j] as int], host),
        },
    decreases group.len(),
{
    if group.len() > 0 {
        let rest = group.skip(1);
        lemma_named_server(servers, rest, host);
        if goes_by(servers[group[0] as int], host) {
            assert(group[0] == group[0]);
        } else {
            match named_server(servers, rest, host) {
                Some(index) => {
                    let k = choose|k: int|
                        #![trigger rest[k]]
                        0 <= k < rest.len() && rest[k] == index && goes_by(
                            servers[index as int],
                            host,
                        ) && forall|j: int|
                            0 <= j < k ==> !goes_by(servers[#[trigger] rest[j] as int], host);
                    assert(group[k + 1] == index);
                    assert forall|j: int| 0 <= j < k + 1 implies !goes_by(
                        servers[#[trigger] group[j] as int],
                        host,
                    ) by {
                        if j > 0 {
                            assert(rest[j - 1] == group[j]);
                        }
                    }
                },
                None => {
                    assert forall|j: int| 0 <= j < group.len() implies !goes_by(
                        servers[#[trigger] group[j] as int],
                        host,
                    ) by {
                        if j > 0 {
                            assert(rest[j - 1] == group[j]);
                        }
                    }
                },
            }
        }
    }
}

/// A host name picks a server behind the listener: the first one that goes by it,
/// and the default one where none does.
pub proof fn host_name_picks_the_server(handler: HandlerView, listener: int, host: Seq<char>)
    requires
        handler.serves(listener),
    ensures
        ({
            let group = handler.groups[listener];
            let index = handler.server_index(listener, Some(host));
            &&& index < handler.servers.len()
            &&& (forall|j: int|
                0 <= j < group.len() ==> !goes_by(
                    handler.servers[#[trigger] group[j] as int],
                    host,
                )) ==> index == group[0]
            &&& forall|j: int|
                0 <= j < group.len() && goes_by(handler.servers[#[trigger] group[j] as int], host)
                    ==> goes_by(handler.servers[index as int], host)
        }),
{
    let group = handler.groups[listener];
    lemma_named_server(handler.servers, group, host);
    if let Some(index) = named_server(handler.servers, group, host) {
        let k = choose|k: int|
            #![trigger group[k]]
            0 <= k < group.len() && group[k] == index && goes_by(
                handler.servers[index as int],
                host,
            ) && forall|j: int|
                0 <= j < k ==> !goes_by(handler.servers[#[trigger] group[j] as int], host);
        assert(handler.groups[listener][k] < handler.servers.len());
    } else {
        assert(handler.groups[listener][0] < handler.servers.len());
    }
}

/// The contents of a list of lists.
pub open spec fn group_views(groups: Seq<Vec<usize>>) -> Seq<Seq<usize>> {
    Seq::new(groups.len(), |i: int| groups[i]@)
}

/// Answers requests for a set of servers.
pub struct Handler {
    servers: Vec<ServerConfig>,
    /// listener index -> indices into `servers` (first one is the default).
    groups: Vec<Vec<usize>>,
    /// Only sessions that actually carry server-side state land here.
    sessions: SessionStore,
}

impl View for Handler {
    type V = HandlerView;

    closed spec fn view(&self) -> HandlerView {
        HandlerView {
            servers: config::server_views(self.servers@),
            groups: group_views(self.groups@),
            sessions: self.sessions@,
        }
    }
}

/// The host that the lines of a head name, up to the blank one.
pub open spec fn host_in_lines(lines: Seq<Seq<char>>) -> Option<Seq<char>>
    decreases lines.len(),
{
    if lines.len() == 0 || lines[0].len() == 0 {
        None
    } else {
        match text::cut_at(lines[0], ':') {
            Some((name, value)) => if text::same_letters(text::trimmed(name), "host"@) {
                Some(text::lowered(text::before(text::trimmed(value), ':')))
            } else {
                host_in_lines(lines.skip(1))
            },
            None => host_in_lines(lines.skip(1)),
        }
    }
}

/// The header bytes in what was received: up to the blank line, or all of it as
/// long as there is none.
pub open spec fn header_part(raw: Seq<u8>) -> Seq<u8> {
    match text::first_index(raw, text::blank_line()) {
        Some(end) => raw.take(end),
        None => raw,
    }
}

/// The host that raw (possibly incomplete) header bytes name. What is behind the
/// headers, such as a part of a body, does not matter.
pub open spec fn raw_host_of(raw: Seq<u8>) -> Option<Seq<char>> {
    match text::decoded(header_part(raw)) {
        Some(head) => host_in_lines(text::pieces(head, text::line_end()).skip(1)),
        None => None,
    }
}

/// Extract the Host header from raw (possibly incomplete) header bytes.
pub fn raw_host(raw: &[u8]) -> (host: Option<String>)
    ensures
        text::shown(host) == raw_host_of(raw@),
{
    let header_bytes: &[u8] = match text::find_blank_line(raw) {
        Some(end) => slice_subrange(raw, 0, end),
        None => raw,
    };
    assert(header_bytes@ =~= header_part(raw@));
    let head: Vec<char> = match text::decode(header_bytes) {
        Some(chars) => chars,
        None => {
            return None;
        },
    };
    let lines: Vec<&[char]> = text::split_lines(head.as_slice());
    let ghost all = text::contents(lines@);
    let wanted: Vec<char> = text::chars_of("host");
    let mut i: usize = 1;
    while i < lines.len()
        invariant
            1 <= i <= lines@.len(),
            all == text::contents(lines@),
            wanted@ == "host"@,
            raw_host_of(raw@) == host_in_lines(all.skip(i as int)),
        decreases lines@.len() - i,
    {
        assert(all.skip(i as int).skip(1) =~= all.skip(i + 1));
        assert(all.skip(i as int)[0] == lines@[i as int]@);
        if lines[i].len() == 0 {
            return None;
        }
        if let Some((name, value)) = text::split_once(lines[i], ':') {
            if text::eq_ignore_ascii_case(text::trim(name), wanted.as_slice()) {
                let host: Vec<char> = text::to_ascii_lowercase(
                    text::up_to(text::trim(value), ':'),
                );
                return Some(text::text_of(host.as_slice()));
            }
        }
        i += 1;
    }
    None
}

// ------------------------------------------------------------------------ answers

/// Gives an answer what every answer gets in the end.
fn finish(response: Response, ending: &Ending) -> (sent: Response)
    ensures
        sent@ == finished(response@, ending.view()),
{
    let mut sent: Response = response;
    if let Some(id) = &ending.cookie {
        sent.set_header(
            "Set-Cookie",
            text::concat3("SID=", id.as_str(), "; Path=/; HttpOnly").as_str(),
        );
    }
    // A HEAD answer is the GET answer minus the body.
    if ending.head {
        sent.suppress_body = true;
    }
    sent
}

fn answer(case: &Case, response: Response) -> (step: Step)
    ensures
        step@ == answering(case.view(), response@),
{
    Step::Done(finish(response, &case.ending))
}

fn wait(case: Case, stage: Stage, effect: Effect) -> (step: Step)
    ensures
        step@ == waiting(case.view(), stage.view(), effect@),
{
    Step::Await { task: Task { case, stage }, effect }
}

/// The answer for an error.
fn error_answer(status: u16, allow: &Option<String>, custom: Option<Vec<u8>>) -> (response: Response)
    ensures
        response@ == error_reply(
            status,
            text::shown(*allow),
            match custom {
                Some(content) => Some(content@),
                None => None,
            },
        ),
{
    let mut response: Response = match custom {
        Some(content) => Response::with_body(status, "text/html; charset=utf-8", content),
        None => Response::html(status, pages::error_page_text(status)),
    };
    if let Some(methods) = allow {
        response.set_header("Allow", methods.as_str());
    }
    response
}

/// The texts with a separator between them.
fn join_list(items: &Vec<String>, separator: &str) -> (joined: String)
    ensures
        joined@ == listed(text::texts(items@), separator@),
{
    let ghost all = text::texts(items@);
    let mut out: Vec<char> = Vec::new();
    let mut i: usize = 0;
    assert(out@ =~= listed(all.take(0), separator@));
    while i < items.len()
        invariant
            i <= items@.len(),
            all == text::texts(items@),
            out@ == listed(all.take(i as int), separator@),
        decreases items@.len() - i,
    {
        let ghost before = out@;
        if i > 0 {
            text::push_text(&mut out, separator);
        }
        text::push_text(&mut out, items[i].as_str());
        proof {
            let upto = all.take(i + 1);
            assert(upto.drop_last() =~= all.take(i as int));
            assert(upto.last() == items@[i as int]@);
            if i == 0 {
                assert(out@ =~= upto[0]);
            }
        }
        i += 1;
    }
    assert(all.take(i as int) =~= all);
    text::text_of(out.as_slice())
}

/// The names of files.
fn names_of(files: &Vec<UploadedFile>) -> (names: Vec<String>)
    ensures
        text::texts(names@) == file_names(uploads::file_views(files@)),
{
    let mut names: Vec<String> = Vec::new();
    let mut i: usize = 0;
    let ghost all = file_names(uploads::file_views(files@));
    assert(text::texts(names@) =~= all.take(0));
    while i < files.len()
        invariant
            i <= files@.len(),
            all == file_names(uploads::file_views(files@)),
            text::texts(names@) == all.take(i as int),
        decreases files@.len() - i,
    {
        let ghost before = text::texts(names@);
        names.push(files[i].name.clone());
        proof {
            assert(all[i as int] == files@[i as int].name@);
            assert(text::texts(names@) =~= before.push(files@[i as int].name@));
            assert(text::texts(names@) =~= all.take(i + 1));
        }
        i += 1;
    }
    assert(all.take(i as int) =~= all);
    names
}

/// The acknowledgement of a payload that is not stored.
fn acknowledge(request: &Request) -> (response: Response)
    ensures
        response@ == acknowledged(request@),
{
    Response::html(
        200,
        pages::bytes_page("<h1>POST received</h1><p>", request.body.len(), " bytes.</p>"),
    )
}

/// The next step for an upload.
fn post(request: &Request, case: Case, kind: PathKind) -> (step: Step)
    ensures
        step@ == post_probed(request@, case.view(), kind),
{
    let content_type: &str = match request.header("content-type") {
        Some(value) => value,
        None => "",
    };
    let is_dir: bool = kind == PathKind::Dir;
    // Browser form upload: multipart/form-data.
    if let Some(boundary) = uploads::multipart_boundary(content_type) {
        let files: Vec<UploadedFile> = uploads::parse_multipart(
            request.body.as_slice(),
            boundary.as_str(),
        );
        if files.len() == 0 {
            return answer(
                &case,
                Response::html(200, "<h1>No file in the upload</h1>".to_owned()),
            );
        }
        let dir: String = if is_dir {
            case.path.clone()
        } else {
            paths::parent(case.path.as_str())
        };
        let names: Vec<String> = names_of(&files);
        return wait(case, Stage::Save { names }, Effect::SaveFiles { dir, files });
    }
    if is_dir {
        // Generic POST: acknowledge the payload.
        return answer(&case, acknowledge(request));
    }
    // Raw body upload straight to the URL target (curl --data-binary).
    let path: String = case.path.clone();
    let content: Vec<u8> = slice_to_vec(request.body.as_slice());
    wait(case, Stage::Store, Effect::WriteFile { path, content })
}

impl Handler {
    /// A handler that knows no sessions.
    pub fn new(servers: Vec<ServerConfig>, groups: Vec<Vec<usize>>) -> (handler: Handler)
        ensures
            handler@ == (HandlerView {
                servers: config::server_views(servers@),
                groups: group_views(groups@),
                sessions: Map::empty(),
            }),
    {
        Handler { servers, groups, sessions: SessionStore::new() }
    }

    /// How many sessions are remembered.
    pub fn session_count(&self) -> (n: usize)
        ensures
            n == self@.sessions.dom().len(),
            n <= sessions::MAX_SESSIONS,
    {
        self.sessions.len()
    }

    /// The server for a host name.
    fn server_for(&self, listener: usize, host: &Option<String>) -> (index: usize)
        requires
            self@.serves(listener as int),
        ensures
            index == self@.server_index(listener as int, text::shown(*host)),
            index < self.servers@.len(),
    {
        let group: &Vec<usize> = &self.groups[listener];
        let ghost all = group@;
        assert(self@.groups[listener as int] == all);
        assert(self@.groups[listener as int][0] < self@.servers.len());
        if let Some(name) = host {
            let mut i: usize = 0;
            assert(all.skip(0) =~= all);
            while i < group.len()
                invariant
                    i <= group@.len(),
                    all == group@,
                    all == self@.groups[listener as int],
                    self@.serves(listener as int),
                    named_server(self@.servers, all, name@) == named_server(
                        self@.servers,
                        all.skip(i as int),
                        name@,
                    ),
                    text::shown(*host) == Some(name@),
                decreases group@.len() - i,
            {
                let index: usize = group[i];
                assert(self@.groups[listener as int][i as int] < self@.servers.len());
                assert(all.skip(i as int).skip(1) =~= all.skip(i + 1));
                assert(self@.servers[index as int] == self.servers@[index as int]@);
                if let Some(server_name) = &self.servers[index].server_name {
                    if text::same_letters_text(server_name.as_str(), name.as_str()) {
                        return index;
                    }
                }
                i += 1;
            }
        }
        // The first server for a host:port is the default.
        group[0]
    }

    /// Body limit for an incoming (not fully parsed) request; scans the raw
    /// header bytes for the Host header to pick the right virtual server.
    pub fn body_limit(&self, raw: &[u8], listener: usize) -> (limit: usize)
        requires
            self@.serves(listener as int),
        ensures
            limit == self@.servers[self@.server_index(
                listener as int,
                raw_host_of(raw@),
            ) as int].max_body_size,
    {
        let index: usize = self.server_for(listener, &raw_host(raw));
        assert(self@.servers[index as int] == self.servers@[index as int]@);
        self.servers[index].max_body_size
    }

    /// The answer is an error.
    fn fail(&self, case: Case, status: u16, allow: Option<String>) -> (step: Step)
        requires
            case.server < self.servers@.len(),
        ensures
            step@ == failing(self@.servers, case.view(), status, text::shown(allow)),
            self@.can_resume(step@),
    {
        broadcast use vstd::std_specs::hash::group_hash_axioms;

        let server: &ServerConfig = &self.servers[case.server];
        assert(self@.servers[case.server as int] == server@);
        match server.error_pages.get(&status) {
            Some(page) => {
                let path: String = page.clone();
                wait(case, Stage::ErrorPage { status, allow }, Effect::ReadFile(path))
            },
            None => answer(&case, error_answer(status, &allow, None)),
        }
    }

    /// The answer for an error in a request that could not be read.
    pub fn error_response(&self, status: u16, listener: usize, raw: &[u8]) -> (step: Step)
        requires
            self@.serves(listener as int),
        ensures
            step@ == failing(
                self@.servers,
                plain_case(self@.server_index(listener as int, raw_host_of(raw@)) as int),
                status,
                None,
            ),
            self@.can_resume(step@),
    {
        let server: usize = self.server_for(listener, &raw_host(raw));
        self.fail(new_case(server), status, None)
    }

    /// The answer for an error in a request that was read.
    pub fn error_response_for(&self, status: u16, request: &Request, listener: usize) -> (step: Step)
        requires
            self@.serves(listener as int),
        ensures
            step@ == failing(
                self@.servers,
                plain_case(self@.server_index(listener as int, request@.host_name()) as int),
                status,
                None,
            ),
            self@.can_resume(step@),
    {
        let server: usize = self.server_for(listener, &request.hostname());
        self.fail(new_case(server), status, None)
    }

    /// Count one visit for a session.
    pub fn touch_session(&mut self, session_id: &str, now: u64) -> (count: u64)
        ensures
            sessions::visited(old(self)@.sessions, session_id@, now, final(self)@.sessions),
            final(self)@.sessions.dom().contains(session_id@),
            final(self)@.sessions[session_id@] == (Visits { count, seen: now }),
            final(self)@.sessions.dom().len() <= sessions::MAX_SESSIONS,
            final(self)@.servers == old(self)@.servers,
            final(self)@.groups == old(self)@.groups,
    {
        self.sessions.touch(session_id, now)
    }

    /// Handles a request that came in through a listener. `fresh` are 16 bytes that
    /// nobody can guess, for the id of a new session; `now` is the time in
    /// nanoseconds since some fixed point.
    pub fn handle(
        &mut self,
        request: &Request,
        listener: usize,
        fresh: &[u8; 16],
        now: u64,
    ) -> (step: Step)
        requires
            old(self)@.serves(listener as int),
        ensures
            handled(
                old(self)@,
                request@,
                listener as int,
                fresh@,
                now,
                final(self)@,
                step@,
            ),
            final(self)@.can_resume(step@),
    {
        reveal(handled);
        let server: usize = self.server_for(listener, &request.hostname());
        // Sessions: make sure every client carries a session cookie.
        let (session_id, is_new): (String, bool) = sessions::ensure_session(request, fresh);
        let mut case: Case = new_case(server);
        if is_new {
            case.ending.cookie = Some(session_id.clone());
        }
        case.ending.head = text::same_text(request.method.as_str(), "HEAD");
        assert(self@.servers[server as int] == self.servers@[server as int]@);

        if request.body.len() > self.servers[server].max_body_size {
            return self.fail(case, 413, None);
        }
        // Built-in session demo page.
        if text::same_text(request.path.as_str(), "/session") {
            let count: u64 = self.touch_session(session_id.as_str(), now);
            return answer(
                &case,
                Response::html(200, pages::session_page(session_id.as_str(), count)),
            );
        }
        self.dispatch(request, case)
    }

    /// The first step for a request that is neither too large nor for the session
    /// page.
    fn dispatch(&self, request: &Request, case: Case) -> (step: Step)
        requires
            case.server < self.servers@.len(),
            request@.body.len() <= self@.servers[case.server as int].max_body_size,
            request@.path != "/session"@,
        ensures
            forall|id: Seq<char>, count: u64|
                step@ == #[trigger] dispatched(self@.servers, request@, case.view(), id, count),
            self@.can_resume(step@),
    {
        let server: &ServerConfig = &self.servers[case.server];
        assert(self@.servers[case.server as int] == server@);
        let route: &RouteConfig = match server.route_for(request.path.as_str()) {
            Some(route) => route,
            None => {
                return self.fail(case, 404, None);
            },
        };
        if !route.allows(request.method.as_str()) {
            let methods: String = join_list(&route.methods, ", ");
            return self.fail(case, 405, Some(methods));
        }
        // Redirection routes.
        if let Some(target) = &route.redirect {
            let mut response: Response = Response::html(301, pages::moved_page(target.as_str()));
            response.set_header("Location", target.as_str());
            return answer(&case, response);
        }
        // Map the URL onto the filesystem, safely.
        let root: &str = match &route.root {
            Some(root) => root.as_str(),
            None => ".",
        };
        proof {
            paths::lemma_covered_path_can_be_cut(route@, request@.path);
        }
        match paths::resolve_path(root, route.prefix.as_str(), request.path.as_str()) {
            Some(path) => {
                let mut case: Case = case;
                case.path = path;
                self.route_request(request, route, case)
            },
            None => self.fail(case, 403, None),
        }
    }

    /// The next step for a request whose path has been mapped into the file system.
    fn route_request(&self, request: &Request, route: &RouteConfig, case: Case) -> (step: Step)
        requires
            case.server < self.servers@.len(),
        ensures
            step@ == mapped(self@.servers, request@, route@, case.view()),
            self@.can_resume(step@),
    {
        let path: String = case.path.clone();
        if let Some(interpreter) = paths::cgi_target(route, path.as_str()) {
            return wait(case, Stage::Script { interpreter }, Effect::Probe(path));
        }
        let method: &str = request.method.as_str();
        if text::same_text(method, "GET") || text::same_text(method, "HEAD") {
            let index: Option<String> = match &route.index {
                Some(name) => Some(name.clone()),
                None => None,
            };
            wait(
                case,
                Stage::Get { index, listing: route.directory_listing },
                Effect::Probe(path),
            )
        } else if text::same_text(method, "POST") {
            if route.upload {
                wait(case, Stage::Post, Effect::Probe(path))
            } else {
                // Generic POST: acknowledge the payload.
                answer(&case, acknowledge(request))
            }
        } else if text::same_text(method, "DELETE") {
            wait(case, Stage::Delete, Effect::Probe(path))
        } else {
            self.fail(case, 501, None)
        }
    }

    /// The listing of a directory, where listings are allowed.
    fn list_or_refuse(&self, case: Case, listing: bool) -> (step: Step)
        requires
            case.server < self.servers@.len(),
        ensures
            step@ == listing_or_refusal(self@.servers, case.view(), listing),
            self@.can_resume(step@),
    {
        if listing {
            let path: String = case.path.clone();
            wait(case, Stage::Listing, Effect::ListDirectory(path))
        } else {
            self.fail(case, 403, None)
        }
    }

    /// The next step for a download.
    fn get(
        &self,
        request: &Request,
        case: Case,
        index: Option<String>,
        listing: bool,
        kind: PathKind,
    ) -> (step: Step)
        requires
            case.server < self.servers@.len(),
        ensures
            step@ == get_probed(
                self@.servers,
                request@,
                case.view(),
                text::shown(index),
                listing,
                kind,
            ),
            self@.can_resume(step@),
    {
        match kind {
            PathKind::Dir => {
                // Directories are canonicalized to a trailing slash.
                let mut url: Vec<char> = text::chars_of(request.path.as_str());
                if url.len() == 0 || url[url.len() - 1] != '/' {
                    text::push_text(&mut url, "/");
                    let page: String = String::new();
                    assert(page@ =~= seq![]);
                    let mut response: Response = Response::html(301, page);
                    response.set_header("Location", text::text_of(url.as_slice()).as_str());
                    return answer(&case, response);
                }
                // Default file for directory requests.
                match index {
                    Some(name) => {
                        let candidate: String = paths::join(case.path.as_str(), name.as_str());
                        let path: String = candidate.clone();
                        wait(case, Stage::Index { candidate, listing }, Effect::Probe(path))
                    },
                    None => self.list_or_refuse(case, listing),
                }
            },
            PathKind::File => {
                let path: String = case.path.clone();
                let file: String = case.path.clone();
                wait(case, Stage::File { path }, Effect::ReadFile(file))
            },
            PathKind::Other => self.fail(case, 404, None),
        }
    }

    /// Goes on with an answer that waited for this reply.
    pub fn resume(&self, request: &Request, task: Task, reply: Reply) -> (step: Step)
        requires
            self@.knows(task@),
            task@.stage.takes(reply@),
        ensures
            step@ == resumed(self@.servers, request@, task@, reply@),
            self@.can_resume(step@),
    {
        let Task { case, stage } = task;
        match (stage, reply) {
            (Stage::ErrorPage { status, allow }, Reply::Content(content)) => {
                let response: Response = error_answer(status, &allow, content);
                answer(&case, response)
            },
            (Stage::Script { interpreter }, Reply::Kind(kind)) => {
                if kind == PathKind::File {
                    let script: String = case.path.clone();
                    wait(case, Stage::Program, Effect::RunProgram { interpreter, script })
                } else {
                    self.fail(case, 404, None)
                }
            },
            (Stage::Program, Reply::Program(Some(response))) => answer(&case, response),
            (Stage::Program, Reply::Program(None)) => self.fail(case, 500, None),
            (Stage::Get { index, listing }, Reply::Kind(kind)) => self.get(
                request,
                case,
                index,
                listing,
                kind,
            ),
            (Stage::Index { candidate, listing }, Reply::Kind(kind)) => {
                if kind == PathKind::File {
                    let path: String = candidate.clone();
                    wait(case, Stage::File { path: candidate }, Effect::ReadFile(path))
                } else {
                    self.list_or_refuse(case, listing)
                }
            },
            (Stage::File { path }, Reply::Content(Some(content))) => answer(
                &case,
                Response::with_body(200, paths::mime_type(path.as_str()), content),
            ),
            (Stage::File { path }, Reply::Content(None)) => self.fail(case, 403, None),
            (Stage::Listing, Reply::Entries(Some(entries))) => answer(
                &case,
                Response::html(200, pages::listing_page(request.path.as_str(), &entries)),
            ),
            (Stage::Listing, Reply::Entries(None)) => self.fail(case, 403, None),
            (Stage::Post, Reply::Kind(kind)) => post(request, case, kind),
            (Stage::Save { names }, Reply::Done(done)) => {
                if done {
                    answer(&case, Response::html(201, pages::stored_page(&names)))
                } else {
                    self.fail(case, 500, None)
                }
            },
            (Stage::Store, Reply::Done(done)) => {
                if done {
                    answer(
                        &case,
                        Response::html(
                            201,
                            pages::bytes_page(
                                "<h1>201 Created</h1><p>",
                                request.body.len(),
                                " bytes stored.</p>",
                            ),
                        ),
                    )
                } else {
                    self.fail(case, 500, None)
                }
            },
            (Stage::Delete, Reply::Kind(kind)) => match kind {
                PathKind::Dir => self.fail(case, 403, None),
                PathKind::File => {
                    let path: String = case.path.clone();
                    wait(case, Stage::Remove, Effect::RemoveFile(path))
                },
                PathKind::Other => self.fail(case, 404, None),
            },
            (Stage::Remove, Reply::Done(done)) => {
                if done {
                    answer(&case, Response::html(200, "<h1>Deleted</h1>".to_owned()))
                } else {
                    self.fail(case, 403, None)
                }
            },
            (_, _) => {
                assert(false);
                self.fail(case, 500, None)
            },
        }
    }
}

/// A case that is about a server as a whole.
pub open spec fn plain_case(server: int) -> CaseView {
    CaseView { server, path: seq![], ending: EndingView { cookie: None, head: false } }
}

fn new_case(server: usize) -> (case: Case)
    ensures
        case.view() == plain_case(server as int),
        case.server == server,
{
    let path: String = String::new();
    assert(path@ =~= seq![]);
    Case { server, path, ending: Ending { cookie: None, head: false } }
}

/// What every answer to a request gets in the end.
pub open spec fn ending_for(request: RequestView, fresh: Seq<u8>) -> EndingView {
    let (id, is_new) = sessions::session_of(request, fresh);
    EndingView {
        cookie: if is_new {
            Some(id)
        } else {
            None
        },
        head: request.method == "HEAD"@,
    }
}

/// A request leads from one state of the handler to the other, and to this first
/// step of the answer. Nothing changes but the sessions, and those only where the
/// request is for the page that shows them.
#[verifier::opaque]
pub open spec fn handled(
    before: HandlerView,
    request: RequestView,
    listener: int,
    fresh: Seq<u8>,
    now: u64,
    after: HandlerView,
    step: StepView,
) -> bool {
    let index = before.server_index(listener, request.host_name()) as int;
    let id = sessions::session_of(request, fresh).0;
    let case = CaseView { ending: ending_for(request, fresh), ..plain_case(index) };
    &&& after.servers == before.servers
    &&& after.groups == before.groups
    &&& if asks_for_session(before.servers[index], request) {
        sessions::visited(before.sessions, id, now, after.sessions)
    } else {
        after.sessions == before.sessions
    }
    &&& step == dispatched(before.servers, request, case, id, after.sessions[id].count)
}

/// The request is for the page that shows the session.
pub open spec fn asks_for_session(server: ServerView, request: RequestView) -> bool {
    request.body.len() <= server.max_body_size && request.path == "/session"@
}

} // verus!

//! What the answers come to.
//!
//! The handler gives an answer step by step. Here it is stated as a whole, for
//! any state of the files and programs that its effects are about, together with
//! what holds of every answer.

use vstd::prelude::*;

use crate::cgi;
use crate::config::{RouteView, ServerView};
use crate::handlers;
use crate::handlers::{
    CaseView, EffectView, EndingView, HandlerView, PathKind, ReplyView, StageView, StepView,
    TaskView,
};
use crate::http::{RequestView, ResponseView};
use crate::pages;
use crate::pages::EntryView;
use crate::paths;
use crate::sessions;
use crate::uploads;
use crate::uploads::FileView;

verus! {

/// What the effects come to.
pub struct World {
    /// What a path leads to.
    pub kind: spec_fn(Seq<char>) -> PathKind,
    /// The content of the file at a path.
    pub content: spec_fn(Seq<char>) -> Option<Seq<u8>>,
    /// The entries of the directory at a path.
    pub entries: spec_fn(Seq<char>) -> Option<Seq<EntryView>>,
    /// The answer of an interpreter that runs the script at a path.
    pub program: spec_fn(Seq<char>, Seq<char>) -> Option<ResponseView>,
    /// Whether something can be written or removed.
    pub done: spec_fn(EffectView) -> bool,
}

impl World {
    /// What an effect comes to.
    pub open spec fn reply(self, effect: EffectView) -> ReplyView {
        match effect {
            EffectView::Probe(path) => ReplyView::Kind((self.kind)(path)),
            EffectView::ReadFile(path) => ReplyView::Content((self.content)(path)),
            EffectView::ListDirectory(path) => ReplyView::Entries((self.entries)(path)),
            EffectView::RunProgram { interpreter, script } => ReplyView::Program(
                (self.program)(interpreter, script),
            ),
            _ => ReplyView::Done((self.done)(effect)),
        }
    }
}

/// How many more effects an answer can wait for.
pub open spec fn distance(step: StepView) -> nat {
    match step {
        StepView::Done(_) => 0,
        StepView::Await { task, .. } => match task.stage {
            StageView::ErrorPage { .. } => 1,
            StageView::Get { .. } => 4,
            StageView::Index { .. } => 3,
            StageView::Script { .. } => 3,
            StageView::Post => 3,
            StageView::Delete => 3,
            _ => 2,
        },
    }
}

/// An answer never waits for more than four effects: each reply brings it nearer
/// to its end.
pub proof fn every_reply_brings_the_answer_nearer(
    servers: Seq<ServerView>,
    request: RequestView,
    task: TaskView,
    effect: EffectView,
    reply: ReplyView,
)
    requires
        task.stage.takes(reply),
    ensures
        distance(handlers::resumed(servers, request, task, reply)) < distance(
            StepView::Await { task, effect },
        ) <= 4,
{
}

/// The answer in the end.
pub open spec fn settled(
    servers: Seq<ServerView>,
    request: RequestView,
    step: StepView,
    world: World,
) -> ResponseView
    decreases distance(step),
{
    match step {
        StepView::Done(response) => response,
        StepView::Await { task, effect } => if task.stage.takes(world.reply(effect)) {
            proof {
                every_reply_brings_the_answer_nearer(
                    servers,
                    request,
                    task,
                    effect,
                    world.reply(effect),
                );
            }
            settled(
                servers,
                request,
                handlers::resumed(servers, request, task, world.reply(effect)),
                world,
            )
        } else {
            arbitrary()
        },
    }
}

/// The answer for an error: the custom page of the server, where there is one that
/// can be read, or else the built-in one.
pub open spec fn error(
    server: ServerView,
    status: u16,
    allow: Option<Seq<char>>,
    world: World,
) -> ResponseView {
    handlers::error_reply(
        status,
        allow,
        if server.error_pages.dom().contains(status) {
            (world.content)(server.error_pages[status])
        } else {
            None
        },
    )
}

/// The file at a path.
pub open spec fn file(server: ServerView, path: Seq<char>, world: World) -> ResponseView {
    match (world.content)(path) {
        Some(content) => ResponseView::with_body(200, paths::media_type_of(path), content),
        None => error(server, 403, None, world),
    }
}

/// The directory at a path, as far as the route shows it.
pub open spec fn directory(
    server: ServerView,
    route: RouteView,
    request: RequestView,
    path: Seq<char>,
    world: World,
) -> ResponseView {
    if request.path.len() == 0 || request.path.last() != '/' {
        ResponseView::html(301, seq![]).with_header("Location"@, request.path + "/"@)
    } else if route.index is Some && (world.kind)(paths::joined(path, route.index->0)) is File {
        file(server, paths::joined(path, route.index->0), world)
    } else if route.directory_listing {
        match (world.entries)(path) {
            Some(entries) => ResponseView::html(200, pages::listing_text(request.path, entries)),
            None => error(server, 403, None, world),
        }
    } else {
        error(server, 403, None, world)
    }
}

/// What an upload comes to.
pub open spec fn upload(
    server: ServerView,
    request: RequestView,
    path: Seq<char>,
    world: World,
) -> ResponseView {
    let is_dir = (world.kind)(path) is Dir;
    match uploads::boundary_of(handlers::content_type_of(request)) {
        Some(boundary) => {
            let files = uploads::form_files(request.body, boundary);
            let dir = if is_dir {
                path
            } else {
                paths::parent_of(path)
            };
            if files.len() == 0 {
                ResponseView::html(200, "<h1>No file in the upload</h1>"@)
            } else if (world.done)(EffectView::SaveFiles { dir, files }) {
                ResponseView::html(201, pages::stored_text(handlers::file_names(files)))
            } else {
                error(server, 500, None, world)
            }
        },
        None => if is_dir {
            handlers::acknowledged(request)
        } else if (world.done)(EffectView::WriteFile { path, content: request.body }) {
            ResponseView::html(
                201,
                pages::bytes_text(
                    "<h1>201 Created</h1><p>"@,
                    request.body.len(),
                    " bytes stored.</p>"@,
                ),
            )
        } else {
            error(server, 500, None, world)
        },
    }
}

/// The answer for a path in the file system.
pub open spec fn answer_at(
    server: ServerView,
    route: RouteView,
    request: RequestView,
    path: Seq<char>,
    world: World,
) -> ResponseView {
    let kind = (world.kind)(path);
    match paths::interpreter_of(route, path) {
        Some(interpreter) => if !(kind is File) {
            error(server, 404, None, world)
        } else {
            match (world.program)(interpreter, path) {
                Some(response) => response,
                None => error(server, 500, None, world),
            }
        },
        None => if request.method == "GET"@ || request.method == "HEAD"@ {
            match kind {
                PathKind::Dir => directory(server, route, request, path, world),
                PathKind::File => file(server, path, world),
                PathKind::Other => error(server, 404, None, world),
            }
        } else if request.method == "POST"@ {
            if route.upload {
                upload(server, request, path, world)
            } else {
                handlers::acknowledged(request)
            }
        } else if request.method == "DELETE"@ {
            match kind {
                PathKind::Dir => error(server, 403, None, world),
                PathKind::File => if (world.done)(EffectView::RemoveFile(path)) {
                    ResponseView::html(200, "<h1>Deleted</h1>"@)
                } else {
                    error(server, 403, None, world)
                },
                PathKind::Other => error(server, 404, None, world),
            }
        } else {
            error(server, 501, None, world)
        },
    }
}

/// The directory that a route maps its paths into.
pub open spec fn root_of(route: RouteView) -> Seq<char> {
    match route.root {
        Some(root) => root,
        None => "."@,
    }
}

/// The answer to a request, but for what every answer gets in the end.
pub open spec fn answer(
    server: ServerView,
    request: RequestView,
    id: Seq<char>,
    count: u64,
    world: World,
) -> ResponseView {
    if request.body.len() > server.max_body_size {
        error(server, 413, None, world)
    } else if request.path == "/session"@ {
        ResponseView::html(200, pages::session_text(id, count))
    } else {
        match server.route(request.path) {
            None => error(server, 404, None, world),
            Some(route) => if !route.allows(request.method) {
                error(server, 405, Some(handlers::listed(route.methods, ", "@)), world)
            } else if route.redirect is Some {
                ResponseView::html(301, pages::moved_text(route.redirect->0)).with_header(
                    "Location"@,
                    route.redirect->0,
                )
            } else {
                match paths::resolved(root_of(route), route.prefix, request.path) {
                    None => error(server, 403, None, world),
                    Some(path) => answer_at(server, route, request, path, world),
                }
            },
        }
    }
}

proof fn lemma_failing(
    servers: Seq<ServerView>,
    request: RequestView,
    case: CaseView,
    status: u16,
    allow: Option<Seq<char>>,
    world: World,
)
    ensures
        settled(servers, request, handlers::failing(servers, case, status, allow), world)
            == handlers::finished(error(servers[case.server], status, allow, world), case.ending),
{
    reveal_with_fuel(settled, 2);
}

proof fn lemma_file(
    servers: Seq<ServerView>,
    request: RequestView,
    case: CaseView,
    path: Seq<char>,
    world: World,
)
    ensures
        settled(
            servers,
            request,
            handlers::waiting(case, StageView::File { path }, EffectView::ReadFile(path)),
            world,
        ) == handlers::finished(file(servers[case.server], path, world), case.ending),
{
    reveal_with_fuel(settled, 2);
    lemma_failing(servers, request, case, 403, None, world);
}

proof fn lemma_directory(
    servers: Seq<ServerView>,
    request: RequestView,
    case: CaseView,
    route: RouteView,
    world: World,
)
    ensures
        settled(
            servers,
            request,
            handlers::get_probed(
                servers,
                request,
                case,
                route.index,
                route.directory_listing,
                PathKind::Dir,
            ),
            world,
        ) == handlers::finished(
            directory(servers[case.server], route, request, case.path, world),
            case.ending,
        ),
{
    reveal_with_fuel(settled, 3);
    lemma_failing(servers, request, case, 403, None, world);
    if let Some(name) = route.index {
        lemma_file(servers, request, case, paths::joined(case.path, name), world);
    }
}

proof fn lemma_mapped(
    servers: Seq<ServerView>,
    request: RequestView,
    case: CaseView,
    route: RouteView,
    world: World,
)
    ensures
        settled(servers, request, handlers::mapped(servers, request, route, case), world)
            == handlers::finished(
            answer_at(servers[case.server], route, request, case.path, world),
            case.ending,
        ),
{
    reveal_with_fuel(settled, 3);
    lemma_failing(servers, request, case, 403, None, world);
    lemma_failing(servers, request, case, 404, None, world);
    lemma_failing(servers, request, case, 500, None, world);
    lemma_failing(servers, request, case, 501, None, world);
    lemma_file(servers, request, case, case.path, world);
    lemma_directory(servers, request, case, route, world);
}

/// Step by step the handler gives the answer as it is stated here, whatever the
/// state of the files and programs.
pub proof fn steps_lead_to_the_answer(
    servers: Seq<ServerView>,
    request: RequestView,
    case: CaseView,
    id: Seq<char>,
    count: u64,
    world: World,
)
    ensures
        settled(
            servers,
            request,
            handlers::dispatched(servers, request, case, id, count),
            world,
        ) == handlers::finished(
            answer(servers[case.server], request, id, count, world),
            case.ending,
        ),
{
    let server = servers[case.server];
    lemma_failing(servers, request, case, 413, None, world);
    lemma_failing(servers, request, case, 404, None, world);
    lemma_failing(servers, request, case, 403, None, world);
    if let Some(route) = server.route(request.path) {
        lemma_failing(
            servers,
            request,
            case,
            405,
            Some(handlers::listed(route.methods, ", "@)),
            world,
        );
        if let Some(path) = paths::resolved(root_of(route), route.prefix, request.path) {
            lemma_mapped(servers, request, CaseView { path, ..case }, route, world);
        }
    }
}

/// A request that was handled leads to the answer as it is stated here, from the
/// server that it is for, with a cookie where its session is new and without a body
/// where it asked for the head only.
pub proof fn handled_request_gets_the_answer(
    before: HandlerView,
    request: RequestView,
    listener: int,
    fresh: Seq<u8>,
    now: u64,
    after: HandlerView,
    step: StepView,
    world: World,
)
    requires
        handlers::handled(before, request, listener, fresh, now, after, step),
    ensures
        ({
            let index = before.server_index(listener, request.host_name()) as int;
            let id = sessions::session_of(request, fresh).0;
            settled(before.servers, request, step, world) == handlers::finished(
                answer(before.servers[index], request, id, after.sessions[id].count, world),
                handlers::ending_for(request, fresh),
            )
        }),
{
    reveal(handlers::handled);
    let index = before.server_index(listener, request.host_name()) as int;
    let id = sessions::session_of(request, fresh).0;
    let case = CaseView {
        ending: handlers::ending_for(request, fresh),
        ..handlers::plain_case(index)
    };
    steps_lead_to_the_answer(
        before.servers,
        request,
        case,
        id,
        after.sessions[id].count,
        world,
    );
}

// ------------------------------------------------------- what holds of every answer

/// A request costs the server no memory, unless it is for the page that shows the
/// session; and then it is one visit of its session.
pub proof fn only_the_session_page_is_remembered(
    before: HandlerView,
    request: RequestView,
    listener: int,
    fresh: Seq<u8>,
    now: u64,
    after: HandlerView,
    step: StepView,
)
    requires
        handlers::handled(before, request, listener, fresh, now, after, step),
    ensures
        after.servers == before.servers,
        after.groups == before.groups,
        request.path != "/session"@ ==> after.sessions == before.sessions,
        after.sessions == before.sessions || sessions::visited(
            before.sessions,
            sessions::session_of(request, fresh).0,
            now,
            after.sessions,
        ),
{
    reveal(handlers::handled);
}

/// A custom error page that is missing or cannot be read changes nothing but the
/// page: the answer is the built-in one. Either way the status is the error's.
pub proof fn error_page_falls_back(
    server: ServerView,
    status: u16,
    allow: Option<Seq<char>>,
    world: World,
)
    ensures
        error(server, status, allow, world).status == status,
        server.error_pages.dom().contains(status) && (world.content)(server.error_pages[status])
            is None ==> error(server, status, allow, world) == handlers::error_reply(
            status,
            allow,
            None,
        ),
{
}

/// `HEAD` is answered as `GET` is, wherever `GET` is allowed; and every answer to
/// `HEAD` leaves the body out.
pub proof fn head_is_answered_as_get(
    server: ServerView,
    request: RequestView,
    id: Seq<char>,
    count: u64,
    world: World,
    cookie: Option<Seq<char>>,
)
    requires
        server.route(request.path) matches Some(route) ==> route.allows("GET"@),
    ensures
        ({
            let get = RequestView { method: "GET"@, ..request };
            let head = RequestView { method: "HEAD"@, ..request };
            let answered = answer(server, get, id, count, world);
            &&& answer(server, head, id, count, world) == answered
            &&& handlers::finished(answered, EndingView { cookie, head: true })
                == (ResponseView {
                suppress_body: true,
                ..handlers::finished(answered, EndingView { cookie, head: false })
            })
        }),
{
    reveal_strlit("GET");
    reveal_strlit("HEAD");
    reveal_strlit("POST");
    reveal_strlit("DELETE");
    assert("GET"@.len() != "HEAD"@.len());
}

/// A request that is refused before the file system comes in is answered with the
/// status that says why: too large a body, no route, a method that the route does
/// not allow (with those that it does), or a path that leads out of the root.
pub proof fn refusals_say_why(
    server: ServerView,
    request: RequestView,
    id: Seq<char>,
    count: u64,
    world: World,
)
    ensures
        ({
            let a = answer(server, request, id, count, world);
            let small = request.body.len() <= server.max_body_size;
            let other = small && request.path != "/session"@;
            &&& !small ==> a.status == 413
            &&& other && server.route(request.path) is None ==> a.status == 404
            &&& server.route(request.path) matches Some(route) ==> {
                &&& other && !route.allows(request.method) ==> a.status == 405
                    && a.headers.last() == ("Allow"@, handlers::listed(route.methods, ", "@))
                &&& other && route.allows(request.method) && route.redirect is None
                    && paths::goes_up(paths::behind_prefix(route.prefix, request.path))
                    ==> a.status == 403
            }
        }),
{
}

/// The answer says first of what type its body is.
pub open spec fn says_its_type(response: ResponseView) -> bool {
    response.headers.len() > 0 && response.headers[0].0 == "Content-Type"@
}

/// Every answer says of what type its body is, that of a program included, which
/// is always given a type.
pub proof fn every_answer_says_its_type(
    server: ServerView,
    request: RequestView,
    id: Seq<char>,
    count: u64,
    world: World,
    ending: EndingView,
)
    requires
        forall|interpreter: Seq<char>, script: Seq<char>|
            (#[trigger] (world.program)(interpreter, script)) matches Some(response)
                ==> exists|output: Seq<u8>| response == #[trigger] cgi::output_response(output),
    ensures
        says_its_type(answer(server, request, id, count, world)),
        says_its_type(handlers::finished(answer(server, request, id, count, world), ending)),
{
    assert forall|output: Seq<u8>| says_its_type(#[trigger] cgi::output_response(output)) by {
    }
}

// --------------------------------------------------------- what is written is there

/// The effects that an answer waits for, one after the other.
pub open spec fn performed(
    servers: Seq<ServerView>,
    request: RequestView,
    step: StepView,
    world: World,
) -> Seq<EffectView>
    decreases distance(step),
{
    match step {
        StepView::Done(_) => seq![],
        StepView::Await { task, effect } => if task.stage.takes(world.reply(effect)) {
            proof {
                every_reply_brings_the_answer_nearer(
                    servers,
                    request,
                    task,
                    effect,
                    world.reply(effect),
                );
            }
            seq![effect] + performed(
                servers,
                request,
                handlers::resumed(servers, request, task, world.reply(effect)),
                world,
            )
        } else {
            seq![effect]
        },
    }
}

/// No file behind this one has its name.
pub open spec fn is_last_of_its_name(files: Seq<FileView>, i: int) -> bool {
    forall|j: int| i < j < files.len() ==> (#[trigger] files[j]).name != files[i].name
}

impl World {
    /// What the effect has done can be seen: what was written is there, and what
    /// was removed is not.
    pub open spec fn shows(self, effect: EffectView) -> bool {
        match effect {
            EffectView::WriteFile { path, content } => {
                &&& (self.kind)(path) is File
                &&& (self.content)(path) == Some(content)
            },
            EffectView::SaveFiles { dir, files } => forall|i: int|
                0 <= i < files.len() && is_last_of_its_name(files, i) ==> {
                    let path = paths::joined(dir, (#[trigger] files[i]).name);
                    &&& (self.kind)(path) is File
                    &&& (self.content)(path) == Some(files[i].content)
                },
            EffectView::RemoveFile(path) => (self.kind)(path) is Other,
            _ => true,
        }
    }

    /// What the effects have done can be seen.
    pub open spec fn shows_all(self, effects: Seq<EffectView>) -> bool {
        forall|i: int| 0 <= i < effects.len() ==> self.shows(#[trigger] effects[i])
    }
}

/// The request is about the file system: it is within the limit of the server, and
/// its route allows it and maps it to a path that no program is run for.
pub open spec fn reaches(
    server: ServerView,
    request: RequestView,
    route: RouteView,
    path: Seq<char>,
) -> bool {
    &&& request.body.len() <= server.max_body_size
    &&& request.path != "/session"@
    &&& server.route(request.path) == Some(route)
    &&& route.allows(request.method)
    &&& route.redirect is None
    &&& paths::resolved(root_of(route), route.prefix, request.path) == Some(path)
    &&& paths::interpreter_of(route, path) is None
}

proof fn lemma_methods_differ()
    ensures
        "GET"@ != "HEAD"@,
        "POST"@ != "GET"@,
        "POST"@ != "HEAD"@,
        "DELETE"@ != "GET"@,
        "DELETE"@ != "HEAD"@,
        "DELETE"@ != "POST"@,
{
    reveal_strlit("GET");
    reveal_strlit("HEAD");
    reveal_strlit("POST");
    reveal_strlit("DELETE");
    assert("POST"@[0] != "HEAD"@[0]);
    assert("GET"@.len() != "HEAD"@.len());
    assert("POST"@.len() != "GET"@.len());
    assert("DELETE"@.len() != "GET"@.len());
    assert("DELETE"@.len() != "HEAD"@.len());
    assert("DELETE"@.len() != "POST"@.len());
}

/// A body that was uploaded is fetched back unchanged. In a state of the files that
/// shows what the upload did, a download from the same path gives the very bytes.
pub proof fn uploaded_body_is_fetched_back(
    servers: Seq<ServerView>,
    case: CaseView,
    route: RouteView,
    path: Seq<char>,
    post: RequestView,
    get_route: RouteView,
    get: RequestView,
    id: Seq<char>,
    count: u64,
    world: World,
    later: World,
)
    requires
        post.method == "POST"@,
        get.method == "GET"@,
        reaches(servers[case.server], post, route, path),
        reaches(servers[case.server], get, get_route, path),
        route.upload,
        uploads::boundary_of(handlers::content_type_of(post)) is None,
        !((world.kind)(path) is Dir),
        (world.done)(EffectView::WriteFile { path, content: post.body }),
        later.shows_all(
            performed(
                servers,
                post,
                handlers::dispatched(servers, post, case, id, count),
                world,
            ),
        ),
    ensures
        answer(servers[case.server], post, id, count, world).status == 201,
        answer(servers[case.server], get, id, count, later) == ResponseView::with_body(
            200,
            paths::media_type_of(path),
            post.body,
        ),
{
    lemma_methods_differ();
    reveal_with_fuel(performed, 4);
    let step = handlers::dispatched(servers, post, case, id, count);
    let effects = performed(servers, post, step, world);
    assert(effects[1] == (EffectView::WriteFile { path, content: post.body }));
    assert(later.shows(effects[1]));
}

/// The directory that a form sent to a path is stored in.
pub open spec fn upload_dir(path: Seq<char>, world: World) -> Seq<char> {
    if (world.kind)(path) is Dir {
        path
    } else {
        paths::parent_of(path)
    }
}

/// A file that was uploaded with a form is fetched back unchanged. In a state of the
/// files that shows what the upload did, a download from where it is stored gives
/// the very bytes; of several files with one name, those of the last.
pub proof fn uploaded_file_is_fetched_back(
    servers: Seq<ServerView>,
    case: CaseView,
    route: RouteView,
    path: Seq<char>,
    boundary: Seq<char>,
    i: int,
    post: RequestView,
    get_route: RouteView,
    get: RequestView,
    id: Seq<char>,
    count: u64,
    world: World,
    later: World,
)
    requires
        post.method == "POST"@,
        get.method == "GET"@,
        reaches(servers[case.server], post, route, path),
        route.upload,
        uploads::boundary_of(handlers::content_type_of(post)) == Some(boundary),
        0 <= i < uploads::form_files(post.body, boundary).len(),
        is_last_of_its_name(uploads::form_files(post.body, boundary), i),
        (world.done)(
            EffectView::SaveFiles {
                dir: upload_dir(path, world),
                files: uploads::form_files(post.body, boundary),
            },
        ),
        later.shows_all(
            performed(
                servers,
                post,
                handlers::dispatched(servers, post, case, id, count),
                world,
            ),
        ),
        reaches(
            servers[case.server],
            get,
            get_route,
            paths::joined(
                upload_dir(path, world),
                uploads::form_files(post.body, boundary)[i].name,
            ),
        ),
    ensures
        answer(servers[case.server], post, id, count, world).status == 201,
        answer(servers[case.server], get, id, count, later) == ResponseView::with_body(
            200,
            paths::media_type_of(
                paths::joined(
                    upload_dir(path, world),
                    uploads::form_files(post.body, boundary)[i].name,
                ),
            ),
            uploads::form_files(post.body, boundary)[i].content,
        ),
{
    lemma_methods_differ();
    reveal_with_fuel(performed, 4);
    let dir = upload_dir(path, world);
    let files = uploads::form_files(post.body, boundary);
    let step = handlers::dispatched(servers, post, case, id, count);
    let effects = performed(servers, post, step, world);
    assert(effects[1] == (EffectView::SaveFiles { dir, files }));
    assert(later.shows(effects[1]));
}

/// What a form stores in a directory is there under its name: a download of the
/// name from the directory reaches the file.
pub proof fn uploaded_file_is_found_by_its_name(
    server: ServerView,
    route: RouteView,
    dir: Seq<char>,
    boundary: Seq<char>,
    i: int,
    post: RequestView,
    get: RequestView,
)
    requires
        reaches(server, post, route, dir),
        post.path.len() > 0,
        post.path.last() == '/',
        0 <= i < uploads::form_files(post.body, boundary).len(),
        get.path == post.path + uploads::form_files(post.body, boundary)[i].name,
        get.path != "/session"@,
        get.body.len() <= server.max_body_size,
        server.route(get.path) == Some(route),
        route.allows(get.method),
        paths::interpreter_of(
            route,
            paths::joined(dir, uploads::form_files(post.body, boundary)[i].name),
        ) is None,
    ensures
        reaches(
            server,
            get,
            route,
            paths::joined(dir, uploads::form_files(post.body, boundary)[i].name),
        ),
{
    uploads::every_file_has_a_clean_name(post.body, boundary, i);
    let name = uploads::form_files(post.body, boundary)[i].name;
    assert forall|j: int| 0 <= j < name.len() implies #[trigger] name[j] != '/' by {
        assert(uploads::is_name_char(uploads::form_files(post.body, boundary)[i].name[j]));
    }
    let k = server.route_index(post.path)->0;
    assert(server.routes_to(post.path, k));
    paths::name_in_a_directory_is_mapped_into_it(root_of(route), route, post.path, name);
}

/// A file that was deleted is gone: neither is it found by a download, nor can it be
/// deleted again.
pub proof fn deleted_file_is_gone(
    servers: Seq<ServerView>,
    case: CaseView,
    route: RouteView,
    path: Seq<char>,
    delete: RequestView,
    get_route: RouteView,
    get: RequestView,
    id: Seq<char>,
    count: u64,
    world: World,
    later: World,
)
    requires
        delete.method == "DELETE"@,
        get.method == "GET"@,
        reaches(servers[case.server], delete, route, path),
        reaches(servers[case.server], get, get_route, path),
        (world.kind)(path) is File,
        (world.done)(EffectView::RemoveFile(path)),
        later.shows_all(
            performed(
                servers,
                delete,
                handlers::dispatched(servers, delete, case, id, count),
                world,
            ),
        ),
    ensures
        answer(servers[case.server], delete, id, count, world).status == 200,
        answer(servers[case.server], get, id, count, later).status == 404,
        answer(servers[case.server], delete, id, count, later).status == 404,
{
    lemma_methods_differ();
    reveal_with_fuel(performed, 4);
    let step = handlers::dispatched(servers, delete, case, id, count);
    let effects = performed(servers, delete, step, world);
    assert(effects[1] == EffectView::RemoveFile(path));
    assert(later.shows(effects[1]));
}

// ------------------------------------------------------------ where the effects go

/// The effect is about nothing but a custom error page of the server, the path that
/// the request was mapped to, the default file in it, or the directory that an
/// upload goes to.
pub open spec fn confined(server: ServerView, path: Seq<char>, effect: EffectView) -> bool {
    match effect {
        EffectView::Probe(p) => p == path || is_default_file(server, path, p),
        EffectView::ReadFile(p) => {
            ||| p == path
            ||| is_default_file(server, path, p)
            ||| exists|status: u16| #[trigger]
                server.error_pages.dom().contains(status) && server.error_pages[status] == p
        },
        EffectView::ListDirectory(p) => p == path,
        EffectView::RunProgram { script, .. } => script == path,
        EffectView::WriteFile { path: p, .. } => p == path,
        EffectView::SaveFiles { dir, .. } => dir == path || dir == paths::parent_of(path),
        EffectView::RemoveFile(p) => p == path,
    }
}

/// The path is that of a default file in the directory.
pub open spec fn is_default_file(server: ServerView, dir: Seq<char>, path: Seq<char>) -> bool {
    exists|i: int|
        0 <= i < server.routes.len() && (#[trigger] server.routes[i]).index is Some && path
            == paths::joined(dir, server.routes[i].index->0)
}

/// The path is empty, or the one that a route of the server maps the request to.
pub open spec fn mapped_path(server: ServerView, request: RequestView, path: Seq<char>) -> bool {
    ||| path == Seq::<char>::empty()
    ||| exists|i: int|
        0 <= i < server.routes.len() && paths::resolved(
            root_of(#[trigger] server.routes[i]),
            server.routes[i].prefix,
            request.path,
        ) == Some(path)
}

/// What an answer waits for is confined, and so is what comes behind it.
pub open spec fn in_bounds(servers: Seq<ServerView>, request: RequestView, step: StepView) -> bool {
    step matches StepView::Await { task, effect } ==> {
        let server = servers[task.case.server];
        &&& mapped_path(server, request, task.case.path)
        &&& confined(server, task.case.path, effect)
        &&& match task.stage {
            StageView::Get { index, .. } => index matches Some(name) ==> is_default_file(
                server,
                task.case.path,
                paths::joined(task.case.path, name),
            ),
            StageView::Index { candidate, .. } => is_default_file(
                server,
                task.case.path,
                candidate,
            ),
            _ => true,
        }
    }
}

proof fn lemma_failing_in_bounds(
    servers: Seq<ServerView>,
    request: RequestView,
    case: CaseView,
    status: u16,
    allow: Option<Seq<char>>,
)
    requires
        mapped_path(servers[case.server], request, case.path),
    ensures
        in_bounds(servers, request, handlers::failing(servers, case, status, allow)),
{
}

/// The first effect for a request is confined to the path that a route maps it to.
pub proof fn first_effect_is_confined(
    servers: Seq<ServerView>,
    request: RequestView,
    case: CaseView,
    id: Seq<char>,
    count: u64,
)
    requires
        case.path == Seq::<char>::empty(),
    ensures
        in_bounds(servers, request, handlers::dispatched(servers, request, case, id, count)),
{
    let server = servers[case.server];
    if let Some(i) = server.route_index(request.path) {
        assert(server.routes_to(request.path, i));
        let route = server.routes[i];
        if let Some(path) = paths::resolved(root_of(route), route.prefix, request.path) {
            let inner = CaseView { path, ..case };
            assert(mapped_path(server, request, path));
            lemma_failing_in_bounds(servers, request, inner, 501, None);
            if let Some(name) = route.index {
                assert(is_default_file(server, path, paths::joined(path, name)));
            }
        }
    }
}

/// Every further effect is confined to the same path.
pub proof fn next_effect_is_confined(
    servers: Seq<ServerView>,
    request: RequestView,
    task: TaskView,
    effect: EffectView,
    reply: ReplyView,
)
    requires
        in_bounds(servers, request, StepView::Await { task, effect }),
        task.stage.takes(reply),
    ensures
        in_bounds(servers, request, handlers::resumed(servers, request, task, reply)),
{
}

} // verus!

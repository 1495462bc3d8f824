//! What each kind of request gets, and what is done to the files and programs on
//! its account.

use vstd::prelude::*;

use crate::answers;
use crate::answers::World;
use crate::config::{RouteView, ServerView};
use crate::forms;
use crate::framing;
use crate::handlers;
use crate::handlers::{CaseView, EffectView, PathKind};
use crate::http::{RequestView, ResponseView};
use crate::pages;
use crate::paths;
use crate::sessions;
use crate::text;
use crate::uploads;

verus! {

/// The request gets through to the file system: it is within the limit of the
/// server, not for the page that shows the session, and its route allows it and maps
/// it to the path.
pub open spec fn gets_through(
    server: ServerView,
    request: RequestView,
    route: RouteView,
    path: Seq<char>,
) -> bool {
    &&& request.body.len() <= server.max_body_size
    &&& request.path != "/session"@
    &&& server.route(request.path) == Some(route)
    &&& route.allows(request.method)
    &&& route.redirect is None
    &&& paths::resolved(answers::root_of(route), route.prefix, request.path) == Some(path)
}

/// The effects that a request leads to.
pub open spec fn effects_of(
    servers: Seq<ServerView>,
    request: RequestView,
    case: CaseView,
    id: Seq<char>,
    count: u64,
    world: World,
) -> Seq<EffectView> {
    answers::performed(
        servers,
        request,
        handlers::dispatched(servers, request, case, id, count),
        world,
    )
}

/// The effect writes or removes something.
pub open spec fn changes_files(effect: EffectView) -> bool {
    effect is WriteFile || effect is SaveFiles || effect is RemoveFile
}

/// No effect is more than a look at a page for errors.
pub open spec fn only_error_pages(server: ServerView, effects: Seq<EffectView>) -> bool {
    forall|i: int|
        0 <= i < effects.len() ==> {
            (#[trigger] effects[i]) matches EffectView::ReadFile(page) && exists|status: u16|
                server.error_pages.dom().contains(status) && #[trigger] server.error_pages[status]
                    == page
        }
}

proof fn lemma_failing_effects(
    servers: Seq<ServerView>,
    request: RequestView,
    case: CaseView,
    status: u16,
    allow: Option<Seq<char>>,
    world: World,
)
    ensures
        ({
            let step = handlers::failing(servers, case, status, allow);
            let effects = answers::performed(servers, request, step, world);
            &&& effects.len() <= 1
            &&& only_error_pages(servers[case.server], effects)
        }),
{
    reveal_with_fuel(answers::performed, 2);
    let custom = servers[case.server].error_pages;
    if custom.dom().contains(status) {
        assert(custom[status] == custom[status]);
    }
}

proof fn lemma_methods()
    ensures
        "GET"@ != "HEAD"@,
        "POST"@ != "GET"@,
        "POST"@ != "HEAD"@,
        "DELETE"@ != "GET"@,
        "DELETE"@ != "HEAD"@,
        "DELETE"@ != "POST"@,
{
    reveal_strlit("GET");
    reveal_strlit("HEAD");
    reveal_strlit("POST");
    reveal_strlit("DELETE");
    assert("POST"@[0] != "HEAD"@[0]);
    assert("GET"@.len() == 3 && "HEAD"@.len() == 4 && "POST"@.len() == 4 && "DELETE"@.len() == 6);
}

// ------------------------------------------------------------------------ programs

/// A script is run for every method that its route allows: where the path that a
/// request is mapped to has an interpreter and leads to a file, that interpreter is
/// run on it, and the answer is what the script says, or an error where it fails.
/// Where there is no such file, nothing is run. Nothing is written either way.
pub proof fn script_is_run_whatever_the_method(
    servers: Seq<ServerView>,
    request: RequestView,
    case: CaseView,
    route: RouteView,
    path: Seq<char>,
    interpreter: Seq<char>,
    id: Seq<char>,
    count: u64,
    world: World,
)
    requires
        gets_through(servers[case.server], request, route, path),
        paths::interpreter_of(route, path) == Some(interpreter),
    ensures
        ({
            let a = answers::answer(servers[case.server], request, id, count, world);
            let effects = effects_of(servers, request, case, id, count, world);
            let run = EffectView::RunProgram { interpreter, script: path };
            &&& (world.kind)(path) is File ==> effects.contains(run) && match (world.program)(
                interpreter,
                path,
            ) {
                Some(said) => a == said,
                None => a.status == 500,
            }
            &&& !((world.kind)(path) is File) ==> a.status == 404 && forall|i: int|
                0 <= i < effects.len() ==> !((#[trigger] effects[i]) is RunProgram)
            &&& forall|i: int| 0 <= i < effects.len() ==> !changes_files(#[trigger] effects[i])
        }),
{
    reveal_with_fuel(answers::performed, 3);
    let inner = CaseView { path, ..case };
    lemma_failing_effects(servers, request, inner, 404, None, world);
    lemma_failing_effects(servers, request, inner, 500, None, world);
    let effects = effects_of(servers, request, case, id, count, world);
    assert(effects[0] == EffectView::Probe(path));
    if (world.kind)(path) is File {
        assert(effects[1] == (EffectView::RunProgram { interpreter, script: path }));
    }
}

// ----------------------------------------------------------------------- downloads

/// A download.
pub open spec fn is_download(request: RequestView) -> bool {
    request.method == "GET"@ || request.method == "HEAD"@
}

/// The request gets through, and no program is run for it.
pub open spec fn reaches_files(
    server: ServerView,
    request: RequestView,
    route: RouteView,
    path: Seq<char>,
) -> bool {
    gets_through(server, request, route, path) && paths::interpreter_of(route, path) is None
}

/// A file is answered with exactly its content, under the type of its name; one that
/// cannot be read is forbidden, and one that is not there is not found.
pub proof fn file_is_served_as_it_is(
    server: ServerView,
    request: RequestView,
    route: RouteView,
    path: Seq<char>,
    id: Seq<char>,
    count: u64,
    world: World,
)
    requires
        is_download(request),
        reaches_files(server, request, route, path),
    ensures
        ({
            let a = answers::answer(server, request, id, count, world);
            &&& (world.kind)(path) is File ==> match (world.content)(path) {
                Some(content) => {
                    &&& a.status == 200
                    &&& a.body == content
                    &&& a.headers == seq![("Content-Type"@, paths::media_type_of(path))]
                },
                None => a.status == 403,
            }
            &&& (world.kind)(path) is Other ==> a.status == 404
        }),
{
    lemma_methods();
}

/// The default file of a directory comes before its listing: where a route names one
/// and it is there, it is the answer, whether or not listings are on, and the
/// directory is not listed. Only where there is none the directory is listed, if
/// listings are on, and is forbidden if not.
pub proof fn default_file_comes_before_the_listing(
    servers: Seq<ServerView>,
    request: RequestView,
    case: CaseView,
    route: RouteView,
    path: Seq<char>,
    id: Seq<char>,
    count: u64,
    world: World,
)
    requires
        is_download(request),
        reaches_files(servers[case.server], request, route, path),
        (world.kind)(path) is Dir,
        request.path.len() > 0,
        request.path.last() == '/',
    ensures
        ({
            let a = answers::answer(servers[case.server], request, id, count, world);
            let effects = effects_of(servers, request, case, id, count, world);
            let lists = effects.contains(EffectView::ListDirectory(path));
            let default = match route.index {
                Some(name) => if (world.kind)(paths::joined(path, name)) is File {
                    Some(paths::joined(path, name))
                } else {
                    None
                },
                None => None,
            };
            match default {
                Some(file) => {
                    &&& forall|i: int|
                        0 <= i < effects.len() ==> !((#[trigger] effects[i]) is ListDirectory)
                    &&& effects.contains(EffectView::ReadFile(file))
                    &&& match (world.content)(file) {
                        Some(content) => {
                            &&& a.status == 200
                            &&& a.body == content
                            &&& a.headers == seq![("Content-Type"@, paths::media_type_of(file))]
                        },
                        None => a.status == 403,
                    }
                },
                None => if route.directory_listing {
                    &&& lists
                    &&& match (world.entries)(path) {
                        Some(entries) => a.status == 200 && a.body == vstd::utf8::encode_utf8(
                            pages::listing_text(request.path, entries),
                        ),
                        None => a.status == 403,
                    }
                } else {
                    &&& a.status == 403
                    &&& forall|i: int|
                        0 <= i < effects.len() ==> !((#[trigger] effects[i]) is ListDirectory)
                },
            }
        }),
{
    lemma_methods();
    reveal_with_fuel(answers::performed, 5);
    let inner = CaseView { path, ..case };
    lemma_failing_effects(servers, request, inner, 403, None, world);
    let effects = effects_of(servers, request, case, id, count, world);
    assert(effects[0] == EffectView::Probe(path));
    match route.index {
        Some(name) => {
            let file = paths::joined(path, name);
            assert(effects[1] == EffectView::Probe(file));
            if (world.kind)(file) is File {
                assert(effects[2] == EffectView::ReadFile(file));
            } else if route.directory_listing {
                assert(effects[2] == EffectView::ListDirectory(path));
            }
        },
        None => {
            if route.directory_listing {
                assert(effects[1] == EffectView::ListDirectory(path));
            }
        },
    }
}

/// A directory that is asked for without the slash at its end is redirected to
/// where it has it, and nothing of it is shown.
pub proof fn directory_is_redirected_to_its_slash(
    server: ServerView,
    request: RequestView,
    route: RouteView,
    path: Seq<char>,
    id: Seq<char>,
    count: u64,
    world: World,
)
    requires
        is_download(request),
        reaches_files(server, request, route, path),
        (world.kind)(path) is Dir,
        request.path.len() == 0 || request.path.last() != '/',
    ensures
        ({
            let a = answers::answer(server, request, id, count, world);
            &&& a.status == 301
            &&& a.headers.contains(("Location"@, request.path.push('/')))
            &&& a.body == Seq::<u8>::empty()
        }),
{
    lemma_methods();
    reveal_strlit("/");
    let a = answers::answer(server, request, id, count, world);
    assert(request.path + "/"@ =~= request.path.push('/'));
    assert(a.headers[1] == ("Location"@, request.path.push('/')));
    assert(vstd::utf8::encode_utf8(Seq::<char>::empty()) =~= Seq::<u8>::empty());
}

// ---------------------------------------------------------------- uploads and removal

/// A payload for a route that takes no uploads is acknowledged and goes nowhere; so
/// does one that is no form and is sent to a directory, and a form without a file.
pub proof fn unstored_payload_is_acknowledged(
    servers: Seq<ServerView>,
    request: RequestView,
    case: CaseView,
    route: RouteView,
    path: Seq<char>,
    id: Seq<char>,
    count: u64,
    world: World,
)
    requires
        request.method == "POST"@,
        reaches_files(servers[case.server], request, route, path),
        ({
            let boundary = uploads::boundary_of(handlers::content_type_of(request));
            ||| !route.upload
            ||| boundary is None && (world.kind)(path) is Dir
            ||| boundary is Some && uploads::form_files(request.body, boundary->0).len() == 0
        }),
    ensures
        answers::answer(servers[case.server], request, id, count, world).status == 200,
        forall|i: int|
            0 <= i < effects_of(servers, request, case, id, count, world).len() ==> !changes_files(
                #[trigger] effects_of(servers, request, case, id, count, world)[i],
            ),
{
    lemma_methods();
    reveal_with_fuel(answers::performed, 3);
}

/// An upload that cannot be stored is answered with an error, and one that can with
/// `201`; what is stored is the body of the request, at its own path, or the files
/// of the form, in the directory of the path.
pub proof fn upload_is_stored_or_fails(
    servers: Seq<ServerView>,
    request: RequestView,
    case: CaseView,
    route: RouteView,
    path: Seq<char>,
    id: Seq<char>,
    count: u64,
    world: World,
)
    requires
        request.method == "POST"@,
        reaches_files(servers[case.server], request, route, path),
        route.upload,
        ({
            let boundary = uploads::boundary_of(handlers::content_type_of(request));
            ||| boundary is None && !((world.kind)(path) is Dir)
            ||| boundary is Some && uploads::form_files(request.body, boundary->0).len() > 0
        }),
    ensures
        ({
            let boundary = uploads::boundary_of(handlers::content_type_of(request));
            let dir = if (world.kind)(path) is Dir {
                path
            } else {
                paths::parent_of(path)
            };
            let store = match boundary {
                None => EffectView::WriteFile { path, content: request.body },
                Some(b) => EffectView::SaveFiles {
                    dir,
                    files: uploads::form_files(request.body, b),
                },
            };
            let effects = effects_of(servers, request, case, id, count, world);
            let a = answers::answer(servers[case.server], request, id, count, world);
            &&& effects.contains(store)
            &&& forall|i: int|
                0 <= i < effects.len() && changes_files(#[trigger] effects[i]) ==> effects[i]
                    == store
            &&& a.status == if (world.done)(store) {
                201
            } else {
                500u16
            }
        }),
{
    lemma_methods();
    reveal_with_fuel(answers::performed, 4);
    let inner = CaseView { path, ..case };
    lemma_failing_effects(servers, request, inner, 500, None, world);
    let effects = effects_of(servers, request, case, id, count, world);
    let boundary = uploads::boundary_of(handlers::content_type_of(request));
    let dir = if (world.kind)(path) is Dir {
        path
    } else {
        paths::parent_of(path)
    };
    let store = match boundary {
        None => EffectView::WriteFile { path, content: request.body },
        Some(b) => EffectView::SaveFiles { dir, files: uploads::form_files(request.body, b) },
    };
    assert(effects[0] == EffectView::Probe(path));
    assert(effects[1] == store);
}

/// The files of a form that a browser sends are stored in the directory that it is
/// sent to: a request that announces a boundary and carries a form with it stores
/// each file of the form, under its name and with exactly its bytes.
pub proof fn files_of_a_browser_are_stored(
    servers: Seq<ServerView>,
    request: RequestView,
    case: CaseView,
    route: RouteView,
    path: Seq<char>,
    boundary: Seq<char>,
    quoted: bool,
    fields: Seq<forms::Field>,
    id: Seq<char>,
    count: u64,
    world: World,
)
    requires
        request.method == "POST"@,
        reaches_files(servers[case.server], request, route, path),
        route.upload,
        (world.kind)(path) is Dir,
        boundary.len() > 0,
        framing::one_line(boundary),
        framing::tight(boundary),
        framing::free_of(boundary, ';'),
        framing::free_of(boundary, '"'),
        request.header("content-type"@) == Some(
            "multipart/form-data"@ + (seq![';'] + (seq![' '] + ("boundary="@
                + forms::perhaps_quoted(boundary, quoted)))),
        ),
        forms::fields_fit(fields, forms::mark_of(boundary)),
        request.body == forms::mark_of(boundary) + forms::fields_sent(
            fields,
            forms::mark_of(boundary),
        ),
        forms::files_among(fields).len() > 0,
    ensures
        effects_of(servers, request, case, id, count, world).contains(
            EffectView::SaveFiles { dir: path, files: forms::files_among(fields) },
        ),
{
    let none = Seq::<Seq<char>>::empty();
    let rest = Seq::<char>::empty();
    let end = seq![';'] + (seq![' '] + ("boundary="@ + forms::perhaps_quoted(boundary, quoted)));
    forms::boundary_is_read_as_announced(none, boundary, quoted, rest);
    assert("multipart/form-data"@ + (forms::parameters(none) + (end + rest))
        =~= "multipart/form-data"@ + end);
    forms::form_of_a_browser_is_stored(fields, boundary);
    upload_is_stored_or_fails(servers, request, case, route, path, id, count, world);
}

/// A file is removed where it is asked for and can be; a directory is never removed,
/// and what is not there is not found.
pub proof fn only_files_are_removed(
    servers: Seq<ServerView>,
    request: RequestView,
    case: CaseView,
    route: RouteView,
    path: Seq<char>,
    id: Seq<char>,
    count: u64,
    world: World,
)
    requires
        request.method == "DELETE"@,
        reaches_files(servers[case.server], request, route, path),
    ensures
        ({
            let effects = effects_of(servers, request, case, id, count, world);
            let a = answers::answer(servers[case.server], request, id, count, world);
            match (world.kind)(path) {
                PathKind::Dir => a.status == 403 && forall|i: int|
                    0 <= i < effects.len() ==> !changes_files(#[trigger] effects[i]),
                PathKind::Other => a.status == 404 && forall|i: int|
                    0 <= i < effects.len() ==> !changes_files(#[trigger] effects[i]),
                PathKind::File => {
                    &&& effects.contains(EffectView::RemoveFile(path))
                    &&& forall|i: int|
                        0 <= i < effects.len() && changes_files(#[trigger] effects[i])
                            ==> effects[i] == EffectView::RemoveFile(path)
                    &&& a.status == if (world.done)(EffectView::RemoveFile(path)) {
                        200
                    } else {
                        403u16
                    }
                },
            }
        }),
{
    lemma_methods();
    reveal_with_fuel(answers::performed, 4);
    let inner = CaseView { path, ..case };
    lemma_failing_effects(servers, request, inner, 403, None, world);
    lemma_failing_effects(servers, request, inner, 404, None, world);
    let effects = effects_of(servers, request, case, id, count, world);
    assert(effects[0] == EffectView::Probe(path));
    if (world.kind)(path) is File {
        assert(effects[1] == EffectView::RemoveFile(path));
    }
}

/// A method that a route allows and nothing implements is said to be so.
pub proof fn unknown_method_is_not_implemented(
    server: ServerView,
    request: RequestView,
    route: RouteView,
    path: Seq<char>,
    id: Seq<char>,
    count: u64,
    world: World,
)
    requires
        reaches_files(server, request, route, path),
        !is_download(request),
        request.method != "POST"@,
        request.method != "DELETE"@,
    ensures
        answers::answer(server, request, id, count, world).status == 501,
{
}

// ------------------------------------------------------------------------ refusals

/// A request that does not get through touches nothing: no file is looked at but
/// a page for errors, nothing is written and nothing is run.
pub proof fn refused_request_touches_nothing(
    servers: Seq<ServerView>,
    request: RequestView,
    case: CaseView,
    id: Seq<char>,
    count: u64,
    world: World,
)
    requires
        forall|route: RouteView, path: Seq<char>|
            !#[trigger] gets_through(servers[case.server], request, route, path),
    ensures
        only_error_pages(
            servers[case.server],
            effects_of(servers, request, case, id, count, world),
        ),
{
    let server = servers[case.server];
    lemma_failing_effects(servers, request, case, 413, None, world);
    lemma_failing_effects(servers, request, case, 404, None, world);
    lemma_failing_effects(servers, request, case, 403, None, world);
    if let Some(route) = server.route(request.path) {
        lemma_failing_effects(
            servers,
            request,
            case,
            405,
            Some(handlers::listed(route.methods, ", "@)),
            world,
        );
        if let Some(path) = paths::resolved(
            answers::root_of(route),
            route.prefix,
            request.path,
        ) {
            assert(!gets_through(server, request, route, path));
        }
    }
}

/// Downloads change nothing: whatever the state of the files, a request other than
/// an upload or a removal writes and removes nothing.
pub proof fn only_uploads_and_removals_change_files(
    servers: Seq<ServerView>,
    request: RequestView,
    case: CaseView,
    id: Seq<char>,
    count: u64,
    world: World,
    i: int,
)
    requires
        0 <= i < effects_of(servers, request, case, id, count, world).len(),
        changes_files(effects_of(servers, request, case, id, count, world)[i]),
    ensures
        exists|route: RouteView, path: Seq<char>| #[trigger]
            reaches_files(servers[case.server], request, route, path) && {
                let effect = effects_of(servers, request, case, id, count, world)[i];
                ||| request.method == "POST"@ && route.upload && !(effect is RemoveFile)
                ||| request.method == "DELETE"@ && effect == EffectView::RemoveFile(path)
            },
{
    let server = servers[case.server];
    let effects = effects_of(servers, request, case, id, count, world);
    lemma_methods();
    if forall|route: RouteView, path: Seq<char>|
        !#[trigger] gets_through(server, request, route, path) {
        refused_request_touches_nothing(servers, request, case, id, count, world);
        assert(effects[i] is ReadFile);
    } else {
        let (route, path) = choose|route: RouteView, path: Seq<char>| #[trigger]
            gets_through(server, request, route, path);
        let inner = CaseView { path, ..case };
        lemma_failing_effects(servers, request, inner, 403, None, world);
        lemma_failing_effects(servers, request, inner, 404, None, world);
        lemma_failing_effects(servers, request, inner, 500, None, world);
        lemma_failing_effects(servers, request, inner, 501, None, world);
        if let Some(interpreter) = paths::interpreter_of(route, path) {
            script_is_run_whatever_the_method(
                servers,
                request,
                case,
                route,
                path,
                interpreter,
                id,
                count,
                world,
            );
            assert(!changes_files(effects[i]));
        } else {
            assert(reaches_files(server, request, route, path));
            reveal_with_fuel(answers::performed, 5);
        }
    }
}

/// A redirection names its target, for every method that the route allows, and
/// nothing is looked at.
pub proof fn redirection_names_its_target(
    servers: Seq<ServerView>,
    request: RequestView,
    case: CaseView,
    route: RouteView,
    target: Seq<char>,
    id: Seq<char>,
    count: u64,
    world: World,
)
    requires
        request.body.len() <= servers[case.server].max_body_size,
        request.path != "/session"@,
        servers[case.server].route(request.path) == Some(route),
        route.allows(request.method),
        route.redirect == Some(target),
    ensures
        ({
            let a = answers::answer(servers[case.server], request, id, count, world);
            &&& a.status == 301
            &&& a.headers.contains(("Location"@, target))
            &&& effects_of(servers, request, case, id, count, world).len() == 0
        }),
{
    let a = answers::answer(servers[case.server], request, id, count, world);
    assert(a.headers[1] == ("Location"@, target));
    reveal_with_fuel(answers::performed, 2);
}

/// The methods that a route allows are all named to a client that used another, with
/// a comma and a space between them.
pub proof fn allowed_methods_are_all_named(methods: Seq<Seq<char>>)
    requires
        methods.len() > 0,
        forall|i: int| 0 <= i < methods.len() ==> framing::free_of(#[trigger] methods[i], ','),
    ensures
        text::pieces(handlers::listed(methods, ", "@), seq![',', ' ']) == methods,
{
    reveal_strlit(", ");
    assert(", "@ =~= seq![',', ' ']);
    lemma_listed(methods);
}

proof fn lemma_listed_first(methods: Seq<Seq<char>>, sep: Seq<char>)
    requires
        methods.len() > 1,
    ensures
        handlers::listed(methods, sep) == methods[0] + sep + handlers::listed(
            methods.skip(1),
            sep,
        ),
    decreases methods.len(),
{
    let more = methods.skip(1);
    let front = methods.drop_last();
    if methods.len() == 2 {
        assert(front.len() == 1 && more.len() == 1);
        assert(handlers::listed(front, sep) == methods[0]);
        assert(handlers::listed(more, sep) == methods[1]);
    } else {
        lemma_listed_first(front, sep);
        assert(more.drop_last().len() > 0 && more.len() > 1);
        assert(front[0] == methods[0]);
        assert(front.skip(1) =~= more.drop_last());
        assert(more.last() == methods.last());
        let inner = handlers::listed(more.drop_last(), sep);
        assert((methods[0] + sep + inner) + sep + methods.last() =~= methods[0] + sep + (inner + sep
            + methods.last()));
    }
}

proof fn lemma_listed(methods: Seq<Seq<char>>)
    requires
        methods.len() > 0,
        forall|i: int| 0 <= i < methods.len() ==> framing::free_of(#[trigger] methods[i], ','),
    ensures
        text::pieces(handlers::listed(methods, seq![',', ' ']), seq![',', ' ']) == methods,
    decreases methods.len(),
{
    let sep = seq![',', ' '];
    let s = handlers::listed(methods, sep);
    assert(framing::free_of(methods[0], ','));
    if methods.len() == 1 {
        text::lemma_index_from(s, sep, 0);
        if let Some(i) = text::first_index(s, sep) {
            assert(s.subrange(i, i + 2)[0] == s[i]);
        }
        assert(methods =~= seq![methods[0]]);
    } else {
        let more = methods.skip(1);
        assert forall|i: int| 0 <= i < more.len() implies framing::free_of(
            #[trigger] more[i],
            ',',
        ) by {
            assert(more[i] == methods[i + 1]);
        }
        lemma_listed(more);
        lemma_listed_first(methods, sep);
        let rest = handlers::listed(more, sep);
        text::lemma_first_index_behind(methods[0], sep, rest);
        assert(s.take(methods[0].len() as int) =~= methods[0]);
        assert(s.skip(methods[0].len() as int + 2) =~= rest);
        assert(seq![methods[0]] + more =~= methods);
    }
}

/// A body is refused exactly where it is longer than the server takes.
pub proof fn limit_of_the_body_is_exact(
    server: ServerView,
    request: RequestView,
    id: Seq<char>,
    count: u64,
    world: World,
)
    requires
        request.path == "/session"@,
    ensures
        answers::answer(server, request, id, count, world).status == if request.body.len()
            > server.max_body_size {
            413
        } else {
            200u16
        },
{
}

/// An error is answered with its status and the page of the server, byte for byte,
/// where it has one that can be read; only a method that is not allowed gets a
/// header more, with those that are.
pub proof fn error_shows_the_page_of_the_server(
    server: ServerView,
    status: u16,
    allow: Option<Seq<char>>,
    world: World,
)
    ensures
        ({
            let a = answers::error(server, status, allow, world);
            &&& a.status == status
            &&& !a.suppress_body
            &&& server.error_pages.dom().contains(status) ==> match (world.content)(
                server.error_pages[status],
            ) {
                Some(page) => a.body == page,
                None => a.body == vstd::utf8::encode_utf8(pages::error_text(status)),
            }
            &&& !server.error_pages.dom().contains(status) ==> a.body == vstd::utf8::encode_utf8(
                pages::error_text(status),
            )
            &&& a.headers.len() == if allow is Some {
                2
            } else {
                1nat
            }
            &&& a.headers[0] == ("Content-Type"@, "text/html; charset=utf-8"@)
            &&& allow matches Some(methods) ==> a.headers[1] == ("Allow"@, methods)
        }),
{
}

/// A client whose session is new is told its id in a cookie, and any other is told
/// nothing; the answer to `HEAD` leaves the body out, and no other does. Nothing else
/// is changed in an answer.
pub proof fn answer_is_finished_with_the_cookie(response: ResponseView, request: RequestView, fresh: Seq<u8>)
    requires
        !response.suppress_body,
    ensures
        ({
            let (id, is_new) = sessions::session_of(request, fresh);
            let a = handlers::finished(response, handlers::ending_for(request, fresh));
            &&& a.status == response.status
            &&& a.body == response.body
            &&& a.suppress_body == (request.method == "HEAD"@)
            &&& a.headers == if is_new {
                response.headers.push(("Set-Cookie"@, "SID="@ + id + "; Path=/; HttpOnly"@))
            } else {
                response.headers
            }
        }),
{
}

} // verus!

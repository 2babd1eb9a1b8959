//! The `@openapi("spec.json")` directive: what it was written with goes in, and the members of the
//! declaration that it decorates come out.
//!
//! The file itself is read by the caller, between [`begin_expansion`] and [`finish_expansion`].
//! Every outcome reports the file that it looked at, the failures too: a spec that is missing today
//! and written tomorrow has to run the expansion again.
use crate::codegen::{client, client_source};
use crate::json::{json_document, Tree};
use crate::spec::{described, described_by_text, parse, Spec, SpecView};
use crate::text::{
    joined, same, split, split_at_a_separator, split_is_undone_by_joining, split_of_one_piece, views,
};
use vstd::prelude::*;
use vstd::string::*;

verus! {

/// Which kind of declaration a directive stands on.
#[derive(Debug, Clone, Copy, PartialEq, Eq, Structural)]
pub enum TierSite {
    Function,
    Method,
    Type,
    Trait,
}

/// What the directive was written with, and what it was written on.
#[derive(Debug)]
pub struct DirectiveCtx {
    /// Positional arguments. At most one arrives, and none may.
    pub args: Vec<String>,
    /// Named arguments. The directive takes none.
    pub named: Vec<(String, String)>,
    /// The decorated declaration's name.
    pub target: String,
    pub site: TierSite,
    /// The directory of the file that the directive was written in.
    pub source_dir: String,
}

/// A document that is to be read.
#[derive(Debug)]
pub struct Reading {
    /// The document as the directive names it.
    pub arg: String,
    /// The file to read.
    pub path: String,
    /// The decorated declaration's name.
    pub target: String,
}

/// What an expansion produced.
#[derive(Debug)]
pub struct Expansion {
    /// Source for the members of the decorated declaration.
    pub source: String,
    /// Every file that was read.
    pub reads: Vec<String>,
}

/// Why an expansion failed, and what it read on the way to failing.
#[derive(Debug)]
pub struct ExpansionError {
    pub message: String,
    /// Every file that was read, or that would have been.
    pub reads: Vec<String>,
}

/// What a reading is.
pub struct ReadingView {
    pub arg: Seq<char>,
    pub path: Seq<char>,
    pub target: Seq<char>,
}

/// What an expansion is.
pub struct ExpansionView {
    pub source: Seq<char>,
    pub reads: Seq<Seq<char>>,
}

/// What a failure is.
pub struct FailureView {
    pub message: Seq<char>,
    pub reads: Seq<Seq<char>>,
}

impl View for Reading {
    type V = ReadingView;

    open spec fn view(&self) -> ReadingView {
        ReadingView { arg: self.arg@, path: self.path@, target: self.target@ }
    }
}

impl View for Expansion {
    type V = ExpansionView;

    open spec fn view(&self) -> ExpansionView {
        ExpansionView { source: self.source@, reads: views(self.reads@) }
    }
}

impl View for ExpansionError {
    type V = FailureView;

    open spec fn view(&self) -> FailureView {
        FailureView { message: self.message@, reads: views(self.reads@) }
    }
}

/// Whether a character separates the components of a path on some platform.
pub open spec fn is_separator(c: char) -> bool {
    c == '/' || c == '\\'
}

/// Whether a name is that of a file alone, with nothing in it that could lead to another directory
/// on any platform.
pub open spec fn is_file_name(name: Seq<char>) -> bool {
    &&& name.len() > 0
    &&& !name.contains('/')
    &&& !name.contains('\\')
    &&& !name.contains(':')
    &&& name != "."@
    &&& name != ".."@
}

/// Whether a path does not begin with two separators, so that it cannot name a network share or a
/// device on any platform.
pub open spec fn is_plain(path: Seq<char>) -> bool {
    path.len() < 2 || !is_separator(path[0]) || !is_separator(path[1])
}

/// Whether a path is relative on every platform: it begins with no separator, and has no `:` that
/// could make a part of it a drive.
pub open spec fn is_relative(path: Seq<char>) -> bool {
    &&& path.len() == 0 || !is_separator(path[0])
    &&& !path.contains(':')
}

/// Whether `separator` is what stands between a directory and a path in it: nothing, where there
/// is no directory or where it ends in a separator or as a drive does, or else one separator.
pub open spec fn separates(separator: Seq<char>, dir: Seq<char>) -> bool {
    ||| separator.len() == 0 && (dir.len() == 0 || is_separator(dir.last()) || dir.last() == ':')
    ||| separator.len() == 1 && is_separator(separator[0]) && dir.len() > 0 && dir.last() != '/'
}

/// Whether a path begins in a directory: with the directory itself, and what separates it.
pub open spec fn begins_in(lead: Seq<char>, dir: Seq<char>) -> bool {
    exists|separator: Seq<char>| lead == #[trigger] (dir + separator) && separates(separator, dir)
}

/// Whether a path begins with `\\?\`, behind which one platform rewrites what is joined to it.
pub open spec fn is_verbatim(path: Seq<char>) -> bool {
    path.len() > 3 && path[0] == '\\' && path[1] == '\\' && path[2] == '?' && path[3] == '\\'
}

/// Whether `lead` may be a directory's drive, or its share, or the device that it is on.
pub open spec fn is_volume(lead: Seq<char>, dir: Seq<char>) -> bool {
    ||| dir.len() > 1 && dir[1] == ':' && lead == dir.take(2)
    ||| !is_plain(dir) && lead.len() <= dir.len() && lead == dir.take(lead.len() as int)
}

/// Whether `lead` is what may stand before `path` once it is resolved against `dir`: the directory,
/// unless the path begins with `/`; and, where the path is not relative on every platform, also
/// nothing, or the directory's volume before a path from the root.
pub open spec fn leads(lead: Seq<char>, dir: Seq<char>, path: Seq<char>) -> bool {
    ||| begins_in(lead, dir) && (path.len() == 0 || path[0] != '/')
    ||| lead.len() == 0 && !is_relative(path)
    ||| path.len() > 0 && is_separator(path[0]) && is_volume(lead, dir)
}

/// Whether `joined` is what `path` may be once it is resolved against `dir`.
pub open spec fn is_joined(joined: Seq<char>, dir: Seq<char>, path: Seq<char>) -> bool {
    exists|lead: Seq<char>| joined == #[trigger] (lead + path) && leads(lead, dir, path)
}

/// What stands behind the last `.` of a file's name, where one stands in it and not only at its
/// beginning.
pub open spec fn extension_in(name: Seq<char>) -> Option<Seq<char>> {
    let parts = split(name, '.');
    if parts.len() > 2 || (parts.len() == 2 && parts[0].len() > 0) {
        Some(parts.last())
    } else {
        None
    }
}

/// Whether a path goes on behind the share or the device that it begins with: two separators, two
/// names, each with a separator behind it. The first is not `?`.
pub open spec fn goes_past_a_share(path: Seq<char>) -> bool {
    let names = split(
        path.skip(2).map_values(
            |c: char|
                if is_separator(c) {
                    '/'
                } else {
                    c
                },
        ),
        '/',
    );
    &&& !is_plain(path)
    &&& names.len() > 2
    &&& names[0].len() > 0
    &&& names[0] != "?"@
    &&& names[1].len() > 0
}

/// Whether what stands behind a path's beginning is neither a part of a share's name nor of a
/// device's.
pub open spec fn is_clear(before: Seq<char>) -> bool {
    is_plain(before) || goes_past_a_share(before)
}

/// Whether a path means the same without the given end: the end is empty, or begins with `/` and
/// has nothing but `.` between its separators.
pub open spec fn is_idle(end: Seq<char>) -> bool {
    end.len() > 0 ==> end[0] == '/' && forall|i: int|
        0 <= i < split(end, '/').len() ==> (#[trigger] split(end, '/')[i]).len() == 0 || split(
            end,
            '/',
        )[i] == "."@
}

/// Whether a path means the same without the given end on some platform: backslashes may stand
/// before an end that is idle on all of them.
pub open spec fn is_trailing(end: Seq<char>) -> bool
    decreases end.len(),
{
    is_idle(end) || (end.len() > 0 && end[0] == '\\' && is_trailing(end.drop_first()))
}

/// Whether `extension` may be that of a path that is `before`, a file's name and `end`. The
/// extension that the name has is the path's, unless a backslash behind the name is a part of it.
/// Where the name has none, the path has none either, behind nothing or a `/`; behind a `\` or a
/// `:`, which separate on some platforms only, what stands before them may be a part of it.
pub open spec fn extends(
    extension: Option<Seq<char>>,
    before: Seq<char>,
    file: Seq<char>,
    end: Seq<char>,
) -> bool {
    &&& extension_in(file) is Some ==> extension == extension_in(file) || (end.len() > 0 && end[0]
        == '\\' && extension is Some && extension->0.contains('\\'))
    &&& extension_in(file) is None && (before.len() == 0 || before.last() == '/') ==> extension
        is None
    &&& !file.contains('.') && before.len() > 0 && (before.last() == '\\' || before.last() == ':')
        ==> (extension matches Some(e) ==> e.contains('\\') || e.contains(':'))
}

/// Whether `extension` may be that of `path`, whichever name it ends in: that of a file, `..`, or
/// none.
pub open spec fn is_extension(extension: Option<Seq<char>>, path: Seq<char>) -> bool {
    &&& forall|before: Seq<char>, file: Seq<char>, end: Seq<char>|
        path == #[trigger] (before + file + end) && is_clear(before) && is_file_name(file)
            && is_trailing(end) ==> extends(extension, before, file, end)
    &&& forall|before: Seq<char>, end: Seq<char>|
        path == #[trigger] (before + ".."@ + end) && is_clear(before) && is_idle(end) && (
        before.len() == 0 || before.last() == '/') ==> extension is None
    &&& is_plain(path) && is_idle(path) ==> extension is None
    &&& path.len() > 0 && path[0] == '.' && is_idle(path.drop_first()) ==> extension is None
}

/// Whether a path ends in the given name.
pub open spec fn ends_in(path: Seq<char>, name: Seq<char>) -> bool {
    exists|before: Seq<char>| path == #[trigger] (before + name)
}

/// The characters of an extension that may be there.
pub open spec fn extension_view(extension: Option<String>) -> Option<Seq<char>> {
    match extension {
        Some(e) => Some(e@),
        None => None,
    }
}

/// `std::path::Path::join`, between strings: a path that is relative on every platform stands behind
/// the directory and at most a separator. One that is not, an absolute one or one with a drive, may
/// take the directory's place; one from the root may keep the directory's volume. Of a directory that
/// begins with `\\?\`, which one platform rewrites, it is only said that a file's name joined to it
/// comes last.
#[verifier::external_body]
fn join_path(dir: &str, file: &str) -> (path: String)
    ensures
        !is_verbatim(dir@) ==> is_joined(path@, dir@, file@),
        is_file_name(file@) ==> ends_in(path@, file@),
{
    std::path::Path::new(dir).join(file).display().to_string()
}

/// `std::path::Path::extension`, between strings: of a path that ends in a file's name, it is what
/// stands behind the last `.` in that name, and nothing where the name has none but at its
/// beginning. Separators and `.` behind the name do not count; a path that ends in `..` or in no name
/// has no extension. A `\` or a `:` next to the name is a part of it on some platforms; there, what
/// the extension may hold is said. Within the name of a share or of a device nothing is said.
#[verifier::external_body]
fn extension_of(path: &str) -> (extension: Option<String>)
    ensures
        is_extension(extension_view(extension), path@),
{
    std::path::Path::new(path).extension().and_then(|e| e.to_str()).map(|e| e.to_owned())
}

/// Whether `arg`, written in a file in `dir`, may be the file at `path` with the given extension.
pub open spec fn resolves(
    dir: Seq<char>,
    arg: Seq<char>,
    path: Seq<char>,
    extension: Option<Seq<char>>,
) -> bool {
    &&& !is_verbatim(dir) ==> is_joined(path, dir, arg)
    &&& is_file_name(arg) ==> ends_in(path, arg)
    &&& is_extension(extension, path)
}

/// The failure of a directive without an argument; nothing was named, so nothing was read.
pub open spec fn no_argument() -> FailureView {
    FailureView {
        message: "needs the path to an OpenAPI document, as in `@openapi(\"petstore.json\")`"@,
        reads: Seq::empty(),
    }
}

/// Whether a file extension is one of YAML's.
pub open spec fn is_yaml(extension: Option<Seq<char>>) -> bool {
    extension == Some("yaml"@) || extension == Some("yml"@)
}

/// What is to be read for an argument, once its path and the path's extension are known. A YAML
/// document is refused by its name.
pub open spec fn located(
    arg: Seq<char>,
    target: Seq<char>,
    path: Seq<char>,
    extension: Option<Seq<char>>,
) -> Result<ReadingView, FailureView> {
    if is_yaml(extension) {
        Err(
            FailureView {
                message: "`"@ + arg
                    + "` is YAML, and only JSON specs are read — convert it first (any OpenAPI tool will, and both spellings are the same document)"@,
                reads: seq![path],
            },
        )
    } else {
        Ok(ReadingView { arg, path, target })
    }
}

/// What a reading gives, once the document has been parsed or has failed to.
pub open spec fn generated(reading: ReadingView, parsed: Result<SpecView, Seq<char>>) -> Result<
    ExpansionView,
    FailureView,
> {
    match parsed {
        Ok(api) => Ok(
            ExpansionView {
                source: client_source(reading.target, api),
                reads: seq![reading.path],
            },
        ),
        Err(reason) => Err(
            FailureView {
                message: "`"@ + reading.arg + "`: "@ + reason,
                reads: seq![reading.path],
            },
        ),
    }
}

/// What a reading gives, once the file has been read or has failed to be. `document` is what the
/// text that was read is as JSON.
pub open spec fn expanded(
    reading: ReadingView,
    text: Result<Seq<char>, Seq<char>>,
    document: Result<Tree, Seq<char>>,
) -> Result<ExpansionView, FailureView> {
    match text {
        Ok(_) => generated(reading, described_by_text(document)),
        Err(reason) => Err(
            FailureView {
                message: "could not read `"@ + reading.path + "`: "@ + reason,
                reads: seq![reading.path],
            },
        ),
    }
}

/// One path, as the list of files that were read.
fn only(path: &str) -> (reads: Vec<String>)
    ensures
        views(reads@) == seq![path@],
{
    let mut reads: Vec<String> = Vec::new();
    reads.push(path.to_owned());
    assert(views(reads@) == seq![path@]);
    reads
}

/// Decides whether the document at a path is to be read.
pub fn locate(arg: &str, target: &str, path: &str, extension: Option<&str>) -> (result: Result<
    Reading,
    ExpansionError,
>)
    ensures
        ({
            let expected = located(
                arg@,
                target@,
                path@,
                match extension {
                    Some(e) => Some(e@),
                    None => None,
                },
            );
            match result {
                Ok(reading) => expected == Ok::<ReadingView, FailureView>(reading@),
                Err(failure) => expected == Err::<ReadingView, FailureView>(failure@),
            }
        }),
{
    let yaml: bool = match extension {
        Some(e) => same(e, "yaml") || same(e, "yml"),
        None => false,
    };
    if yaml {
        let mut message: String = "`".to_owned();
        message.append(arg);
        message.append(
            "` is YAML, and only JSON specs are read — convert it first (any OpenAPI tool will, and both spellings are the same document)",
        );
        return Err(ExpansionError { message, reads: only(path) });
    }
    Ok(Reading { arg: arg.to_owned(), path: path.to_owned(), target: target.to_owned() })
}

/// Begins the expansion: finds out which document the directive names.
///
/// The path is resolved against the directory of the file that the directive was written in, so
/// that a spec sits next to the code that uses it.
pub fn begin_expansion(ctx: &DirectiveCtx) -> (result: Result<Reading, ExpansionError>)
    ensures
        ctx.args@.len() == 0 ==> (result matches Err(failure) && failure@ == no_argument()),
        ctx.args@.len() > 0 ==> exists|path: Seq<char>, extension: Option<Seq<char>>| #[trigger]
            resolves(ctx.source_dir@, ctx.args@[0]@, path, extension) && match result {
                Ok(reading) => located(ctx.args@[0]@, ctx.target@, path, extension) == Ok::<
                    ReadingView,
                    FailureView,
                >(reading@),
                Err(failure) => located(ctx.args@[0]@, ctx.target@, path, extension) == Err::<
                    ReadingView,
                    FailureView,
                >(failure@),
            },
{
    if ctx.args.len() == 0 {
        let reads: Vec<String> = Vec::new();
        assert(views(reads@) == Seq::<Seq<char>>::empty());
        return Err(
            ExpansionError {
                message: "needs the path to an OpenAPI document, as in `@openapi(\"petstore.json\")`".to_owned(),
                reads,
            },
        );
    }
    let arg: &str = ctx.args[0].as_str();
    let path: String = join_path(ctx.source_dir.as_str(), arg);
    let extension: Option<String> = extension_of(path.as_str());
    assert(resolves(ctx.source_dir@, arg@, path@, extension_view(extension)));
    match &extension {
        Some(e) => locate(arg, ctx.target.as_str(), path.as_str(), Some(e.as_str())),
        None => locate(arg, ctx.target.as_str(), path.as_str(), None),
    }
}

/// Generates the client from what the document was parsed into.
pub fn generate(reading: &Reading, parsed: Result<Spec, String>) -> (result: Result<
    Expansion,
    ExpansionError,
>)
    ensures
        ({
            let expected = generated(
                reading@,
                match parsed {
                    Ok(api) => Ok(api@),
                    Err(reason) => Err(reason@),
                },
            );
            match result {
                Ok(expansion) => expected == Ok::<ExpansionView, FailureView>(expansion@),
                Err(failure) => expected == Err::<ExpansionView, FailureView>(failure@),
            }
        }),
{
    let reads: Vec<String> = only(reading.path.as_str());
    match parsed {
        Ok(api) => Ok(Expansion { source: client(reading.target.as_str(), &api), reads }),
        Err(reason) => {
            let mut message: String = "`".to_owned();
            message.append(reading.arg.as_str());
            message.append("`: ");
            message.append(reason.as_str());
            Err(ExpansionError { message, reads })
        },
    }
}

/// Finishes the expansion with the text of the document, or with the reason why it could not be
/// read.
pub fn finish_expansion(reading: &Reading, text: Result<String, String>) -> (result: Result<
    Expansion,
    ExpansionError,
>)
    ensures
        ({
            let expected = expanded(
                reading@,
                match text {
                    Ok(text) => Ok(text@),
                    Err(reason) => Err(reason@),
                },
                json_document(text->Ok_0@),
            );
            match result {
                Ok(expansion) => expected == Ok::<ExpansionView, FailureView>(expansion@),
                Err(failure) => expected == Err::<ExpansionView, FailureView>(failure@),
            }
        }),
{
    match text {
        Ok(text) => generate(reading, parse(text.as_str())),
        Err(reason) => {
            let mut message: String = "could not read `".to_owned();
            message.append(reading.path.as_str());
            message.append("`: ");
            message.append(reason.as_str());
            Err(ExpansionError { message, reads: only(reading.path.as_str()) })
        },
    }
}

/// Every outcome for a document that is named reports exactly that document, whether it is refused by
/// its name, cannot be read, cannot be parsed or is expanded: once it changes, the expansion runs again.
pub proof fn every_outcome_reports_its_document(
    arg: Seq<char>,
    target: Seq<char>,
    path: Seq<char>,
    extension: Option<Seq<char>>,
    text: Result<Seq<char>, Seq<char>>,
    document: Result<Tree, Seq<char>>,
)
    ensures
        match located(arg, target, path, extension) {
            Err(refusal) => refusal.reads == seq![path],
            Ok(reading) => match expanded(reading, text, document) {
                Ok(expansion) => expansion.reads == seq![path],
                Err(failure) => failure.reads == seq![path],
            },
        },
{
}

/// A document is expanded exactly where it is no YAML by its name, can be read, and describes a
/// client; what comes out is that client.
pub proof fn only_described_clients_are_generated(
    arg: Seq<char>,
    target: Seq<char>,
    path: Seq<char>,
    extension: Option<Seq<char>>,
    text: Result<Seq<char>, Seq<char>>,
    document: Result<Tree, Seq<char>>,
)
    ensures
        located(arg, target, path, extension) is Ok <==> !is_yaml(extension),
        located(arg, target, path, extension) matches Ok(reading) ==> {
            &&& expanded(reading, text, document) is Ok <==> text is Ok && document is Ok && described(
                document->Ok_0,
            ) is Ok
            &&& expanded(reading, text, document) matches Ok(expansion) ==> expansion.source
                == client_source(target, described(document->Ok_0)->Ok_0)
        },
{
}

/// Whether neither a directory nor a path resolved against it can make a share or a device of the
/// two: neither begins with two separators, and a directory that is one separator alone is `/` and
/// stands before no other.
pub open spec fn are_plain(dir: Seq<char>, path: Seq<char>) -> bool {
    &&& is_plain(dir)
    &&& is_plain(path)
    &&& dir.len() == 1 && is_separator(dir[0]) ==> dir[0] == '/' && (path.len() == 0 || path[0]
        != '\\')
}

proof fn what_stands_before_a_file_is_plain(
    dir: Seq<char>,
    path: Seq<char>,
    lead: Seq<char>,
    folders: Seq<char>,
    rest: Seq<char>,
)
    requires
        are_plain(dir, path),
        leads(lead, dir, path),
        path == folders + rest,
    ensures
        is_plain(lead + folders),
{
    let before = lead + folders;
    assert(folders.len() > 0 ==> folders[0] == path[0]);
    assert(folders.len() > 1 ==> folders[1] == path[1]);
    if lead.len() == 0 {
        assert(before == folders);
    } else if begins_in(lead, dir) {
        let separator = choose|separator: Seq<char>|
            lead == #[trigger] (dir + separator) && separates(separator, dir);
        if dir.len() > 1 {
            assert(before[0] == dir[0] && before[1] == dir[1]);
        } else if dir.len() == 1 {
            assert(before[0] == dir[0]);
            if is_separator(dir[0]) {
                assert(separator.len() == 0);
                assert(before.len() > 1 ==> before[1] == folders[0]);
            }
        }
    } else {
        assert(before[1] == ':');
    }
}

/// Whether a document is refused as YAML is decided by the file's name that the argument ends in,
/// wherever the argument is written and whatever folders it goes through.
pub proof fn the_name_decides_about_yaml(
    dir: Seq<char>,
    folders: Seq<char>,
    file: Seq<char>,
    end: Seq<char>,
    target: Seq<char>,
    path: Seq<char>,
    extension: Option<Seq<char>>,
)
    requires
        are_plain(dir, folders + file + end),
        is_file_name(file),
        is_idle(end),
        resolves(dir, folders + file + end, path, extension),
    ensures
        extension_in(file) is Some ==> (located(folders + file + end, target, path, extension)
            is Err <==> is_yaml(extension_in(file))),
        !file.contains('.') && (folders.len() == 0 || is_separator(folders.last()))
            ==> located(folders + file + end, target, path, extension) is Ok,
{
    let arg = folders + file + end;
    let lead = choose|lead: Seq<char>| path == #[trigger] (lead + arg) && leads(lead, dir, arg);
    assert(arg == folders + (file + end));
    what_stands_before_a_file_is_plain(dir, arg, lead, folders, file + end);
    let before = lead + folders;
    assert(path == before + file + end);
    assert(is_trailing(end));
    assert(extends(extension, before, file, end));
    if !file.contains('.') && (folders.len() == 0 || is_separator(folders.last())) {
        split_of_one_piece(file, '.');
        reveal_strlit("yaml");
        reveal_strlit("yml");
        if folders.len() > 0 {
            assert(before.last() == folders.last());
        } else {
            assert(before == lead);
            assert(arg[0] == file[0]);
            if begins_in(lead, dir) {
                let separator = choose|separator: Seq<char>|
                    lead == #[trigger] (dir + separator) && separates(separator, dir);
                if separator.len() == 0 {
                    assert(lead == dir);
                } else {
                    assert(lead.last() == separator[0]);
                }
            }
        }
        assert(!"yaml"@.contains('\\') && !"yaml"@.contains(':'));
        assert(!"yml"@.contains('\\') && !"yml"@.contains(':'));
    }
}

/// A document is refused exactly where its extension is `yaml` or `yml`, by its own name; otherwise
/// that document is what is read, for that declaration.
pub proof fn yaml_is_refused_by_name(
    arg: Seq<char>,
    target: Seq<char>,
    path: Seq<char>,
    extension: Option<Seq<char>>,
)
    ensures
        match located(arg, target, path, extension) {
            Err(refusal) => {
                &&& extension == Some("yaml"@) || extension == Some("yml"@)
                &&& refusal.message == "`"@ + arg
                    + "` is YAML, and only JSON specs are read — convert it first (any OpenAPI tool will, and both spellings are the same document)"@
            },
            Ok(reading) => {
                &&& extension != Some("yaml"@)
                &&& extension != Some("yml"@)
                &&& reading.arg == arg
                &&& reading.path == path
                &&& reading.target == target
            },
        },
{
}

/// What comes of a document that is read: a file that cannot be read fails with its path and the
/// reason, a document that cannot be used fails with its name and the reason, and any other gives
/// the client of the declaration. A directive that names no document says what it needs.
pub proof fn outcomes_say_what_happened(
    reading: ReadingView,
    text: Result<Seq<char>, Seq<char>>,
    document: Result<Tree, Seq<char>>,
)
    ensures
        match (text, described_by_text(document)) {
            (Err(reason), _) => expanded(reading, text, document) matches Err(failure)
                && failure.message == "could not read `"@ + reading.path + "`: "@ + reason,
            (Ok(_), Err(reason)) => expanded(reading, text, document) matches Err(failure)
                && failure.message == "`"@ + reading.arg + "`: "@ + reason,
            (Ok(_), Ok(api)) => expanded(reading, text, document) matches Ok(expansion)
                && expansion.source == client_source(reading.target, api),
        },
        no_argument().message
            == "needs the path to an OpenAPI document, as in `@openapi(\"petstore.json\")`"@,
        no_argument().reads.len() == 0,
{
}

/// A document is looked for in the directory of the file that names it: behind the directory, with
/// one separator between unless the directory ends in one or is a bare drive. A name that begins with
/// `/` is looked for from the root.
pub proof fn documents_are_looked_for_in_the_directory(
    dir: Seq<char>,
    arg: Seq<char>,
    path: Seq<char>,
    extension: Option<Seq<char>>,
)
    requires
        resolves(dir, arg, path, extension),
        dir.len() < 2 || !((dir[0] == '/' || dir[0] == '\\') && (dir[1] == '/' || dir[1] == '\\')),
        arg.len() > 0,
    ensures
        arg[0] != '/' && arg[0] != '\\' && !arg.contains(':') ==> {
            ||| path == dir + arg && (dir.len() == 0 || dir.last() == '/' || dir.last() == '\\'
                || dir.last() == ':')
            ||| path == dir + seq!['/'] + arg && dir.len() > 0 && dir.last() != '/'
            ||| path == dir + seq!['\\'] + arg && dir.len() > 0 && dir.last() != '/'
        },
        arg[0] == '/' ==> path == arg || (dir.len() > 1 && dir[1] == ':' && path == dir.take(2)
            + arg),
{
    assert(!is_verbatim(dir));
    let lead = choose|lead: Seq<char>| path == #[trigger] (lead + arg) && leads(lead, dir, arg);
    if arg[0] != '/' && arg[0] != '\\' && !arg.contains(':') {
        assert(is_relative(arg));
        let separator = choose|separator: Seq<char>|
            lead == #[trigger] (dir + separator) && separates(separator, dir);
        if separator.len() == 0 {
            assert(path == dir + arg);
        } else {
            assert(separator == seq![separator[0]]);
        }
    }
    if arg[0] == '/' && lead.len() == 0 {
        assert(path == arg);
    }
}

/// A document whose name ends in a dot and something behind it is refused exactly where that is
/// `yaml` or `yml`, whatever folders it is in.
pub proof fn the_ending_decides_about_yaml(
    dir: Seq<char>,
    folders: Seq<char>,
    stem: Seq<char>,
    ending: Seq<char>,
    target: Seq<char>,
    path: Seq<char>,
    extension: Option<Seq<char>>,
)
    requires
        stem.len() > 0,
        !stem.contains('/') && !stem.contains('\\') && !stem.contains(':'),
        !ending.contains('/') && !ending.contains('\\') && !ending.contains(':'),
        !ending.contains('.') && ending.len() > 0,
        are_plain(dir, folders + (stem + seq!['.'] + ending)),
        resolves(dir, folders + (stem + seq!['.'] + ending), path, extension),
    ensures
        located(folders + (stem + seq!['.'] + ending), target, path, extension) is Err
            <==> ending == "yaml"@ || ending == "yml"@,
{
    let file = stem + seq!['.'] + ending;
    let none = Seq::<char>::empty();
    assert(folders + file == folders + file + none);
    reveal_strlit(".");
    reveal_strlit("..");
    assert(file.len() >= 3);
    assert forall|c: char| c == '/' || c == '\\' || c == ':' implies !file.contains(c) by {
        assert forall|i: int| 0 <= i < file.len() implies file[i] != c by {
            if i < stem.len() {
                assert(file[i] == stem[i]);
            } else if i > stem.len() {
                assert(file[i] == ending[i - stem.len() - 1]);
            }
        }
    }
    assert(is_file_name(file));
    assert(file == stem.push('.') + ending);
    split_at_a_separator(stem, '.', ending);
    split_of_one_piece(ending, '.');
    split_is_undone_by_joining(stem, '.');
    let parts = split(file, '.');
    assert(parts.last() == ending);
    if parts.len() == 2 {
        assert(split(stem, '.').len() == 1);
        assert(joined(split(stem, '.'), seq!['.']) == split(stem, '.')[0]);
        assert(parts[0] == stem);
    }
    assert(extension_in(file) == Some(ending));
    the_name_decides_about_yaml(dir, folders, file, none, target, path, extension);
}

/// Readings, expansions and failures show as what their fields are.
pub proof fn views_show_the_fields(
    reading: Reading,
    expansion: Expansion,
    failure: ExpansionError,
)
    ensures
        reading@.arg == reading.arg@,
        reading@.path == reading.path@,
        reading@.target == reading.target@,
        expansion@.source == expansion.source@,
        expansion@.reads.len() == expansion.reads@.len(),
        forall|i: int|
            0 <= i < expansion.reads@.len() ==> #[trigger] expansion@.reads[i]
                == expansion.reads@[i]@,
        failure@.message == failure.message@,
        failure@.reads.len() == failure.reads@.len(),
        forall|i: int|
            0 <= i < failure.reads@.len() ==> #[trigger] failure@.reads[i] == failure.reads@[i]@,
{
}

} // verus!

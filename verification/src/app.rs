//! The arguments of a search over named files, and the report on the files.

use vstd::prelude::*;
use vstd::string::StringExecFns;
use crate::error::GreprError;
use crate::lines::text_lines;
use crate::matcher::{is_line_rendering, line_views, matching_lines, Matcher};
use crate::{as_output, emission_views, joined, source_diagnostic, texts, Emission, EmissionView};
use regex::Regex;
use crate::pattern::{compiled, Pattern};

verus! {

/// What the expansion of one file name wildcard gave: the paths it matched,
/// each of which may have failed to be read, or the reason why the wildcard
/// itself could not be read.
pub type Listing = Result<Vec<Result<String, GreprError>>, GreprError>;

/// The first failure among the entries, if there is one.
pub open spec fn first_failure(entries: Seq<Result<String, GreprError>>) -> Option<GreprError>
    decreases entries.len(),
{
    if entries.len() == 0 {
        None
    } else {
        match first_failure(entries.drop_last()) {
            Some(e) => Some(e),
            None => match entries.last() {
                Ok(_) => None,
                Err(e) => Some(e),
            },
        }
    }
}

/// The paths among the entries, in their order.
pub open spec fn listed_paths(entries: Seq<Result<String, GreprError>>) -> Seq<Seq<char>>
    decreases entries.len(),
{
    if entries.len() == 0 {
        Seq::empty()
    } else {
        match entries.last() {
            Ok(path) => listed_paths(entries.drop_last()).push(path@),
            Err(_) => listed_paths(entries.drop_last()),
        }
    }
}

/// The failure that a listing holds, if it holds one: that of the wildcard
/// itself, or else the first among its entries.
pub open spec fn listing_failure(listing: Listing) -> Option<GreprError> {
    match listing {
        Err(e) => Some(e),
        Ok(entries) => first_failure(entries@),
    }
}

/// The paths that a listing holds.
pub open spec fn listing_paths(listing: Listing) -> Seq<Seq<char>> {
    match listing {
        Err(_) => Seq::empty(),
        Ok(entries) => listed_paths(entries@),
    }
}

/// The first failure that the listings hold, if they hold one.
pub open spec fn first_listing_failure(listings: Seq<Listing>) -> Option<GreprError>
    decreases listings.len(),
{
    if listings.len() == 0 {
        None
    } else {
        match first_listing_failure(listings.drop_last()) {
            Some(e) => Some(e),
            None => listing_failure(listings.last()),
        }
    }
}

/// The paths of all the listings, in their order.
pub open spec fn all_paths(listings: Seq<Listing>) -> Seq<Seq<char>>
    decreases listings.len(),
{
    if listings.len() == 0 {
        Seq::empty()
    } else {
        all_paths(listings.drop_last()) + listing_paths(listings.last())
    }
}

/// The file names that one wildcard stands for: all the paths of its
/// listing, or the first failure met.
pub fn match_filename(listing: Listing) -> (result: Result<Vec<String>, GreprError>)
    ensures
        match listing_failure(listing) {
            Some(e) => result == Err::<Vec<String>, GreprError>(e),
            None => result matches Ok(paths) && texts(paths@) == listing_paths(listing),
        },
{
    let entries = match listing {
        Ok(entries) => entries,
        Err(e) => {
            return Err(e);
        },
    };
    let ghost all = entries@;
    let mut filenames: Vec<String> = Vec::new();
    assert(all.take(0) =~= Seq::<Result<String, GreprError>>::empty());
    for entry in it: entries.into_iter()
        invariant
            it.seq() == all,
            listing matches Ok(given) && given@ == all,
            first_failure(all.take(it.index() as int)) is None,
            texts(filenames@) == listed_paths(all.take(it.index() as int)),
    {
        assert(all.take(it.index() + 1).drop_last() =~= all.take(it.index() as int));
        match entry {
            Ok(path) => {
                let ghost before = texts(filenames@);
                filenames.push(path);
                assert(texts(filenames@) =~= before.push(path@));
            },
            Err(e) => {
                proof {
                    lemma_first_failure_prefix(all, it.index() + 1);
                }
                return Err(e);
            },
        }
    }
    assert(all.take(all.len() as int) =~= all);
    Ok(filenames)
}

/// A failure among the first entries is the first failure of them all.
pub proof fn lemma_first_failure_prefix(entries: Seq<Result<String, GreprError>>, n: int)
    requires
        0 <= n <= entries.len(),
        first_failure(entries.take(n)) is Some,
    ensures
        first_failure(entries) == first_failure(entries.take(n)),
    decreases entries.len() - n,
{
    if n < entries.len() {
        assert(entries.take(n + 1).drop_last() =~= entries.take(n));
        lemma_first_failure_prefix(entries, n + 1);
    } else {
        assert(entries.take(n) =~= entries);
    }
}

/// A failure among the first listings is the first failure of them all.
pub proof fn lemma_first_listing_failure_prefix(listings: Seq<Listing>, n: int)
    requires
        0 <= n <= listings.len(),
        first_listing_failure(listings.take(n)) is Some,
    ensures
        first_listing_failure(listings) == first_listing_failure(listings.take(n)),
    decreases listings.len() - n,
{
    if n < listings.len() {
        assert(listings.take(n + 1).drop_last() =~= listings.take(n));
        lemma_first_listing_failure_prefix(listings, n + 1);
    } else {
        assert(listings.take(n) =~= listings);
    }
}

/// The file names that the wildcards stand for, in the order of the
/// wildcards: all the paths of their listings, or the first failure met.
pub fn match_filenames(listings: Vec<Listing>) -> (result: Result<Vec<String>, GreprError>)
    ensures
        match first_listing_failure(listings@) {
            Some(e) => result == Err::<Vec<String>, GreprError>(e),
            None => result matches Ok(paths) && texts(paths@) == all_paths(listings@),
        },
{
    let ghost all = listings@;
    let mut fnames: Vec<String> = Vec::new();
    assert(all.take(0) =~= Seq::<Listing>::empty());
    for listing in it: listings.into_iter()
        invariant
            it.seq() == all,
            all == listings@,
            first_listing_failure(all.take(it.index() as int)) is None,
            texts(fnames@) == all_paths(all.take(it.index() as int)),
    {
        assert(all.take(it.index() + 1).drop_last() =~= all.take(it.index() as int));
        match match_filename(listing) {
            Ok(mut paths) => {
                let ghost before = texts(fnames@);
                let ghost added = texts(paths@);
                fnames.append(&mut paths);
                assert(texts(fnames@) =~= before + added);
            },
            Err(e) => {
                proof {
                    lemma_first_listing_failure_prefix(all, it.index() + 1);
                }
                return Err(e);
            },
        }
    }
    assert(all.take(all.len() as int) =~= all);
    Ok(fnames)
}

/// The arguments of a search over named files.
pub struct GreprArgs {
    /// The search expression.
    pub pattern: String,
    /// The files to search; `None` when there are none.
    pub filenames: Option<Vec<String>>,
}

impl GreprArgs {
    /// Puts the arguments together from the search expression and from what
    /// the expansion of each input wildcard gave. Fails with the first
    /// failure that the listings hold. Inputs that stand for no file at all
    /// leave the arguments without file names.
    pub fn try_from(pattern: String, inputs: Option<Vec<Listing>>) -> (result: Result<GreprArgs, GreprError>)
        ensures
            match inputs {
                None => result matches Ok(args) && args.pattern == pattern && args.filenames is None,
                Some(listings) => match first_listing_failure(listings@) {
                    Some(e) => result == Err::<GreprArgs, GreprError>(e),
                    None => {
                        &&& result matches Ok(args)
                        &&& args.pattern == pattern
                        &&& all_paths(listings@).len() == 0 ==> args.filenames is None
                        &&& all_paths(listings@).len() > 0 ==> (args.filenames matches Some(names) && texts(names@)
                            == all_paths(listings@))
                    },
                },
            },
    {
        let filenames = match inputs {
            Some(listings) => {
                let filenames = match match_filenames(listings) {
                    Ok(filenames) => filenames,
                    Err(e) => {
                        return Err(e);
                    },
                };
                if filenames.len() == 0 {
                    None
                } else {
                    Some(filenames)
                }
            },
            None => None,
        };
        Ok(GreprArgs { pattern, filenames })
    }
}

/// What is shown of a file: nothing when no line of it matched, else a line
/// with the file's name and below it the matching lines, indented.
pub open spec fn file_report(file_name: Seq<char>, rendered: Seq<Seq<char>>) -> Seq<Seq<char>> {
    if rendered.len() == 0 {
        Seq::empty()
    } else {
        seq!["- "@ + file_name] + rendered.map_values(|line: Seq<char>| "    "@ + line)
    }
}

/// Whether `out` is what is shown of a file that reads `content`, searched
/// for `pattern`: the report over renderings of its matching lines.
pub open spec fn is_file_report_of(pattern: Regex, file_name: Seq<char>, content: Seq<char>, out: Seq<Seq<char>>) -> bool {
    exists|rendered: Seq<Seq<char>>|
        {
            &&& rendered.len() == matching_lines(pattern, text_lines(content)).len()
            &&& forall|k: int|
                0 <= k < rendered.len() ==> is_line_rendering(
                    matching_lines(pattern, text_lines(content))[k],
                    #[trigger] rendered[k],
                )
            &&& out == #[trigger] file_report(file_name, rendered)
        }
}

/// Puts together what is shown of a file from its name and its matching
/// lines as they are to be shown.
pub fn report_file(file_name: &str, rendered: &Vec<String>) -> (out: Vec<String>)
    ensures
        texts(out@) == file_report(file_name@, texts(rendered@)),
{
    let mut out: Vec<String> = Vec::new();
    if rendered.len() > 0 {
        let mut head = String::from_str("- ");
        head.append(file_name);
        out.push(head);
        let ghost indented = texts(rendered@).map_values(|line: Seq<char>| "    "@ + line);
        let mut i: usize = 0;
        while i < rendered.len()
            invariant
                i <= rendered.len(),
                indented == texts(rendered@).map_values(|line: Seq<char>| "    "@ + line),
                texts(out@) == seq!["- "@ + file_name@] + indented.take(i as int),
            decreases rendered.len() - i,
        {
            let mut line = String::from_str("    ");
            line.append(rendered[i].as_str());
            let ghost shown = texts(out@);
            out.push(line);
            assert(texts(out@) =~= shown.push("    "@ + rendered[i as int]@));
            assert(indented.take(i + 1) =~= indented.take(i as int).push("    "@ + rendered[i as int]@));
            i += 1;
            assert(texts(out@) =~= seq!["- "@ + file_name@] + indented.take(i as int));
        }
        assert(indented.take(i as int) =~= indented);
    }
    assert(texts(out@) =~= file_report(file_name@, texts(rendered@)));
    out
}

/// What became of one of the named files before the search.
#[derive(Debug)]
pub enum FileInput {
    /// The file of this name could not be opened or read; holds the cause as
    /// well.
    Unreadable(String, String),
    /// The file of this name, and the text read from it.
    Read(String, String),
}

/// Whether `part` is what a search for `re` writes for `file`: one
/// diagnostic with the name and the cause for a file that could not be
/// read, and for any other file its report as lines of output.
pub open spec fn is_file_part(re: Regex, file: FileInput, part: Seq<EmissionView>) -> bool {
    match file {
        FileInput::Unreadable(name, cause) => part == seq![
            EmissionView::Diagnostic(source_diagnostic(name@, cause@)),
        ],
        FileInput::Read(name, text) => exists|report: Seq<Seq<char>>|
            #[trigger] is_file_report_of(re, name@, text@, report) && part == as_output(report),
    }
}

/// A search over named files.
pub struct GreprApp {
    /// The arguments of the search.
    pub args: GreprArgs,
}

impl GreprApp {
    /// A search with the given arguments.
    pub fn new(args: GreprArgs) -> (app: Self)
        ensures
            app.args == args,
    {
        Self { args }
    }

    /// Searches `content`, the text of the file named `file_name`, for a
    /// compiled pattern and returns the lines to show.
    pub fn grep_with(pattern: &Pattern, file_name: &str, content: &str) -> (out: Vec<String>)
        ensures
            is_file_report_of(pattern.regex(), file_name@, content@, texts(out@)),
    {
        let mut rendered: Vec<String> = Vec::new();
        let ghost expected = matching_lines(pattern.regex(), text_lines(content@));
        match content.match_pattern(pattern) {
            Some(found) => {
                let mut i: usize = 0;
                while i < found.len()
                    invariant
                        i <= found.len(),
                        rendered.len() == i,
                        line_views(found@) == expected,
                        forall|k: int| 0 <= k < i ==> is_line_rendering(expected[k], (#[trigger] rendered[k])@),
                    decreases found.len() - i,
                {
                    assert(line_views(found@)[i as int] == found[i as int]@);
                    rendered.push(found[i].render());
                    i += 1;
                }
            },
            None => {},
        }
        let out = report_file(file_name, &rendered);
        proof {
            assert forall|k: int| 0 <= k < texts(rendered@).len() implies is_line_rendering(
                expected[k],
                #[trigger] texts(rendered@)[k],
            ) by {
                assert(texts(rendered@)[k] == rendered[k]@);
            }
            assert(texts(out@) == file_report(file_name@, texts(rendered@)));
        }
        out
    }

    /// Searches `content`, the text of the file named `file_name`, for the
    /// search expression of the arguments, read as a case-sensitive pattern,
    /// and returns the lines to show. Succeeds exactly when the regular
    /// expression engine accepts the expression, and fails with
    /// `InvalidPattern`, carrying the expression, when it does not.
    pub fn grep(&self, file_name: &str, content: &str) -> (result: Result<Vec<String>, GreprError>)
        ensures
            result is Ok <==> compiled(self.args.pattern@, false) is Some,
            result matches Ok(out) ==> is_file_report_of(
                compiled(self.args.pattern@, false)->0,
                file_name@,
                content@,
                texts(out@),
            ),
            result matches Err(e) ==> e matches GreprError::InvalidPattern(p) && p@ == self.args.pattern@,
    {
        match Pattern::compile(self.args.pattern.as_str(), false) {
            Ok(pattern) => Ok(GreprApp::grep_with(&pattern, file_name, content)),
            Err(e) => Err(e),
        }
    }

    /// Searches the files one after the other for the search expression of
    /// the arguments, read as a case-sensitive pattern, and returns what is
    /// to be written, in order. A file that could not be read gives one
    /// diagnostic and does not keep the search from going on to the next
    /// file.
    ///
    /// The expression is compiled only when there is a file to search. The
    /// search fails with `InvalidPattern`, carrying the expression, when
    /// there is such a file and the regular expression engine rejects the
    /// expression; nothing is written then.
    pub fn grep_all(&self, files: &Vec<FileInput>) -> (result: Result<Vec<Emission>, GreprError>)
        ensures
            result is Ok <==> (compiled(self.args.pattern@, false) is Some || forall|i: int|
                0 <= i < files@.len() ==> files@[i] is Unreadable),
            result matches Ok(out) ==> (exists|parts: Seq<Seq<EmissionView>>|
                {
                    &&& parts.len() == files@.len()
                    &&& forall|i: int|
                        0 <= i < parts.len() ==> is_file_part(
                            compiled(self.args.pattern@, false)->0,
                            files@[i],
                            #[trigger] parts[i],
                        )
                    &&& emission_views(out@) == #[trigger] joined(parts)
                }),
            result matches Err(e) ==> e matches GreprError::InvalidPattern(p) && p@ == self.args.pattern@,
    {
        let mut any_read = false;
        let mut k: usize = 0;
        while k < files.len()
            invariant
                k <= files.len(),
                !any_read ==> forall|i: int| 0 <= i < k ==> files@[i] is Unreadable,
                any_read ==> exists|i: int| 0 <= i < files@.len() && files@[i] is Read,
            decreases files.len() - k,
        {
            match &files[k] {
                FileInput::Read(_, _) => {
                    any_read = true;
                    assert(files@[k as int] is Read);
                },
                FileInput::Unreadable(_, _) => {},
            }
            k += 1;
        }
        let pattern = if any_read {
            match Pattern::compile(self.args.pattern.as_str(), false) {
                Ok(pattern) => Some(pattern),
                Err(e) => {
                    return Err(e);
                },
            }
        } else {
            None
        };
        let ghost re = compiled(self.args.pattern@, false)->0;
        let mut out: Vec<Emission> = Vec::new();
        let ghost mut parts: Seq<Seq<EmissionView>> = Seq::empty();
        let mut i: usize = 0;
        while i < files.len()
            invariant
                i <= files.len(),
                re == compiled(self.args.pattern@, false)->0,
                pattern matches Some(p) ==> p.regex() == re,
                pattern is None ==> forall|j: int| 0 <= j < files@.len() ==> files@[j] is Unreadable,
                parts.len() == i,
                forall|j: int| 0 <= j < i ==> is_file_part(re, files@[j], #[trigger] parts[j]),
                emission_views(out@) == joined(parts),
            decreases files.len() - i,
        {
            let ghost before = emission_views(out@);
            match &files[i] {
                FileInput::Unreadable(name, cause) => {
                    let mut text = name.clone();
                    text.append(": ");
                    text.append(cause.as_str());
                    out.push(Emission::Diagnostic(text));
                    proof {
                        let piece = seq![EmissionView::Diagnostic(source_diagnostic(name@, cause@))];
                        assert(emission_views(out@) =~= before + piece);
                        assert(parts.push(piece).drop_last() =~= parts);
                        parts = parts.push(piece);
                    }
                },
                FileInput::Read(name, text) => {
                    match &pattern {
                        Some(p) => {
                            let report = GreprApp::grep_with(p, name.as_str(), text.as_str());
                            let ghost shown = texts(report@);
                            let mut j: usize = 0;
                            while j < report.len()
                                invariant
                                    j <= report.len(),
                                    shown == texts(report@),
                                    emission_views(out@) == before + as_output(shown.take(j as int)),
                                decreases report.len() - j,
                            {
                                let ghost so_far = emission_views(out@);
                                out.push(Emission::Output(report[j].clone()));
                                assert(emission_views(out@) =~= so_far.push(EmissionView::Output(report[j as int]@)));
                                j += 1;
                                assert(emission_views(out@) =~= before + as_output(shown.take(j as int)));
                            }
                            proof {
                                assert(shown.take(j as int) =~= shown);
                                let piece = as_output(shown);
                                assert(is_file_report_of(re, name@, text@, shown));
                                assert(is_file_part(re, files@[i as int], piece));
                                assert(parts.push(piece).drop_last() =~= parts);
                                parts = parts.push(piece);
                            }
                        },
                        None => {
                            proof {
                                assert(files@[i as int] is Unreadable);
                                assert(false);
                            }
                        },
                    }
                },
            }
            i += 1;
        }
        Ok(out)
    }
}

} // verus!

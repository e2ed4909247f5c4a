//! Filtering by subreddit: checking the output template, naming the output
//! files, and deciding where each input line goes.
use vstd::prelude::*;
use crate::cli::{to_lowercase, unicode_lowercase, FilterArgs};
use crate::text::{
    chars_of, contains_exec, contains_seq, occurs_at, decimal, ends_with, ends_with_exec, eq_ignore_ascii_case,
    push_char, replace_all, replace_chars, str_eq_ignore_ascii_case, str_equal, string_of,
    u64_to_decimal, lemma_replace_absent, lemma_eq_ignore_ascii_case_equivalence,
};

verus! {

/// The regular expression that finds placeholders in an output template.
pub open spec fn placeholder_pattern() -> Seq<char> {
    "\\{([^}]+)\\}"@
}

/// The index of the first `}` in `s`.
pub open spec fn first_close(s: Seq<char>) -> Option<int>
    decreases s.len(),
{
    if s.len() == 0 {
        None
    } else if s[0] == '}' {
        Some(0)
    } else {
        match first_close(s.drop_first()) {
            Some(k) => Some(k + 1),
            None => None,
        }
    }
}

/// The names inside `{...}` placeholders, scanning from the left without
/// overlap: a `{`, at least one character other than `}`, then the first `}`.
pub open spec fn placeholder_names(s: Seq<char>) -> Seq<Seq<char>>
    decreases s.len(),
{
    if s.len() == 0 {
        seq![]
    } else if s[0] == '{' && (first_close(s.drop_first()) matches Some(k) && k > 0) {
        let k = first_close(s.drop_first()).unwrap();
        // `k` indexes the rest of `s`, so this test always holds; it makes
        // the recursion visibly shorter.
        if 0 < k && k + 2 <= s.len() {
            seq![s.subrange(1, k + 1)] + placeholder_names(s.skip(k + 2))
        } else {
            seq![]
        }
    } else {
        placeholder_names(s.drop_first())
    }
}

/// The first capture group of each successive non-overlapping match of
/// `pattern` in `text`, as the `regex` crate finds them; `None` when the
/// pattern does not compile.
pub uninterp spec fn regex_first_groups(pattern: Seq<char>, text: Seq<char>) -> Option<
    Seq<Option<Seq<char>>>,
>;

/// `regex::Regex::new(pattern)` and `captures_iter(text)`, keeping group 1 of
/// each match. For the placeholder pattern (`\{`, one or more characters
/// other than `}`, `\}`) the regex documentation gives the result: the
/// leftmost matches without overlap, each ending at the first `}`.
#[verifier::external_body]
fn capture_first_groups(pattern: &str, text: &str) -> (r: Option<Vec<Option<String>>>)
    ensures
        r matches None ==> regex_first_groups(pattern@, text@) is None,
        r matches Some(v) ==> regex_first_groups(pattern@, text@) == Some(
            v@.map_values(
                |o: Option<String>|
                    match o {
                        Some(s) => Some(s@),
                        None => None,
                    },
            ),
        ),
        pattern@ == placeholder_pattern() ==> (r matches Some(v) && v@.len()
            == placeholder_names(text@).len() && forall|i: int|
            0 <= i < v@.len() ==> (#[trigger] v@[i] matches Some(s) && s@ == placeholder_names(
                text@,
            )[i])),
{
    regex::Regex::new(pattern).ok().map(
        |re| re.captures_iter(text).map(|c| c.get(1).map(|m| m.as_str().to_string())).collect(),
    )
}

/// The placeholders an output template may use.
pub open spec fn valid_placeholder(name: Seq<char>) -> bool {
    name == "basename"@ || name == "subreddit"@ || name == "timestamp"@
}

/// The placeholders of the list that are not allowed, each written `{name}`.
pub open spec fn invalid_placeholders(names: Seq<Seq<char>>) -> Seq<Seq<char>>
    decreases names.len(),
{
    if names.len() == 0 {
        seq![]
    } else if valid_placeholder(names.last()) {
        invalid_placeholders(names.drop_last())
    } else {
        invalid_placeholders(names.drop_last()).push("{"@ + names.last() + "}"@)
    }
}

/// Why the filter arguments are refused.
#[derive(Clone, Debug, PartialEq, Eq)]
pub enum FilterError {
    /// The output file does not end with `.jsonl` or `.zst`.
    BadExtension,
    /// The output template uses unknown placeholders (listed as `{name}`).
    InvalidPlaceholders(Vec<String>),
    /// Split mode needs `{subreddit}` in the output template.
    SplitWithoutSubreddit,
    /// Several input files need `{basename}` in the output template.
    MultipleInputsWithoutBasename,
}

/// The outcome of checking an output template, in mathematical terms.
pub enum Verdict {
    Accepted,
    BadExtension,
    InvalidPlaceholders(Seq<Seq<char>>),
    SplitWithoutSubreddit,
    MultipleInputsWithoutBasename,
}

/// The outcome of checking the filter arguments with an output template:
/// the checks in order, the first that fails giving its error.
pub open spec fn template_verdict(output: Seq<char>, split: bool, inputs: nat) -> Verdict {
    if !ends_with(output, ".jsonl"@) && !ends_with(output, ".zst"@) {
        Verdict::BadExtension
    } else if invalid_placeholders(placeholder_names(output)).len() > 0 {
        Verdict::InvalidPlaceholders(invalid_placeholders(placeholder_names(output)))
    } else if split && !contains_seq(output, "{subreddit}"@) {
        Verdict::SplitWithoutSubreddit
    } else if inputs > 1 && !contains_seq(output, "{basename}"@) {
        Verdict::MultipleInputsWithoutBasename
    } else {
        Verdict::Accepted
    }
}

/// The result of `validate_args` states the verdict.
pub open spec fn states(r: Result<(), FilterError>, v: Verdict) -> bool {
    match (r, v) {
        (Ok(()), Verdict::Accepted) => true,
        (Err(FilterError::BadExtension), Verdict::BadExtension) => true,
        (Err(FilterError::InvalidPlaceholders(list)), Verdict::InvalidPlaceholders(names)) => list@.map_values(
            |s: String| s@,
        ) == names,
        (Err(FilterError::SplitWithoutSubreddit), Verdict::SplitWithoutSubreddit) => true,
        (
            Err(FilterError::MultipleInputsWithoutBasename),
            Verdict::MultipleInputsWithoutBasename,
        ) => true,
        _ => false,
    }
}

fn is_valid_placeholder(name: &str) -> (r: bool)
    ensures
        r == valid_placeholder(name@),
{
    str_equal(name, "basename") || str_equal(name, "subreddit") || str_equal(name, "timestamp")
}


/// Checks the filter arguments: the output must end with `.jsonl` or `.zst`,
/// use only the placeholders `{basename}`, `{subreddit}` and `{timestamp}`,
/// contain `{subreddit}` in split mode and `{basename}` when several inputs
/// are given. Without an output template the arguments are accepted.
pub fn validate_args(args: &FilterArgs) -> (r: Result<(), FilterError>)
    ensures
        match &args.output {
            None => r == Ok::<(), FilterError>(()),
            Some(out) => states(r, template_verdict(out@, args.split, args.input.len() as nat)),
        },
        args.output matches Some(out) && args.input.len() > 1 && !(exists|k: int|
            0 <= k && k + 10 <= out@.len() && #[trigger] out@.subrange(k, k + 10) == "{basename}"@)
            ==> r is Err,
        args.output matches Some(out) && args.split && !(exists|k: int|
            0 <= k && k + 11 <= out@.len() && #[trigger] out@.subrange(k, k + 11) == "{subreddit}"@)
            ==> r is Err,
{
    let output = match &args.output {
        None => {
            return Ok(());
        },
        Some(o) => o,
    };
    let ghost out = output@;
    let caps = match capture_first_groups("\\{([^}]+)\\}", output.as_str()) {
        Some(c) => c,
        None => {
            assert(false);
            return Ok(());
        },
    };
    let ghost names = placeholder_names(out);
    let mut invalid: Vec<String> = Vec::new();
    let mut i: usize = 0;
    assert(names.take(0) =~= Seq::<Seq<char>>::empty());
    while i < caps.len()
        invariant
            i <= caps.len(),
            caps@.len() == names.len(),
            forall|j: int| 0 <= j < caps@.len() ==> (#[trigger] caps@[j] matches Some(s) && s@ == names[j]),
            invalid@.map_values(|s: String| s@) == invalid_placeholders(names.take(i as int)),
        decreases caps.len() - i,
    {
        let ghost before = invalid@;
        proof {
            let t = names.take(i + 1);
            assert(t.drop_last() =~= names.take(i as int));
            assert(t.last() == names[i as int]);
        }
        match &caps[i] {
            Some(name) => {
                assert(caps@[i as int] matches Some(s) && s@ == names[i as int]);
                if !is_valid_placeholder(name.as_str()) {
                    let mut shown = String::new();
                    push_char(&mut shown, '{');
                    shown.append(name.as_str());
                    push_char(&mut shown, '}');
                    proof {
                        reveal_strlit("{");
                        reveal_strlit("}");
                        assert(shown@ =~= "{"@ + name@ + "}"@);
                    }
                    invalid.push(shown);
                    assert(invalid@.map_values(|s: String| s@) =~= before.map_values(
                        |s: String| s@,
                    ).push(shown@));
                }
            },
            None => {
                assert(false);
            },
        }
        i = i + 1;
    }
    assert(names.take(caps.len() as int) =~= names);
    let out_chars = chars_of(output.as_str());
    let jsonl = chars_of(".jsonl");
    let zst = chars_of(".zst");
    if !ends_with_exec(&out_chars, &jsonl) && !ends_with_exec(&out_chars, &zst) {
        return Err(FilterError::BadExtension);
    }
    if invalid.len() > 0 {
        return Err(FilterError::InvalidPlaceholders(invalid));
    }
    let sub = chars_of("{subreddit}");
    if args.split && !contains_exec(&out_chars, &sub) {
        return Err(FilterError::SplitWithoutSubreddit);
    }
    let base = chars_of("{basename}");
    if args.input.len() > 1 && !contains_exec(&out_chars, &base) {
        return Err(FilterError::MultipleInputsWithoutBasename);
    }
    proof {
        reveal_strlit("{basename}");
        reveal_strlit("{subreddit}");
        if args.input.len() > 1 {
            let k = choose|k: int| occurs_at(out_chars@, base@, k);
            assert(out.subrange(k, k + 10) == "{basename}"@);
        }
        if args.split {
            let k = choose|k: int| occurs_at(out_chars@, sub@, k);
            assert(out.subrange(k, k + 11) == "{subreddit}"@);
        }
    }
    Ok(())
}

/// The template with `{basename}`, then `{timestamp}`, then `{subreddit}`
/// (when a subreddit is given) replaced, each in the result of the previous.
pub open spec fn expanded(
    template: Seq<char>,
    basename: Seq<char>,
    subreddit: Option<Seq<char>>,
    timestamp: u64,
) -> Seq<char> {
    let a = replace_all(template, "{basename}"@, basename);
    let b = replace_all(a, "{timestamp}"@, decimal(timestamp as nat));
    match subreddit {
        Some(sub) => replace_all(b, "{subreddit}"@, sub),
        None => b,
    }
}

/// The file name for a template: the expanded template, followed by `.` and
/// the extension when `append_ext` holds.
pub open spec fn filename(
    template: Seq<char>,
    basename: Seq<char>,
    subreddit: Option<Seq<char>>,
    timestamp: u64,
    ext: Seq<char>,
    append_ext: bool,
) -> Seq<char> {
    let stem = expanded(template, basename, subreddit, timestamp);
    if append_ext {
        stem + "."@ + ext
    } else {
        stem
    }
}

/// The view of an optional string slice.
pub open spec fn opt_view(s: Option<&str>) -> Option<Seq<char>> {
    match s {
        Some(t) => Some(t@),
        None => None,
    }
}

/// Expands the placeholders of an output template.
pub fn expand_placeholders(
    template: &str,
    basename: &str,
    subreddit: Option<&str>,
    timestamp: u64,
) -> (r: String)
    ensures
        r@ == expanded(template@, basename@, opt_view(subreddit), timestamp),
{
    proof {
        reveal_strlit("{basename}");
        reveal_strlit("{timestamp}");
        reveal_strlit("{subreddit}");
    }
    let t = chars_of(template);
    let a = replace_chars(&t, &chars_of("{basename}"), &chars_of(basename));
    let ts = u64_to_decimal(timestamp);
    let b = replace_chars(&a, &chars_of("{timestamp}"), &chars_of(ts.as_str()));
    match subreddit {
        Some(sub) => {
            let c = replace_chars(&b, &chars_of("{subreddit}"), &chars_of(sub));
            string_of(&c)
        },
        None => string_of(&b),
    }
}

/// The output file name for a template; the extension is appended only for
/// the built-in templates.
pub fn construct_filename(
    template: &str,
    basename: &str,
    subreddit: Option<&str>,
    timestamp: u64,
    ext: &str,
    append_ext: bool,
) -> (r: String)
    ensures
        r@ == filename(template@, basename@, opt_view(subreddit), timestamp, ext@, append_ext),
{
    let mut stem = expand_placeholders(template, basename, subreddit, timestamp);
    if append_ext {
        stem.append(".");
        stem.append(ext);
    }
    stem
}

/// The file stem of a path as `Path::file_stem` computes it, when it is
/// present.
pub uninterp spec fn path_file_stem(path: Seq<char>) -> Option<Seq<char>>;

/// The extension of a path as `Path::extension` computes it, when it is
/// present.
pub uninterp spec fn path_extension(path: Seq<char>) -> Option<Seq<char>>;

/// `std::path::Path::file_stem`, as a string.
#[verifier::external_body]
fn file_stem(path: &str) -> (r: Option<String>)
    ensures
        r matches Some(s) ==> path_file_stem(path@) == Some(s@),
        r is None ==> path_file_stem(path@) is None,
{
    std::path::Path::new(path).file_stem().and_then(|s| s.to_str()).map(|s| s.to_string())
}

/// `std::path::Path::extension`, as a string.
#[verifier::external_body]
fn extension(path: &str) -> (r: Option<String>)
    ensures
        r matches Some(s) ==> path_extension(path@) == Some(s@),
        r is None ==> path_extension(path@) is None,
{
    std::path::Path::new(path).extension().and_then(|s| s.to_str()).map(|s| s.to_string())
}

/// The template of the output files and whether the extension is appended:
/// the user's template as given, otherwise a built-in one.
pub open spec fn template_of(output: Option<Seq<char>>, split: bool) -> (Seq<char>, bool) {
    match output {
        Some(o) => (o, false),
        None => if split {
            ("{basename}_{subreddit}"@, true)
        } else {
            ("{basename}_filtered"@, true)
        },
    }
}

/// The basename of an input file: its file stem, or `filtered`.
pub open spec fn basename_of(input: Seq<char>) -> Seq<char> {
    match path_file_stem(input) {
        Some(s) => s,
        None => "filtered"@,
    }
}

/// The extension of the output files: that of the user's template (or
/// `jsonl`), and `zst` for the built-in templates.
pub open spec fn extension_of(output: Option<Seq<char>>) -> Seq<char> {
    match output {
        Some(o) => match path_extension(o) {
            Some(e) => e,
            None => "jsonl"@,
        },
        None => "zst"@,
    }
}

/// One output file of a filter run: the subreddit it receives (in split
/// mode) and its name.
#[derive(Clone, Debug, PartialEq, Eq)]
pub struct OutputFile {
    pub subreddit: Option<String>,
    pub filename: String,
}

/// The output files for one input file, and in split mode the path whose
/// parent directory must exist (that of the first subreddit).
#[derive(Clone, Debug, PartialEq, Eq)]
pub struct OutputPlan {
    pub probe: Option<String>,
    pub files: Vec<OutputFile>,
}

/// The view of an optional string.
pub open spec fn opt_string_view(s: Option<String>) -> Option<Seq<char>> {
    match s {
        Some(t) => Some(t@),
        None => None,
    }
}

/// The name of the output file that receives `subreddit`.
pub open spec fn planned_name(
    input: Seq<char>,
    output: Option<Seq<char>>,
    split: bool,
    subreddit: Option<Seq<char>>,
    timestamp: u64,
) -> Seq<char> {
    filename(
        template_of(output, split).0,
        basename_of(input),
        subreddit,
        timestamp,
        extension_of(output),
        template_of(output, split).1,
    )
}

/// Plans the output files of one input file: in split mode one file per
/// subreddit name, in order, otherwise a single file.
pub fn plan_outputs(input: &str, args: &FilterArgs, timestamp: u64) -> (plan: OutputPlan)
    ensures
        ({
            let out = opt_string_view(args.output);
            let names = args.name@;
            &&& args.split && names.len() > 0 ==> (plan.probe matches Some(p) && p@ == expanded(
                template_of(out, true).0,
                basename_of(input@),
                Some(names[0]@),
                timestamp,
            ))
            &&& !(args.split && names.len() > 0) ==> plan.probe is None
            &&& args.split ==> plan.files.len() == names.len() && forall|i: int|
                0 <= i < names.len() ==> (#[trigger] plan.files@[i]).subreddit == Some(names[i])
                    && plan.files@[i].filename@ == planned_name(
                    input@,
                    out,
                    true,
                    Some(names[i]@),
                    timestamp,
                )
            &&& !args.split ==> plan.files.len() == 1 && plan.files@[0].subreddit is None
                && plan.files@[0].filename@ == planned_name(input@, out, false, None, timestamp)
        }),
{
    let ghost out = opt_string_view(args.output);
    let (template, append_ext) = match &args.output {
        Some(o) => (o.clone(), false),
        None => if args.split {
            (String::from_str("{basename}_{subreddit}"), true)
        } else {
            (String::from_str("{basename}_filtered"), true)
        },
    };
    assert(template@ == template_of(out, args.split).0);
    let basename = match file_stem(input) {
        Some(s) => s,
        None => String::from_str("filtered"),
    };
    let probe = if args.split && args.name.len() > 0 {
        Some(
            expand_placeholders(
                template.as_str(),
                basename.as_str(),
                Some(args.name[0].as_str()),
                timestamp,
            ),
        )
    } else {
        None
    };
    let ext = match &args.output {
        Some(o) => match extension(o.as_str()) {
            Some(e) => e,
            None => String::from_str("jsonl"),
        },
        None => String::from_str("zst"),
    };
    let mut files: Vec<OutputFile> = Vec::new();
    if args.split {
        let mut i: usize = 0;
        while i < args.name.len()
            invariant
                args.split,
                out == opt_string_view(args.output),
                template@ == template_of(out, true).0,
                append_ext == template_of(out, true).1,
                basename@ == basename_of(input@),
                ext@ == extension_of(out),
                i <= args.name.len(),
                files.len() == i,
                forall|j: int|
                    0 <= j < i ==> (#[trigger] files@[j]).subreddit == Some(args.name@[j])
                        && files@[j].filename@ == planned_name(
                        input@,
                        out,
                        true,
                        Some(args.name@[j]@),
                        timestamp,
                    ),
            decreases args.name.len() - i,
        {
            let name = construct_filename(
                template.as_str(),
                basename.as_str(),
                Some(args.name[i].as_str()),
                timestamp,
                ext.as_str(),
                append_ext,
            );
            files.push(OutputFile { subreddit: Some(args.name[i].clone()), filename: name });
            i = i + 1;
        }
    } else {
        let name = construct_filename(
            template.as_str(),
            basename.as_str(),
            None,
            timestamp,
            ext.as_str(),
            append_ext,
        );
        files.push(OutputFile { subreddit: None, filename: name });
    }
    OutputPlan { probe, files }
}

/// How an input file is read, by its extension (compared ignoring ASCII case).
#[derive(Clone, Debug, PartialEq, Eq)]
pub enum InputKind {
    /// `.zst`: zstd-compressed lines.
    Zstd,
    /// `.jsonl`: plain lines.
    Jsonl,
    /// Any other extension (empty when there is none): refused.
    Unsupported(String),
}

/// The extension is present and equals `name` ignoring ASCII case.
pub open spec fn has_extension(path: Seq<char>, name: Seq<char>) -> bool {
    path_extension(path) matches Some(e) && eq_ignore_ascii_case(e, name)
}

/// Decides how an input file is read.
pub fn input_kind(path: &str) -> (k: InputKind)
    ensures
        has_extension(path@, "zst"@) ==> k == InputKind::Zstd,
        !has_extension(path@, "zst"@) && has_extension(path@, "jsonl"@) ==> k == InputKind::Jsonl,
        !has_extension(path@, "zst"@) && !has_extension(path@, "jsonl"@) ==> (k matches InputKind::Unsupported(e)
            && e@ == match path_extension(path@) {
            Some(x) => x,
            None => Seq::<char>::empty(),
        }),
{
    match extension(path) {
        None => InputKind::Unsupported(String::new()),
        Some(e) => {
            if str_eq_ignore_ascii_case(e.as_str(), "zst") {
                InputKind::Zstd
            } else if str_eq_ignore_ascii_case(e.as_str(), "jsonl") {
                InputKind::Jsonl
            } else {
                InputKind::Unsupported(e)
            }
        },
    }
}

/// Whether an output file is written through the zstd encoder: its
/// extension is `zst`, ignoring ASCII case.
pub fn writes_zstd(path: &str) -> (r: bool)
    ensures
        r == has_extension(path@, "zst"@),
{
    match extension(path) {
        None => false,
        Some(e) => str_eq_ignore_ascii_case(e.as_str(), "zst"),
    }
}

/// The string that `gjson::get(json, path).str()` returns: the value at the
/// path, unescaped if a string, `true`/`false`, the raw JSON of a number,
/// object or array, and the empty string for null or a missing value.
pub uninterp spec fn gjson_str(json: Seq<char>, path: Seq<char>) -> Seq<char>;

/// `gjson::get(json, path).str()`.
#[verifier::external_body]
fn gjson_get_str(json: &str, path: &str) -> (r: String)
    ensures
        r@ == gjson_str(json@, path@),
{
    gjson::get(json, path).str().to_string()
}

/// The `subreddit` value of a JSON line (the top-level key only).
pub fn extract_json(line: &str) -> (r: String)
    ensures
        r@ == gjson_str(line@, "subreddit"@),
{
    gjson_get_str(line, "subreddit")
}

/// Where a line of the input goes.
#[derive(Clone, Copy, Debug, PartialEq, Eq, Structural)]
pub enum LineRoute {
    /// Not written.
    Skip,
    /// Written to the single output file.
    Combined,
    /// Written to the file of the subreddit name at this index.
    Split(usize),
}

/// Some name equals the subreddit, ignoring ASCII case.
pub open spec fn matches_some_name(names: Seq<String>, subreddit: Seq<char>) -> bool {
    exists|i: int| 0 <= i < names.len() && eq_ignore_ascii_case((#[trigger] names[i])@, subreddit)
}

/// The index of the first name equal to `key`.
pub open spec fn first_equal(names: Seq<String>, key: Seq<char>) -> Option<int> {
    if exists|i: int| 0 <= i < names.len() && (#[trigger] names[i])@ == key {
        Some(
            choose|i: int|
                0 <= i < names.len() && names[i]@ == key && forall|j: int|
                    0 <= j < i ==> (#[trigger] names[j])@ != key,
        )
    } else {
        None
    }
}

/// The route of a line, given whether its subreddit matched a name and the
/// lower-case key under which split mode files it.
pub open spec fn route_of(names: Seq<String>, split: bool, matched: bool, key: Seq<char>) -> LineRoute {
    if !matched {
        LineRoute::Skip
    } else if split {
        match first_equal(names, key) {
            Some(i) => LineRoute::Split(i as usize),
            None => LineRoute::Skip,
        }
    } else {
        LineRoute::Combined
    }
}

/// Whether some name equals the subreddit, ignoring ASCII case.
pub fn matches_name(names: &Vec<String>, subreddit: &str) -> (r: bool)
    ensures
        r == matches_some_name(names@, subreddit@),
        r <==> exists|i: int|
            0 <= i < names@.len() && (#[trigger] names@[i])@.len() == subreddit@.len() && forall|
                k: int,
            |
                0 <= k < subreddit@.len() ==> (if 'A' <= names@[i]@[k] && names@[i]@[k] <= 'Z' {
                    ((names@[i]@[k] as u32) + 32) as char
                } else {
                    names@[i]@[k]
                }) == (if 'A' <= #[trigger] subreddit@[k] && subreddit@[k] <= 'Z' {
                    ((subreddit@[k] as u32) + 32) as char
                } else {
                    subreddit@[k]
                }),
{
    let mut i: usize = 0;
    while i < names.len()
        invariant
            i <= names.len(),
            forall|j: int| 0 <= j < i ==> !eq_ignore_ascii_case((#[trigger] names@[j])@, subreddit@),
        decreases names.len() - i,
    {
        if str_eq_ignore_ascii_case(names[i].as_str(), subreddit) {
            return true;
        }
        i = i + 1;
    }
    false
}

/// The route of a line from the match result and the key: skipped when
/// nothing matched; in split mode the first name equal to the key (skipped
/// if none is); otherwise the single output.
pub fn select_route(names: &Vec<String>, split: bool, matched: bool, key: &str) -> (r: LineRoute)
    ensures
        r == route_of(names@, split, matched, key@),
        r is Combined <==> matched && !split,
        r matches LineRoute::Split(i) ==> matched && split && i < names@.len() && names@[i as int]@
            == key@ && forall|j: int| 0 <= j < i ==> (#[trigger] names@[j])@ != key@,
        r is Skip <==> !matched || (split && forall|j: int|
            0 <= j < names@.len() ==> (#[trigger] names@[j])@ != key@),
{
    if !matched {
        return LineRoute::Skip;
    }
    if !split {
        return LineRoute::Combined;
    }
    let mut i: usize = 0;
    while i < names.len()
        invariant
            matched,
            split,
            i <= names.len(),
            forall|j: int| 0 <= j < i ==> (#[trigger] names@[j])@ != key@,
        decreases names.len() - i,
    {
        if str_equal(names[i].as_str(), key) {
            proof {
                let ii = i as int;
                assert(names@[ii]@ == key@);
                assert(0 <= ii < names@.len() && names@[ii]@ == key@ && forall|j: int|
                    0 <= j < ii ==> (#[trigger] names@[j])@ != key@);
                let c = choose|c: int|
                    0 <= c < names@.len() && names@[c]@ == key@ && forall|j: int|
                        0 <= j < c ==> (#[trigger] names@[j])@ != key@;
                if c < ii {
                    assert(names@[c]@ != key@);
                } else if c > ii {
                    assert(names@[ii]@ != key@);
                }
                assert(c == ii);
            }
            return LineRoute::Split(i);
        }
        i = i + 1;
    }
    LineRoute::Skip
}

/// The route of a subreddit value: matched against the names ignoring ASCII
/// case, then filed under its lower-case form.
pub fn route_for_subreddit(names: &Vec<String>, split: bool, subreddit: &str) -> (r: LineRoute)
    ensures
        r == route_of(
            names@,
            split,
            matches_some_name(names@, subreddit@),
            unicode_lowercase(subreddit@),
        ),
        !(r is Skip) ==> exists|i: int|
            0 <= i < names@.len() && (#[trigger] names@[i])@.len() == subreddit@.len() && forall|k: int|
                0 <= k < subreddit@.len() ==> (if 'A' <= names@[i]@[k] && names@[i]@[k] <= 'Z' {
                    ((names@[i]@[k] as u32) + 32) as char
                } else {
                    names@[i]@[k]
                }) == (if 'A' <= #[trigger] subreddit@[k] && subreddit@[k] <= 'Z' {
                    ((subreddit@[k] as u32) + 32) as char
                } else {
                    subreddit@[k]
                }),
        r matches LineRoute::Split(i) ==> split && i < names@.len() && names@[i as int]@
            == unicode_lowercase(subreddit@) && forall|j: int|
            0 <= j < i ==> (#[trigger] names@[j])@ != unicode_lowercase(subreddit@),
        r is Combined ==> !split,
{
    let matched = matches_name(names, subreddit);
    if !matched {
        return LineRoute::Skip;
    }
    let key = to_lowercase(subreddit);
    select_route(names, split, matched, key.as_str())
}

/// The route of an input line, by its `subreddit` value.
pub fn route_line(line: &str, names: &Vec<String>, split: bool) -> (r: LineRoute)
    ensures
        r == route_of(
            names@,
            split,
            matches_some_name(names@, gjson_str(line@, "subreddit"@)),
            unicode_lowercase(gjson_str(line@, "subreddit"@)),
        ),
        !(r is Skip) ==> exists|i: int|
            0 <= i < names@.len() && (#[trigger] names@[i])@.len() == gjson_str(line@, "subreddit"@).len() && forall|k: int|
                0 <= k < gjson_str(line@, "subreddit"@).len() ==> (if 'A' <= names@[i]@[k] && names@[i]@[k] <= 'Z' {
                    ((names@[i]@[k] as u32) + 32) as char
                } else {
                    names@[i]@[k]
                }) == (if 'A' <= #[trigger] gjson_str(line@, "subreddit"@)[k] && gjson_str(line@, "subreddit"@)[k] <= 'Z' {
                    ((gjson_str(line@, "subreddit"@)[k] as u32) + 32) as char
                } else {
                    gjson_str(line@, "subreddit"@)[k]
                }),
        r matches LineRoute::Split(i) ==> split && i < names@.len() && names@[i as int]@
            == unicode_lowercase(gjson_str(line@, "subreddit"@)) && forall|j: int|
            0 <= j < i ==> (#[trigger] names@[j])@ != unicode_lowercase(gjson_str(line@, "subreddit"@)),
        r is Combined ==> !split,
{
    let subreddit = extract_json(line);
    route_for_subreddit(names, split, subreddit.as_str())
}

/// A template without placeholders names its file as written.
pub proof fn lemma_plain_template_unchanged(
    template: Seq<char>,
    basename: Seq<char>,
    subreddit: Option<Seq<char>>,
    timestamp: u64,
)
    requires
        !contains_seq(template, "{basename}"@),
        !contains_seq(template, "{timestamp}"@),
        !contains_seq(template, "{subreddit}"@),
    ensures
        expanded(template, basename, subreddit, timestamp) == template,
{
    reveal_strlit("{basename}");
    reveal_strlit("{timestamp}");
    reveal_strlit("{subreddit}");
    lemma_replace_absent(template, "{basename}"@, basename);
    lemma_replace_absent(template, "{timestamp}"@, decimal(timestamp as nat));
    if let Some(sub) = subreddit {
        lemma_replace_absent(template, "{subreddit}"@, sub);
    }
}

/// Only the `subreddit` value of a line decides its route: two lines with
/// the same value go to the same place.
pub proof fn lemma_route_depends_only_on_subreddit(
    line1: Seq<char>,
    line2: Seq<char>,
    names: Seq<String>,
    split: bool,
)
    requires
        gjson_str(line1, "subreddit"@) == gjson_str(line2, "subreddit"@),
    ensures
        route_of(
            names,
            split,
            matches_some_name(names, gjson_str(line1, "subreddit"@)),
            unicode_lowercase(gjson_str(line1, "subreddit"@)),
        ) == route_of(
            names,
            split,
            matches_some_name(names, gjson_str(line2, "subreddit"@)),
            unicode_lowercase(gjson_str(line2, "subreddit"@)),
        ),
{
}

/// Whether a subreddit is kept does not depend on the ASCII case in which it
/// is written.
pub proof fn lemma_match_ignores_ascii_case(names: Seq<String>, s: Seq<char>, t: Seq<char>)
    requires
        eq_ignore_ascii_case(s, t),
    ensures
        matches_some_name(names, s) == matches_some_name(names, t),
{
    if matches_some_name(names, s) {
        let i = choose|i: int| 0 <= i < names.len() && eq_ignore_ascii_case((#[trigger] names[i])@, s);
        lemma_eq_ignore_ascii_case_equivalence(names[i]@, s, t);
    }
    if matches_some_name(names, t) {
        let i = choose|i: int| 0 <= i < names.len() && eq_ignore_ascii_case((#[trigger] names[i])@, t);
        lemma_eq_ignore_ascii_case_equivalence(s, t, names[i]@);
        lemma_eq_ignore_ascii_case_equivalence(names[i]@, t, s);
    }
}

/// With several input files, a template without `{basename}` is refused,
/// whatever the split flag; in split mode, one without `{subreddit}` is.
pub proof fn lemma_template_needs_placeholders(output: Seq<char>, split: bool, inputs: nat)
    ensures
        inputs > 1 && !(exists|k: int|
            0 <= k && k + 10 <= output.len() && #[trigger] output.subrange(k, k + 10)
                == "{basename}"@) ==> !(template_verdict(output, split, inputs) is Accepted),
        split && !(exists|k: int|
            0 <= k && k + 11 <= output.len() && #[trigger] output.subrange(k, k + 11)
                == "{subreddit}"@) ==> !(template_verdict(output, split, inputs) is Accepted),
{
    reveal_strlit("{basename}");
    reveal_strlit("{subreddit}");
    if template_verdict(output, split, inputs) is Accepted {
        if inputs > 1 {
            let k = choose|k: int| occurs_at(output, "{basename}"@, k);
            assert(output.subrange(k, k + 10) == "{basename}"@);
        }
        if split {
            let k = choose|k: int| occurs_at(output, "{subreddit}"@, k);
            assert(output.subrange(k, k + 11) == "{subreddit}"@);
        }
    }
}

/// A subreddit matches exactly when some name has its length and agrees
/// with it letter by letter once ASCII capitals are lowered: a name that
/// only begins with the subreddit, or the other way round, does not match.
pub proof fn lemma_match_is_whole_name(names: Seq<String>, s: Seq<char>)
    ensures
        matches_some_name(names, s) <==> exists|i: int|
            0 <= i < names.len() && (#[trigger] names[i])@.len() == s.len() && forall|k: int|
                0 <= k < s.len() ==> (if 'A' <= names[i]@[k] && names[i]@[k] <= 'Z' {
                    ((names[i]@[k] as u32) + 32) as char
                } else {
                    names[i]@[k]
                }) == (if 'A' <= #[trigger] s[k] && s[k] <= 'Z' {
                    ((s[k] as u32) + 32) as char
                } else {
                    s[k]
                }),
{
}

/// In split mode a kept line goes to the first name equal to its key, and
/// only to a name equal to it; without split mode every kept line goes to
/// the single output.
pub proof fn lemma_split_route_is_exact(names: Seq<String>, split: bool, matched: bool, key: Seq<char>)
    requires
        names.len() <= usize::MAX,
    ensures
        route_of(names, split, matched, key) matches LineRoute::Split(i) ==> matched && split && i
            < names.len() && names[i as int]@ == key && forall|j: int|
            0 <= j < i ==> (#[trigger] names[j])@ != key,
        matched && split && (exists|i: int| 0 <= i < names.len() && (#[trigger] names[i])@ == key)
            ==> route_of(names, split, matched, key) is Split,
        route_of(names, split, matched, key) is Combined <==> matched && !split,
        !matched ==> route_of(names, split, matched, key) is Skip,
{
    if exists|i: int| 0 <= i < names.len() && (#[trigger] names[i])@ == key {
        let c = choose|i: int|
            0 <= i < names.len() && names[i]@ == key && forall|j: int|
                0 <= j < i ==> (#[trigger] names[j])@ != key;
        let w = choose|i: int| 0 <= i < names.len() && (#[trigger] names[i])@ == key;
        lemma_first_equal_exists(names, key, w);
        assert(c as usize as int == c);
    }
}

proof fn lemma_first_equal_exists(names: Seq<String>, key: Seq<char>, w: int)
    requires
        0 <= w < names.len(),
        names[w]@ == key,
    ensures
        exists|i: int|
            0 <= i < names.len() && names[i]@ == key && forall|j: int|
                0 <= j < i ==> (#[trigger] names[j])@ != key,
    decreases w,
{
    if exists|j: int| 0 <= j < w && (#[trigger] names[j])@ == key {
        let j = choose|j: int| 0 <= j < w && (#[trigger] names[j])@ == key;
        lemma_first_equal_exists(names, key, j);
    } else {
        assert(forall|j: int| 0 <= j < w ==> (#[trigger] names[j])@ != key);
    }
}

} // verus!


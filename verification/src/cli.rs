//! The command line: which command the arguments ask for, and what is wrong
//! with arguments that ask for none.

use vstd::prelude::*;
use vstd::string::*;
use vstd::utf8::*;

use crate::binary64::Binary64;
use crate::float::{float_number, read_f64};
use crate::integer::{number_u64, number_usize, read_u64, read_usize};
use crate::path::{path_error_text, path_failure, path_steps, FieldPath, PathError};
use crate::schema::DEFAULT_DEPTH;
use crate::stats::DEFAULT_MAX_ERRORS;
use crate::text::same_text;

verus! {

/// Number of lines or values shown when no other is asked for.
pub const DEFAULT_COUNT: usize = 10;

/// What `head` is asked for.
#[verifier::ext_equal]
pub struct HeadRequest {
    pub n: nat,
    pub file: Option<Seq<char>>,
}

/// What `sample` is asked for.
#[verifier::ext_equal]
pub struct SampleRequest {
    pub n: nat,
    pub seed: Option<u64>,
    pub file: Option<Seq<char>>,
}

/// What `stats` is asked for.
#[verifier::ext_equal]
pub struct StatsRequest {
    pub fields: Seq<Seq<char>>,
    pub top: nat,
    pub max_errors: nat,
    pub json: bool,
    pub file: Option<Seq<char>>,
}

/// What `schema` is asked for.
#[verifier::ext_equal]
pub struct SchemaRequest {
    pub depth: nat,
    pub min_rate: u64,
    pub json: bool,
    pub file: Option<Seq<char>>,
}

/// What the arguments ask for.
#[verifier::ext_equal]
pub enum Request {
    Head(HeadRequest),
    Sample(SampleRequest),
    Stats(StatsRequest),
    Schema(SchemaRequest),
}

/// Arguments as mathematics.
pub open spec fn texts_of(args: Seq<String>) -> Seq<Seq<char>> {
    Seq::new(args.len(), |i: int| args[i]@)
}

/// The text of an argument that may be missing.
pub open spec fn text_of(file: Option<String>) -> Option<Seq<char>> {
    match file {
        Some(s) => Some(s@),
        None => None,
    }
}

/// The argument behind the flag at `i`.
pub open spec fn value_behind(
    args: Seq<Seq<char>>,
    i: int,
    flag: Seq<char>,
) -> Result<Seq<char>, Seq<char>> {
    if i + 1 < args.len() {
        Ok(args[i + 1])
    } else {
        Err("'"@ + flag + "' needs a value"@)
    }
}

/// What is said of an argument that is no count.
pub open spec fn no_count_text(flag: Seq<char>, raw: Seq<char>) -> Seq<char> {
    "'"@ + flag + "' expects a non-negative integer, got '"@ + raw + "'"@
}

/// What is said of an argument that is no number.
pub open spec fn no_number_text(flag: Seq<char>, raw: Seq<char>) -> Seq<char> {
    "'"@ + flag + "' expects a number, got '"@ + raw + "'"@
}

/// The count behind the flag at `i`.
pub open spec fn count_behind(
    args: Seq<Seq<char>>,
    i: int,
    flag: Seq<char>,
) -> Result<nat, Seq<char>> {
    match value_behind(args, i, flag) {
        Ok(raw) => match number_usize(encode_utf8(raw)) {
            Some(n) => Ok(n as nat),
            None => Err(no_count_text(flag, raw)),
        },
        Err(e) => Err(e),
    }
}

/// The seed behind the flag at `i`.
pub open spec fn seed_behind(
    args: Seq<Seq<char>>,
    i: int,
    flag: Seq<char>,
) -> Result<u64, Seq<char>> {
    match value_behind(args, i, flag) {
        Ok(raw) => match number_u64(encode_utf8(raw)) {
            Some(n) => Ok(n),
            None => Err(no_count_text(flag, raw)),
        },
        Err(e) => Err(e),
    }
}

/// The bits of the number behind the flag at `i`.
pub open spec fn number_behind(
    args: Seq<Seq<char>>,
    i: int,
    flag: Seq<char>,
) -> Result<u64, Seq<char>> {
    match value_behind(args, i, flag) {
        Ok(raw) => match float_number(encode_utf8(raw)) {
            Some(bits) => Ok(bits),
            None => Err(no_number_text(flag, raw)),
        },
        Err(e) => Err(e),
    }
}

/// The field path behind the flag at `i`.
pub open spec fn path_behind(
    args: Seq<Seq<char>>,
    i: int,
    flag: Seq<char>,
) -> Result<Seq<char>, Seq<char>> {
    match value_behind(args, i, flag) {
        Ok(raw) => match path_steps(encode_utf8(raw)) {
            Ok(_) => Ok(raw),
            Err((offset, kind)) => Err(
                flag + " "@ + raw + ": "@ + path_error_text(
                    PathError { offset: offset as usize, kind },
                ),
            ),
        },
        Err(e) => Err(e),
    }
}

/// The file after an argument that is no flag.
pub open spec fn file_with(file: Option<Seq<char>>, arg: Seq<char>) -> Result<
    Option<Seq<char>>,
    Seq<char>,
> {
    match file {
        Some(_) => Err("unexpected argument '"@ + arg + "'"@),
        None => Ok(Some(arg)),
    }
}

/// What the arguments of `head` from the `i`-th on add to a request.
pub open spec fn head_request(
    args: Seq<Seq<char>>,
    i: int,
    so_far: HeadRequest,
) -> Result<HeadRequest, Seq<char>>
    decreases args.len() - i,
{
    if i < 0 || i >= args.len() {
        Ok(so_far)
    } else if args[i] == "-n"@ {
        match count_behind(args, i, "-n"@) {
            Ok(n) => head_request(args, i + 2, HeadRequest { n, ..so_far }),
            Err(e) => Err(e),
        }
    } else {
        match file_with(so_far.file, args[i]) {
            Ok(file) => head_request(args, i + 1, HeadRequest { file, ..so_far }),
            Err(e) => Err(e),
        }
    }
}

/// What the arguments of `sample` from the `i`-th on add to a request.
pub open spec fn sample_request(
    args: Seq<Seq<char>>,
    i: int,
    so_far: SampleRequest,
) -> Result<SampleRequest, Seq<char>>
    decreases args.len() - i,
{
    if i < 0 || i >= args.len() {
        Ok(so_far)
    } else if args[i] == "-n"@ {
        match count_behind(args, i, "-n"@) {
            Ok(n) => sample_request(args, i + 2, SampleRequest { n, ..so_far }),
            Err(e) => Err(e),
        }
    } else if args[i] == "--seed"@ {
        match seed_behind(args, i, "--seed"@) {
            Ok(seed) => sample_request(
                args,
                i + 2,
                SampleRequest { seed: Some(seed), ..so_far },
            ),
            Err(e) => Err(e),
        }
    } else {
        match file_with(so_far.file, args[i]) {
            Ok(file) => sample_request(args, i + 1, SampleRequest { file, ..so_far }),
            Err(e) => Err(e),
        }
    }
}

/// What the arguments of `stats` from the `i`-th on add to a request.
pub open spec fn stats_request(
    args: Seq<Seq<char>>,
    i: int,
    so_far: StatsRequest,
) -> Result<StatsRequest, Seq<char>>
    decreases args.len() - i,
{
    if i < 0 || i >= args.len() {
        Ok(so_far)
    } else if args[i] == "--field"@ {
        match path_behind(args, i, "--field"@) {
            Ok(path) => stats_request(
                args,
                i + 2,
                StatsRequest { fields: so_far.fields.push(path), ..so_far },
            ),
            Err(e) => Err(e),
        }
    } else if args[i] == "--top"@ {
        match count_behind(args, i, "--top"@) {
            Ok(top) => stats_request(args, i + 2, StatsRequest { top, ..so_far }),
            Err(e) => Err(e),
        }
    } else if args[i] == "--max-errors"@ {
        match count_behind(args, i, "--max-errors"@) {
            Ok(max_errors) => stats_request(args, i + 2, StatsRequest { max_errors, ..so_far }),
            Err(e) => Err(e),
        }
    } else if args[i] == "--json"@ {
        stats_request(args, i + 1, StatsRequest { json: true, ..so_far })
    } else {
        match file_with(so_far.file, args[i]) {
            Ok(file) => stats_request(args, i + 1, StatsRequest { file, ..so_far }),
            Err(e) => Err(e),
        }
    }
}

/// What the arguments of `schema` from the `i`-th on add to a request.
pub open spec fn schema_request(
    args: Seq<Seq<char>>,
    i: int,
    so_far: SchemaRequest,
) -> Result<SchemaRequest, Seq<char>>
    decreases args.len() - i,
{
    if i < 0 || i >= args.len() {
        Ok(so_far)
    } else if args[i] == "--depth"@ {
        match count_behind(args, i, "--depth"@) {
            Ok(depth) => schema_request(args, i + 2, SchemaRequest { depth, ..so_far }),
            Err(e) => Err(e),
        }
    } else if args[i] == "--min-rate"@ {
        match number_behind(args, i, "--min-rate"@) {
            Ok(min_rate) => schema_request(args, i + 2, SchemaRequest { min_rate, ..so_far }),
            Err(e) => Err(e),
        }
    } else if args[i] == "--json"@ {
        schema_request(args, i + 1, SchemaRequest { json: true, ..so_far })
    } else {
        match file_with(so_far.file, args[i]) {
            Ok(file) => schema_request(args, i + 1, SchemaRequest { file, ..so_far }),
            Err(e) => Err(e),
        }
    }
}

/// What `head` is asked for without arguments.
pub open spec fn plain_head() -> HeadRequest {
    HeadRequest { n: DEFAULT_COUNT as nat, file: None }
}

/// What `sample` is asked for without arguments.
pub open spec fn plain_sample() -> SampleRequest {
    SampleRequest { n: DEFAULT_COUNT as nat, seed: None, file: None }
}

/// What `stats` is asked for without arguments.
pub open spec fn plain_stats() -> StatsRequest {
    StatsRequest {
        fields: Seq::empty(),
        top: DEFAULT_COUNT as nat,
        max_errors: DEFAULT_MAX_ERRORS as nat,
        json: false,
        file: None,
    }
}

/// What `schema` is asked for without arguments.
pub open spec fn plain_schema() -> SchemaRequest {
    SchemaRequest { depth: DEFAULT_DEPTH as nat, min_rate: 0, json: false, file: None }
}

/// What the arguments ask for: the name of a command and its arguments.
pub open spec fn request(args: Seq<Seq<char>>) -> Result<Request, Seq<char>> {
    if args.len() == 0 {
        Err("expected a subcommand"@)
    } else if args[0] == "head"@ {
        match head_request(args, 1, plain_head()) {
            Ok(r) => Ok(Request::Head(r)),
            Err(e) => Err(e),
        }
    } else if args[0] == "sample"@ {
        match sample_request(args, 1, plain_sample()) {
            Ok(r) => Ok(Request::Sample(r)),
            Err(e) => Err(e),
        }
    } else if args[0] == "stats"@ {
        match stats_request(args, 1, plain_stats()) {
            Ok(r) => Ok(Request::Stats(r)),
            Err(e) => Err(e),
        }
    } else if args[0] == "schema"@ {
        match schema_request(args, 1, plain_schema()) {
            Ok(r) => Ok(Request::Schema(r)),
            Err(e) => Err(e),
        }
    } else {
        Err("unknown subcommand '"@ + args[0] + "'"@)
    }
}

/// Prints the first lines of a file.
#[derive(Debug)]
pub struct HeadCommand {
    /// How many lines.
    pub n: usize,
    /// The file, if one is given.
    pub file: Option<String>,
}

impl View for HeadCommand {
    type V = HeadRequest;

    open spec fn view(&self) -> HeadRequest {
        HeadRequest { n: self.n as nat, file: text_of(self.file) }
    }
}

/// Prints a uniform sample of the lines of a file.
#[derive(Debug)]
pub struct SampleCommand {
    /// How many lines.
    pub n: usize,
    /// The seed of the generator, if one is given.
    pub seed: Option<u64>,
    /// The file, if one is given.
    pub file: Option<String>,
}

impl View for SampleCommand {
    type V = SampleRequest;

    open spec fn view(&self) -> SampleRequest {
        SampleRequest { n: self.n as nat, seed: self.seed, file: text_of(self.file) }
    }
}

/// Prints the statistics of a file.
#[derive(Debug)]
pub struct StatsCommand {
    /// The fields to profile.
    pub fields: Vec<FieldPath>,
    /// How many values of a field are listed.
    pub top: usize,
    /// How many broken lines are listed.
    pub max_errors: usize,
    /// Whether to print JSON.
    pub json: bool,
    /// The file, if one is given.
    pub file: Option<String>,
}

/// The texts of field paths.
pub open spec fn path_texts(fields: Seq<FieldPath>) -> Seq<Seq<char>> {
    Seq::new(fields.len(), |i: int| fields[i].text())
}

impl View for StatsCommand {
    type V = StatsRequest;

    open spec fn view(&self) -> StatsRequest {
        StatsRequest {
            fields: path_texts(self.fields@),
            top: self.top as nat,
            max_errors: self.max_errors as nat,
            json: self.json,
            file: text_of(self.file),
        }
    }
}

impl StatsCommand {
    /// The steps of every path are those of its text.
    pub open spec fn wf(&self) -> bool {
        forall|i: int|
            0 <= i < self.fields@.len() ==> path_steps(
                encode_utf8((#[trigger] self.fields@[i]).text()),
            ) == Ok::<_, (int, crate::path::PathErrorKind)>(self.fields@[i].steps())
    }
}

/// Prints the paths that a file contains.
#[derive(Debug)]
pub struct SchemaCommand {
    /// How many segments to descend.
    pub depth: usize,
    /// The least share of records.
    pub min_rate: Binary64,
    /// Whether to print JSON.
    pub json: bool,
    /// The file, if one is given.
    pub file: Option<String>,
}

impl View for SchemaCommand {
    type V = SchemaRequest;

    open spec fn view(&self) -> SchemaRequest {
        SchemaRequest {
            depth: self.depth as nat,
            min_rate: self.min_rate@,
            json: self.json,
            file: text_of(self.file),
        }
    }
}

/// A command with its options.
#[derive(Debug)]
pub enum Command {
    Head(HeadCommand),
    Sample(SampleCommand),
    Stats(StatsCommand),
    Schema(SchemaCommand),
}

impl View for Command {
    type V = Request;

    open spec fn view(&self) -> Request {
        match self {
            Command::Head(c) => Request::Head(c@),
            Command::Sample(c) => Request::Sample(c@),
            Command::Stats(c) => Request::Stats(c@),
            Command::Schema(c) => Request::Schema(c@),
        }
    }
}

fn take_value<'a>(args: &'a [String], i: usize, flag: &str) -> (r: Result<&'a str, String>)
    requires
        i < args@.len(),
    ensures
        match r {
            Ok(raw) => value_behind(texts_of(args@), i as int, flag@) == Ok::<_, Seq<char>>(raw@)
                && i + 1 < args@.len(),
            Err(e) => value_behind(texts_of(args@), i as int, flag@) == Err::<Seq<char>, _>(e@),
        },
{
    if args.len() - i > 1 {
        Ok(args[i + 1].as_str())
    } else {
        let mut e = "'".to_string();
        e.append(flag);
        e.append("' needs a value");
        Err(e)
    }
}

fn no_count(flag: &str, raw: &str) -> (e: String)
    ensures
        e@ == no_count_text(flag@, raw@),
{
    let mut e = "'".to_string();
    e.append(flag);
    e.append("' expects a non-negative integer, got '");
    e.append(raw);
    e.append("'");
    e
}

fn parse_usize(args: &[String], i: usize, flag: &str) -> (r: Result<usize, String>)
    requires
        i < args@.len(),
    ensures
        match r {
            Ok(n) => count_behind(texts_of(args@), i as int, flag@) == Ok::<_, Seq<char>>(n as nat)
                && i + 1 < args@.len(),
            Err(e) => count_behind(texts_of(args@), i as int, flag@) == Err::<nat, _>(e@),
        },
{
    match take_value(args, i, flag) {
        Ok(raw) => match read_usize(raw.as_bytes()) {
            Some(n) => Ok(n),
            None => Err(no_count(flag, raw)),
        },
        Err(e) => Err(e),
    }
}

fn parse_u64(args: &[String], i: usize, flag: &str) -> (r: Result<u64, String>)
    requires
        i < args@.len(),
    ensures
        match r {
            Ok(n) => seed_behind(texts_of(args@), i as int, flag@) == Ok::<_, Seq<char>>(n) && i + 1
                < args@.len(),
            Err(e) => seed_behind(texts_of(args@), i as int, flag@) == Err::<u64, _>(e@),
        },
{
    match take_value(args, i, flag) {
        Ok(raw) => match read_u64(raw.as_bytes()) {
            Some(n) => Ok(n),
            None => Err(no_count(flag, raw)),
        },
        Err(e) => Err(e),
    }
}

fn parse_f64(args: &[String], i: usize, flag: &str) -> (r: Result<Binary64, String>)
    requires
        i < args@.len(),
    ensures
        match r {
            Ok(x) => number_behind(texts_of(args@), i as int, flag@) == Ok::<_, Seq<char>>(x@) && i
                + 1 < args@.len(),
            Err(e) => number_behind(texts_of(args@), i as int, flag@) == Err::<u64, _>(e@),
        },
{
    match take_value(args, i, flag) {
        Ok(raw) => match read_f64(raw.as_bytes()) {
            Some(x) => Ok(x),
            None => {
                let mut e = "'".to_string();
                e.append(flag);
                e.append("' expects a number, got '");
                e.append(raw);
                e.append("'");
                Err(e)
            },
        },
        Err(e) => Err(e),
    }
}

fn parse_path(args: &[String], i: usize, flag: &str) -> (r: Result<FieldPath, String>)
    requires
        i < args@.len(),
    ensures
        match r {
            Ok(path) => path_behind(texts_of(args@), i as int, flag@) == Ok::<_, Seq<char>>(
                path.text(),
            ) && i + 1 < args@.len() && path_steps(encode_utf8(path.text())) == Ok::<
                _,
                (int, crate::path::PathErrorKind),
            >(path.steps()),
            Err(e) => path_behind(texts_of(args@), i as int, flag@) == Err::<Seq<char>, _>(e@),
        },
{
    match take_value(args, i, flag) {
        Ok(raw) => match FieldPath::parse(raw) {
            Ok(path) => Ok(path),
            Err(error) => {
                let mut e = flag.to_string();
                e.append(" ");
                e.append(raw);
                e.append(": ");
                e.append(error.to_string().as_str());
                proof {
                    let (offset, kind) = path_failure(error);
                    assert(PathError { offset: offset as usize, kind } == error);
                }
                Err(e)
            },
        },
        Err(e) => Err(e),
    }
}

fn take_positional(file: &mut Option<String>, arg: &str) -> (r: Result<(), String>)
    ensures
        match r {
            Ok(_) => file_with(text_of(*old(file)), arg@) == Ok::<_, Seq<char>>(
                text_of(*final(file)),
            ),
            Err(e) => file_with(text_of(*old(file)), arg@) == Err::<Option<Seq<char>>, _>(e@),
        },
{
    if file.is_some() {
        let mut e = "unexpected argument '".to_string();
        e.append(arg);
        e.append("'");
        return Err(e);
    }
    *file = Some(arg.to_string());
    Ok(())
}

fn head_command(args: &[String]) -> (r: Result<HeadCommand, String>)
    requires
        args@.len() > 0,
    ensures
        match r {
            Ok(c) => head_request(texts_of(args@), 1, plain_head()) == Ok::<_, Seq<char>>(c@),
            Err(e) => head_request(texts_of(args@), 1, plain_head()) == Err::<HeadRequest, _>(e@),
        },
{
    let mut c = HeadCommand { n: DEFAULT_COUNT, file: None };
    let mut i: usize = 1;
    while i < args.len()
        invariant
            0 < i <= args@.len(),
            head_request(texts_of(args@), 1, plain_head()) == head_request(
                texts_of(args@),
                i as int,
                c@,
            ),
        decreases args@.len() - i,
    {
        let arg = args[i].as_str();
        if same_text(arg, "-n") {
            match parse_usize(args, i, "-n") {
                Ok(n) => {
                    c.n = n;
                },
                Err(e) => {
                    return Err(e);
                },
            }
            i += 2;
        } else {
            match take_positional(&mut c.file, arg) {
                Ok(_) => {},
                Err(e) => {
                    return Err(e);
                },
            }
            i += 1;
        }
    }
    Ok(c)
}

fn sample_command(args: &[String]) -> (r: Result<SampleCommand, String>)
    requires
        args@.len() > 0,
    ensures
        match r {
            Ok(c) => sample_request(texts_of(args@), 1, plain_sample()) == Ok::<_, Seq<char>>(c@),
            Err(e) => sample_request(texts_of(args@), 1, plain_sample()) == Err::<
                SampleRequest,
                _,
            >(e@),
        },
{
    let mut c = SampleCommand { n: DEFAULT_COUNT, seed: None, file: None };
    let mut i: usize = 1;
    while i < args.len()
        invariant
            0 < i <= args@.len(),
            sample_request(texts_of(args@), 1, plain_sample()) == sample_request(
                texts_of(args@),
                i as int,
                c@,
            ),
        decreases args@.len() - i,
    {
        let arg = args[i].as_str();
        if same_text(arg, "-n") {
            match parse_usize(args, i, "-n") {
                Ok(n) => {
                    c.n = n;
                },
                Err(e) => {
                    return Err(e);
                },
            }
            i += 2;
        } else if same_text(arg, "--seed") {
            match parse_u64(args, i, "--seed") {
                Ok(seed) => {
                    c.seed = Some(seed);
                },
                Err(e) => {
                    return Err(e);
                },
            }
            i += 2;
        } else {
            match take_positional(&mut c.file, arg) {
                Ok(_) => {},
                Err(e) => {
                    return Err(e);
                },
            }
            i += 1;
        }
    }
    Ok(c)
}

fn stats_command(args: &[String]) -> (r: Result<StatsCommand, String>)
    requires
        args@.len() > 0,
    ensures
        match r {
            Ok(c) => stats_request(texts_of(args@), 1, plain_stats()) == Ok::<_, Seq<char>>(c@)
                && c.wf(),
            Err(e) => stats_request(texts_of(args@), 1, plain_stats()) == Err::<StatsRequest, _>(
                e@,
            ),
        },
{
    let mut c = StatsCommand {
        fields: Vec::new(),
        top: DEFAULT_COUNT,
        max_errors: DEFAULT_MAX_ERRORS,
        json: false,
        file: None,
    };
    assert(c@ =~= plain_stats());
    let mut i: usize = 1;
    while i < args.len()
        invariant
            0 < i <= args@.len(),
            c.wf(),
            stats_request(texts_of(args@), 1, plain_stats()) == stats_request(
                texts_of(args@),
                i as int,
                c@,
            ),
        decreases args@.len() - i,
    {
        let arg = args[i].as_str();
        if same_text(arg, "--field") {
            match parse_path(args, i, "--field") {
                Ok(path) => {
                    let ghost before = c.fields@;
                    let ghost given = path;
                    c.fields.push(path);
                    assert(path_texts(c.fields@) =~= path_texts(before).push(given.text()));
                },
                Err(e) => {
                    return Err(e);
                },
            }
            i += 2;
        } else if same_text(arg, "--top") {
            match parse_usize(args, i, "--top") {
                Ok(top) => {
                    c.top = top;
                },
                Err(e) => {
                    return Err(e);
                },
            }
            i += 2;
        } else if same_text(arg, "--max-errors") {
            match parse_usize(args, i, "--max-errors") {
                Ok(max_errors) => {
                    c.max_errors = max_errors;
                },
                Err(e) => {
                    return Err(e);
                },
            }
            i += 2;
        } else if same_text(arg, "--json") {
            c.json = true;
            i += 1;
        } else {
            match take_positional(&mut c.file, arg) {
                Ok(_) => {},
                Err(e) => {
                    return Err(e);
                },
            }
            i += 1;
        }
    }
    Ok(c)
}

fn schema_command(args: &[String]) -> (r: Result<SchemaCommand, String>)
    requires
        args@.len() > 0,
    ensures
        match r {
            Ok(c) => schema_request(texts_of(args@), 1, plain_schema()) == Ok::<_, Seq<char>>(c@),
            Err(e) => schema_request(texts_of(args@), 1, plain_schema()) == Err::<
                SchemaRequest,
                _,
            >(e@),
        },
{
    let mut c = SchemaCommand {
        depth: DEFAULT_DEPTH,
        min_rate: Binary64::from_bits(0),
        json: false,
        file: None,
    };
    let mut i: usize = 1;
    while i < args.len()
        invariant
            0 < i <= args@.len(),
            schema_request(texts_of(args@), 1, plain_schema()) == schema_request(
                texts_of(args@),
                i as int,
                c@,
            ),
        decreases args@.len() - i,
    {
        let arg = args[i].as_str();
        if same_text(arg, "--depth") {
            match parse_usize(args, i, "--depth") {
                Ok(depth) => {
                    c.depth = depth;
                },
                Err(e) => {
                    return Err(e);
                },
            }
            i += 2;
        } else if same_text(arg, "--min-rate") {
            match parse_f64(args, i, "--min-rate") {
                Ok(min_rate) => {
                    c.min_rate = min_rate;
                },
                Err(e) => {
                    return Err(e);
                },
            }
            i += 2;
        } else if same_text(arg, "--json") {
            c.json = true;
            i += 1;
        } else {
            match take_positional(&mut c.file, arg) {
                Ok(_) => {},
                Err(e) => {
                    return Err(e);
                },
            }
            i += 1;
        }
    }
    Ok(c)
}

/// The command that the arguments ask for, or what is wrong with them.
pub fn parse_args(args: &[String]) -> (r: Result<Command, String>)
    ensures
        match r {
            Ok(c) => request(texts_of(args@)) == Ok::<_, Seq<char>>(c@) && (
            c matches Command::Stats(s) ==> s.wf()),
            Err(e) => request(texts_of(args@)) == Err::<Request, _>(e@),
        },
{
    if args.len() == 0 {
        return Err("expected a subcommand".to_string());
    }
    let name = args[0].as_str();
    if same_text(name, "head") {
        match head_command(args) {
            Ok(c) => Ok(Command::Head(c)),
            Err(e) => Err(e),
        }
    } else if same_text(name, "sample") {
        match sample_command(args) {
            Ok(c) => Ok(Command::Sample(c)),
            Err(e) => Err(e),
        }
    } else if same_text(name, "stats") {
        match stats_command(args) {
            Ok(c) => Ok(Command::Stats(c)),
            Err(e) => Err(e),
        }
    } else if same_text(name, "schema") {
        match schema_command(args) {
            Ok(c) => Ok(Command::Schema(c)),
            Err(e) => Err(e),
        }
    } else {
        let mut e = "unknown subcommand '".to_string();
        e.append(name);
        e.append("'");
        Err(e)
    }
}

/// The name of the file to open; none for standard input, which a dash stands
/// for too.
pub open spec fn opened(file: Option<Seq<char>>) -> Option<Seq<char>> {
    match file {
        Some(path) => if path == "-"@ {
            None
        } else {
            Some(path)
        },
        None => None,
    }
}

/// What a report calls its input.
pub open spec fn label_text(file: Option<Seq<char>>) -> Seq<char> {
    match opened(file) {
        Some(path) => path,
        None => "-"@,
    }
}

/// The name of the file to open; none for standard input, which a dash stands
/// for too.
pub fn input_file(file: &Option<String>) -> (r: Option<&str>)
    ensures
        match r {
            Some(path) => opened(text_of(*file)) == Some(path@),
            None => opened(text_of(*file)) is None,
        },
{
    match file {
        Some(path) => if same_text(path.as_str(), "-") {
            None
        } else {
            Some(path.as_str())
        },
        None => None,
    }
}

/// What a report calls its input.
pub fn input_label(file: &Option<String>) -> (r: &str)
    ensures
        r@ == label_text(text_of(*file)),
{
    match input_file(file) {
        Some(path) => path,
        None => "-",
    }
}

} // verus!

//! How the arguments of a command add up: each flag sets what it names and
//! leaves the rest as it was.

use vstd::prelude::*;
use vstd::utf8::*;

use crate::cli::{
    count_behind, file_with, head_request, number_behind, path_behind, request, sample_request,
    schema_request, seed_behind, stats_request, HeadRequest, Request, SampleRequest, SchemaRequest,
    StatsRequest,
};
use crate::float::float_number;
use crate::integer::{number_u64, number_usize};
use crate::numerals::{are_digits, integers_are_read_by_their_places, place_value};
use crate::path::path_steps;

verus! {

/// What comes of arguments that ask for something.
pub open spec fn asked(r: Request) -> Result<Request, Seq<char>> {
    Ok(r)
}

/// What comes of arguments in which something is wrong.
pub open spec fn refused(message: Seq<char>) -> Result<Request, Seq<char>> {
    Err(message)
}

/// Whether an argument is a number in decimal, behind a plus or not.
pub open spec fn is_count(raw: Seq<char>, n: nat) -> bool {
    let b = encode_utf8(raw);
    ||| b.len() > 0 && are_digits(b) && place_value(b) == n
    ||| b.len() > 1 && b[0] == 43 && are_digits(b.skip(1)) && place_value(b.skip(1)) == n
}

proof fn lemma_count(raw: Seq<char>, n: nat)
    requires
        is_count(raw, n),
    ensures
        n <= usize::MAX ==> number_usize(encode_utf8(raw)) == Some(n as usize),
        n > usize::MAX ==> number_usize(encode_utf8(raw)) is None,
        n <= u64::MAX ==> number_u64(encode_utf8(raw)) == Some(n as u64),
        n > u64::MAX ==> number_u64(encode_utf8(raw)) is None,
{
    let b = encode_utf8(raw);
    if b.len() > 0 && are_digits(b) && place_value(b) == n {
        integers_are_read_by_their_places(b);
    } else {
        let d = b.skip(1);
        integers_are_read_by_their_places(d);
        assert(b =~= seq![43u8] + d);
    }
}

proof fn lemma_flags()
    ensures
        "-n"@.len() == 2,
        "--seed"@.len() == 6,
        "--field"@.len() == 7,
        "--top"@.len() == 5,
        "--max-errors"@.len() == 12,
        "--json"@.len() == 6,
        "--depth"@.len() == 7,
        "--min-rate"@.len() == 10,
        "head"@.len() == 4,
        "sample"@.len() == 6,
        "stats"@.len() == 5,
        "schema"@.len() == 6,
        "sample"@ != "schema"@,
        "--seed"@ != "--json"@,
        "--field"@ != "--depth"@,
{
    reveal_strlit("-n");
    reveal_strlit("--seed");
    reveal_strlit("--field");
    reveal_strlit("--top");
    reveal_strlit("--max-errors");
    reveal_strlit("--json");
    reveal_strlit("--depth");
    reveal_strlit("--min-rate");
    reveal_strlit("head");
    reveal_strlit("sample");
    reveal_strlit("stats");
    reveal_strlit("schema");
    assert("sample"@[1] != "schema"@[1]);
    assert("--seed"@[2] != "--json"@[2]);
    assert("--field"@[2] != "--depth"@[2]);
}

proof fn lemma_head_extended(
    args: Seq<Seq<char>>,
    more: Seq<Seq<char>>,
    i: int,
    so_far: HeadRequest,
)
    requires
        0 <= i <= args.len(),
    ensures
        head_request(args, i, so_far) matches Ok(r) ==> head_request(args + more, i, so_far)
            == head_request(args + more, args.len() as int, r),
    decreases args.len() - i,
{
    if i < args.len() {
        let all = args + more;
        assert(all[i] == args[i]);
        if i + 1 < args.len() {
            assert(all[i + 1] == args[i + 1]);
        }
        if args[i] == "-n"@ {
            if let Ok(n) = count_behind(args, i, "-n"@) {
                lemma_head_extended(args, more, i + 2, HeadRequest { n, ..so_far });
            }
        } else if let Ok(file) = file_with(so_far.file, args[i]) {
            lemma_head_extended(args, more, i + 1, HeadRequest { file, ..so_far });
        }
    }
}

proof fn lemma_sample_extended(
    args: Seq<Seq<char>>,
    more: Seq<Seq<char>>,
    i: int,
    so_far: SampleRequest,
)
    requires
        0 <= i <= args.len(),
    ensures
        sample_request(args, i, so_far) matches Ok(r) ==> sample_request(args + more, i, so_far)
            == sample_request(args + more, args.len() as int, r),
    decreases args.len() - i,
{
    if i < args.len() {
        let all = args + more;
        assert(all[i] == args[i]);
        if i + 1 < args.len() {
            assert(all[i + 1] == args[i + 1]);
        }
        if args[i] == "-n"@ {
            if let Ok(n) = count_behind(args, i, "-n"@) {
                lemma_sample_extended(args, more, i + 2, SampleRequest { n, ..so_far });
            }
        } else if args[i] == "--seed"@ {
            if let Ok(seed) = seed_behind(args, i, "--seed"@) {
                lemma_sample_extended(args, more, i + 2, SampleRequest { seed: Some(seed), ..so_far });
            }
        } else if let Ok(file) = file_with(so_far.file, args[i]) {
            lemma_sample_extended(args, more, i + 1, SampleRequest { file, ..so_far });
        }
    }
}

proof fn lemma_stats_extended(
    args: Seq<Seq<char>>,
    more: Seq<Seq<char>>,
    i: int,
    so_far: StatsRequest,
)
    requires
        0 <= i <= args.len(),
    ensures
        stats_request(args, i, so_far) matches Ok(r) ==> stats_request(args + more, i, so_far)
            == stats_request(args + more, args.len() as int, r),
    decreases args.len() - i,
{
    if i < args.len() {
        let all = args + more;
        assert(all[i] == args[i]);
        if i + 1 < args.len() {
            assert(all[i + 1] == args[i + 1]);
        }
        if args[i] == "--field"@ {
            if let Ok(path) = path_behind(args, i, "--field"@) {
                lemma_stats_extended(args, more, i + 2, StatsRequest { fields: so_far.fields.push(path), ..so_far });
            }
        } else if args[i] == "--top"@ {
            if let Ok(top) = count_behind(args, i, "--top"@) {
                lemma_stats_extended(args, more, i + 2, StatsRequest { top, ..so_far });
            }
        } else if args[i] == "--max-errors"@ {
            if let Ok(max_errors) = count_behind(args, i, "--max-errors"@) {
                lemma_stats_extended(args, more, i + 2, StatsRequest { max_errors, ..so_far });
            }
        } else if args[i] == "--json"@ {
            lemma_stats_extended(args, more, i + 1, StatsRequest { json: true, ..so_far });
        } else if let Ok(file) = file_with(so_far.file, args[i]) {
            lemma_stats_extended(args, more, i + 1, StatsRequest { file, ..so_far });
        }
    }
}

proof fn lemma_schema_extended(
    args: Seq<Seq<char>>,
    more: Seq<Seq<char>>,
    i: int,
    so_far: SchemaRequest,
)
    requires
        0 <= i <= args.len(),
    ensures
        schema_request(args, i, so_far) matches Ok(r) ==> schema_request(args + more, i, so_far)
            == schema_request(args + more, args.len() as int, r),
    decreases args.len() - i,
{
    if i < args.len() {
        let all = args + more;
        assert(all[i] == args[i]);
        if i + 1 < args.len() {
            assert(all[i + 1] == args[i + 1]);
        }
        if args[i] == "--depth"@ {
            if let Ok(depth) = count_behind(args, i, "--depth"@) {
                lemma_schema_extended(args, more, i + 2, SchemaRequest { depth, ..so_far });
            }
        } else if args[i] == "--min-rate"@ {
            if let Ok(min_rate) = number_behind(args, i, "--min-rate"@) {
                lemma_schema_extended(args, more, i + 2, SchemaRequest { min_rate, ..so_far });
            }
        } else if args[i] == "--json"@ {
            lemma_schema_extended(args, more, i + 1, SchemaRequest { json: true, ..so_far });
        } else if let Ok(file) = file_with(so_far.file, args[i]) {
            lemma_schema_extended(args, more, i + 1, SchemaRequest { file, ..so_far });
        }
    }
}

/// What is asked for without arguments: ten lines, values or broken lines, no
/// seed, and three segments at most.
pub proof fn commands_without_arguments_have_defaults()
    ensures
        request(seq!["head"@]) == asked(
            Request::Head(HeadRequest { n: 10, file: None }),
        ),
        request(seq!["sample"@]) == asked(
            Request::Sample(SampleRequest { n: 10, seed: None, file: None }),
        ),
        request(seq!["stats"@]) == asked(
            Request::Stats(
                StatsRequest {
                    fields: Seq::empty(),
                    top: 10,
                    max_errors: 10,
                    json: false,
                    file: None,
                },
            ),
        ),
        request(seq!["schema"@]) == asked(
            Request::Schema(SchemaRequest { depth: 3, min_rate: 0, json: false, file: None }),
        ),
        request(Seq::empty()) is Err,
{
    lemma_flags();
}

/// Only the four commands are known.
pub proof fn other_commands_are_refused(args: Seq<Seq<char>>)
    requires
        args.len() > 0,
        args[0] != "head"@,
        args[0] != "sample"@,
        args[0] != "stats"@,
        args[0] != "schema"@,
    ensures
        request(args) == refused("unknown subcommand '"@ + args[0] + "'"@),
{
}

proof fn lemma_head_more(args: Seq<Seq<char>>, more: Seq<Seq<char>>, r: HeadRequest)
    requires
        request(args) == asked(Request::Head(r)),
    ensures
        request(args + more) == match head_request(args + more, args.len() as int, r) {
            Ok(all) => asked(Request::Head(all)),
            Err(e) => Err(e),
        },
{
    lemma_flags();
    assert((args + more)[0] == args[0]);
    lemma_head_extended(args, more, 1, crate::cli::plain_head());
}

proof fn lemma_sample_more(args: Seq<Seq<char>>, more: Seq<Seq<char>>, r: SampleRequest)
    requires
        request(args) == asked(Request::Sample(r)),
    ensures
        request(args + more) == match sample_request(args + more, args.len() as int, r) {
            Ok(all) => asked(Request::Sample(all)),
            Err(e) => Err(e),
        },
{
    lemma_flags();
    assert((args + more)[0] == args[0]);
    lemma_sample_extended(args, more, 1, crate::cli::plain_sample());
}

proof fn lemma_stats_more(args: Seq<Seq<char>>, more: Seq<Seq<char>>, r: StatsRequest)
    requires
        request(args) == asked(Request::Stats(r)),
    ensures
        request(args + more) == match stats_request(args + more, args.len() as int, r) {
            Ok(all) => asked(Request::Stats(all)),
            Err(e) => Err(e),
        },
{
    lemma_flags();
    assert((args + more)[0] == args[0]);
    lemma_stats_extended(args, more, 1, crate::cli::plain_stats());
}

proof fn lemma_schema_more(args: Seq<Seq<char>>, more: Seq<Seq<char>>, r: SchemaRequest)
    requires
        request(args) == asked(Request::Schema(r)),
    ensures
        request(args + more) == match schema_request(args + more, args.len() as int, r) {
            Ok(all) => asked(Request::Schema(all)),
            Err(e) => Err(e),
        },
{
    lemma_flags();
    assert((args + more)[0] == args[0]);
    lemma_schema_extended(args, more, 1, crate::cli::plain_schema());
}

proof fn lemma_head_pair(
    args: Seq<Seq<char>>,
    flag: Seq<char>,
    raw: Seq<char>,
    r: HeadRequest,
    x: HeadRequest,
)
    requires
        request(args) == asked(Request::Head(r)),
    ensures
        ({
            let all = args + seq![flag, raw];
            let i = args.len() as int;
            &&& all.len() == i + 2
            &&& all[i] == flag
            &&& all[i + 1] == raw
            &&& request(all) == match head_request(all, i, r) {
                Ok(x) => asked(Request::Head(x)),
                Err(e) => Err(e),
            }
            &&& head_request(all, i + 2, x) == Ok::<HeadRequest, Seq<char>>(x)
        }),
{
    lemma_head_more(args, seq![flag, raw], r);
}

proof fn lemma_head_single(
    args: Seq<Seq<char>>,
    arg: Seq<char>,
    r: HeadRequest,
    x: HeadRequest,
)
    requires
        request(args) == asked(Request::Head(r)),
    ensures
        ({
            let all = args + seq![arg];
            let i = args.len() as int;
            &&& all.len() == i + 1
            &&& all[i] == arg
            &&& request(all) == match head_request(all, i, r) {
                Ok(x) => asked(Request::Head(x)),
                Err(e) => Err(e),
            }
            &&& head_request(all, i + 1, x) == Ok::<HeadRequest, Seq<char>>(x)
        }),
{
    lemma_head_more(args, seq![arg], r);
}

/// A flag of `head` gives the number of lines: it needs a value, sets this and
/// leaves the rest as it was.
pub proof fn head_takes_lines(
    args: Seq<Seq<char>>,
    r: HeadRequest,
    raw: Seq<char>,
    n: nat,
)
    requires
        request(args) == asked(Request::Head(r)),
    ensures
        is_count(raw, n) && n <= usize::MAX ==> request(args + seq!["-n"@, raw]) == asked(
            Request::Head(HeadRequest { n, ..r }),
        ),
        is_count(raw, n) && n > usize::MAX ==> request(args + seq!["-n"@, raw]) is Err,
        request(args + seq!["-n"@]) == refused(
            "'"@ + "-n"@ + "' needs a value"@,
        ),
{
    lemma_flags();
    if is_count(raw, n) {
        lemma_count(raw, n);
    }
    assert(is_count(raw, n) && n <= usize::MAX ==> request(args + seq!["-n"@, raw]) == asked(
            Request::Head(HeadRequest { n, ..r }),
        )) by {
        lemma_head_pair(args, "-n"@, raw, r, HeadRequest { n, ..r });
    }
    assert(is_count(raw, n) && n > usize::MAX ==> request(args + seq!["-n"@, raw]) is Err) by {
        lemma_head_pair(args, "-n"@, raw, r, r);
    }
    assert(request(args + seq!["-n"@]) == refused(
            "'"@ + "-n"@ + "' needs a value"@,
        )) by {
        lemma_head_single(args, "-n"@, r, r);
    }
}

/// The first argument of `head` that is no flag is the file; there is no
/// second one.
pub proof fn head_takes_file(
    args: Seq<Seq<char>>,
    r: HeadRequest,
    raw: Seq<char>,
)
    requires
        request(args) == asked(Request::Head(r)),
    ensures
        raw != "-n"@ ==> request(args + seq![raw]) == match r.file {
            None => asked(
                Request::Head(HeadRequest { file: Some(raw), ..r }),
            ),
            Some(_) => Err("unexpected argument '"@ + raw + "'"@),
        },
{
    lemma_flags();
    assert(raw != "-n"@ ==> request(args + seq![raw]) == match r.file {
            None => asked(
                Request::Head(HeadRequest { file: Some(raw), ..r }),
            ),
            Some(_) => Err("unexpected argument '"@ + raw + "'"@),
        }) by {
        lemma_head_single(args, raw, r, HeadRequest { file: Some(raw), ..r });
    }
}

proof fn lemma_sample_pair(
    args: Seq<Seq<char>>,
    flag: Seq<char>,
    raw: Seq<char>,
    r: SampleRequest,
    x: SampleRequest,
)
    requires
        request(args) == asked(Request::Sample(r)),
    ensures
        ({
            let all = args + seq![flag, raw];
            let i = args.len() as int;
            &&& all.len() == i + 2
            &&& all[i] == flag
            &&& all[i + 1] == raw
            &&& request(all) == match sample_request(all, i, r) {
                Ok(x) => asked(Request::Sample(x)),
                Err(e) => Err(e),
            }
            &&& sample_request(all, i + 2, x) == Ok::<SampleRequest, Seq<char>>(x)
        }),
{
    lemma_sample_more(args, seq![flag, raw], r);
}

proof fn lemma_sample_single(
    args: Seq<Seq<char>>,
    arg: Seq<char>,
    r: SampleRequest,
    x: SampleRequest,
)
    requires
        request(args) == asked(Request::Sample(r)),
    ensures
        ({
            let all = args + seq![arg];
            let i = args.len() as int;
            &&& all.len() == i + 1
            &&& all[i] == arg
            &&& request(all) == match sample_request(all, i, r) {
                Ok(x) => asked(Request::Sample(x)),
                Err(e) => Err(e),
            }
            &&& sample_request(all, i + 1, x) == Ok::<SampleRequest, Seq<char>>(x)
        }),
{
    lemma_sample_more(args, seq![arg], r);
}

/// A flag of `sample` gives the number of lines: it needs a value, sets this and
/// leaves the rest as it was.
pub proof fn sample_takes_lines(
    args: Seq<Seq<char>>,
    r: SampleRequest,
    raw: Seq<char>,
    n: nat,
)
    requires
        request(args) == asked(Request::Sample(r)),
    ensures
        is_count(raw, n) && n <= usize::MAX ==> request(args + seq!["-n"@, raw]) == asked(
            Request::Sample(SampleRequest { n, ..r }),
        ),
        is_count(raw, n) && n > usize::MAX ==> request(args + seq!["-n"@, raw]) is Err,
        request(args + seq!["-n"@]) == refused(
            "'"@ + "-n"@ + "' needs a value"@,
        ),
{
    lemma_flags();
    if is_count(raw, n) {
        lemma_count(raw, n);
    }
    assert(is_count(raw, n) && n <= usize::MAX ==> request(args + seq!["-n"@, raw]) == asked(
            Request::Sample(SampleRequest { n, ..r }),
        )) by {
        lemma_sample_pair(args, "-n"@, raw, r, SampleRequest { n, ..r });
    }
    assert(is_count(raw, n) && n > usize::MAX ==> request(args + seq!["-n"@, raw]) is Err) by {
        lemma_sample_pair(args, "-n"@, raw, r, r);
    }
    assert(request(args + seq!["-n"@]) == refused(
            "'"@ + "-n"@ + "' needs a value"@,
        )) by {
        lemma_sample_single(args, "-n"@, r, r);
    }
}

/// A flag of `sample` gives the seed: it needs a value, sets this and
/// leaves the rest as it was.
pub proof fn sample_takes_seed(
    args: Seq<Seq<char>>,
    r: SampleRequest,
    raw: Seq<char>,
    n: nat,
)
    requires
        request(args) == asked(Request::Sample(r)),
    ensures
        is_count(raw, n) && n <= u64::MAX ==> request(args + seq!["--seed"@, raw]) == asked(
            Request::Sample(SampleRequest { seed: Some(n as u64), ..r }),
        ),
        is_count(raw, n) && n > u64::MAX ==> request(args + seq!["--seed"@, raw]) is Err,
        request(args + seq!["--seed"@]) == refused(
            "'"@ + "--seed"@ + "' needs a value"@,
        ),
{
    lemma_flags();
    if is_count(raw, n) {
        lemma_count(raw, n);
    }
    assert(is_count(raw, n) && n <= u64::MAX ==> request(args + seq!["--seed"@, raw]) == asked(
            Request::Sample(SampleRequest { seed: Some(n as u64), ..r }),
        )) by {
        lemma_sample_pair(args, "--seed"@, raw, r, SampleRequest { seed: Some(n as u64), ..r });
    }
    assert(is_count(raw, n) && n > u64::MAX ==> request(args + seq!["--seed"@, raw]) is Err) by {
        lemma_sample_pair(args, "--seed"@, raw, r, r);
    }
    assert(request(args + seq!["--seed"@]) == refused(
            "'"@ + "--seed"@ + "' needs a value"@,
        )) by {
        lemma_sample_single(args, "--seed"@, r, r);
    }
}

/// The first argument of `sample` that is no flag is the file; there is no
/// second one.
pub proof fn sample_takes_file(
    args: Seq<Seq<char>>,
    r: SampleRequest,
    raw: Seq<char>,
)
    requires
        request(args) == asked(Request::Sample(r)),
    ensures
        raw != "-n"@ && raw != "--seed"@ ==> request(args + seq![raw]) == match r.file {
            None => asked(
                Request::Sample(SampleRequest { file: Some(raw), ..r }),
            ),
            Some(_) => Err("unexpected argument '"@ + raw + "'"@),
        },
{
    lemma_flags();
    assert(raw != "-n"@ && raw != "--seed"@ ==> request(args + seq![raw]) == match r.file {
            None => asked(
                Request::Sample(SampleRequest { file: Some(raw), ..r }),
            ),
            Some(_) => Err("unexpected argument '"@ + raw + "'"@),
        }) by {
        lemma_sample_single(args, raw, r, SampleRequest { file: Some(raw), ..r });
    }
}

proof fn lemma_stats_pair(
    args: Seq<Seq<char>>,
    flag: Seq<char>,
    raw: Seq<char>,
    r: StatsRequest,
    x: StatsRequest,
)
    requires
        request(args) == asked(Request::Stats(r)),
    ensures
        ({
            let all = args + seq![flag, raw];
            let i = args.len() as int;
            &&& all.len() == i + 2
            &&& all[i] == flag
            &&& all[i + 1] == raw
            &&& request(all) == match stats_request(all, i, r) {
                Ok(x) => asked(Request::Stats(x)),
                Err(e) => Err(e),
            }
            &&& stats_request(all, i + 2, x) == Ok::<StatsRequest, Seq<char>>(x)
        }),
{
    lemma_stats_more(args, seq![flag, raw], r);
}

proof fn lemma_stats_single(
    args: Seq<Seq<char>>,
    arg: Seq<char>,
    r: StatsRequest,
    x: StatsRequest,
)
    requires
        request(args) == asked(Request::Stats(r)),
    ensures
        ({
            let all = args + seq![arg];
            let i = args.len() as int;
            &&& all.len() == i + 1
            &&& all[i] == arg
            &&& request(all) == match stats_request(all, i, r) {
                Ok(x) => asked(Request::Stats(x)),
                Err(e) => Err(e),
            }
            &&& stats_request(all, i + 1, x) == Ok::<StatsRequest, Seq<char>>(x)
        }),
{
    lemma_stats_more(args, seq![arg], r);
}

/// A flag of `stats` gives the number of values: it needs a value, sets this and
/// leaves the rest as it was.
pub proof fn stats_takes_top(
    args: Seq<Seq<char>>,
    r: StatsRequest,
    raw: Seq<char>,
    n: nat,
)
    requires
        request(args) == asked(Request::Stats(r)),
    ensures
        is_count(raw, n) && n <= usize::MAX ==> request(args + seq!["--top"@, raw]) == asked(
            Request::Stats(StatsRequest { top: n, ..r }),
        ),
        is_count(raw, n) && n > usize::MAX ==> request(args + seq!["--top"@, raw]) is Err,
        request(args + seq!["--top"@]) == refused(
            "'"@ + "--top"@ + "' needs a value"@,
        ),
{
    lemma_flags();
    if is_count(raw, n) {
        lemma_count(raw, n);
    }
    assert(is_count(raw, n) && n <= usize::MAX ==> request(args + seq!["--top"@, raw]) == asked(
            Request::Stats(StatsRequest { top: n, ..r }),
        )) by {
        lemma_stats_pair(args, "--top"@, raw, r, StatsRequest { top: n, ..r });
    }
    assert(is_count(raw, n) && n > usize::MAX ==> request(args + seq!["--top"@, raw]) is Err) by {
        lemma_stats_pair(args, "--top"@, raw, r, r);
    }
    assert(request(args + seq!["--top"@]) == refused(
            "'"@ + "--top"@ + "' needs a value"@,
        )) by {
        lemma_stats_single(args, "--top"@, r, r);
    }
}

/// A flag of `stats` gives the number of broken lines: it needs a value, sets this and
/// leaves the rest as it was.
pub proof fn stats_takes_max_errors(
    args: Seq<Seq<char>>,
    r: StatsRequest,
    raw: Seq<char>,
    n: nat,
)
    requires
        request(args) == asked(Request::Stats(r)),
    ensures
        is_count(raw, n) && n <= usize::MAX ==> request(args + seq!["--max-errors"@, raw]) == asked(
            Request::Stats(StatsRequest { max_errors: n, ..r }),
        ),
        is_count(raw, n) && n > usize::MAX ==> request(args + seq!["--max-errors"@, raw]) is Err,
        request(args + seq!["--max-errors"@]) == refused(
            "'"@ + "--max-errors"@ + "' needs a value"@,
        ),
{
    lemma_flags();
    if is_count(raw, n) {
        lemma_count(raw, n);
    }
    assert(is_count(raw, n) && n <= usize::MAX ==> request(args + seq!["--max-errors"@, raw]) == asked(
            Request::Stats(StatsRequest { max_errors: n, ..r }),
        )) by {
        lemma_stats_pair(args, "--max-errors"@, raw, r, StatsRequest { max_errors: n, ..r });
    }
    assert(is_count(raw, n) && n > usize::MAX ==> request(args + seq!["--max-errors"@, raw]) is Err) by {
        lemma_stats_pair(args, "--max-errors"@, raw, r, r);
    }
    assert(request(args + seq!["--max-errors"@]) == refused(
            "'"@ + "--max-errors"@ + "' needs a value"@,
        )) by {
        lemma_stats_single(args, "--max-errors"@, r, r);
    }
}

/// A flag of `stats` gives a path to profile, behind the others: it needs a value, sets this and
/// leaves the rest as it was.
pub proof fn stats_takes_field(
    args: Seq<Seq<char>>,
    r: StatsRequest,
    raw: Seq<char>,
)
    requires
        request(args) == asked(Request::Stats(r)),
    ensures
        path_steps(encode_utf8(raw)) is Ok ==> request(args + seq!["--field"@, raw]) == asked(
            Request::Stats(StatsRequest { fields: r.fields.push(raw), ..r }),
        ),
        path_steps(encode_utf8(raw)) is Err ==> request(args + seq!["--field"@, raw]) is Err,
        request(args + seq!["--field"@]) == refused(
            "'"@ + "--field"@ + "' needs a value"@,
        ),
{
    lemma_flags();
    assert(path_steps(encode_utf8(raw)) is Ok ==> request(args + seq!["--field"@, raw]) == asked(
            Request::Stats(StatsRequest { fields: r.fields.push(raw), ..r }),
        )) by {
        lemma_stats_pair(args, "--field"@, raw, r, StatsRequest { fields: r.fields.push(raw), ..r });
    }
    assert(path_steps(encode_utf8(raw)) is Err ==> request(args + seq!["--field"@, raw]) is Err) by {
        lemma_stats_pair(args, "--field"@, raw, r, r);
    }
    assert(request(args + seq!["--field"@]) == refused(
            "'"@ + "--field"@ + "' needs a value"@,
        )) by {
        lemma_stats_single(args, "--field"@, r, r);
    }
}

/// A flag of `stats` asks for JSON.
pub proof fn stats_takes_json(
    args: Seq<Seq<char>>,
    r: StatsRequest,
)
    requires
        request(args) == asked(Request::Stats(r)),
    ensures
        request(args + seq!["--json"@]) == asked(
            Request::Stats(StatsRequest { json: true, ..r }),
        ),
{
    lemma_flags();
    assert(request(args + seq!["--json"@]) == asked(
            Request::Stats(StatsRequest { json: true, ..r }),
        )) by {
        lemma_stats_single(args, "--json"@, r, StatsRequest { json: true, ..r });
    }
}

/// The first argument of `stats` that is no flag is the file; there is no
/// second one.
pub proof fn stats_takes_file(
    args: Seq<Seq<char>>,
    r: StatsRequest,
    raw: Seq<char>,
)
    requires
        request(args) == asked(Request::Stats(r)),
    ensures
        raw != "--field"@ && raw != "--top"@ && raw != "--max-errors"@ && raw != "--json"@ ==> request(args + seq![raw]) == match r.file {
            None => asked(
                Request::Stats(StatsRequest { file: Some(raw), ..r }),
            ),
            Some(_) => Err("unexpected argument '"@ + raw + "'"@),
        },
{
    lemma_flags();
    assert(raw != "--field"@ && raw != "--top"@ && raw != "--max-errors"@ && raw != "--json"@ ==> request(args + seq![raw]) == match r.file {
            None => asked(
                Request::Stats(StatsRequest { file: Some(raw), ..r }),
            ),
            Some(_) => Err("unexpected argument '"@ + raw + "'"@),
        }) by {
        lemma_stats_single(args, raw, r, StatsRequest { file: Some(raw), ..r });
    }
}

proof fn lemma_schema_pair(
    args: Seq<Seq<char>>,
    flag: Seq<char>,
    raw: Seq<char>,
    r: SchemaRequest,
    x: SchemaRequest,
)
    requires
        request(args) == asked(Request::Schema(r)),
    ensures
        ({
            let all = args + seq![flag, raw];
            let i = args.len() as int;
            &&& all.len() == i + 2
            &&& all[i] == flag
            &&& all[i + 1] == raw
            &&& request(all) == match schema_request(all, i, r) {
                Ok(x) => asked(Request::Schema(x)),
                Err(e) => Err(e),
            }
            &&& schema_request(all, i + 2, x) == Ok::<SchemaRequest, Seq<char>>(x)
        }),
{
    lemma_schema_more(args, seq![flag, raw], r);
}

proof fn lemma_schema_single(
    args: Seq<Seq<char>>,
    arg: Seq<char>,
    r: SchemaRequest,
    x: SchemaRequest,
)
    requires
        request(args) == asked(Request::Schema(r)),
    ensures
        ({
            let all = args + seq![arg];
            let i = args.len() as int;
            &&& all.len() == i + 1
            &&& all[i] == arg
            &&& request(all) == match schema_request(all, i, r) {
                Ok(x) => asked(Request::Schema(x)),
                Err(e) => Err(e),
            }
            &&& schema_request(all, i + 1, x) == Ok::<SchemaRequest, Seq<char>>(x)
        }),
{
    lemma_schema_more(args, seq![arg], r);
}

/// A flag of `schema` gives the number of segments: it needs a value, sets this and
/// leaves the rest as it was.
pub proof fn schema_takes_depth(
    args: Seq<Seq<char>>,
    r: SchemaRequest,
    raw: Seq<char>,
    n: nat,
)
    requires
        request(args) == asked(Request::Schema(r)),
    ensures
        is_count(raw, n) && n <= usize::MAX ==> request(args + seq!["--depth"@, raw]) == asked(
            Request::Schema(SchemaRequest { depth: n, ..r }),
        ),
        is_count(raw, n) && n > usize::MAX ==> request(args + seq!["--depth"@, raw]) is Err,
        request(args + seq!["--depth"@]) == refused(
            "'"@ + "--depth"@ + "' needs a value"@,
        ),
{
    lemma_flags();
    if is_count(raw, n) {
        lemma_count(raw, n);
    }
    assert(is_count(raw, n) && n <= usize::MAX ==> request(args + seq!["--depth"@, raw]) == asked(
            Request::Schema(SchemaRequest { depth: n, ..r }),
        )) by {
        lemma_schema_pair(args, "--depth"@, raw, r, SchemaRequest { depth: n, ..r });
    }
    assert(is_count(raw, n) && n > usize::MAX ==> request(args + seq!["--depth"@, raw]) is Err) by {
        lemma_schema_pair(args, "--depth"@, raw, r, r);
    }
    assert(request(args + seq!["--depth"@]) == refused(
            "'"@ + "--depth"@ + "' needs a value"@,
        )) by {
        lemma_schema_single(args, "--depth"@, r, r);
    }
}

/// A flag of `schema` gives the least share: it needs a value, sets this and
/// leaves the rest as it was.
pub proof fn schema_takes_min_rate(
    args: Seq<Seq<char>>,
    r: SchemaRequest,
    raw: Seq<char>,
)
    requires
        request(args) == asked(Request::Schema(r)),
    ensures
        float_number(encode_utf8(raw)) matches Some(min_rate) ==> request(
            args + seq!["--min-rate"@, raw],
        ) == asked(Request::Schema(SchemaRequest { min_rate, ..r })),
        float_number(encode_utf8(raw)) is None ==> request(args + seq!["--min-rate"@, raw]) is Err,
        request(args + seq!["--min-rate"@]) == refused(
            "'"@ + "--min-rate"@ + "' needs a value"@,
        ),
{
    lemma_flags();
    assert(float_number(encode_utf8(raw)) matches Some(min_rate) ==> request(
            args + seq!["--min-rate"@, raw],
        ) == asked(Request::Schema(SchemaRequest { min_rate, ..r }))) by {
        lemma_schema_pair(args, "--min-rate"@, raw, r, SchemaRequest { min_rate: float_number(encode_utf8(raw))->0, ..r });
    }
    assert(float_number(encode_utf8(raw)) is None ==> request(args + seq!["--min-rate"@, raw]) is Err) by {
        lemma_schema_pair(args, "--min-rate"@, raw, r, r);
    }
    assert(request(args + seq!["--min-rate"@]) == refused(
            "'"@ + "--min-rate"@ + "' needs a value"@,
        )) by {
        lemma_schema_single(args, "--min-rate"@, r, r);
    }
}

/// A flag of `schema` asks for JSON.
pub proof fn schema_takes_json(
    args: Seq<Seq<char>>,
    r: SchemaRequest,
)
    requires
        request(args) == asked(Request::Schema(r)),
    ensures
        request(args + seq!["--json"@]) == asked(
            Request::Schema(SchemaRequest { json: true, ..r }),
        ),
{
    lemma_flags();
    assert(request(args + seq!["--json"@]) == asked(
            Request::Schema(SchemaRequest { json: true, ..r }),
        )) by {
        lemma_schema_single(args, "--json"@, r, SchemaRequest { json: true, ..r });
    }
}

/// The first argument of `schema` that is no flag is the file; there is no
/// second one.
pub proof fn schema_takes_file(
    args: Seq<Seq<char>>,
    r: SchemaRequest,
    raw: Seq<char>,
)
    requires
        request(args) == asked(Request::Schema(r)),
    ensures
        raw != "--depth"@ && raw != "--min-rate"@ && raw != "--json"@ ==> request(args + seq![raw]) == match r.file {
            None => asked(
                Request::Schema(SchemaRequest { file: Some(raw), ..r }),
            ),
            Some(_) => Err("unexpected argument '"@ + raw + "'"@),
        },
{
    lemma_flags();
    assert(raw != "--depth"@ && raw != "--min-rate"@ && raw != "--json"@ ==> request(args + seq![raw]) == match r.file {
            None => asked(
                Request::Schema(SchemaRequest { file: Some(raw), ..r }),
            ),
            Some(_) => Err("unexpected argument '"@ + raw + "'"@),
        }) by {
        lemma_schema_single(args, raw, r, SchemaRequest { file: Some(raw), ..r });
    }
}

} // verus!

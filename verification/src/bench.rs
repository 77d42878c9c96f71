//! Settings of the forward-pass benchmark and its command line.
use vstd::prelude::*;
use crate::text::{
    char_views, chars_eq, chars_of, copy_chars, parse_unsigned, parse_unsigned_exec, parse_usize,
    split_commas, split_commas_exec, trim, trim_bounds,
};

verus! {

/// What the benchmark runs.
pub struct BenchArgs {
    /// Frames timed per thread setting.
    pub frames: usize,
    /// Frames rendered before timing starts.
    pub warmup: usize,
    /// Number of synthetic Gaussians (or the load cap for a PLY scene).
    pub splats: usize,
    /// Framebuffer width in pixels.
    pub width: u32,
    /// Framebuffer height in pixels.
    pub height: u32,
    /// Thread counts to sweep.
    pub threads: Vec<usize>,
    /// Seed of the synthetic scene.
    pub seed: u64,
    /// A real `.ply` scene to use instead of a synthetic one.
    pub ply: Option<Vec<char>>,
}

/// The settings as plain values: frames, warmup, splats, width, height,
/// threads, seed, ply path.
pub type BenchView = (usize, usize, usize, u32, u32, Seq<usize>, u64, Option<Seq<char>>);

impl BenchArgs {
    /// The settings as plain values.
    pub open spec fn view(&self) -> BenchView {
        (
            self.frames,
            self.warmup,
            self.splats,
            self.width,
            self.height,
            self.threads@,
            self.seed,
            match self.ply {
                Some(p) => Some(p@),
                None => None,
            },
        )
    }
}

/// The default settings.
pub open spec fn default_bench() -> BenchView {
    (120, 10, 200_000, 120, 80, seq![1usize, 2, 4, 8], 0xC0FFEE, None)
}

impl Default for BenchArgs {
    fn default() -> (a: Self)
        ensures
            a.view() == default_bench(),
    {
        let mut threads: Vec<usize> = Vec::new();
        threads.push(1);
        threads.push(2);
        threads.push(4);
        threads.push(8);
        let a = BenchArgs {
            frames: 120,
            warmup: 10,
            splats: 200_000,
            width: 120,
            height: 80,
            threads,
            seed: 0xC0FFEE,
            ply: None,
        };
        proof {
            assert(a.threads@ =~= seq![1usize, 2, 4, 8]);
        }
        a
    }
}

/// The options of the benchmark's command line.
#[derive(Clone, Copy, Debug, PartialEq, Eq, Structural)]
pub enum BenchOption {
    /// `--frames`, `-n`
    Frames,
    /// `--warmup`
    Warmup,
    /// `--splats`, `--max-splats`
    Splats,
    /// `--width`
    Width,
    /// `--height`
    Height,
    /// `--seed`
    Seed,
    /// `--threads`
    Threads,
    /// `--ply`
    Ply,
    /// `--help`, `-h`
    Help,
    /// Anything else.
    Unknown,
}

/// Why a benchmark command line was refused.
#[derive(Clone, Copy, Debug, PartialEq, Eq, Structural)]
pub enum BenchArgError {
    /// The last option wants a value and none follows.
    MissingValue,
    /// The value of an option is not a number of its type.
    Invalid(BenchOption),
    /// A thread count in the `--threads` list is not a number.
    InvalidThreadCount,
    /// The argument at this position is not an option.
    Unknown(usize),
}

/// What the command line asks for.
pub enum BenchCommand {
    /// Run with these settings.
    Run(BenchArgs),
    /// Print the usage.
    Help,
}

/// The option an argument names.
pub open spec fn option_of(a: Seq<char>) -> BenchOption {
    if a == seq!['-', '-', 'f', 'r', 'a', 'm', 'e', 's'] || a == seq!['-', 'n'] {
        BenchOption::Frames
    } else if a == seq!['-', '-', 'w', 'a', 'r', 'm', 'u', 'p'] {
        BenchOption::Warmup
    } else if a == seq!['-', '-', 's', 'p', 'l', 'a', 't', 's'] || a == seq![
        '-',
        '-',
        'm',
        'a',
        'x',
        '-',
        's',
        'p',
        'l',
        'a',
        't',
        's',
    ] {
        BenchOption::Splats
    } else if a == seq!['-', '-', 'w', 'i', 'd', 't', 'h'] {
        BenchOption::Width
    } else if a == seq!['-', '-', 'h', 'e', 'i', 'g', 'h', 't'] {
        BenchOption::Height
    } else if a == seq!['-', '-', 's', 'e', 'e', 'd'] {
        BenchOption::Seed
    } else if a == seq!['-', '-', 't', 'h', 'r', 'e', 'a', 'd', 's'] {
        BenchOption::Threads
    } else if a == seq!['-', '-', 'p', 'l', 'y'] {
        BenchOption::Ply
    } else if a == seq!['-', '-', 'h', 'e', 'l', 'p'] || a == seq!['-', 'h'] {
        BenchOption::Help
    } else {
        BenchOption::Unknown
    }
}

/// The thread counts of a `--threads` value: comma-separated numbers,
/// each trimmed of whitespace.
pub open spec fn parse_thread_list(pieces: Seq<Seq<char>>) -> Option<Seq<usize>>
    decreases pieces.len(),
{
    if pieces.len() == 0 {
        Some(seq![])
    } else {
        match parse_thread_list(pieces.drop_last()) {
            Some(l) => match parse_usize(trim(pieces.last())) {
                Some(v) => Some(l.push(v)),
                None => None,
            },
            None => None,
        }
    }
}

/// The settings `st` after the option at position `i` took `value`.
pub open spec fn with_value(st: BenchView, opt: BenchOption, value: Seq<char>) -> Result<
    BenchView,
    BenchArgError,
> {
    match opt {
        BenchOption::Frames => match parse_usize(value) {
            Some(v) => Ok((v, st.1, st.2, st.3, st.4, st.5, st.6, st.7)),
            None => Err(BenchArgError::Invalid(opt)),
        },
        BenchOption::Warmup => match parse_usize(value) {
            Some(v) => Ok((st.0, v, st.2, st.3, st.4, st.5, st.6, st.7)),
            None => Err(BenchArgError::Invalid(opt)),
        },
        BenchOption::Splats => match parse_usize(value) {
            Some(v) => Ok((st.0, st.1, v, st.3, st.4, st.5, st.6, st.7)),
            None => Err(BenchArgError::Invalid(opt)),
        },
        BenchOption::Width => match parse_unsigned(value, u32::MAX as int) {
            Some(v) => Ok((st.0, st.1, st.2, v as u32, st.4, st.5, st.6, st.7)),
            None => Err(BenchArgError::Invalid(opt)),
        },
        BenchOption::Height => match parse_unsigned(value, u32::MAX as int) {
            Some(v) => Ok((st.0, st.1, st.2, st.3, v as u32, st.5, st.6, st.7)),
            None => Err(BenchArgError::Invalid(opt)),
        },
        BenchOption::Seed => match parse_unsigned(value, u64::MAX as int) {
            Some(v) => Ok((st.0, st.1, st.2, st.3, st.4, st.5, v as u64, st.7)),
            None => Err(BenchArgError::Invalid(opt)),
        },
        BenchOption::Threads => match parse_thread_list(split_commas(value)) {
            Some(l) => Ok((st.0, st.1, st.2, st.3, st.4, l, st.6, st.7)),
            None => Err(BenchArgError::InvalidThreadCount),
        },
        _ => Ok((st.0, st.1, st.2, st.3, st.4, st.5, st.6, Some(value))),
    }
}

/// The outcome of reading the arguments from position `i` on with settings
/// `st`: `Ok(Some(_))` to run, `Ok(None)` for the usage, or the first
/// error. Every option but `--help` takes the next argument as its value.
pub open spec fn parse_from(args: Seq<Seq<char>>, i: int, st: BenchView) -> Result<
    Option<BenchView>,
    BenchArgError,
>
    decreases args.len() - i,
{
    if i < 0 || i >= args.len() {
        Ok(Some(st))
    } else {
        let opt = option_of(args[i]);
        if opt == BenchOption::Help {
            Ok(None)
        } else if opt == BenchOption::Unknown {
            Err(BenchArgError::Unknown(i as usize))
        } else if i + 1 >= args.len() {
            Err(BenchArgError::MissingValue)
        } else {
            match with_value(st, opt, args[i + 1]) {
                Ok(st2) => parse_from(args, i + 2, st2),
                Err(e) => Err(e),
            }
        }
    }
}

/// `--frames`
pub open spec fn frames_word() -> Seq<char> {
    seq!['-', '-', 'f', 'r', 'a', 'm', 'e', 's']
}

/// `-n`
pub open spec fn dash_n_word() -> Seq<char> {
    seq!['-', 'n']
}

/// `--warmup`
pub open spec fn warmup_word() -> Seq<char> {
    seq!['-', '-', 'w', 'a', 'r', 'm', 'u', 'p']
}

/// `--splats`
pub open spec fn splats_word() -> Seq<char> {
    seq!['-', '-', 's', 'p', 'l', 'a', 't', 's']
}

/// `--max-splats`
pub open spec fn max_splats_word() -> Seq<char> {
    seq!['-', '-', 'm', 'a', 'x', '-', 's', 'p', 'l', 'a', 't', 's']
}

/// `--width`
pub open spec fn width_word() -> Seq<char> {
    seq!['-', '-', 'w', 'i', 'd', 't', 'h']
}

/// `--height`
pub open spec fn height_word() -> Seq<char> {
    seq!['-', '-', 'h', 'e', 'i', 'g', 'h', 't']
}

/// `--seed`
pub open spec fn seed_word() -> Seq<char> {
    seq!['-', '-', 's', 'e', 'e', 'd']
}

/// `--ply`
pub open spec fn ply_word() -> Seq<char> {
    seq!['-', '-', 'p', 'l', 'y']
}

/// `--help`
pub open spec fn help_word() -> Seq<char> {
    seq!['-', '-', 'h', 'e', 'l', 'p']
}

/// `-h`
pub open spec fn dash_h_word() -> Seq<char> {
    seq!['-', 'h']
}

/// The characters of each argument.
pub open spec fn arg_views(args: Seq<String>) -> Seq<Seq<char>> {
    Seq::new(args.len(), |i: int| args[i]@)
}

fn option_of_exec(a: &[char]) -> (o: BenchOption)
    ensures
        o == option_of(a@),
{
    let frames = ['-', '-', 'f', 'r', 'a', 'm', 'e', 's'];
    let n = ['-', 'n'];
    let warmup = ['-', '-', 'w', 'a', 'r', 'm', 'u', 'p'];
    let splats = ['-', '-', 's', 'p', 'l', 'a', 't', 's'];
    let max_splats = ['-', '-', 'm', 'a', 'x', '-', 's', 'p', 'l', 'a', 't', 's'];
    let width = ['-', '-', 'w', 'i', 'd', 't', 'h'];
    let height = ['-', '-', 'h', 'e', 'i', 'g', 'h', 't'];
    let seed = ['-', '-', 's', 'e', 'e', 'd'];
    let threads = ['-', '-', 't', 'h', 'r', 'e', 'a', 'd', 's'];
    let ply = ['-', '-', 'p', 'l', 'y'];
    let help = ['-', '-', 'h', 'e', 'l', 'p'];
    let h = ['-', 'h'];
    proof {
        assert(frames@ =~= seq!['-', '-', 'f', 'r', 'a', 'm', 'e', 's']);
        assert(n@ =~= seq!['-', 'n']);
        assert(warmup@ =~= seq!['-', '-', 'w', 'a', 'r', 'm', 'u', 'p']);
        assert(splats@ =~= seq!['-', '-', 's', 'p', 'l', 'a', 't', 's']);
        assert(max_splats@ =~= seq!['-', '-', 'm', 'a', 'x', '-', 's', 'p', 'l', 'a', 't', 's']);
        assert(width@ =~= seq!['-', '-', 'w', 'i', 'd', 't', 'h']);
        assert(height@ =~= seq!['-', '-', 'h', 'e', 'i', 'g', 'h', 't']);
        assert(seed@ =~= seq!['-', '-', 's', 'e', 'e', 'd']);
        assert(threads@ =~= seq!['-', '-', 't', 'h', 'r', 'e', 'a', 'd', 's']);
        assert(ply@ =~= seq!['-', '-', 'p', 'l', 'y']);
        assert(help@ =~= seq!['-', '-', 'h', 'e', 'l', 'p']);
        assert(h@ =~= seq!['-', 'h']);
    }
    if chars_eq(a, &frames) || chars_eq(a, &n) {
        BenchOption::Frames
    } else if chars_eq(a, &warmup) {
        BenchOption::Warmup
    } else if chars_eq(a, &splats) || chars_eq(a, &max_splats) {
        BenchOption::Splats
    } else if chars_eq(a, &width) {
        BenchOption::Width
    } else if chars_eq(a, &height) {
        BenchOption::Height
    } else if chars_eq(a, &seed) {
        BenchOption::Seed
    } else if chars_eq(a, &threads) {
        BenchOption::Threads
    } else if chars_eq(a, &ply) {
        BenchOption::Ply
    } else if chars_eq(a, &help) || chars_eq(a, &h) {
        BenchOption::Help
    } else {
        BenchOption::Unknown
    }
}

fn parse_thread_list_exec(value: &[char]) -> (r: Option<Vec<usize>>)
    ensures
        match parse_thread_list(split_commas(value@)) {
            Some(l) => r is Some && r->0@ == l,
            None => r is None,
        },
{
    let pieces = split_commas_exec(value);
    let ghost pv = char_views(pieces@);
    let mut out: Vec<usize> = Vec::new();
    let mut k: usize = 0;
    proof {
        assert(pv.subrange(0, 0) =~= Seq::<Seq<char>>::empty());
    }
    while k < pieces.len()
        invariant
            pv == char_views(pieces@),
            pv == split_commas(value@),
            k <= pieces@.len(),
            parse_thread_list(pv.subrange(0, k as int)) == Some(out@),
        decreases pieces@.len() - k,
    {
        let ghost cur = pv.subrange(0, k + 1);
        proof {
            assert(cur.drop_last() =~= pv.subrange(0, k as int));
            assert(cur.last() == pieces@[k as int]@);
        }
        let piece = pieces[k].as_slice();
        let (a, b) = trim_bounds(piece);
        let word = &piece[a..b];
        proof {
            assert(word@ =~= piece@.subrange(a as int, b as int));
        }
        match parse_unsigned_exec(word, usize::MAX as u64) {
            Some(v) => {
                out.push(v as usize);
            },
            None => {
                proof {
                    assert(parse_usize(trim(cur.last())) is None);
                    lemma_thread_list_prefix_none(pv, k as int + 1);
                    assert(pv.subrange(0, pv.len() as int) =~= pv);
                }
                return None;
            },
        }
        k += 1;
    }
    proof {
        assert(pv.subrange(0, pv.len() as int) =~= pv);
    }
    Some(out)
}

proof fn lemma_thread_list_prefix_none(pieces: Seq<Seq<char>>, n: int)
    requires
        0 <= n <= pieces.len(),
        parse_thread_list(pieces.subrange(0, n)) is None,
    ensures
        parse_thread_list(pieces) is None,
    decreases pieces.len() - n,
{
    if n < pieces.len() {
        let next = pieces.subrange(0, n + 1);
        assert(next.drop_last() =~= pieces.subrange(0, n));
        lemma_thread_list_prefix_none(pieces, n + 1);
    } else {
        assert(pieces.subrange(0, n) =~= pieces);
    }
}

/// Reads the benchmark's command line (`args[0]` is the program name).
pub fn parse_bench_args(args: &[String]) -> (r: Result<BenchCommand, BenchArgError>)
    ensures
        match parse_from(arg_views(args@), 1, default_bench()) {
            Ok(Some(v)) => r matches Ok(BenchCommand::Run(a)) && a.view() == v,
            Ok(None) => r matches Ok(BenchCommand::Help),
            Err(e) => r == Err::<BenchCommand, BenchArgError>(e),
        },
{
    let ghost av = arg_views(args@);
    let mut st = BenchArgs::default();
    let mut i: usize = 1;
    while i < args.len()
        invariant
            av == arg_views(args@),
            1 <= i,
            parse_from(av, 1, default_bench()) == parse_from(av, i as int, st.view()),
        decreases args@.len() - i,
    {
        let arg = chars_of(args[i].as_str());
        let opt = option_of_exec(arg.as_slice());
        proof {
            assert(arg@ == av[i as int]);
        }
        match opt {
            BenchOption::Help => {
                return Ok(BenchCommand::Help);
            },
            BenchOption::Unknown => {
                return Err(BenchArgError::Unknown(i));
            },
            _ => {},
        }
        if i + 1 >= args.len() {
            return Err(BenchArgError::MissingValue);
        }
        let value = chars_of(args[i + 1].as_str());
        let v = value.as_slice();
        proof {
            assert(value@ == av[i + 1]);
        }
        match opt {
            BenchOption::Frames => match parse_unsigned_exec(v, usize::MAX as u64) {
                Some(n) => {
                    st.frames = n as usize;
                },
                None => {
                    return Err(BenchArgError::Invalid(opt));
                },
            },
            BenchOption::Warmup => match parse_unsigned_exec(v, usize::MAX as u64) {
                Some(n) => {
                    st.warmup = n as usize;
                },
                None => {
                    return Err(BenchArgError::Invalid(opt));
                },
            },
            BenchOption::Splats => match parse_unsigned_exec(v, usize::MAX as u64) {
                Some(n) => {
                    st.splats = n as usize;
                },
                None => {
                    return Err(BenchArgError::Invalid(opt));
                },
            },
            BenchOption::Width => match parse_unsigned_exec(v, u32::MAX as u64) {
                Some(n) => {
                    st.width = n as u32;
                },
                None => {
                    return Err(BenchArgError::Invalid(opt));
                },
            },
            BenchOption::Height => match parse_unsigned_exec(v, u32::MAX as u64) {
                Some(n) => {
                    st.height = n as u32;
                },
                None => {
                    return Err(BenchArgError::Invalid(opt));
                },
            },
            BenchOption::Seed => match parse_unsigned_exec(v, u64::MAX) {
                Some(n) => {
                    st.seed = n;
                },
                None => {
                    return Err(BenchArgError::Invalid(opt));
                },
            },
            BenchOption::Threads => match parse_thread_list_exec(v) {
                Some(list) => {
                    st.threads = list;
                },
                None => {
                    return Err(BenchArgError::InvalidThreadCount);
                },
            },
            _ => {
                st.ply = Some(copy_chars(v));
            },
        }
        i += 2;
    }
    Ok(BenchCommand::Run(st))
}

/// Each documented option sets its own setting from the argument after it
/// and reading goes on behind that value: `--frames N` / `-n N`,
/// `--warmup N`, `--splats N` / `--max-splats N`, `--width W`,
/// `--height H` and `--seed S` set that number (or refuse a value that is
/// not one, naming the option), `--ply PATH` sets the scene path, and
/// `--help` / `-h` asks for the usage wherever it stands.
pub proof fn lemma_documented_options(args: Seq<Seq<char>>, i: int, st: BenchView)
    requires
        0 <= i,
        i + 1 < args.len(),
    ensures
        ({
            let a = args[i];
            let w = args[i + 1];
            &&& (a == frames_word() || a == dash_n_word()) ==> parse_from(args, i, st) == match parse_usize(w) {
                Some(v) => parse_from(args, i + 2, (v, st.1, st.2, st.3, st.4, st.5, st.6, st.7)),
                None => Err(BenchArgError::Invalid(BenchOption::Frames)),
            }
            &&& a == warmup_word() ==> parse_from(args, i, st) == match parse_usize(w) {
                Some(v) => parse_from(args, i + 2, (st.0, v, st.2, st.3, st.4, st.5, st.6, st.7)),
                None => Err(BenchArgError::Invalid(BenchOption::Warmup)),
            }
            &&& (a == splats_word() || a == max_splats_word()) ==> parse_from(args, i, st) == match parse_usize(
                w,
            ) {
                Some(v) => parse_from(args, i + 2, (st.0, st.1, v, st.3, st.4, st.5, st.6, st.7)),
                None => Err(BenchArgError::Invalid(BenchOption::Splats)),
            }
            &&& a == width_word() ==> parse_from(args, i, st) == match parse_unsigned(w, u32::MAX as int) {
                Some(v) => parse_from(
                    args,
                    i + 2,
                    (st.0, st.1, st.2, v as u32, st.4, st.5, st.6, st.7),
                ),
                None => Err(BenchArgError::Invalid(BenchOption::Width)),
            }
            &&& a == height_word() ==> parse_from(args, i, st) == match parse_unsigned(w, u32::MAX as int) {
                Some(v) => parse_from(
                    args,
                    i + 2,
                    (st.0, st.1, st.2, st.3, v as u32, st.5, st.6, st.7),
                ),
                None => Err(BenchArgError::Invalid(BenchOption::Height)),
            }
            &&& a == seed_word() ==> parse_from(args, i, st) == match parse_unsigned(w, u64::MAX as int) {
                Some(v) => parse_from(
                    args,
                    i + 2,
                    (st.0, st.1, st.2, st.3, st.4, st.5, v as u64, st.7),
                ),
                None => Err(BenchArgError::Invalid(BenchOption::Seed)),
            }
            &&& a == ply_word() ==> parse_from(args, i, st) == parse_from(
                args,
                i + 2,
                (st.0, st.1, st.2, st.3, st.4, st.5, st.6, Some(w)),
            )
            &&& (a == help_word() || a == dash_h_word()) ==> parse_from(args, i, st) == Ok::<
                Option<BenchView>,
                BenchArgError,
            >(None)
        }),
{
}

/// `--splats N` as the last option, with `N` a number, runs with `N`
/// splats and the other settings as they were.
pub proof fn lemma_splats_option_sets_count(args: Seq<Seq<char>>, st: BenchView, n: usize)
    requires
        args.len() >= 3,
        args[args.len() - 2] == splats_word() || args[args.len() - 2] == max_splats_word(),
        parse_usize(args[args.len() - 1]) == Some(n),
    ensures
        parse_from(args, args.len() - 2, st) == Ok::<Option<BenchView>, BenchArgError>(
            Some((st.0, st.1, n, st.3, st.4, st.5, st.6, st.7)),
        ),
{
    lemma_documented_options(args, args.len() - 2, st);
}


} // verus!

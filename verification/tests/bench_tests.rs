use tsplat::bench::{BenchArgError, BenchArgs, BenchCommand, BenchOption, parse_bench_args};

fn args(list: &[&str]) -> Vec<String> {
    std::iter::once("bench_forward").chain(list.iter().copied()).map(String::from).collect()
}

fn run(list: &[&str]) -> BenchArgs {
    match parse_bench_args(&args(list)) {
        Ok(BenchCommand::Run(a)) => a,
        _ => panic!("expected settings"),
    }
}

#[test]
fn defaults() {
    let a = run(&[]);
    assert_eq!(a.frames, 120);
    assert_eq!(a.warmup, 10);
    assert_eq!(a.splats, 200_000);
    assert_eq!((a.width, a.height), (120, 80));
    assert_eq!(a.threads, vec![1, 2, 4, 8]);
    assert_eq!(a.seed, 0xC0FFEE);
    assert!(a.ply.is_none());
    let d = BenchArgs::default();
    assert_eq!(d.threads, vec![1, 2, 4, 8]);
}

#[test]
fn options_and_aliases() {
    let a = run(&[
        "--frames", "5", "-n", "7", "--warmup", "0", "--max-splats", "1000", "--width", "+10",
        "--height", "4294967295", "--seed", "18446744073709551615", "--threads", " 1, 2 ,3",
        "--ply", "scene.ply",
    ]);
    assert_eq!(a.frames, 7);
    assert_eq!(a.warmup, 0);
    assert_eq!(a.splats, 1000);
    assert_eq!((a.width, a.height), (10, u32::MAX));
    assert_eq!(a.seed, u64::MAX);
    assert_eq!(a.threads, vec![1, 2, 3]);
    assert_eq!(a.ply, Some("scene.ply".chars().collect()));
}

#[test]
fn help_wins_where_it_stands() {
    assert!(matches!(parse_bench_args(&args(&["--help"])), Ok(BenchCommand::Help)));
    assert!(matches!(parse_bench_args(&args(&["-n", "3", "-h", "--bogus"])), Ok(BenchCommand::Help)));
    assert_eq!(parse_bench_args(&args(&["--bogus", "-h"])).err(), Some(BenchArgError::Unknown(1)));
}

#[test]
fn bad_command_lines() {
    assert_eq!(parse_bench_args(&args(&["--frames"])).err(), Some(BenchArgError::MissingValue));
    assert_eq!(
        parse_bench_args(&args(&["--frames", "x"])).err(),
        Some(BenchArgError::Invalid(BenchOption::Frames))
    );
    assert_eq!(
        parse_bench_args(&args(&["--width", "4294967296"])).err(),
        Some(BenchArgError::Invalid(BenchOption::Width))
    );
    assert_eq!(
        parse_bench_args(&args(&["--seed", "-1"])).err(),
        Some(BenchArgError::Invalid(BenchOption::Seed))
    );
    assert_eq!(
        parse_bench_args(&args(&["--threads", "1,,2"])).err(),
        Some(BenchArgError::InvalidThreadCount)
    );
    assert_eq!(
        parse_bench_args(&args(&["--threads", ""])).err(),
        Some(BenchArgError::InvalidThreadCount)
    );
    assert_eq!(parse_bench_args(&args(&["-n", "2", "--nope"])).err(), Some(BenchArgError::Unknown(3)));
}

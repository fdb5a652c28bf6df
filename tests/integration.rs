use pgen::cli::{parse_args, Cli, CliError};
use pgen::generator::{create_password, GenError};
use pgen::random::SecureRng;
use std::collections::hash_map::RandomState;
use std::hash::{BuildHasher, Hasher};
use std::time::Instant;

fn fresh_seed() -> [u8; 16] {
    let mut seed = [0u8; 16];
    for half in 0..2 {
        let mut h = RandomState::new().build_hasher();
        h.write_usize(half);
        seed[half * 8..half * 8 + 8].copy_from_slice(&h.finish().to_le_bytes());
    }
    seed
}

fn options(alpha: bool, numeric: bool, symbols: bool, exclude: &str, length: usize) -> Cli {
    Cli {
        length,
        symbols,
        numeric,
        alpha,
        count: 1,
        clipboard: false,
        no_repeat: false,
        save_path: None,
        exclude: exclude.chars().collect(),
        entropy: false,
    }
}

fn run(args: &[&str]) -> Vec<String> {
    let args: Vec<String> = args.iter().map(|a| a.to_string()).collect();
    let (cli, _) = parse_args(&args).unwrap();
    let charset = cli.charset().unwrap();
    (0..cli.count)
        .map(|_| {
            let mut rng = SecureRng::new(fresh_seed());
            create_password(cli.length, &charset, cli.no_repeat, &mut rng).unwrap()
        })
        .collect()
}

fn parse(args: &[&str]) -> Result<(Cli, bool), CliError> {
    let args: Vec<String> = args.iter().map(|a| a.to_string()).collect();
    parse_args(&args)
}

fn all_distinct(pwd: &str) -> bool {
    let mut chars = pwd.chars().collect::<Vec<_>>();
    chars.sort_unstable();
    chars.dedup();
    chars.len() == pwd.chars().count()
}

#[test]
fn default_password() {
    let out = run(&["--length", "12"]);
    assert_eq!(out.len(), 1);
    assert_eq!(out[0].len(), 12);
}

#[test]
fn alpha_only() {
    let pwd = &run(&["-a", "-l", "10"])[0];
    assert!(pwd.chars().all(|c| c.is_ascii_alphabetic()));
    assert_eq!(pwd.len(), 10);
}

#[test]
fn numeric_only() {
    let pwd = &run(&["-n", "-l", "8"])[0];
    assert!(pwd.chars().all(|c| c.is_ascii_digit()));
    assert_eq!(pwd.len(), 8);
}

#[test]
fn alphanumeric_no_symbols() {
    let pwd = &run(&["-an", "-l", "15"])[0];
    assert!(pwd.chars().all(|c| c.is_ascii_alphanumeric()));
    assert_eq!(pwd.len(), 15);
}

#[test]
fn no_repeat_flag() {
    let pwd = &run(&["--no-repeat", "-l", "20"])[0];
    assert_eq!(pwd.len(), 20);
    assert!(all_distinct(pwd));
}

#[test]
fn exclude_flag() {
    let pwd = &run(&["--exclude", "abc123", "-l", "20"])[0];
    assert_eq!(pwd.len(), 20);
    for c in "abc123".chars() {
        assert!(!pwd.contains(c));
    }
}

#[test]
fn count_multiple_passwords() {
    let lines = run(&["-c", "3", "-l", "10"]);
    assert_eq!(lines.len(), 3);
    for pwd in &lines {
        assert_eq!(pwd.len(), 10);
    }
}

#[test]
fn multiple_clipboard() {
    let lines = run(&["-l", "5", "-c", "3"]);
    assert_eq!(lines.len(), 3);
}

#[test]
fn entropy_flag_prints_entropy() {
    let (cli, _) = parse(&["--entropy", "-l", "12"]).unwrap();
    assert!(cli.entropy);
    let charset = cli.charset().unwrap();
    let bits = cli.length as f64 * (charset.len() as f64).log2();
    assert!((bits - 12.0 * 92f64.log2()).abs() < 1e-9);
}

#[test]
fn alpha_no_repeat_exclude() {
    let pwd = &run(&["-a", "--no-repeat", "-ex", "aeiouAEIOU", "-l", "15"])[0];
    assert_eq!(pwd.len(), 15);
    assert!(pwd.chars().all(|c| c.is_ascii_alphabetic()));
    for c in "aeiouAEIOU".chars() {
        assert!(!pwd.contains(c));
    }
    assert!(all_distinct(pwd));
}

#[test]
fn performance_large_password_generation() {
    let cli = options(true, true, true, "", 12);
    let charset = cli.charset().unwrap();
    let start = Instant::now();
    let mut rng = SecureRng::new(fresh_seed());
    let mut passwords = Vec::new();
    for _ in 0..100000 {
        passwords.push(create_password(12, &charset, false, &mut rng).unwrap());
    }
    let duration = start.elapsed();
    assert_eq!(passwords.len(), 10_0000);
    for pwd in &passwords {
        assert_eq!(pwd.len(), 12);
    }
    assert!(
        duration.as_secs_f32() < 10.0,
        "Generation took too long: {:.2} seconds",
        duration.as_secs_f32()
    );
}

#[test]
fn charset_order_and_size() {
    let all = options(true, true, true, "", 1).charset().unwrap();
    assert_eq!(all.len(), 92);
    assert_eq!(all[0], 'a');
    assert_eq!(all[26], 'A');
    assert_eq!(all[52], '0');
    assert_eq!(all[62], '!');
    assert_eq!(all[89], '\\');
    assert_eq!(all[90], '~');
    assert_eq!(all[91], '`');
    let mut sorted = all.clone();
    sorted.sort_unstable();
    sorted.dedup();
    assert_eq!(sorted.len(), 92);
}

#[test]
fn charset_exclusion_keeps_order() {
    let cs = options(false, true, false, "13579", 1).charset().unwrap();
    assert_eq!(cs, vec!['0', '2', '4', '6', '8']);
}

#[test]
fn empty_charset_is_rejected() {
    assert_eq!(options(false, false, false, "", 8).charset(), Err(GenError::EmptyCharset));
    assert_eq!(options(false, true, false, "0123456789", 8).charset(), Err(GenError::EmptyCharset));
    let mut rng = SecureRng::new([0u8; 16]);
    assert_eq!(create_password(8, &Vec::new(), false, &mut rng), Err(GenError::EmptyCharset));
}

#[test]
fn no_repeat_longer_than_charset_fails() {
    let charset = options(false, true, false, "", 11).charset().unwrap();
    let mut rng = SecureRng::new(fresh_seed());
    assert_eq!(create_password(11, &charset, true, &mut rng), Err(GenError::NoRepeatInfeasible));
    let pwd = create_password(10, &charset, true, &mut rng).unwrap();
    assert_eq!(pwd.len(), 10);
    assert!(all_distinct(&pwd));
}

#[test]
fn repeats_allowed_beyond_charset_size() {
    let charset = vec!['x', 'y'];
    let mut rng = SecureRng::new(fresh_seed());
    let pwd = create_password(50, &charset, false, &mut rng).unwrap();
    assert_eq!(pwd.len(), 50);
    assert!(pwd.chars().all(|c| c == 'x' || c == 'y'));
}

#[test]
fn zero_length_password_is_empty() {
    let charset = vec!['x'];
    let mut rng = SecureRng::new([0u8; 16]);
    assert_eq!(create_password(0, &charset, true, &mut rng), Ok(String::new()));
}

#[test]
fn characters_come_from_charset() {
    let charset = vec!['q', '%', '7'];
    let mut rng = SecureRng::new(fresh_seed());
    for _ in 0..200 {
        let pwd = create_password(9, &charset, false, &mut rng).unwrap();
        assert_eq!(pwd.chars().count(), 9);
        assert!(pwd.chars().all(|c| charset.contains(&c)));
    }
}

#[test]
fn excluded_vowels_never_drawn() {
    let cli = options(true, true, true, "aeiou", 16);
    let charset = cli.charset().unwrap();
    assert_eq!(charset.len(), 87);
    let mut rng = SecureRng::new(fresh_seed());
    for _ in 0..1000 {
        let pwd = create_password(16, &charset, false, &mut rng).unwrap();
        assert!(!pwd.chars().any(|c| "aeiou".contains(c)));
    }
}

#[test]
fn independent_sessions_differ() {
    let charset = options(true, true, true, "", 8).charset().unwrap();
    for _ in 0..10_000 {
        let a = create_password(8, &charset, false, &mut SecureRng::new(fresh_seed())).unwrap();
        let b = create_password(8, &charset, false, &mut SecureRng::new(fresh_seed())).unwrap();
        assert_ne!(a, b);
    }
}

#[test]
fn same_seed_same_password() {
    let charset = options(true, true, true, "", 24).charset().unwrap();
    let seed = fresh_seed();
    let a = create_password(24, &charset, true, &mut SecureRng::new(seed)).unwrap();
    let b = create_password(24, &charset, true, &mut SecureRng::new(seed)).unwrap();
    assert_eq!(a, b);
}

#[test]
fn invalid_flag_fails() {
    assert_eq!(parse(&["--invalidflag"]).err(), Some(CliError::InvalidFlag(0)));
    assert_eq!(parse(&["-l", "4", "--bogus"]).err(), Some(CliError::InvalidFlag(2)));
}

#[test]
fn parse_defaults() {
    let (cli, warn) = parse(&[]).unwrap();
    assert!(!warn);
    assert_eq!(cli.length, 16);
    assert!(cli.alpha && cli.numeric && cli.symbols);
    assert_eq!(cli.count, 1);
    assert!(!cli.clipboard && !cli.no_repeat && !cli.entropy);
    assert_eq!(cli.save_path, None);
    assert!(cli.exclude.is_empty());
}

#[test]
fn parse_all_flags_combined() {
    let (cli, warn) = parse(&[
        "-a", "-nr", "-c", "2", "-ex", "0OIl1", "-cp", "-s", "out.txt", "-en", "-l", "10",
    ])
    .unwrap();
    assert!(!warn);
    assert!(cli.alpha && !cli.numeric && !cli.symbols);
    assert!(cli.no_repeat && cli.clipboard && cli.entropy);
    assert_eq!(cli.count, 2);
    assert_eq!(cli.exclude, vec!['0', 'O', 'I', 'l', '1']);
    assert_eq!(cli.save_path, Some("out.txt".to_string()));
    assert_eq!(cli.length, 10);
}

#[test]
fn parse_value_errors() {
    assert_eq!(parse(&["-l"]).err(), Some(CliError::MissingValue(0)));
    assert_eq!(parse(&["--length", "x12"]).err(), Some(CliError::InvalidLength(1)));
    assert_eq!(parse(&["-l", "-3"]).err(), Some(CliError::InvalidLength(1)));
    assert_eq!(parse(&["-l", "99999999999999999999999"]).err(), Some(CliError::InvalidLength(1)));
    assert_eq!(parse(&["-s"]).err(), Some(CliError::MissingSavePath));
    assert_eq!(parse(&["-l", "+7"]).unwrap().0.length, 7);
    assert_eq!(parse(&["-l", "0042"]).unwrap().0.length, 42);
    assert_eq!(parse(&["-l", "+"]).err(), Some(CliError::InvalidLength(1)));
    assert_eq!(parse(&["-l", ""]).err(), Some(CliError::InvalidLength(1)));
    assert_eq!(parse(&["-l", " 5"]).err(), Some(CliError::InvalidLength(1)));
    assert_eq!(parse(&["-l", "18446744073709551615"]).unwrap().0.length, usize::MAX);
    assert_eq!(parse(&["-l", "18446744073709551616"]).err(), Some(CliError::InvalidLength(1)));
    assert_eq!(parse(&["-l", "18446744073709551615x"]).err(), Some(CliError::InvalidLength(1)));
}

#[test]
fn parse_count_and_exclude_leniency() {
    let (cli, _) = parse(&["-c", "many"]).unwrap();
    assert_eq!(cli.count, 1);
    let (cli, _) = parse(&["-c"]).unwrap();
    assert_eq!(cli.count, 1);
    let (cli, warn) = parse(&["-ex"]).unwrap();
    assert!(warn);
    assert!(cli.exclude.is_empty());
    let (cli, _) = parse(&["-an", "--numeric"]).unwrap();
    assert!(!cli.alpha && cli.numeric && !cli.symbols);
}

#[test]
fn symbols_only_charset() {
    let cs = options(false, false, true, "", 1).charset().unwrap();
    assert_eq!(cs.len(), 30);
    assert!(cs.iter().all(|c| c.is_ascii_punctuation()));
}

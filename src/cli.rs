use vstd::prelude::*;
use crate::generator::GenError;
use vstd::string::StrSliceExecFns;

verus! {

/// The 52 ASCII letters, lower case first.
pub open spec fn alpha_chars() -> Seq<char> {
    seq![
        'a', 'b', 'c', 'd', 'e', 'f', 'g', 'h', 'i', 'j', 'k', 'l', 'm', 'n', 'o', 'p', 'q', 'r',
        's', 't', 'u', 'v', 'w', 'x', 'y', 'z', 'A', 'B', 'C', 'D', 'E', 'F', 'G', 'H', 'I', 'J',
        'K', 'L', 'M', 'N', 'O', 'P', 'Q', 'R', 'S', 'T', 'U', 'V', 'W', 'X', 'Y', 'Z',
    ]
}

/// The 10 ASCII digits.
pub open spec fn numeric_chars() -> Seq<char> {
    seq![
        '0', '1', '2', '3', '4', '5', '6', '7', '8', '9',
    ]
}

/// The 30 punctuation characters offered as symbols.
pub open spec fn symbol_chars() -> Seq<char> {
    seq![
        '!', '@', '#', '$', '%', '^', '&', '*', '(', ')', '-', '_', '=', '+', '[', ']', '{', '}',
        ';', ':', ',', '.', '<', '>', '?', '/', '|', '\\', '~', '`',
    ]
}

/// The selected categories in the fixed order letters, digits, symbols.
pub open spec fn category_pool(alpha: bool, numeric: bool, symbols: bool) -> Seq<char> {
    (if alpha {
        alpha_chars()
    } else {
        Seq::empty()
    }) + (if numeric {
        numeric_chars()
    } else {
        Seq::empty()
    }) + (if symbols {
        symbol_chars()
    } else {
        Seq::empty()
    })
}

/// The characters of the selected categories, in order, without those in `exclude`.
pub open spec fn charset_of(alpha: bool, numeric: bool, symbols: bool, exclude: Seq<char>) -> Seq<
    char,
> {
    category_pool(alpha, numeric, symbols).filter(|c: char| !exclude.contains(c))
}

fn alpha_vec() -> (r: Vec<char>)
    ensures
        r@ == alpha_chars(),
{
    let r = vec![
        'a', 'b', 'c', 'd', 'e', 'f', 'g', 'h', 'i', 'j', 'k', 'l', 'm', 'n', 'o', 'p', 'q', 'r',
        's', 't', 'u', 'v', 'w', 'x', 'y', 'z', 'A', 'B', 'C', 'D', 'E', 'F', 'G', 'H', 'I', 'J',
        'K', 'L', 'M', 'N', 'O', 'P', 'Q', 'R', 'S', 'T', 'U', 'V', 'W', 'X', 'Y', 'Z',
    ];
    assert(r@ =~= alpha_chars());
    r
}

fn numeric_vec() -> (r: Vec<char>)
    ensures
        r@ == numeric_chars(),
{
    let r = vec![
        '0', '1', '2', '3', '4', '5', '6', '7', '8', '9',
    ];
    assert(r@ =~= numeric_chars());
    r
}

fn symbol_vec() -> (r: Vec<char>)
    ensures
        r@ == symbol_chars(),
{
    let r = vec![
        '!', '@', '#', '$', '%', '^', '&', '*', '(', ')', '-', '_', '=', '+', '[', ']', '{', '}',
        ';', ':', ',', '.', '<', '>', '?', '/', '|', '\\', '~', '`',
    ];
    assert(r@ =~= symbol_chars());
    r
}

/// Whether `c` occurs in `v`.
fn contains_char(v: &Vec<char>, c: char) -> (r: bool)
    ensures
        r == v@.contains(c),
{
    let mut i: usize = 0;
    while i < v.len()
        invariant
            i <= v@.len(),
            forall|j: int| 0 <= j < i ==> v@[j] != c,
        decreases v.len() - i,
    {
        if v[i] == c {
            return true;
        }
        i = i + 1;
    }
    false
}

/// The options of one run of the generator.
#[derive(Clone)]
pub struct Cli {
    pub length: usize,
    pub symbols: bool,
    pub numeric: bool,
    pub alpha: bool,
    pub count: usize,
    pub clipboard: bool,
    pub no_repeat: bool,
    pub save_path: Option<String>,
    pub exclude: Vec<char>,
    pub entropy: bool,
}

impl Cli {
    /// The characters that passwords are drawn from: the selected categories
    /// in the order letters, digits, symbols, without the excluded ones;
    /// `EmptyCharset` when none is left.
    pub fn charset(&self) -> (r: Result<Vec<char>, GenError>)
        ensures
            ({
                let cs = charset_of(self.alpha, self.numeric, self.symbols, self.exclude@);
                &&& cs.len() == 0 ==> r == Err::<Vec<char>, GenError>(GenError::EmptyCharset)
                &&& cs.len() > 0 ==> (r matches Ok(v) && v@ == cs)
            }),
            r matches Ok(v) ==> v@.no_duplicates(),
    {
        let mut pool: Vec<char> = Vec::new();
        if self.alpha {
            let mut part = alpha_vec();
            pool.append(&mut part);
        }
        if self.numeric {
            let mut part = numeric_vec();
            pool.append(&mut part);
        }
        if self.symbols {
            let mut part = symbol_vec();
            pool.append(&mut part);
        }
        assert(pool@ =~= category_pool(self.alpha, self.numeric, self.symbols));
        let ghost keep = |c: char| !self.exclude@.contains(c);
        let mut chars: Vec<char> = Vec::new();
        let mut i: usize = 0;
        while i < pool.len()
            invariant
                i <= pool@.len(),
                chars@ == pool@.subrange(0, i as int).filter(keep),
                keep == (|c: char| !self.exclude@.contains(c)),
            decreases pool.len() - i,
        {
            let c = pool[i];
            proof {
                assert(pool@.subrange(0, i + 1) =~= pool@.subrange(0, i as int).push(c));
                pool@.subrange(0, i as int).lemma_filter_push(c, keep);
            }
            if !contains_char(&self.exclude, c) {
                chars.push(c);
            }
            i = i + 1;
        }
        assert(pool@.subrange(0, pool@.len() as int) =~= pool@);
        proof {
            lemma_charset_distinct(self.alpha, self.numeric, self.symbols, self.exclude@);
        }
        if chars.len() == 0 {
            return Err(GenError::EmptyCharset);
        }
        Ok(chars)
    }
}

/// Why a command line was refused; the index is that of the offending argument.
#[derive(Clone, Copy, Debug, PartialEq, Eq, Structural)]
pub enum CliError {
    /// A length flag stands last, with no value after it.
    MissingValue(usize),
    /// The value after a length flag is not a decimal `usize`.
    InvalidLength(usize),
    /// A save flag stands last, with no path after it.
    MissingSavePath,
    /// The argument is no known flag.
    InvalidFlag(usize),
}

/// The options of a run as plain values.
pub struct Options {
    pub length: usize,
    pub symbols: bool,
    pub numeric: bool,
    pub alpha: bool,
    pub count: usize,
    pub clipboard: bool,
    pub no_repeat: bool,
    pub save_path: Option<Seq<char>>,
    pub exclude: Seq<char>,
    pub entropy: bool,
}

/// The options before any flag: 16 characters from all three categories,
/// one password, printed.
pub open spec fn default_options() -> Options {
    Options {
        length: 16,
        symbols: true,
        numeric: true,
        alpha: true,
        count: 1,
        clipboard: false,
        no_repeat: false,
        save_path: None,
        exclude: Seq::empty(),
        entropy: false,
    }
}

/// The text of an optional argument.
pub open spec fn opt_text(o: Option<String>) -> Option<Seq<char>> {
    match o {
        Some(s) => Some(s@),
        None => None,
    }
}

/// The text of each argument.
pub open spec fn arg_texts(args: Seq<String>) -> Seq<Seq<char>> {
    args.map_values(|a: String| a@)
}

/// Value of a run of decimal digits.
pub open spec fn digits_value(s: Seq<char>) -> int
    decreases s.len(),
{
    if s.len() == 0 {
        0
    } else {
        digits_value(s.drop_last()) * 10 + (s.last() as int - '0' as int)
    }
}

/// The digits of a number: the text without a leading `+`.
pub open spec fn unsigned_part(s: Seq<char>) -> Seq<char> {
    if s.len() > 0 && s[0] == '+' {
        s.drop_first()
    } else {
        s
    }
}

/// Every character is an ASCII digit.
pub open spec fn all_digits(d: Seq<char>) -> bool {
    forall|i: int| 0 <= i < d.len() ==> '0' <= #[trigger] d[i] <= '9'
}

/// What `usize`'s `FromStr` accepts: an optional `+`, then one or more ASCII
/// digits whose value fits in `usize`.
pub open spec fn decimal_usize(s: Seq<char>) -> Option<usize> {
    let d = unsigned_part(s);
    if d.len() > 0 && all_digits(d) && digits_value(d) <= usize::MAX {
        Some(digits_value(d) as usize)
    } else {
        None
    }
}

/// The result of reading `args` from position `i` on with options `o` so far;
/// `warn` tells whether an exclude flag came last, without a value, which
/// leaves the options as they are.
pub open spec fn parse_from(args: Seq<Seq<char>>, i: int, o: Options, warn: bool) -> Result<
    (Options, bool),
    CliError,
>
    decreases args.len() - i,
{
    if i < 0 || i >= args.len() {
        Ok((o, warn))
    } else {
        let a = args[i];
        let has_value = i + 1 < args.len();
        if a == "-l"@ || a == "--length"@ {
            if !has_value {
                Err(CliError::MissingValue(i as usize))
            } else {
                match decimal_usize(args[i + 1]) {
                    Some(v) => parse_from(args, i + 2, Options { length: v, ..o }, warn),
                    None => Err(CliError::InvalidLength((i + 1) as usize)),
                }
            }
        } else if a == "-an"@ || a == "--alphanumeric"@ {
            parse_from(args, i + 1, Options { symbols: false, ..o }, warn)
        } else if a == "-a"@ || a == "--alpha"@ {
            parse_from(args, i + 1, Options { symbols: false, numeric: false, ..o }, warn)
        } else if a == "-n"@ || a == "--numeric"@ {
            parse_from(args, i + 1, Options { alpha: false, symbols: false, ..o }, warn)
        } else if a == "-c"@ || a == "--count"@ {
            if has_value {
                let c = match decimal_usize(args[i + 1]) {
                    Some(v) => v,
                    None => 1,
                };
                parse_from(args, i + 2, Options { count: c, ..o }, warn)
            } else {
                parse_from(args, i + 1, o, warn)
            }
        } else if a == "--clipboard"@ || a == "--copy"@ || a == "-cp"@ {
            parse_from(args, i + 1, Options { clipboard: true, ..o }, warn)
        } else if a == "--no-repeat"@ || a == "-nr"@ {
            parse_from(args, i + 1, Options { no_repeat: true, ..o }, warn)
        } else if a == "--save"@ || a == "-s"@ {
            if has_value {
                parse_from(args, i + 2, Options { save_path: Some(args[i + 1]), ..o }, warn)
            } else {
                Err(CliError::MissingSavePath)
            }
        } else if a == "--exclude"@ || a == "-ex"@ {
            if has_value {
                parse_from(args, i + 2, Options { exclude: args[i + 1], ..o }, warn)
            } else {
                parse_from(args, i + 1, o, true)
            }
        } else if a == "--entropy"@ || a == "-en"@ {
            parse_from(args, i + 1, Options { entropy: true, ..o }, warn)
        } else {
            Err(CliError::InvalidFlag(i as usize))
        }
    }
}

/// A prefix of a run of digits has no greater value than the whole run.
proof fn lemma_digits_prefix_le(t: Seq<char>, k: int)
    requires
        0 <= k <= t.len(),
        forall|i: int| 0 <= i < t.len() ==> '0' <= #[trigger] t[i] <= '9',
    ensures
        digits_value(t.subrange(0, k)) <= digits_value(t),
    decreases t.len(),
{
    if k < t.len() {
        let init = t.drop_last();
        assert(init.subrange(0, k) =~= t.subrange(0, k));
        assert forall|i: int| 0 <= i < init.len() implies '0' <= #[trigger] init[i] <= '9' by {
            assert(init[i] == t[i]);
        }
        lemma_digits_prefix_le(init, k);
        assert(t.last() == t[t.len() - 1]);
        assert(digits_value(init) >= 0) by {
            lemma_digits_nonneg(init);
        }
    } else {
        assert(t.subrange(0, k) =~= t);
    }
}

proof fn lemma_digits_nonneg(t: Seq<char>)
    requires
        forall|i: int| 0 <= i < t.len() ==> '0' <= #[trigger] t[i] <= '9',
    ensures
        digits_value(t) >= 0,
    decreases t.len(),
{
    if t.len() > 0 {
        let init = t.drop_last();
        assert forall|i: int| 0 <= i < init.len() implies '0' <= #[trigger] init[i] <= '9' by {
            assert(init[i] == t[i]);
        }
        lemma_digits_nonneg(init);
        assert(t.last() == t[t.len() - 1]);
    }
}

/// Reads a decimal `usize` as `usize`'s `FromStr` does: an optional `+`,
/// then one or more ASCII digits whose value fits.
fn parse_usize(s: &String) -> (r: Option<usize>)
    ensures
        r == decimal_usize(s@),
{
    let d = chars_of(s);
    let mut start: usize = 0;
    if d.len() > 0 && d[0] == '+' {
        start = 1;
    }
    let ghost digits = unsigned_part(s@);
    assert(digits =~= s@.subrange(start as int, s@.len() as int));
    if start >= d.len() {
        return None;
    }
    let mut acc: usize = 0;
    let mut i: usize = start;
    assert(d@.subrange(start as int, i as int) =~= Seq::<char>::empty());
    while i < d.len()
        invariant
            d@ == s@,
            start <= i <= d@.len(),
            digits == d@.subrange(start as int, d@.len() as int),
            digits == unsigned_part(s@),
            forall|j: int| start <= j < i ==> '0' <= #[trigger] d@[j] <= '9',
            acc as int == digits_value(d@.subrange(start as int, i as int)),
        decreases d.len() - i,
    {
        let c = d[i];
        if c < '0' || c > '9' {
            assert(digits[i - start] == c);
            return None;
        }
        let ghost pre = d@.subrange(start as int, i as int + 1);
        assert(pre.drop_last() =~= d@.subrange(start as int, i as int));
        assert(pre.last() == c);
        let v = ((c as u32) - ('0' as u32)) as usize;
        let next = match acc.checked_mul(10) {
            Some(m) => m.checked_add(v),
            None => None,
        };
        match next {
            Some(x) => {
                acc = x;
            },
            None => {
                proof {
                    if all_digits(digits) {
                        lemma_digits_prefix_le(digits, i + 1 - start);
                        assert(digits.subrange(0, i + 1 - start) =~= pre);
                    }
                }
                return None;
            },
        }
        i = i + 1;
    }
    Some(acc)
}

/// Whether the argument is the given flag.
fn is_flag(a: &String, flag: &str) -> (r: bool)
    ensures
        r == (a@ == flag@),
{
    let f: String = flag.to_owned();
    a.eq(&f)
}

/// The characters of `s`, in order.
fn chars_of(s: &String) -> (r: Vec<char>)
    ensures
        r@ == s@,
{
    let t = s.as_str();
    let n = t.unicode_len();
    let mut r: Vec<char> = Vec::new();
    let mut i: usize = 0;
    while i < n
        invariant
            i <= n,
            n == t@.len(),
            t@ == s@,
            r@ == s@.subrange(0, i as int),
        decreases n - i,
    {
        r.push(t.get_char(i));
        i = i + 1;
        assert(r@ =~= s@.subrange(0, i as int));
    }
    assert(s@.subrange(0, n as int) =~= s@);
    r
}

impl Cli {
    /// The options as plain values.
    pub open spec fn model(&self) -> Options {
        Options {
            length: self.length,
            symbols: self.symbols,
            numeric: self.numeric,
            alpha: self.alpha,
            count: self.count,
            clipboard: self.clipboard,
            no_repeat: self.no_repeat,
            save_path: opt_text(self.save_path),
            exclude: self.exclude@,
            entropy: self.entropy,
        }
    }
}

/// Reads the command-line arguments (without the program name) into options.
/// The flag in the result tells whether an exclude flag came last without a
/// value.
pub fn parse_args(args: &Vec<String>) -> (r: Result<(Cli, bool), CliError>)
    ensures
        ({
            let s = parse_from(arg_texts(args@), 0, default_options(), false);
            &&& (s is Ok <==> r is Ok)
            &&& (r matches Ok((c, w)) ==> s == Ok::<(Options, bool), CliError>((c.model(), w)))
            &&& (r matches Err(e) ==> s == Err::<(Options, bool), CliError>(e))
        }),
{
    let ghost texts = arg_texts(args@);
    let mut length: usize = 16;
    let mut symbols = true;
    let mut numeric = true;
    let mut alpha = true;
    let mut count: usize = 1;
    let mut clipboard = false;
    let mut no_repeat = false;
    let mut save_path: Option<String> = None;
    let mut exclude: Vec<char> = Vec::new();
    let mut entropy = false;
    let mut warn = false;
    let n = args.len();
    let mut i: usize = 0;
    assert(exclude@ =~= Seq::<char>::empty());
    while i < n
        invariant
            n == args@.len(),
            texts == arg_texts(args@),
            texts.len() == n,
            i <= n,
            parse_from(texts, 0, default_options(), false) == parse_from(
                texts,
                i as int,
                Options {
                    length,
                    symbols,
                    numeric,
                    alpha,
                    count,
                    clipboard,
                    no_repeat,
                    save_path: opt_text(save_path),
                    exclude: exclude@,
                    entropy,
                },
                warn,
            ),
        decreases n - i,
    {
        let a = &args[i];
        assert(texts[i as int] == a@);
        let has_value = i + 1 < n;
        if has_value {
            assert(texts[i + 1] == args@[i + 1]@);
        }
        if is_flag(a, "-l") || is_flag(a, "--length") {
            if !has_value {
                return Err(CliError::MissingValue(i));
            }
            match parse_usize(&args[i + 1]) {
                Some(v) => length = v,
                None => return Err(CliError::InvalidLength(i + 1)),
            }
            i = i + 2;
        } else if is_flag(a, "-an") || is_flag(a, "--alphanumeric") {
            symbols = false;
            i = i + 1;
        } else if is_flag(a, "-a") || is_flag(a, "--alpha") {
            symbols = false;
            numeric = false;
            i = i + 1;
        } else if is_flag(a, "-n") || is_flag(a, "--numeric") {
            alpha = false;
            symbols = false;
            i = i + 1;
        } else if is_flag(a, "-c") || is_flag(a, "--count") {
            if has_value {
                count = match parse_usize(&args[i + 1]) {
                    Some(v) => v,
                    None => 1,
                };
                i = i + 2;
            } else {
                i = i + 1;
            }
        } else if is_flag(a, "--clipboard") || is_flag(a, "--copy") || is_flag(a, "-cp") {
            clipboard = true;
            i = i + 1;
        } else if is_flag(a, "--no-repeat") || is_flag(a, "-nr") {
            no_repeat = true;
            i = i + 1;
        } else if is_flag(a, "--save") || is_flag(a, "-s") {
            if !has_value {
                return Err(CliError::MissingSavePath);
            }
            save_path = Some(args[i + 1].clone());
            i = i + 2;
        } else if is_flag(a, "--exclude") || is_flag(a, "-ex") {
            if has_value {
                exclude = chars_of(&args[i + 1]);
                i = i + 2;
            } else {
                warn = true;
                i = i + 1;
            }
        } else if is_flag(a, "--entropy") || is_flag(a, "-en") {
            entropy = true;
            i = i + 1;
        } else {
            return Err(CliError::InvalidFlag(i));
        }
    }
    let cli = Cli {
        length,
        symbols,
        numeric,
        alpha,
        count,
        clipboard,
        no_repeat,
        save_path,
        exclude,
        entropy,
    };
    Ok((cli, warn))
}

/// Position of a character in the full pool of letters, digits and symbols;
/// -1 for a character outside it.
pub open spec fn pool_rank(c: char) -> int {
    if 'a' <= c <= 'z' {
        c as int - 'a' as int
    } else if 'A' <= c <= 'Z' {
        26 + (c as int - 'A' as int)
    } else if '0' <= c <= '9' {
        52 + (c as int - '0' as int)
    } else if c == '!' {
        62
    } else if c == '@' {
        63
    } else if c == '#' {
        64
    } else if c == '$' {
        65
    } else if c == '%' {
        66
    } else if c == '^' {
        67
    } else if c == '&' {
        68
    } else if c == '*' {
        69
    } else if c == '(' {
        70
    } else if c == ')' {
        71
    } else if c == '-' {
        72
    } else if c == '_' {
        73
    } else if c == '=' {
        74
    } else if c == '+' {
        75
    } else if c == '[' {
        76
    } else if c == ']' {
        77
    } else if c == '{' {
        78
    } else if c == '}' {
        79
    } else if c == ';' {
        80
    } else if c == ':' {
        81
    } else if c == ',' {
        82
    } else if c == '.' {
        83
    } else if c == '<' {
        84
    } else if c == '>' {
        85
    } else if c == '?' {
        86
    } else if c == '/' {
        87
    } else if c == '|' {
        88
    } else if c == '\\' {
        89
    } else if c == '~' {
        90
    } else if c == '`' {
        91
    } else {
        -1
    }
}

proof fn lemma_category_ranks()
    ensures
        forall|i: int| 0 <= i < 52 ==> pool_rank(#[trigger] alpha_chars()[i]) == i,
        forall|i: int| 0 <= i < 10 ==> pool_rank(#[trigger] numeric_chars()[i]) == 52 + i,
        forall|i: int| 0 <= i < 30 ==> pool_rank(#[trigger] symbol_chars()[i]) == 62 + i,
        alpha_chars().len() == 52,
        numeric_chars().len() == 10,
        symbol_chars().len() == 30,
{
}

proof fn lemma_concat_no_duplicates(a: Seq<char>, b: Seq<char>)
    requires
        a.no_duplicates(),
        b.no_duplicates(),
        forall|i: int, j: int| 0 <= i < a.len() && 0 <= j < b.len() ==> a[i] != b[j],
    ensures
        (a + b).no_duplicates(),
{
    let s = a + b;
    assert forall|i: int, j: int| 0 <= i < s.len() && 0 <= j < s.len() && i != j implies s[i]
        != s[j] by {
        if i < a.len() && j >= a.len() {
            assert(a[i] != b[j - a.len()]);
        } else if j < a.len() && i >= a.len() {
            assert(a[j] != b[i - a.len()]);
        }
    }
}

proof fn lemma_filter_no_duplicates(s: Seq<char>, keep: spec_fn(char) -> bool)
    requires
        s.no_duplicates(),
    ensures
        s.filter(keep).no_duplicates(),
    decreases s.len(),
{
    reveal(Seq::filter);
    if s.len() > 0 {
        let init = s.drop_last();
        assert forall|i: int, j: int| 0 <= i < init.len() && 0 <= j < init.len() && i != j implies init[i]
            != init[j] by {
            assert(init[i] == s[i] && init[j] == s[j]);
        }
        lemma_filter_no_duplicates(init, keep);
        if keep(s.last()) {
            let f = init.filter(keep);
            assert forall|k: int| 0 <= k < f.len() implies f[k] != s.last() by {
                init.lemma_filter_contains_rev(keep, f[k]);
                if f[k] == s.last() {
                    let m = choose|m: int| 0 <= m < init.len() && init[m] == f[k];
                    assert(s[m] == s[s.len() - 1]);
                }
            }
            let g = f.push(s.last());
            assert forall|i: int, j: int| 0 <= i < g.len() && 0 <= j < g.len() && i != j implies g[i]
                != g[j] by {
                if i < f.len() && j < f.len() {
                    assert(f[i] != f[j]);
                } else if i < f.len() {
                    assert(f[i] != s.last());
                } else if j < f.len() {
                    assert(f[j] != s.last());
                }
            }
        }
    }
}

/// A charset built from category flags and an exclusion list holds each
/// character at most once.
pub proof fn lemma_charset_distinct(alpha: bool, numeric: bool, symbols: bool, exclude: Seq<char>)
    ensures
        charset_of(alpha, numeric, symbols, exclude).no_duplicates(),
{
    lemma_category_ranks();
    let a = if alpha { alpha_chars() } else { Seq::<char>::empty() };
    let n = if numeric { numeric_chars() } else { Seq::<char>::empty() };
    let y = if symbols { symbol_chars() } else { Seq::<char>::empty() };
    assert forall|i: int, j: int| 0 <= i < a.len() && 0 <= j < a.len() && i != j implies a[i] != a[j] by {
        assert(pool_rank(a[i]) == i && pool_rank(a[j]) == j);
    }
    assert forall|i: int, j: int| 0 <= i < n.len() && 0 <= j < n.len() && i != j implies n[i] != n[j] by {
        assert(pool_rank(n[i]) == 52 + i && pool_rank(n[j]) == 52 + j);
    }
    assert forall|i: int, j: int| 0 <= i < y.len() && 0 <= j < y.len() && i != j implies y[i] != y[j] by {
        assert(pool_rank(y[i]) == 62 + i && pool_rank(y[j]) == 62 + j);
    }
    assert forall|i: int, j: int| 0 <= i < a.len() && 0 <= j < n.len() implies a[i] != n[j] by {
        assert(pool_rank(a[i]) == i && pool_rank(n[j]) == 52 + j);
    }
    lemma_concat_no_duplicates(a, n);
    let an = a + n;
    assert forall|i: int, j: int| 0 <= i < an.len() && 0 <= j < y.len() implies an[i] != y[j] by {
        assert(pool_rank(y[j]) == 62 + j);
        if i < a.len() {
            assert(pool_rank(an[i]) == i);
        } else {
            assert(pool_rank(an[i]) == 52 + (i - a.len()));
        }
    }
    lemma_concat_no_duplicates(an, y);
    assert(category_pool(alpha, numeric, symbols) == an + y);
    lemma_filter_no_duplicates(an + y, |c: char| !exclude.contains(c));
}

/// No password drawn from a charset built with an exclusion list holds an
/// excluded character.
pub proof fn lemma_excluded_never_drawn(
    alpha: bool,
    numeric: bool,
    symbols: bool,
    exclude: Seq<char>,
    pwd: Seq<char>,
)
    requires
        forall|i: int|
            0 <= i < pwd.len() ==> charset_of(alpha, numeric, symbols, exclude).contains(
                #[trigger] pwd[i],
            ),
    ensures
        forall|i: int| 0 <= i < pwd.len() ==> !exclude.contains(#[trigger] pwd[i]),
{
    let pool = category_pool(alpha, numeric, symbols);
    let keep = |c: char| !exclude.contains(c);
    assert forall|i: int| 0 <= i < pwd.len() implies !exclude.contains(#[trigger] pwd[i]) by {
        let k = choose|k: int| 0 <= k < pool.filter(keep).len() && pool.filter(keep)[k] == pwd[i];
        pool.lemma_filter_pred(keep, k);
    }
}

} // verus!

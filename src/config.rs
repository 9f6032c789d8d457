use vstd::prelude::*;

verus! {

pub const DEFAULT_CACHE_EXPR_SEC: u64 = 10;

pub const DEFAULT_CACHE_SIZE: usize = 100;

/// Whether `c` is an ASCII decimal digit.
pub open spec fn is_digit(c: char) -> bool {
    '0' <= c && c <= '9'
}

/// The number that the decimal digits `d` spell.
pub open spec fn digits_value(d: Seq<char>) -> int
    decreases d.len(),
{
    if d.len() == 0 {
        0
    } else {
        digits_value(d.drop_last()) * 10 + (d.last() as u32 as int - '0' as u32 as int)
    }
}

/// The digits of `s` after an optional leading `+`.
pub open spec fn unsigned_digits(s: Seq<char>) -> Seq<char> {
    if s.len() > 0 && s[0] == '+' {
        s.skip(1)
    } else {
        s
    }
}

/// Whether every character of `d` is a decimal digit.
pub open spec fn all_digits(d: Seq<char>) -> bool {
    forall|i: int| 0 <= i < d.len() ==> is_digit(#[trigger] d[i])
}

/// The unsigned number that `s` writes in decimal, with an optional leading `+`,
/// when it is at most `max`.
pub open spec fn parse_unsigned(s: Seq<char>, max: int) -> Option<int> {
    let d = unsigned_digits(s);
    if d.len() > 0 && all_digits(d) && digits_value(d) <= max {
        Some(digits_value(d))
    } else {
        None
    }
}

pub open spec fn opt_int_u64(o: Option<u64>) -> Option<int> {
    match o {
        Some(n) => Some(n as int),
        None => None,
    }
}

pub open spec fn opt_int_usize(o: Option<usize>) -> Option<int> {
    match o {
        Some(n) => Some(n as int),
        None => None,
    }
}

/// A number spelt in decimal digits is at least the number that any prefix of its
/// digits spells.
proof fn lemma_digits_value_prefix(d: Seq<char>, k: int)
    requires
        0 <= k <= d.len(),
        forall|i: int| 0 <= i < d.len() ==> is_digit(#[trigger] d[i]),
    ensures
        digits_value(d.take(k)) <= digits_value(d),
        0 <= digits_value(d),
    decreases d.len(),
{
    if d.len() == 0 {
        assert(d.take(k) =~= d);
    } else {
        let e = d.drop_last();
        assert forall|i: int| 0 <= i < e.len() implies is_digit(#[trigger] e[i]) by {
            assert(e[i] == d[i]);
        }
        assert(is_digit(d[d.len() - 1]));
        if k == d.len() {
            assert(d.take(k) =~= d);
            lemma_digits_value_prefix(e, 0);
        } else {
            assert(e.take(k) =~= d.take(k));
            lemma_digits_value_prefix(e, k);
        }
    }
}

/// The number that `s` writes in decimal, with an optional leading `+`, when it is
/// at most `max`.
fn parse_decimal(s: &str, max: u64) -> (r: Option<u64>)
    ensures
        opt_int_u64(r) == parse_unsigned(s@, max as int),
{
    let n = s.unicode_len();
    let start: usize = if n > 0 && s.get_char(0) == '+' {
        1
    } else {
        0
    };
    let ghost d = unsigned_digits(s@);
    assert(d =~= s@.skip(start as int));
    if start >= n {
        return None;
    }
    let mut value: u64 = 0;
    let mut i: usize = start;
    while i < n
        invariant
            n == s@.len(),
            start <= i <= n,
            d =~= s@.skip(start as int),
            d == unsigned_digits(s@),
            forall|j: int| 0 <= j < i - start ==> is_digit(#[trigger] d[j]),
            value as int == digits_value(d.take(i - start)),
            value <= max,
        decreases n - i,
    {
        let c = s.get_char(i);
        assert(c == d[i - start]);
        if !('0' <= c && c <= '9') {
            assert(!is_digit(d[i - start]));
            assert(!all_digits(d));
            return None;
        }
        let digit = (c as u32 - '0' as u32) as u64;
        let ghost k = i - start;
        assert(d.take(k + 1).drop_last() =~= d.take(k));
        assert(digits_value(d.take(k + 1)) == value * 10 + digit);
        if value as u128 * 10 + digit as u128 > max as u128 {
            proof {
                assert(digits_value(d.take(k + 1)) > max);
                if all_digits(d) {
                    lemma_digits_value_prefix(d, k + 1);
                    assert(digits_value(d) > max);
                }
            }
            return None;
        }
        value = value * 10 + digit;
        i = i + 1;
    }
    assert(d.take(n - start) =~= d);
    Some(value)
}

/// The number that `s` writes in decimal, as `str::parse::<usize>` reads it:
/// digits after an optional `+`, and no more than `usize::MAX`.
fn parse_usize(s: &str) -> (r: Option<usize>)
    ensures
        opt_int_usize(r) == parse_unsigned(s@, usize::MAX as int),
{
    match parse_decimal(s, usize::MAX as u64) {
        Some(v) => Some(v as usize),
        None => None,
    }
}

/// Why the command line gives no configuration.
#[derive(PartialEq, Eq, Structural, Debug)]
pub enum ArgsError {
    /// A wrong number of arguments, or `--help`: the usage text is due.
    Usage,
    /// An option stands last, with no value after it.
    MissingValue,
    /// A number that does not parse.
    BadNumber,
}

/// The proxy's settings.
pub struct ProxyConfig {
    /// How long an entry stays in the cache, in seconds.
    pub cache_expr_sec: u64,
    /// How many entries the cache holds.
    pub cache_size: usize,
    /// Where the backing store listens.
    pub redis_addr: String,
}

pub struct ConfigView {
    pub cache_expr_sec: int,
    pub cache_size: int,
    pub redis_addr: Seq<char>,
}

impl View for ProxyConfig {
    type V = ConfigView;

    open spec fn view(&self) -> ConfigView {
        ConfigView {
            cache_expr_sec: self.cache_expr_sec as int,
            cache_size: self.cache_size as int,
            redis_addr: self.redis_addr@,
        }
    }
}

impl ProxyConfig {
    /// The cache entry lifetime in nanoseconds.
    pub fn cache_lifetime_nanos(&self) -> (r: u128)
        ensures
            r == self.cache_expr_sec * 1_000_000_000,
    {
        self.cache_expr_sec as u128 * 1_000_000_000
    }
}

pub open spec fn strings_view(args: Seq<String>) -> Seq<Seq<char>> {
    args.map_values(|a: String| a@)
}

/// The first place at which `x` stands in `s`.
pub open spec fn first_index(s: Seq<Seq<char>>, x: Seq<char>) -> Option<int>
    decreases s.len(),
{
    if s.len() == 0 {
        None
    } else if s[0] == x {
        Some(0)
    } else {
        match first_index(s.skip(1), x) {
            Some(i) => Some(i + 1),
            None => None,
        }
    }
}

/// The value given for `flag`: none when the flag is absent, `Err` when it stands
/// last, else the argument after its first occurrence.
pub open spec fn flag_value(args: Seq<Seq<char>>, flag: Seq<char>) -> Result<
    Option<Seq<char>>,
    ArgsError,
> {
    match first_index(args, flag) {
        None => Ok(None),
        Some(i) => if i + 1 < args.len() {
            Ok(Some(args[i + 1]))
        } else {
            Err(ArgsError::MissingValue)
        },
    }
}

/// A number option: its default when absent, and `BadNumber` when it does not parse.
pub open spec fn number_value(args: Seq<Seq<char>>, flag: Seq<char>, max: int, default: int) -> Result<
    int,
    ArgsError,
> {
    match flag_value(args, flag) {
        Err(e) => Err(e),
        Ok(None) => Ok(default),
        Ok(Some(v)) => match parse_unsigned(v, max) {
            Some(n) => Ok(n),
            None => Err(ArgsError::BadNumber),
        },
    }
}

/// The configuration that the command line `args` (the program's name first)
/// gives, options checked in the order lifetime, size, address.
pub open spec fn parse_args_spec(args: Seq<Seq<char>>) -> Result<ConfigView, ArgsError> {
    if !(args.len() == 1 || args.len() == 3 || args.len() == 5 || args.len() == 7)
        || args.contains("--help"@) {
        Err(ArgsError::Usage)
    } else {
        match number_value(
            args,
            "--cache_expr_sec"@,
            u64::MAX as int,
            DEFAULT_CACHE_EXPR_SEC as int,
        ) {
            Err(e) => Err(e),
            Ok(secs) => match number_value(
                args,
                "--cache_size"@,
                usize::MAX as int,
                DEFAULT_CACHE_SIZE as int,
            ) {
                Err(e) => Err(e),
                Ok(size) => match flag_value(args, "--redis_addr"@) {
                    Err(e) => Err(e),
                    Ok(addr) => Ok(
                        ConfigView {
                            cache_expr_sec: secs,
                            cache_size: size,
                            redis_addr: match addr {
                                Some(a) => a,
                                None => "redis://127.0.0.1/"@,
                            },
                        },
                    ),
                },
            },
        }
    }
}

proof fn lemma_first_index(s: Seq<Seq<char>>, x: Seq<char>, i: int)
    requires
        0 <= i <= s.len(),
        forall|j: int| 0 <= j < i ==> s[j] != x,
    ensures
        i < s.len() && s[i] == x ==> first_index(s, x) == Some(i),
        i == s.len() ==> first_index(s, x) is None,
    decreases i,
{
    if i > 0 {
        let t = s.skip(1);
        assert forall|j: int| 0 <= j < i - 1 implies t[j] != x by {
            assert(t[j] == s[j + 1]);
        }
        lemma_first_index(t, x, i - 1);
        if i < s.len() {
            assert(t[i - 1] == s[i]);
        }
    }
}

/// Where `flag` first stands in `args`.
fn flag_position(args: &Vec<String>, flag: &String) -> (r: Option<usize>)
    ensures
        match r {
            Some(i) => {
                &&& i < args@.len()
                &&& args@[i as int]@ == flag@
                &&& first_index(strings_view(args@), flag@) == Some(i as int)
            },
            None => first_index(strings_view(args@), flag@) is None,
        },
{
    let ghost s = strings_view(args@);
    let mut i: usize = 0;
    while i < args.len()
        invariant
            i <= args@.len(),
            s == strings_view(args@),
            forall|j: int| 0 <= j < i ==> s[j] != flag@,
        decreases args.len() - i,
    {
        if args[i] == *flag {
            proof {
                lemma_first_index(s, flag@, i as int);
            }
            return Some(i);
        }
        i = i + 1;
    }
    proof {
        lemma_first_index(s, flag@, i as int);
    }
    None
}

/// The argument after the first `flag`, if the flag is given.
fn find_flag_value<'a>(args: &'a Vec<String>, flag: &str) -> (r: Result<Option<&'a String>, ArgsError>)
    ensures
        match r {
            Ok(Some(v)) => flag_value(strings_view(args@), flag@) == Ok::<
                Option<Seq<char>>,
                ArgsError,
            >(Some(v@)),
            Ok(None) => flag_value(strings_view(args@), flag@) == Ok::<
                Option<Seq<char>>,
                ArgsError,
            >(None),
            Err(e) => flag_value(strings_view(args@), flag@) == Err::<Option<Seq<char>>, ArgsError>(
                e,
            ),
        },
{
    let flag = String::from_str(flag);
    match flag_position(args, &flag) {
        None => Ok(None),
        Some(i) => {
            if i < args.len() - 1 {
                Ok(Some(&args[i + 1]))
            } else {
                Err(ArgsError::MissingValue)
            }
        },
    }
}

/// Reads the proxy's settings from its command line, the program's name first.
pub fn parse_args(args: &Vec<String>) -> (r: Result<ProxyConfig, ArgsError>)
    ensures
        match r {
            Ok(c) => parse_args_spec(strings_view(args@)) == Ok::<ConfigView, ArgsError>(c@),
            Err(e) => parse_args_spec(strings_view(args@)) == Err::<ConfigView, ArgsError>(e),
        },
{
    let n = args.len();
    if !(n == 1 || n == 3 || n == 5 || n == 7) {
        return Err(ArgsError::Usage);
    }
    match flag_position(args, &String::from_str("--help")) {
        Some(i) => {
            proof {
                assert(strings_view(args@)[i as int] == "--help"@);
            }
            return Err(ArgsError::Usage);
        },
        None => {
            proof {
                if strings_view(args@).contains("--help"@) {
                    let j = choose|j: int|
                        0 <= j < strings_view(args@).len() && strings_view(args@)[j] == "--help"@;
                    lemma_contained_has_index(strings_view(args@), "--help"@, j);
                }
            }
        },
    }
    let cache_expr_sec = match find_flag_value(args, "--cache_expr_sec") {
        Err(e) => return Err(e),
        Ok(None) => DEFAULT_CACHE_EXPR_SEC,
        Ok(Some(v)) => match parse_decimal(v.as_str(), u64::MAX) {
            Some(secs) => secs,
            None => return Err(ArgsError::BadNumber),
        },
    };
    let cache_size = match find_flag_value(args, "--cache_size") {
        Err(e) => return Err(e),
        Ok(None) => DEFAULT_CACHE_SIZE,
        Ok(Some(v)) => match parse_usize(v.as_str()) {
            Some(size) => size,
            None => return Err(ArgsError::BadNumber),
        },
    };
    let redis_addr = match find_flag_value(args, "--redis_addr") {
        Err(e) => return Err(e),
        Ok(None) => String::from_str("redis://127.0.0.1/"),
        Ok(Some(v)) => v.clone(),
    };
    Ok(ProxyConfig { cache_expr_sec, cache_size, redis_addr })
}

proof fn lemma_contained_has_index(s: Seq<Seq<char>>, x: Seq<char>, j: int)
    requires
        0 <= j < s.len(),
        s[j] == x,
    ensures
        first_index(s, x) is Some,
    decreases j,
{
    if s[0] != x {
        lemma_contained_has_index(s.skip(1), x, j - 1);
    }
}

} // verus!

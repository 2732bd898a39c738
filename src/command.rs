use vstd::prelude::*;
use vstd::utf8::encode_utf8;

verus! {

/// What `shell_words::split` makes of a command line: the words, or `None` when
/// the quoting does not balance.
pub uninterp spec fn shell_split_of(line: Seq<char>) -> Option<Seq<Seq<char>>>;

/// The XXH3 64-bit digest of a byte string.
pub uninterp spec fn xxh3_64_of(bytes: Seq<u8>) -> u64;

/// Texts of a sequence of strings.
pub open spec fn texts(v: Seq<String>) -> Seq<Seq<char>> {
    v.map_values(|w: String| w@)
}

/// Relies on `shell_words::split`: splits a command line into words the way a POSIX
/// shell does with quote removal only, and fails only on an unmatched quote.
#[verifier::external_body]
fn shell_split(line: &str) -> (r: Option<Vec<String>>)
    ensures
        match r {
            Some(words) => shell_split_of(line@) == Some(texts(words@)),
            None => shell_split_of(line@) == None::<Seq<Seq<char>>>,
        },
{
    shell_words::split(line).ok()
}

/// Relies on `xxhash_rust::xxh3::xxh3_64`: the XXH3 digest with the default seed and
/// secret, a function of the bytes alone.
#[verifier::external_body]
fn xxh3_64(bytes: &[u8]) -> (r: u64)
    ensures
        r == xxh3_64_of(bytes@),
{
    xxhash_rust::xxh3::xxh3_64(bytes)
}

/// The identifier derived from a command text: the hexadecimal XXH3 digest of its UTF-8 bytes.
pub open spec fn default_id_of(cmd: Seq<char>) -> Seq<char> {
    hex_digits(xxh3_64_of(encode_utf8(cmd)) as nat, 16)
}

/// Lower-case hexadecimal digit of `d`, for `d < 16`.
pub open spec fn hex_digit(d: nat) -> char {
    seq!['0', '1', '2', '3', '4', '5', '6', '7', '8', '9', 'a', 'b', 'c', 'd', 'e', 'f'][d as int]
}

/// The last `n` hexadecimal digits of `v`, most significant first, zero-padded.
pub open spec fn hex_digits(v: nat, n: nat) -> Seq<char>
    decreases n,
{
    if n == 0 {
        Seq::empty()
    } else {
        hex_digits(v / 16, (n - 1) as nat).push(hex_digit(v % 16))
    }
}

/// Relies on std's `{:016x}` formatting: a `u64` as sixteen lower-case hexadecimal
/// digits, most significant first, padded with zeros.
#[verifier::external_body]
fn hex16(v: u64) -> (r: String)
    ensures
        r@ == hex_digits(v as nat, 16),
{
    format!("{:016x}", v)
}

/// Why a command line cannot be launched.
#[derive(Clone, Copy, Debug, PartialEq, Eq, Structural)]
pub enum LaunchError {
    /// A quote is not closed.
    UnbalancedQuotes,
    /// The line holds no word, so there is no program to run.
    EmptyCommand,
}

/// A program, its arguments and the directory to start it in.
#[derive(Debug)]
pub struct LaunchPlan {
    pub program: String,
    pub args: Vec<String>,
    pub pwd: String,
}

/// The plan for already split `words`: the first names the program, the rest are its arguments.
pub fn plan_from_words(words: Vec<String>, pwd: String) -> (r: Result<LaunchPlan, LaunchError>)
    ensures
        words@.len() == 0 ==> r == Err::<LaunchPlan, LaunchError>(LaunchError::EmptyCommand),
        words@.len() > 0 ==> match r {
            Ok(plan) => {
                &&& plan.program@ == words@[0]@
                &&& texts(plan.args@) == texts(words@).drop_first()
                &&& plan.pwd == pwd
            },
            Err(_) => false,
        },
{
    let n = words.len();
    if n == 0 {
        return Err(LaunchError::EmptyCommand);
    }
    let program = words[0].clone();
    let mut args: Vec<String> = Vec::new();
    let mut i: usize = 1;
    while i < n
        invariant
            n == words@.len(),
            1 <= i <= n,
            args@.len() == i - 1,
            forall|j: int| 0 <= j < args@.len() ==> #[trigger] args@[j]@ == words@[j + 1]@,
        decreases n - i,
    {
        args.push(words[i].clone());
        i += 1;
    }
    assert(texts(args@) =~= texts(words@).drop_first());
    Ok(LaunchPlan { program, args, pwd })
}

/// Splits `cmd` and plans its launch in `pwd`.
pub fn launch_plan(cmd: &str, pwd: &str) -> (r: Result<LaunchPlan, LaunchError>)
    ensures
        match shell_split_of(cmd@) {
            None => r == Err::<LaunchPlan, LaunchError>(LaunchError::UnbalancedQuotes),
            Some(words) => if words.len() == 0 {
                r == Err::<LaunchPlan, LaunchError>(LaunchError::EmptyCommand)
            } else {
                match r {
                    Ok(plan) => {
                        &&& plan.program@ == words[0]
                        &&& texts(plan.args@) == words.drop_first()
                        &&& plan.pwd@ == pwd@
                    },
                    Err(_) => false,
                }
            },
        },
{
    match shell_split(cmd) {
        None => Err(LaunchError::UnbalancedQuotes),
        Some(words) => {
            proof {
                if words@.len() > 0 {
                    assert(texts(words@)[0] == words@[0]@);
                }
            }
            plan_from_words(words, pwd.to_owned())
        },
    }
}

/// The identifier a request goes by: the one given, else the sixteen-digit hexadecimal
/// form of `digest`.
pub fn id_or_digest(id: Option<String>, digest: u64) -> (r: String)
    ensures
        r@ == match id {
            Some(s) => s@,
            None => hex_digits(digest as nat, 16),
        },
{
    match id {
        Some(s) => s,
        None => hex16(digest),
    }
}

/// The identifier a request for `cmd` goes by: the one given, else the hexadecimal
/// XXH3 digest of the command text.
pub fn resolve_id(id: Option<String>, cmd: &str) -> (r: String)
    ensures
        r@ == match id {
            Some(s) => s@,
            None => default_id_of(cmd@),
        },
{
    match id {
        Some(s) => s,
        None => id_or_digest(None, xxh3_64(cmd.as_bytes())),
    }
}

} // verus!

//! Options for the three operations the program offers: training a model,
//! generating text and producing captioned screenshots. Parsing the command
//! line itself happens outside this crate; these are the plain values the
//! library receives.

use vstd::prelude::*;

use crate::error::Error;
use crate::text::{is_digit_char, str_to_chars};

verus! {

/// The selected operation with its options.
pub enum Opts {
    Train(Train),
    Generate(Generate),
    Screenshots(Screenshots),
}

/// Options for building a model from subtitle files.
pub struct Train {
    /// Output destination for the model file.
    pub output: String,
    /// Order of the Markov model; higher values make generated text
    /// resemble the training set more closely.
    pub order: usize,
    /// Recursively include files in input directories as training files.
    pub recursive: bool,
    /// Training files to use as input.
    pub input: Vec<String>,
}

/// Options for generating text from a model file.
pub struct Generate {
    /// Path to a model file produced by training.
    pub model: String,
    /// Number of chains to generate.
    pub count: usize,
    /// Generate chains starting with this token; meaningful only for a
    /// model of order one.
    pub start: Option<String>,
    /// Ensure generated chains have at least this many characters.
    pub min_length: Option<usize>,
    /// An existing subtitle file to use for timing and styling, receiving
    /// the generated lines in place.
    pub existing_subs: Option<String>,
}

/// Options for producing video screenshots with generated subtitles.
pub struct Screenshots {
    /// Trained model file.
    pub model: String,
    /// Ensure generated chains have at least this many characters.
    pub min_length: Option<usize>,
    /// Input video file.
    pub video: String,
    /// Reference subtitle file for timing and styles; when absent, the
    /// subtitles are extracted from the video.
    pub subtitles_ref: Option<String>,
    /// Where to save the generated subtitles; a temporary file when absent.
    pub subtitles_out: Option<String>,
    /// Directory to save screenshots to.
    pub output_dir: String,
    /// Prefix for screenshot file names.
    pub prefix: String,
    /// Number of screenshots to save; all lines when absent.
    pub count: Option<usize>,
    /// Save a screenshot for every line in the output subtitles.
    pub save_all: bool,
    /// Minimum spacing between screenshots, in milliseconds.
    pub resolution_ms: u32,
}

/// The numeric value of a digit string, most significant digit first.
pub open spec fn digits_value(s: Seq<char>) -> int
    decreases s.len(),
{
    if s.len() == 0 {
        0
    } else {
        digits_value(s.drop_last()) * 10 + (s.last() as int - '0' as int)
    }
}

/// True when every character of `s` is a decimal digit.
pub open spec fn all_digits(s: Seq<char>) -> bool {
    forall|i: int| 0 <= i < s.len() ==> is_digit_char(s[i])
}

/// What parsing `s` as an unsigned 32-bit number yields: an optional plus
/// sign, then at least one digit, with the value in range.
pub open spec fn parse_u32_spec(s: Seq<char>) -> Option<u32> {
    let body = if s.len() >= 1 && s[0] == '+' {
        s.drop_first()
    } else {
        s
    };
    if body.len() >= 1 && all_digits(body) && digits_value(body) <= u32::MAX {
        Some(digits_value(body) as u32)
    } else {
        None
    }
}

/// A digit string's value is nonnegative.
proof fn lemma_digits_value_nonneg(s: Seq<char>)
    requires
        all_digits(s),
    ensures
        digits_value(s) >= 0,
    decreases s.len(),
{
    if s.len() > 0 {
        assert(all_digits(s.drop_last())) by {
            assert(forall|i: int| 0 <= i < s.len() - 1 ==> s.drop_last()[i] == s[i]);
        }
        lemma_digits_value_nonneg(s.drop_last());
        assert(s.last() as int - '0' as int >= 0);
    }
}

/// Each digit prefix is worth no more than the whole string.
proof fn lemma_digits_prefix_le(s: Seq<char>, j: int)
    requires
        all_digits(s),
        0 <= j <= s.len(),
    ensures
        digits_value(s.subrange(0, j)) <= digits_value(s),
    decreases s.len() - j,
{
    if j == s.len() {
        assert(s.subrange(0, j) =~= s);
    } else {
        lemma_digits_prefix_le(s, j + 1);
        let p = s.subrange(0, j + 1);
        assert(p.drop_last() =~= s.subrange(0, j));
        assert(all_digits(p)) by {
            assert(forall|i: int| 0 <= i < p.len() ==> p[i] == s[i]);
        }
        lemma_digits_value_nonneg(s.subrange(0, j));
        assert(p.last() as int - '0' as int >= 0);
        assert(digits_value(s.subrange(0, j)) <= digits_value(s.subrange(0, j)) * 10 + (
        p.last() as int - '0' as int)) by (nonlinear_arith)
            requires
                digits_value(s.subrange(0, j)) >= 0,
                p.last() as int - '0' as int >= 0,
        ;
    }
}

/// Parses the prefix `[0, b)` of `chars` as an unsigned 32-bit number,
/// mirroring [`parse_u32_spec`].
fn parse_u32_range(chars: &Vec<char>, b: usize) -> (r: Option<u32>)
    requires
        b <= chars@.len(),
    ensures
        r == parse_u32_spec(chars@.subrange(0, b as int)),
{
    let ghost s = chars@.subrange(0, b as int);
    let start: usize = if b >= 1 && chars[0] == '+' {
        1
    } else {
        0
    };
    let ghost body = if s.len() >= 1 && s[0] == '+' {
        s.drop_first()
    } else {
        s
    };
    proof {
        assert(body =~= chars@.subrange(start as int, b as int));
    }
    if b - start == 0 {
        return None;
    }
    let mut acc: u32 = 0;
    let mut j = start;
    while j < b
        invariant
            start <= j <= b <= chars@.len(),
            b - start >= 1,
            s == chars@.subrange(0, b as int),
            body == chars@.subrange(start as int, b as int),
            body == (if s.len() >= 1 && s[0] == '+' {
                s.drop_first()
            } else {
                s
            }),
            all_digits(chars@.subrange(start as int, j as int)),
            acc == digits_value(chars@.subrange(start as int, j as int)),
        decreases b - j,
    {
        let c = chars[j];
        let ghost pref = chars@.subrange(start as int, j as int);
        let ghost pref2 = chars@.subrange(start as int, j + 1);
        proof {
            assert(pref2.drop_last() =~= pref);
        }
        if !('0' <= c && c <= '9') {
            proof {
                assert(body[j - start] == c);
                assert(!all_digits(body));
            }
            return None;
        }
        let d = (c as u32) - 48;
        proof {
            assert(c as int - '0' as int == d);
            assert(all_digits(pref2)) by {
                assert(forall|m: int| 0 <= m < pref.len() ==> pref2[m] == pref[m]);
                assert(pref2.last() == c);
            }
        }
        let wide: u64 = acc as u64 * 10 + d as u64;
        if wide > u32::MAX as u64 {
            proof {
                assert(digits_value(pref2) == wide);
                if all_digits(body) {
                    assert(pref2 =~= body.subrange(0, j + 1 - start));
                    lemma_digits_prefix_le(body, j + 1 - start);
                    assert(digits_value(body) > u32::MAX);
                }
            }
            return None;
        }
        acc = wide as u32;
        j += 1;
    }
    proof {
        assert(chars@.subrange(start as int, b as int) =~= body);
        lemma_digits_value_nonneg(body);
    }
    Some(acc)
}

/// True when `s` ends with `suf`.
pub open spec fn ends_with(s: Seq<char>, suf: Seq<char>) -> bool {
    s.len() >= suf.len() && s.subrange(s.len() - suf.len(), s.len() as int) == suf
}

/// `s` with every trailing copy of `suf` removed.
pub open spec fn trim_end_all(s: Seq<char>, suf: Seq<char>) -> Seq<char>
    decreases s.len(),
{
    if suf.len() >= 1 && ends_with(s, suf) {
        trim_end_all(s.subrange(0, s.len() - suf.len()), suf)
    } else {
        s
    }
}

/// Suffix test on the prefix `[0, end)` of a character vector.
fn range_ends_with(chars: &Vec<char>, end: usize, suf: &Vec<char>) -> (r: bool)
    requires
        end <= chars@.len(),
    ensures
        r == ends_with(chars@.subrange(0, end as int), suf@),
{
    let ghost s = chars@.subrange(0, end as int);
    let m = suf.len();
    if end < m {
        return false;
    }
    for j in 0..m
        invariant
            m == suf@.len(),
            m <= end <= chars@.len(),
            s == chars@.subrange(0, end as int),
            forall|k: int| 0 <= k < j ==> s[s.len() - m + k] == #[trigger] suf@[k],
        decreases m - j,
    {
        if chars[end - m + j] != suf[j] {
            proof {
                assert(s[s.len() - m + j] != suf@[j as int]);
                if ends_with(s, suf@) {
                    assert(s.subrange(s.len() - m, s.len() as int)[j as int] == suf@[j as int]);
                    assert(false);
                }
            }
            return false;
        }
        proof {
            assert(s[s.len() - m + j] == suf@[j as int]);
        }
    }
    proof {
        assert(s.subrange(s.len() - m, s.len() as int) =~= suf@);
    }
    true
}

/// Removes every trailing copy of `suf` from the prefix `[0, end0)`,
/// returning the new prefix length, mirroring [`trim_end_all`].
fn trim_end_all_range(chars: &Vec<char>, end0: usize, suf: &Vec<char>) -> (r: usize)
    requires
        end0 <= chars@.len(),
        suf@.len() >= 1,
    ensures
        r <= end0,
        chars@.subrange(0, r as int) == trim_end_all(chars@.subrange(0, end0 as int), suf@),
{
    let mut end = end0;
    while range_ends_with(chars, end, suf)
        invariant
            end <= end0 <= chars@.len(),
            suf@.len() >= 1,
            trim_end_all(chars@.subrange(0, end as int), suf@) == trim_end_all(
                chars@.subrange(0, end0 as int),
                suf@,
            ),
        decreases end,
    {
        proof {
            let cur = chars@.subrange(0, end as int);
            assert(cur.subrange(0, cur.len() - suf@.len()) =~= chars@.subrange(
                0,
                end - suf@.len(),
            ));
        }
        end = end - suf.len();
    }
    end
}

/// What one suffix attempt yields: when `s` ends with the suffix, the
/// number before the trailing suffix copies, scaled by the unit, provided
/// the scaled value still fits.
pub open spec fn try_suffix_spec(s: Seq<char>, suf: Seq<char>, mult: int) -> Option<u32> {
    if ends_with(s, suf) {
        match parse_u32_spec(trim_end_all(s, suf)) {
            Some(v) => if v * mult <= u32::MAX as int {
                Some((v * mult) as u32)
            } else {
                None
            },
            None => None,
        }
    } else {
        None
    }
}

/// What parsing a duration yields, in milliseconds: a bare number of
/// milliseconds, or a number bearing one of the unit suffixes, tried in
/// this order: `ms`, `s`, `m`, `h`. A value that overflows the result type
/// does not parse.
pub open spec fn parse_duration_spec(s: Seq<char>) -> Option<u32> {
    if parse_u32_spec(s) is Some {
        parse_u32_spec(s)
    } else if try_suffix_spec(s, seq!['m', 's'], 1) is Some {
        try_suffix_spec(s, seq!['m', 's'], 1)
    } else if try_suffix_spec(s, seq!['s'], 1000) is Some {
        try_suffix_spec(s, seq!['s'], 1000)
    } else if try_suffix_spec(s, seq!['m'], 60000) is Some {
        try_suffix_spec(s, seq!['m'], 60000)
    } else {
        try_suffix_spec(s, seq!['h'], 3600000)
    }
}

/// One suffix attempt over a character vector, mirroring
/// [`try_suffix_spec`].
fn try_suffix(chars: &Vec<char>, suf: &Vec<char>, mult: u32) -> (r: Option<u32>)
    requires
        suf@.len() >= 1,
        mult >= 1,
    ensures
        r == try_suffix_spec(chars@, suf@, mult as int),
{
    let n = chars.len();
    proof {
        assert(chars@.subrange(0, n as int) =~= chars@);
    }
    if !range_ends_with(chars, n, suf) {
        return None;
    }
    let end = trim_end_all_range(chars, n, suf);
    match parse_u32_range(chars, end) {
        Some(v) => {
            proof {
                assert(v as int * mult as int <= (u32::MAX as int) * (u32::MAX as int))
                    by (nonlinear_arith)
                    requires
                        0 <= v as int <= u32::MAX as int,
                        0 <= mult as int <= u32::MAX as int,
                ;
            }
            let wide: u64 = v as u64 * mult as u64;
            if wide <= u32::MAX as u64 {
                Some(wide as u32)
            } else {
                None
            }
        },
        None => None,
    }
}

/// Parses a duration given as a number with an optional unit suffix into
/// milliseconds; see [`parse_duration_spec`]. Returns an error exactly when
/// the text parses under no unit.
pub fn parse_duration_ms(s: &str) -> (r: Result<u32, Error>)
    ensures
        r matches Ok(v) ==> parse_duration_spec(s@) == Some(v),
        r is Err <==> parse_duration_spec(s@) is None,
{
    let chars = str_to_chars(s);
    let n = chars.len();
    proof {
        assert(chars@.subrange(0, n as int) =~= chars@);
    }
    if let Some(v) = parse_u32_range(&chars, n) {
        return Ok(v);
    }
    let ms: Vec<char> = vec!['m', 's'];
    proof {
        assert(ms@ =~= seq!['m', 's']);
    }
    if let Some(v) = try_suffix(&chars, &ms, 1) {
        return Ok(v);
    }
    let sec: Vec<char> = vec!['s'];
    proof {
        assert(sec@ =~= seq!['s']);
    }
    if let Some(v) = try_suffix(&chars, &sec, 1000) {
        return Ok(v);
    }
    let min: Vec<char> = vec!['m'];
    proof {
        assert(min@ =~= seq!['m']);
    }
    if let Some(v) = try_suffix(&chars, &min, 60000) {
        return Ok(v);
    }
    let hour: Vec<char> = vec!['h'];
    proof {
        assert(hour@ =~= seq!['h']);
    }
    if let Some(v) = try_suffix(&chars, &hour, 3600000) {
        return Ok(v);
    }
    Err(Error::context("failed to parse duration"))
}

} // verus!

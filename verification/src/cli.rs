//! The plain-value side of the command-line surface: option records and the
//! little grammars (`--cache-dir`, `--type`, `--out`, `--size`) as verified
//! parsers over UTF-8 bytes. Argument vectors and terminal handling stay with
//! the binary; it hands each raw value here.

use vstd::prelude::*;

verus! {

/// Global options shared by every subcommand.
pub struct GlobalOpts {
    pub cache_mode: CacheMode,
    /// Only print warnings and errors to the console.
    pub quiet: bool,
    /// Always print info messages, even with no console attached.
    pub no_quiet: bool,
    /// Extra console verbosity, by occurrence count.
    pub verbose: u32,
}

/// A fully parsed command line.
pub struct Opts {
    pub opts: GlobalOpts,
    pub cmd: Subcommand,
}

/// The selected operation.
pub enum Subcommand {
    /// Empty the cache folder.
    Clean,
    /// Generate a dissonance map from the given config.
    Generate(GenerateOpts),
    /// Open the interactive front-end.
    Gui,
    /// Print the default configuration file to the console.
    PrintDefaults,
    /// Generate a dissonance map and re-generate it when its config changes.
    Watch(GenerateOpts),
}

/// Options of the generate and watch subcommands. The config path is carried
/// as raw bytes.
pub struct GenerateOpts {
    pub config: Vec<u8>,
    pub size: Option<SizeOverride>,
    pub ty: Option<MapFormat>,
    pub out: MapOutput,
}

/// A failure to read one option value.
#[derive(Clone, Copy, PartialEq, Eq, Structural, Debug)]
pub enum FromStrErr {
    /// The value matched none of the allowed words.
    OneOf,
    /// The value matched none of the accepted shapes.
    Custom,
    /// A number in the value did not fit.
    ParseInt,
    /// A decimal number in the value did not fit.
    ParseFloat,
}

/// Where the cache lives: disabled, an explicit directory, or the platform
/// default (`None`).
pub enum CacheMode {
    Off,
    File(Option<Vec<u8>>),
}

/// The output format: a delimited text format with the given delimiter byte,
/// or an image.
#[derive(Clone, Copy, PartialEq, Eq, Structural, Debug)]
pub enum MapFormat {
    Xsv(u8),
    Png,
}

/// Where the rendered map goes.
pub enum MapOutput {
    Stdout,
    File(Vec<u8>),
}

/// Output format selector of the older surface.
#[derive(Clone, Copy, PartialEq, Eq, Structural, Debug)]
pub enum OutputType {
    Csv,
    Png,
}

/// Output destination of the older surface.
pub enum Output {
    Stdout,
    File(Vec<u8>),
}

/// An override of the configured output size: fix one axis and keep the
/// aspect ratio, scale both axes by a decimal percentage, or set both
/// exactly. The percentage is a decimal number carried exactly:
/// `Percent(n, d)` stands for `n / 10^d` percent.
#[derive(Clone, Copy, PartialEq, Eq, Structural, Debug)]
pub enum SizeOverride {
    Width(u32),
    Height(u32),
    Exact(u32, u32),
    Percent(u64, u32),
}

impl MapFormat {
    /// Comma-separated values.
    pub fn csv() -> (r: Self)
        ensures
            r == MapFormat::Xsv(44u8),
    {
        MapFormat::Xsv(44)
    }

    /// Tab-separated values.
    pub fn tsv() -> (r: Self)
        ensures
            r == MapFormat::Xsv(9u8),
    {
        MapFormat::Xsv(9)
    }
}

impl CacheMode {
    /// Reads the `--cache-dir` value: empty selects the platform default
    /// cache directory, `-` disables the cache, anything else is an explicit
    /// directory.
    pub fn from_str(s: &[u8]) -> (r: Self)
        ensures
            s@.len() == 0 ==> (r matches CacheMode::File(d) && d is None),
            s@ == seq![45u8] ==> r is Off,
            s@.len() > 0 && s@ != seq![45u8] ==> (r matches CacheMode::File(d)
                && d matches Some(p) && p@ == s@),
    {
        if s.len() == 0 {
            CacheMode::File(None)
        } else if s.len() == 1 && s[0] == 45 {
            proof {
                assert(s@ =~= seq![45u8]);
            }
            CacheMode::Off
        } else {
            proof {
                if s@.len() == 1 {
                    assert(s@ =~= seq![s@[0]]);
                }
            }
            CacheMode::File(Some(slice_to_vec(s)))
        }
    }
}

/// Copies a byte slice into an owned vector.
pub fn slice_to_vec(s: &[u8]) -> (r: Vec<u8>)
    ensures
        r@ == s@,
{
    let mut out: Vec<u8> = Vec::new();
    let mut i: usize = 0;
    while i < s.len()
        invariant
            i <= s@.len(),
            out@ == s@.take(i as int),
        decreases s@.len() - i,
    {
        out.push(s[i]);
        i = i + 1;
        proof {
            assert(s@.take(i as int) == s@.take(i - 1) + seq![s@[i - 1]]);
        }
    }
    proof {
        assert(s@.take(s@.len() as int) == s@);
    }
    out
}

/// ASCII-lowercases a byte.
pub open spec fn lower_byte(b: u8) -> u8 {
    if 65 <= b <= 90 {
        (b + 32) as u8
    } else {
        b
    }
}

/// ASCII-lowercase image of a byte string.
pub open spec fn lower_bytes(s: Seq<u8>) -> Seq<u8> {
    s.map_values(|b: u8| lower_byte(b))
}

/// Whether `s`, ASCII-lowercased, equals the three bytes given.
fn eq3_lower(s: &[u8], a: u8, b: u8, c: u8) -> (r: bool)
    ensures
        r == (lower_bytes(s@) == seq![a, b, c]),
{
    proof {
        assert(lower_bytes(s@).len() == s@.len());
    }
    if s.len() != 3 {
        return false;
    }
    let s0 = if 65 <= s[0] && s[0] <= 90 { s[0] + 32 } else { s[0] };
    let s1 = if 65 <= s[1] && s[1] <= 90 { s[1] + 32 } else { s[1] };
    let s2 = if 65 <= s[2] && s[2] <= 90 { s[2] + 32 } else { s[2] };
    let r = s0 == a && s1 == b && s2 == c;
    proof {
        assert(lower_bytes(s@)[0] == lower_byte(s@[0]));
        assert(lower_bytes(s@)[1] == lower_byte(s@[1]));
        assert(lower_bytes(s@)[2] == lower_byte(s@[2]));
        if r {
            assert(lower_bytes(s@) =~= seq![a, b, c]);
        }
    }
    r
}

impl MapFormat {
    /// Reads the `--type` value: `csv`, `tsv` or `png`, case-insensitively.
    pub fn from_str(s: &[u8]) -> (r: Result<Self, FromStrErr>)
        ensures
            lower_bytes(s@) == seq![99u8, 115u8, 118u8] ==> r == Ok::<Self, FromStrErr>(
                MapFormat::Xsv(44u8),
            ),
            lower_bytes(s@) == seq![116u8, 115u8, 118u8] ==> r == Ok::<Self, FromStrErr>(
                MapFormat::Xsv(9u8),
            ),
            lower_bytes(s@) == seq![112u8, 110u8, 103u8] ==> r == Ok::<Self, FromStrErr>(
                MapFormat::Png,
            ),
            r is Err ==> r == Err::<Self, FromStrErr>(FromStrErr::OneOf),
    {
        if eq3_lower(s, 99, 115, 118) {
            Ok(MapFormat::Xsv(44))
        } else if eq3_lower(s, 116, 115, 118) {
            Ok(MapFormat::Xsv(9))
        } else if eq3_lower(s, 112, 110, 103) {
            Ok(MapFormat::Png)
        } else {
            Err(FromStrErr::OneOf)
        }
    }
}

impl OutputType {
    /// Reads the older `--type` value: `csv` or `png`, case-insensitively.
    pub fn from_str(s: &[u8]) -> (r: Result<Self, FromStrErr>)
        ensures
            lower_bytes(s@) == seq![99u8, 115u8, 118u8] ==> r == Ok::<Self, FromStrErr>(
                OutputType::Csv,
            ),
            lower_bytes(s@) == seq![112u8, 110u8, 103u8] ==> r == Ok::<Self, FromStrErr>(
                OutputType::Png,
            ),
            r is Err ==> r == Err::<Self, FromStrErr>(FromStrErr::OneOf),
    {
        if eq3_lower(s, 99, 115, 118) {
            Ok(OutputType::Csv)
        } else if eq3_lower(s, 112, 110, 103) {
            Ok(OutputType::Png)
        } else {
            Err(FromStrErr::OneOf)
        }
    }
}

impl MapOutput {
    /// Reads the `--out` value: `-` is standard output, anything else a path.
    pub fn from_str(s: &[u8]) -> (r: Self)
        ensures
            s@ == seq![45u8] ==> r is Stdout,
            s@ != seq![45u8] ==> (r matches MapOutput::File(p) && p@ == s@),
    {
        if s.len() == 1 && s[0] == 45 {
            proof {
                assert(s@ =~= seq![45u8]);
            }
            MapOutput::Stdout
        } else {
            proof {
                if s@.len() == 1 {
                    assert(s@ =~= seq![s@[0]]);
                }
            }
            MapOutput::File(slice_to_vec(s))
        }
    }
}

/// Whether a byte is an ASCII decimal digit.
pub open spec fn is_digit(b: u8) -> bool {
    48 <= b <= 57
}

/// Length of the maximal leading run of digits.
pub open spec fn digit_prefix_len(s: Seq<u8>) -> int
    decreases s.len(),
{
    if s.len() == 0 || !is_digit(s[0]) {
        0
    } else {
        1 + digit_prefix_len(s.drop_first())
    }
}

/// The number a run of digits spells, most significant first.
pub open spec fn digits_val(s: Seq<u8>) -> int
    decreases s.len(),
{
    if s.len() == 0 {
        0
    } else {
        digits_val(s.drop_last()) * 10 + (s.last() - 48)
    }
}

/// The grammar of a size override: `<n>w`, `<n>h`, `<w>x<h>`, or a decimal
/// percentage `<n>%` / `<n>.<f>%` (letters case-insensitively). Numbers out
/// of range are number errors; anything else is a shape error.
pub open spec fn size_override_spec(s: Seq<u8>) -> Result<SizeOverride, FromStrErr> {
    let k = digit_prefix_len(s);
    if k == 0 {
        Err(FromStrErr::Custom)
    } else {
        let n = digits_val(s.take(k));
        let rest = s.skip(k);
        if rest == seq![119u8] || rest == seq![87u8] {
            if n <= u32::MAX {
                Ok(SizeOverride::Width(n as u32))
            } else {
                Err(FromStrErr::ParseInt)
            }
        } else if rest == seq![104u8] || rest == seq![72u8] {
            if n <= u32::MAX {
                Ok(SizeOverride::Height(n as u32))
            } else {
                Err(FromStrErr::ParseInt)
            }
        } else if rest == seq![37u8] {
            if n <= u64::MAX {
                Ok(SizeOverride::Percent(n as u64, 0))
            } else {
                Err(FromStrErr::ParseFloat)
            }
        } else if rest.len() >= 1 && rest[0] == 46u8 {
            let k2 = digit_prefix_len(rest.drop_first());
            if k2 == 0 || rest.drop_first().skip(k2) != seq![37u8] {
                Err(FromStrErr::Custom)
            } else {
                let whole = digits_val(s.take(k) + rest.drop_first().take(k2));
                if k2 <= 18 && whole <= u64::MAX {
                    Ok(SizeOverride::Percent(whole as u64, k2 as u32))
                } else {
                    Err(FromStrErr::ParseFloat)
                }
            }
        } else if rest.len() >= 1 && (rest[0] == 120u8 || rest[0] == 88u8) {
            let k3 = digit_prefix_len(rest.drop_first());
            if k3 == 0 || rest.drop_first().skip(k3).len() != 0 {
                Err(FromStrErr::Custom)
            } else {
                let h = digits_val(rest.drop_first().take(k3));
                if n <= u32::MAX && h <= u32::MAX {
                    Ok(SizeOverride::Exact(n as u32, h as u32))
                } else {
                    Err(FromStrErr::ParseInt)
                }
            }
        } else {
            Err(FromStrErr::Custom)
        }
    }
}

/// The value of a digit run never shrinks as the run grows, and one more
/// digit multiplies it by ten.
proof fn lemma_digits_step(s: Seq<u8>, j: int)
    requires
        0 <= j < s.len(),
    ensures
        digits_val(s.take(j + 1)) == digits_val(s.take(j)) * 10 + (s[j] - 48),
{
    assert(s.take(j + 1).drop_last() =~= s.take(j));
    assert(s.take(j + 1).last() == s[j]);
}

/// Digit runs spell non-negative values.
proof fn lemma_digits_nonneg(s: Seq<u8>)
    requires
        forall|m: int| 0 <= m < s.len() ==> is_digit(#[trigger] s[m]),
    ensures
        digits_val(s) >= 0,
    decreases s.len(),
{
    if s.len() > 0 {
        assert(forall|m: int|
            0 <= m < s.drop_last().len() ==> is_digit(#[trigger] s.drop_last()[m]));
        lemma_digits_nonneg(s.drop_last());
    }
}

/// Once a digit run's value exceeds a bound, longer runs exceed it too.
proof fn lemma_digits_grow(s: Seq<u8>, j1: int, j2: int, bound: int)
    requires
        0 <= j1 <= j2 <= s.len(),
        forall|m: int| 0 <= m < s.len() ==> is_digit(#[trigger] s[m]),
        digits_val(s.take(j1)) > bound,
        bound >= 0,
    ensures
        digits_val(s.take(j2)) > bound,
    decreases j2 - j1,
{
    if j1 < j2 {
        lemma_digits_step(s, j1);
        assert(digits_val(s.take(j1 + 1)) > bound) by (nonlinear_arith)
            requires
                digits_val(s.take(j1 + 1)) == digits_val(s.take(j1)) * 10 + (s[j1] - 48),
                digits_val(s.take(j1)) > bound,
                bound >= 0,
                is_digit(s[j1]),
        ;
        lemma_digits_grow(s, j1 + 1, j2, bound);
    }
}

/// The digit prefix splits at any point whose bytes are all digits.
proof fn lemma_digit_prefix_split(s: Seq<u8>, j: int)
    requires
        0 <= j <= s.len(),
        forall|m: int| 0 <= m < j ==> is_digit(#[trigger] s[m]),
    ensures
        digit_prefix_len(s) == j + digit_prefix_len(s.skip(j)),
    decreases j,
{
    if j == 0 {
        assert(s.skip(0) =~= s);
    } else {
        assert(is_digit(s[0]));
        assert(forall|m: int|
            0 <= m < j - 1 ==> is_digit(#[trigger] s.drop_first()[m]));
        lemma_digit_prefix_split(s.drop_first(), j - 1);
        assert(s.drop_first().skip(j - 1) =~= s.skip(j));
    }
}

/// Reads the leading digit run of `s` starting at `from`: its length and,
/// when it fits, its value (`None` means the value exceeds the 64-bit
/// range).
fn scan_digits(s: &[u8], from: usize) -> (r: (usize, Option<u64>))
    requires
        from <= s@.len(),
    ensures
        r.0 == digit_prefix_len(s@.skip(from as int)),
        from + r.0 <= s@.len(),
        (match r.1 {
            Some(v) => v == digits_val(s@.skip(from as int).take(r.0 as int)),
            None => digits_val(s@.skip(from as int).take(r.0 as int)) > u64::MAX,
        }),
        forall|m: int|
            0 <= m < r.0 ==> is_digit(#[trigger] s@.skip(from as int)[m]),
{
    let ghost tail = s@.skip(from as int);
    let sl = s.len();
    let mut j: usize = 0;
    let mut acc: u64 = 0;
    let mut fits = true;
    while from + j < s.len() && s[from + j] >= 48 && s[from + j] <= 57
        invariant
            from + j <= s@.len() <= usize::MAX,
            sl == s@.len(),
            tail == s@.skip(from as int),
            j <= tail.len(),
            forall|m: int| 0 <= m < j ==> is_digit(#[trigger] tail[m]),
            fits ==> acc == digits_val(tail.take(j as int)),
            !fits ==> digits_val(tail.take(j as int)) > u64::MAX,
        decreases s@.len() - from - j,
    {
        let d = s[from + j] - 48;
        proof {
            assert(tail[j as int] == s@[from + j]);
            lemma_digits_step(tail, j as int);
            assert(forall|m: int|
                0 <= m < tail.take(j as int).len() ==> is_digit(
                    #[trigger] tail.take(j as int)[m],
                ));
            lemma_digits_nonneg(tail.take(j as int));
        }
        if fits {
            if acc > 0xffff_ffff_ffff_ffffu64 / 10 || (acc == 0xffff_ffff_ffff_ffffu64 / 10 && (d
                as u64) > 0xffff_ffff_ffff_ffffu64 % 10) {
                fits = false;
                proof {
                    assert(digits_val(tail.take(j + 1)) > u64::MAX) by (nonlinear_arith)
                        requires
                            digits_val(tail.take(j + 1)) == digits_val(tail.take(j as int)) * 10 + (
                            tail[j as int] - 48),
                            digits_val(tail.take(j as int)) == acc,
                            tail[j as int] - 48 == d,
                            acc > 0xffff_ffff_ffff_ffffu64 / 10 || (acc == 0xffff_ffff_ffff_ffffu64
                                / 10 && d > 0xffff_ffff_ffff_ffffu64 % 10),
                            acc >= 0,
                            0 <= d <= 9,
                    ;
                }
            } else {
                proof {
                    assert(acc * 10 + d <= u64::MAX) by (nonlinear_arith)
                        requires
                            0 <= acc,
                            0 <= d <= 9,
                            acc < 0xffff_ffff_ffff_ffffu64 / 10 || (acc == 0xffff_ffff_ffff_ffffu64
                                / 10 && d <= 0xffff_ffff_ffff_ffffu64 % 10),
                    ;
                }
                acc = acc * 10 + (d as u64);
            }
        } else {
            proof {
                assert(digits_val(tail.take(j + 1)) > u64::MAX) by (nonlinear_arith)
                    requires
                        digits_val(tail.take(j + 1)) == digits_val(tail.take(j as int)) * 10 + (
                        tail[j as int] - 48),
                        digits_val(tail.take(j as int)) > u64::MAX,
                        0 <= tail[j as int] - 48 <= 9,
                ;
            }
        }
        j = j + 1;
        proof {
            assert(tail.take(j as int) =~= tail.take(j - 1).push(tail[j - 1]));
        }
    }
    proof {
        lemma_digit_prefix_split(tail, j as int);
        if j < tail.len() {
            assert(tail[j as int] == s@[from + j]);
            assert(tail.skip(j as int)[0] == tail[j as int]);
            assert(!is_digit(tail.skip(j as int)[0]));
        } else {
            assert(tail.skip(j as int).len() == 0);
        }
        assert(digit_prefix_len(tail.skip(j as int)) == 0);
        assert(digit_prefix_len(tail) == j as int);
    }
    (j, if fits { Some(acc) } else { None })
}

impl SizeOverride {
    /// Reads the `--size` value per its grammar: `<n>w` and `<n>h` fix one
    /// axis, `<w>x<h>` fixes both, `<n>%` (with an optional decimal
    /// fraction) scales both.
    pub fn from_str(s: &[u8]) -> (r: Result<Self, FromStrErr>)
        ensures
            r == size_override_spec(s@),
    {
        let ghost sv = s@;
        proof {
            assert(sv.skip(0) =~= sv);
        }
        let (k, n_opt) = scan_digits(s, 0);
        if k == 0 {
            return Err(FromStrErr::Custom);
        }
        let ghost rest = sv.skip(k as int);
        proof {
            assert(sv.skip(0).take(k as int) =~= sv.take(k as int));
            assert(seq![119u8].len() == 1 && seq![119u8][0] == 119u8);
            assert(seq![87u8].len() == 1 && seq![87u8][0] == 87u8);
            assert(seq![104u8].len() == 1 && seq![104u8][0] == 104u8);
            assert(seq![72u8].len() == 1 && seq![72u8][0] == 72u8);
            assert(seq![37u8].len() == 1 && seq![37u8][0] == 37u8);
            if rest.len() >= 1 {
                assert(rest[0] == sv[k as int]);
            }
            if rest.len() == 1 {
                assert(rest =~= seq![sv[k as int]]);
            }
        }
        let rest_len = s.len() - k;
        if rest_len == 1 && (s[k] == 119 || s[k] == 87) {
            return match n_opt {
                Some(n) if n <= 0xffff_ffffu64 => Ok(SizeOverride::Width(n as u32)),
                _ => Err(FromStrErr::ParseInt),
            };
        }
        if rest_len == 1 && (s[k] == 104 || s[k] == 72) {
            return match n_opt {
                Some(n) if n <= 0xffff_ffffu64 => Ok(SizeOverride::Height(n as u32)),
                _ => Err(FromStrErr::ParseInt),
            };
        }
        if rest_len == 1 && s[k] == 37 {
            return match n_opt {
                Some(n) => Ok(SizeOverride::Percent(n, 0)),
                None => Err(FromStrErr::ParseFloat),
            };
        }
        if rest_len >= 1 && s[k] == 46 {
            proof {
                assert(rest[0] == sv[k as int]);
                assert(rest.drop_first() =~= sv.skip(k + 1));
            }
            let (k2, _) = scan_digits(s, k + 1);
            if k2 == 0 {
                return Err(FromStrErr::Custom);
            }
            let after = k + 1 + k2;
            proof {
                assert(sv.skip(k + 1).skip(k2 as int) =~= sv.skip(after as int));
            }
            if s.len() - after != 1 || s[after] != 37 {
                proof {
                    assert(seq![37u8].len() == 1 && seq![37u8][0] == 37u8);
                    if sv.skip(after as int).len() == 1 {
                        assert(sv.skip(after as int)[0] == sv[after as int]);
                    }
                    assert(sv.skip(k + 1).skip(k2 as int) != seq![37u8]);
                }
                return Err(FromStrErr::Custom);
            }
            proof {
                assert(sv.skip(after as int)[0] == sv[after as int]);
                assert(sv.skip(after as int) =~= seq![37u8]);
            }
            if k2 > 18 {
                return Err(FromStrErr::ParseFloat);
            }
            let (_, whole_opt) = scan_digits(s, 0);
            let ghost digits = sv.take(k as int) + sv.skip(k + 1).take(k2 as int);
            let whole2 = combine_digits(s, k, k2, n_opt);
            proof {
                assert(sv.skip(0).take(k as int) =~= sv.take(k as int));
            }
            return match whole2 {
                Some(w) => Ok(SizeOverride::Percent(w, k2 as u32)),
                None => Err(FromStrErr::ParseFloat),
            };
        }
        if rest_len >= 1 && (s[k] == 120 || s[k] == 88) {
            proof {
                assert(rest[0] == sv[k as int]);
                assert(rest.drop_first() =~= sv.skip(k + 1));
            }
            let (k3, h_opt) = scan_digits(s, k + 1);
            if k3 == 0 {
                return Err(FromStrErr::Custom);
            }
            let after = k + 1 + k3;
            proof {
                assert(sv.skip(k + 1).skip(k3 as int) =~= sv.skip(after as int));
            }
            if after != s.len() {
                return Err(FromStrErr::Custom);
            }
            return match (n_opt, h_opt) {
                (Some(n), Some(h)) if n <= 0xffff_ffffu64 && h <= 0xffff_ffffu64 => Ok(
                    SizeOverride::Exact(n as u32, h as u32),
                ),
                _ => Err(FromStrErr::ParseInt),
            };
        }
        proof {
            if rest.len() >= 1 {
                assert(rest[0] == sv[k as int]);
            }
            if rest.len() == 1 {
                assert(rest =~= seq![rest[0]]);
            }
        }
        Err(FromStrErr::Custom)
    }
}

/// Reads the combined whole-and-fraction digit run of a decimal percentage
/// (the digits before the dot at `0 .. k` and after it at
/// `k + 1 .. k + 1 + k2`), or `None` when it exceeds the 64-bit range.
fn combine_digits(s: &[u8], k: usize, k2: usize, n_opt: Option<u64>) -> (r: Option<u64>)
    requires
        0 < k,
        0 < k2,
        k + 1 + k2 <= s@.len(),
        forall|m: int| 0 <= m < k ==> is_digit(#[trigger] s@[m]),
        forall|m: int| 0 <= m < k2 ==> is_digit(#[trigger] s@.skip(k + 1)[m]),
        (match n_opt {
            Some(v) => v == digits_val(s@.take(k as int)),
            None => digits_val(s@.take(k as int)) > u64::MAX,
        }),
    ensures
        (match r {
            Some(v) => v == digits_val(s@.take(k as int) + s@.skip(k + 1).take(k2 as int)),
            None => digits_val(s@.take(k as int) + s@.skip(k + 1).take(k2 as int)) > u64::MAX,
        }),
{
    let ghost digits = s@.take(k as int) + s@.skip(k + 1).take(k2 as int);
    proof {
        assert(digits.len() == k + k2);
        assert(digits.take(k as int) =~= s@.take(k as int));
        assert(forall|m: int| 0 <= m < digits.len() ==> is_digit(#[trigger] digits[m])) by {
            assert(forall|m: int|
                k <= m < digits.len() ==> digits[m] == s@.skip(k + 1)[m - k]);
        }
    }
    let mut acc: u64 = 0;
    let mut fits = match n_opt {
        Some(v) => {
            acc = v;
            true
        },
        None => false,
    };
    proof {
        if !fits {
            lemma_digits_grow(digits, k as int, (k + k2) as int, u64::MAX as int);
        }
    }
    let sl = s.len();
    let mut j: usize = 0;
    while j < k2
        invariant
            j <= k2,
            0 < k,
            sl == s@.len(),
            k + 1 + k2 <= s@.len() <= usize::MAX,
            digits == s@.take(k as int) + s@.skip(k + 1).take(k2 as int),
            digits.len() == k + k2,
            forall|m: int| 0 <= m < digits.len() ==> is_digit(#[trigger] digits[m]),
            fits ==> acc == digits_val(digits.take(k + j)),
            !fits ==> digits_val(digits.take(k + j)) > u64::MAX,
        decreases k2 - j,
    {
        proof {
            assert(digits[k + j] == s@.skip(k + 1)[j as int]);
            assert(s@.skip(k + 1)[j as int] == s@[k + 1 + j]);
            lemma_digits_step(digits, k + j);
            assert(forall|m: int|
                0 <= m < digits.take(k + j).len() ==> is_digit(#[trigger] digits.take(k + j)[m]));
            lemma_digits_nonneg(digits.take(k + j));
        }
        let d = s[k + 1 + j] - 48;
        if fits {
            if acc > 0xffff_ffff_ffff_ffffu64 / 10 || (acc == 0xffff_ffff_ffff_ffffu64 / 10 && (d
                as u64) > 0xffff_ffff_ffff_ffffu64 % 10) {
                fits = false;
                proof {
                    assert(digits_val(digits.take(k + j + 1)) > u64::MAX) by (nonlinear_arith)
                        requires
                            digits_val(digits.take(k + j + 1)) == digits_val(digits.take(k + j))
                                * 10 + (digits[k + j] - 48),
                            digits_val(digits.take(k + j)) == acc,
                            digits[k + j] - 48 == d,
                            acc > 0xffff_ffff_ffff_ffffu64 / 10 || (acc == 0xffff_ffff_ffff_ffffu64
                                / 10 && d > 0xffff_ffff_ffff_ffffu64 % 10),
                            acc >= 0,
                            0 <= d <= 9,
                    ;
                }
            } else {
                proof {
                    assert(acc * 10 + d <= u64::MAX) by (nonlinear_arith)
                        requires
                            0 <= acc,
                            0 <= d <= 9,
                            acc < 0xffff_ffff_ffff_ffffu64 / 10 || (acc == 0xffff_ffff_ffff_ffffu64
                                / 10 && d <= 0xffff_ffff_ffff_ffffu64 % 10),
                    ;
                }
                acc = acc * 10 + (d as u64);
            }
        } else {
            proof {
                assert(digits_val(digits.take(k + j + 1)) > u64::MAX) by (nonlinear_arith)
                    requires
                        digits_val(digits.take(k + j + 1)) == digits_val(digits.take(k + j)) * 10
                            + (digits[k + j] - 48),
                        digits_val(digits.take(k + j)) > u64::MAX,
                        0 <= digits[k + j] - 48 <= 9,
                ;
            }
        }
        j = j + 1;
    }
    proof {
        assert(digits.take(digits.len() as int) == digits);
    }
    if fits {
        Some(acc)
    } else {
        None
    }
}

/// The index of the last occurrence of `b`, or `-1`.
pub open spec fn last_pos(s: Seq<u8>, b: u8) -> int
    decreases s.len(),
{
    if s.len() == 0 {
        -1
    } else if s.last() == b {
        s.len() - 1
    } else {
        last_pos(s.drop_last(), b)
    }
}

/// The extension of a path, as the standard library reads it: the part of
/// the final component after its last dot, unless the only dot leads the
/// component.
pub open spec fn ext_spec(p: Seq<u8>) -> Option<Seq<u8>> {
    let comp = p.skip(last_pos(p, 47) + 1);
    let d = last_pos(comp, 46);
    if d <= 0 {
        None
    } else {
        Some(comp.skip(d + 1))
    }
}

/// The format an extension selects: `png`, `csv`, `tsv` or `txt` (the last
/// two both delimited by tabs); anything else selects nothing.
pub open spec fn format_for_ext(e: Option<Seq<u8>>) -> Result<MapFormat, FromStrErr> {
    match e {
        None => Ok(MapFormat::Xsv(9u8)),
        Some(x) => if x == seq![112u8, 110u8, 103u8] {
            Ok(MapFormat::Png)
        } else if x == seq![99u8, 115u8, 118u8] {
            Ok(MapFormat::Xsv(44u8))
        } else if x == seq![116u8, 115u8, 118u8] || x == seq![116u8, 120u8, 116u8] {
            Ok(MapFormat::Xsv(9u8))
        } else {
            Err(FromStrErr::OneOf)
        },
    }
}

/// Finds the last occurrence of `b`.
fn find_last(s: &[u8], b: u8) -> (r: Option<usize>)
    ensures
        (match r {
            Some(i) => i < s@.len() && last_pos(s@, b) == i,
            None => last_pos(s@, b) == -1,
        }),
{
    let mut i = s.len();
    proof {
        assert(s@.take(s@.len() as int) == s@);
    }
    while i > 0
        invariant
            i <= s@.len() <= usize::MAX,
            last_pos(s@, b) == last_pos(s@.take(i as int), b),
        decreases i,
    {
        if s[i - 1] == b {
            proof {
                assert(s@.take(i as int).last() == s@[i - 1]);
            }
            return Some(i - 1);
        }
        i = i - 1;
        proof {
            assert(s@.take(i + 1).last() == s@[i as int]);
            assert(s@.take(i + 1).drop_last() =~= s@.take(i as int));
        }
    }
    proof {
        assert(s@.take(0).len() == 0);
    }
    None
}

/// Whether a byte slice spells exactly the three bytes given.
fn eq3(s: &[u8], a: u8, b: u8, c: u8) -> (r: bool)
    ensures
        r == (s@ == seq![a, b, c]),
{
    let r = s.len() == 3 && s[0] == a && s[1] == b && s[2] == c;
    proof {
        assert(seq![a, b, c].len() == 3);
        assert(seq![a, b, c][0] == a && seq![a, b, c][1] == b && seq![a, b, c][2] == c);
        if r {
            assert(s@ =~= seq![a, b, c]);
        }
    }
    r
}

impl GenerateOpts {
    /// The output format of this pass: the explicit `--type` value, or —
    /// with none given — tab-delimited text for standard output and the
    /// format the output file's extension selects.
    pub fn ty(&self) -> (r: Result<MapFormat, FromStrErr>)
        ensures
            self.ty matches Some(t) ==> r == Ok::<MapFormat, FromStrErr>(t),
            self.ty is None ==> r == (match self.out {
                MapOutput::Stdout => Ok::<MapFormat, FromStrErr>(MapFormat::Xsv(9u8)),
                MapOutput::File(p) => format_for_ext(ext_spec(p@)),
            }),
    {
        match &self.ty {
            Some(t) => Ok(*t),
            None => match &self.out {
                MapOutput::Stdout => Ok(MapFormat::Xsv(9)),
                MapOutput::File(p) => {
                    let ps = p.as_slice();
                    let pl = ps.len();
                    let start = match find_last(ps, 47) {
                        Some(i) => i + 1,
                        None => 0,
                    };
                    let comp = vstd::slice::slice_subrange(ps, start, ps.len());
                    proof {
                        assert(comp@ =~= p@.skip(last_pos(p@, 47) + 1));
                    }
                    match find_last(comp, 46) {
                        None => Ok(MapFormat::Xsv(9)),
                        Some(0) => Ok(MapFormat::Xsv(9)),
                        Some(d) => {
                            let ext = vstd::slice::slice_subrange(comp, d + 1, comp.len());
                            proof {
                                assert(ext@ =~= comp@.skip(d + 1));
                            }
                            if eq3(ext, 112, 110, 103) {
                                Ok(MapFormat::Png)
                            } else if eq3(ext, 99, 115, 118) {
                                Ok(MapFormat::Xsv(44))
                            } else if eq3(ext, 116, 115, 118) || eq3(ext, 116, 120, 116) {
                                Ok(MapFormat::Xsv(9))
                            } else {
                                Err(FromStrErr::OneOf)
                            }
                        },
                    }
                },
            },
        }
    }
}

impl Output {
    /// Reads the older `--out` value: `-` is standard output, anything else a
    /// path.
    pub fn from_str(s: &[u8]) -> (r: Self)
        ensures
            s@ == seq![45u8] ==> r is Stdout,
            s@ != seq![45u8] ==> (r matches Output::File(p) && p@ == s@),
    {
        if s.len() == 1 && s[0] == 45 {
            proof {
                assert(s@ =~= seq![45u8]);
            }
            Output::Stdout
        } else {
            proof {
                if s@.len() == 1 {
                    assert(s@ =~= seq![s@[0]]);
                }
            }
            Output::File(slice_to_vec(s))
        }
    }
}

} // verus!

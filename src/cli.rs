use vstd::prelude::*;
use vstd::utf8::encode_utf8;

use crate::StegError;

verus! {

/// Supported steganography encoding algorithms.
#[derive(Debug, Clone, Copy, PartialEq, Eq)]
pub enum StegMethod {
    /// Each message bit goes into the least significant bit of a channel value.
    LeastSignificantBit,
    /// Each message bit goes into one of the `n` least significant bits of a channel
    /// value, chosen by a seeded generator.
    RandomSignificantBit,
}

/// Supported bit distribution methods.
#[derive(Debug, Clone, Copy, PartialEq, Eq)]
pub enum BitDistribution {
    /// Bits go sequentially into the image, starting from the top-left pixel.
    Sequential,
    /// Bit groups are spread evenly over the image; `length` is the number of groups to
    /// read when decoding.
    Linear { length: usize },
}

/// A setting that makes the options unusable.
#[derive(Debug, Clone, Copy, PartialEq, Eq)]
pub enum ConfigError {
    /// Decoding with the linear distribution needs a group count of at least 1.
    LinearLength,
    /// Random significant bit encoding needs a non-empty seed.
    EmptySeed,
    /// Random significant bit encoding needs a highest bit from 1 to 4.
    MaxBit,
    /// Encryption needs a non-empty key.
    EmptyKey,
}

/// Options of one encoding or decoding.
#[derive(Debug, Clone)]
pub struct EncodeOpts {
    /// Decode a message from the image instead of encoding one.
    pub decode: bool,
    /// Encode/decode the payload with base64.
    pub base64: bool,
    /// Compress/decompress the payload.
    pub compress: bool,
    /// Encrypt/decrypt the payload with this key.
    pub key: Option<String>,
    /// Bit strategy (least significant bit by default).
    pub method: Option<StegMethod>,
    /// Bit distribution (sequential by default).
    pub distribution: Option<BitDistribution>,
    /// Seed for random significant bit encoding.
    pub seed: Option<String>,
    /// Highest bit that random significant bit encoding may modify.
    pub max_bit: Option<u8>,
}

/// Options of the `enc` command.
#[derive(Debug, Clone)]
pub struct Encode {
    pub opts: EncodeOpts,
    /// Only report the largest message that fits.
    pub check_max_length: bool,
    /// Output file; standard output if absent.
    pub output: Option<String>,
    /// Input file; standard input if absent.
    pub input: Option<String>,
    /// Cover image.
    pub image: String,
}

/// Options of the `disguise` command.
#[derive(Debug, Clone)]
pub struct Disguise {
    pub opts: EncodeOpts,
    /// Directory whose files are hidden or revealed.
    pub dir: String,
}

/// A command.
#[derive(Debug, Clone)]
pub enum Command {
    Encode(Encode),
    Disguise(Disguise),
}

/// Command line options.
#[derive(Debug, Clone)]
pub struct Opt {
    pub cmd: Command,
}

/// The first problem with the options, checked in this order: the linear group count when
/// decoding, the seed and highest bit of random significant bit encoding, the key.
pub open spec fn config_error(o: EncodeOpts) -> Option<ConfigError> {
    if o.decode && (o.distribution matches Some(BitDistribution::Linear { length }) && length < 1) {
        Some(ConfigError::LinearLength)
    } else if o.method == Some(StegMethod::RandomSignificantBit) && !(o.seed matches Some(s)
        && s@.len() > 0) {
        Some(ConfigError::EmptySeed)
    } else if o.method == Some(StegMethod::RandomSignificantBit) && !(o.max_bit matches Some(b) && 1
        <= b <= 4) {
        Some(ConfigError::MaxBit)
    } else if o.key matches Some(k) && k@.len() == 0 {
        Some(ConfigError::EmptyKey)
    } else {
        None
    }
}

fn is_empty_text(s: &Option<String>) -> (r: bool)
    ensures
        r == (s matches Some(t) && t@.len() == 0),
{
    match s {
        Some(t) => t.as_str().is_empty(),
        None => false,
    }
}

impl EncodeOpts {
    /// Checks the options before any image work.
    pub fn validate(&self) -> (r: Result<(), StegError>)
        ensures
            r == (match config_error(*self) {
                None => Ok::<(), StegError>(()),
                Some(c) => Err(StegError::InvalidConfiguration(c)),
            }),
    {
        if self.decode {
            if let Some(BitDistribution::Linear { length }) = self.distribution {
                if length < 1 {
                    return Err(StegError::InvalidConfiguration(ConfigError::LinearLength));
                }
            }
        }
        if let Some(StegMethod::RandomSignificantBit) = self.method {
            let seed_ok = match &self.seed {
                Some(s) => !s.as_str().is_empty(),
                None => false,
            };
            if !seed_ok {
                return Err(StegError::InvalidConfiguration(ConfigError::EmptySeed));
            }
            let bit_ok = match self.max_bit {
                Some(b) => 1 <= b && b <= 4,
                None => false,
            };
            if !bit_ok {
                return Err(StegError::InvalidConfiguration(ConfigError::MaxBit));
            }
        }
        if is_empty_text(&self.key) {
            return Err(StegError::InvalidConfiguration(ConfigError::EmptyKey));
        }
        Ok(())
    }
}

// ----- parsing option values -----

/// Index of the first '-' in `b` from `i` on, or `b.len()`.
pub open spec fn dash_from(b: Seq<u8>, i: int) -> int
    decreases b.len() - i,
{
    if i >= b.len() {
        b.len() as int
    } else if b[i] == 0x2d {
        i
    } else {
        dash_from(b, i + 1)
    }
}

/// `d` is a non-empty run of ASCII digits.
pub open spec fn all_digits(d: Seq<u8>) -> bool {
    d.len() > 0 && forall|i: int| 0 <= i < d.len() ==> 0x30 <= #[trigger] d[i] <= 0x39
}

/// The value of a run of ASCII digits, in decimal.
pub open spec fn decimal_value(d: Seq<u8>) -> nat
    decreases d.len(),
{
    if d.len() == 0 {
        0
    } else {
        decimal_value(d.drop_last()) * 10 + ((d.last() - 0x30) as nat)
    }
}

/// What `usize`'s `from_str` makes of `d`: digits, after at most one '+', whose value fits.
pub open spec fn parsed_usize(d: Seq<u8>) -> Option<usize> {
    let digits = if d.len() > 0 && d[0] == 0x2b {
        d.drop_first()
    } else {
        d
    };
    if all_digits(digits) && decimal_value(digits) <= usize::MAX {
        Some(decimal_value(digits) as usize)
    } else {
        None
    }
}

/// The method named by `b`: "lsb" or "rsb".
pub open spec fn method_named(b: Seq<u8>) -> Option<StegMethod> {
    if b == seq![0x6cu8, 0x73u8, 0x62u8] {
        Some(StegMethod::LeastSignificantBit)
    } else if b == seq![0x72u8, 0x73u8, 0x62u8] {
        Some(StegMethod::RandomSignificantBit)
    } else {
        None
    }
}

/// "sequential".
pub open spec fn sequential_word() -> Seq<u8> {
    seq![0x73u8, 0x65u8, 0x71u8, 0x75u8, 0x65u8, 0x6eu8, 0x74u8, 0x69u8, 0x61u8, 0x6cu8]
}

/// "linear".
pub open spec fn linear_word() -> Seq<u8> {
    seq![0x6cu8, 0x69u8, 0x6eu8, 0x65u8, 0x61u8, 0x72u8]
}

/// The distribution named by `b`: the text before the first '-' is "sequential" or
/// "linear"; for "linear", the text between the first and second '-' is the group count
/// (0 when there is no '-'). `None` for another name or a count that does not parse.
pub open spec fn distribution_named(b: Seq<u8>) -> Option<BitDistribution> {
    let d = dash_from(b, 0);
    let head = b.take(d);
    if head == sequential_word() {
        Some(BitDistribution::Sequential)
    } else if head == linear_word() {
        if d == b.len() {
            Some(BitDistribution::Linear { length: 0 })
        } else {
            match parsed_usize(b.subrange(d + 1, dash_from(b, d + 1))) {
                Some(n) => Some(BitDistribution::Linear { length: n }),
                None => None,
            }
        }
    } else {
        None
    }
}

fn same_bytes(a: &[u8], b: &[u8]) -> (r: bool)
    ensures
        r == (a@ == b@),
{
    if a.len() != b.len() {
        return false;
    }
    let mut i: usize = 0;
    while i < a.len()
        invariant
            a@.len() == b@.len(),
            i <= a@.len(),
            forall|k: int| 0 <= k < i ==> a@[k] == b@[k],
        decreases a@.len() - i,
    {
        if a[i] != b[i] {
            return false;
        }
        i = i + 1;
    }
    assert(a@ =~= b@);
    true
}

fn find_dash(b: &[u8], from: usize) -> (r: usize)
    requires
        from <= b@.len(),
    ensures
        r == dash_from(b@, from as int),
        from <= r <= b@.len(),
{
    let mut i = from;
    while i < b.len() && b[i] != 0x2d
        invariant
            from <= i <= b@.len(),
            dash_from(b@, i as int) == dash_from(b@, from as int),
        decreases b@.len() - i,
    {
        i = i + 1;
    }
    i
}

proof fn lemma_decimal_prefix(d: Seq<u8>, i: int)
    requires
        0 <= i <= d.len(),
    ensures
        decimal_value(d.take(i)) <= decimal_value(d),
    decreases d.len() - i,
{
    if i < d.len() {
        lemma_decimal_prefix(d, i + 1);
        assert(d.take(i + 1).drop_last() =~= d.take(i));
    } else {
        assert(d.take(i) =~= d);
    }
}

fn parse_usize(d: &[u8]) -> (r: Option<usize>)
    ensures
        r == parsed_usize(d@),
{
    let start: usize = if d.len() > 0 && d[0] == 0x2b { 1 } else { 0 };
    let ghost digits = d@.subrange(start as int, d@.len() as int);
    assert(digits =~= (if d@.len() > 0 && d@[0] == 0x2b { d@.drop_first() } else { d@ }));
    if start == d.len() {
        return None;
    }
    let mut v: usize = 0;
    let mut i: usize = start;
    while i < d.len()
        invariant
            start <= i <= d@.len(),
            start < d@.len(),
            digits == d@.subrange(start as int, d@.len() as int),
            digits == (if d@.len() > 0 && d@[0] == 0x2b { d@.drop_first() } else { d@ }),
            v == decimal_value(digits.take(i - start)),
            forall|k: int| 0 <= k < i - start ==> 0x30 <= #[trigger] digits[k] <= 0x39,
        decreases d@.len() - i,
    {
        let c = d[i];
        if c < 0x30 || c > 0x39 {
            assert(!(0x30 <= digits[i - start] <= 0x39));
            return None;
        }
        let digit: usize = (c - 0x30) as usize;
        proof {
            assert(digits.take(i - start + 1).drop_last() =~= digits.take(i - start));
        }
        if v > (usize::MAX - digit) / 10 {
            proof {
                lemma_decimal_prefix(digits, i - start + 1);
                assert(digits.take(i - start + 1).last() == c);
                assert(decimal_value(digits.take(i - start + 1)) == v * 10 + digit);
                assert(v * 10 + digit > usize::MAX);
            }
            return None;
        }
        v = v * 10 + digit;
        i = i + 1;
    }
    assert(digits.take(digits.len() as int) =~= digits);
    Some(v)
}

impl StegMethod {
    /// The names of the methods, as `parse` reads them.
    pub fn variants() -> (r: [&'static str; 2]) {
        ["lsb", "rsb"]
    }

    /// The method named by `text`: "lsb" or "rsb".
    pub fn parse(text: &str) -> (r: Option<StegMethod>)
        ensures
            r == method_named(encode_utf8(text@)),
    {
        let b = text.as_bytes();
        let lsb: Vec<u8> = vec![0x6cu8, 0x73u8, 0x62u8];
        let rsb: Vec<u8> = vec![0x72u8, 0x73u8, 0x62u8];
        assert(lsb@ =~= seq![0x6cu8, 0x73u8, 0x62u8]);
        assert(rsb@ =~= seq![0x72u8, 0x73u8, 0x62u8]);
        if same_bytes(b, lsb.as_slice()) {
            Some(StegMethod::LeastSignificantBit)
        } else if same_bytes(b, rsb.as_slice()) {
            Some(StegMethod::RandomSignificantBit)
        } else {
            None
        }
    }
}

impl BitDistribution {
    /// The distribution named by `text`: "sequential", "linear" or "linear-N".
    pub fn parse(text: &str) -> (r: Option<BitDistribution>)
        ensures
            r == distribution_named(encode_utf8(text@)),
    {
        let b = text.as_bytes();
        let d = find_dash(b, 0);
        let head = crate::crypto::slice_bytes(b, 0, d);
        let seq_word: Vec<u8> = vec![0x73u8, 0x65u8, 0x71u8, 0x75u8, 0x65u8, 0x6eu8, 0x74u8, 0x69u8, 0x61u8, 0x6cu8];
        let lin_word: Vec<u8> = vec![0x6cu8, 0x69u8, 0x6eu8, 0x65u8, 0x61u8, 0x72u8];
        assert(seq_word@ =~= sequential_word());
        assert(lin_word@ =~= linear_word());
        assert(head@ =~= b@.take(d as int));
        if same_bytes(head.as_slice(), seq_word.as_slice()) {
            Some(BitDistribution::Sequential)
        } else if same_bytes(head.as_slice(), lin_word.as_slice()) {
            if d == b.len() {
                Some(BitDistribution::Linear { length: 0 })
            } else {
                let e = find_dash(b, d + 1);
                let count = crate::crypto::slice_bytes(b, d + 1, e);
                match parse_usize(count.as_slice()) {
                    Some(n) => Some(BitDistribution::Linear { length: n }),
                    None => None,
                }
            }
        } else {
            None
        }
    }
}

} // verus!

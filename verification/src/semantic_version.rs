//! Semantic versions: a `major.minor.patch` triple that can be parsed from
//! text, compared, and printed back.

use vstd::prelude::*;
use vstd::string::StringSliceAdditionalSpecFns;

verus! {

/// The byte of the separating dot.
pub const DOT: u8 = 46;

/// The byte of an optional leading plus sign.
pub const PLUS: u8 = 43;

/// The position of the first dot at or after `from`, or the text length when
/// there is none.
pub open spec fn dot_after(t: Seq<u8>, from: int) -> int
    recommends
        0 <= from,
    decreases t.len() - from,
{
    if from >= t.len() {
        t.len() as int
    } else if t[from] == DOT {
        from
    } else {
        dot_after(t, from + 1)
    }
}

/// True of the ten decimal digit bytes.
pub open spec fn is_digit(b: u8) -> bool {
    48 <= b <= 57
}

/// The numeric value of a digit text, most significant digit first.
pub open spec fn digits_val(t: Seq<u8>) -> int
    decreases t.len(),
{
    if t.len() == 0 {
        0
    } else {
        digits_val(t.drop_last()) * 10 + (t.last() - 48)
    }
}

/// A number text with an optional leading plus sign removed.
pub open spec fn num_body(t: Seq<u8>) -> Seq<u8> {
    if t.len() > 0 && t[0] == PLUS {
        t.skip(1)
    } else {
        t
    }
}

/// True of the texts that parse as a `u32`: an optional plus sign, then one
/// or more decimal digits, with a value that fits.
pub open spec fn is_u32_text(t: Seq<u8>) -> bool {
    let d = num_body(t);
    &&& d.len() > 0
    &&& forall|i: int| 0 <= i < d.len() ==> is_digit(d[i])
    &&& digits_val(d) <= u32::MAX
}

/// The value of a number text.
pub open spec fn u32_text_val(t: Seq<u8>) -> int {
    digits_val(num_body(t))
}

/// The text before the first dot.
pub open spec fn major_part(t: Seq<u8>) -> Seq<u8> {
    t.subrange(0, dot_after(t, 0))
}

/// The text between the first and the second dot.
pub open spec fn minor_part(t: Seq<u8>) -> Seq<u8>
    recommends
        dot_after(t, 0) < t.len(),
{
    let d1 = dot_after(t, 0);
    t.subrange(d1 + 1, dot_after(t, d1 + 1))
}

/// The text between the second dot and the third dot or the end; anything
/// after a third dot is ignored.
pub open spec fn patch_part(t: Seq<u8>) -> Seq<u8>
    recommends
        dot_after(t, dot_after(t, 0) + 1) < t.len(),
{
    let d2 = dot_after(t, dot_after(t, 0) + 1);
    t.subrange(d2 + 1, dot_after(t, d2 + 1))
}

/// True of the texts `parse` accepts: at least three dot-separated
/// components, of which the first three are `u32` texts.
pub open spec fn semver_text_ok(t: Seq<u8>) -> bool {
    &&& dot_after(t, 0) < t.len()
    &&& dot_after(t, dot_after(t, 0) + 1) < t.len()
    &&& is_u32_text(major_part(t))
    &&& is_u32_text(minor_part(t))
    &&& is_u32_text(patch_part(t))
}

/// A semantic version. The field order gives the derived comparison order:
/// major first, then minor, then patch.
#[derive(Debug, PartialEq, Eq, PartialOrd, Ord, Clone, Copy, Structural)]
pub struct SemVer {
    pub major: u32,
    pub minor: u32,
    pub patch: u32,
}

/// The error a failed parse reports.
#[derive(Debug, PartialEq, Eq, Clone, Copy, Structural)]
pub enum SemVerErr {
    InvalidVersion,
}

impl SemVer {
    pub fn new(major: u32, minor: u32, patch: u32) -> (r: Self)
        ensures
            r == (SemVer { major, minor, patch }),
    {
        SemVer { major, minor, patch }
    }

    /// A target version is compatible when the major versions agree, and,
    /// below major version one, the minor versions agree as well.
    pub fn is_compatible_with(&self, target: &SemVer) -> (r: bool)
        ensures
            r == spec_compatible(*self, *target),
    {
        if self.major != target.major {
            false
        } else if self.major == 0 {
            self.minor == target.minor
        } else {
            true
        }
    }

    /// Parses `major.minor.patch` from text.
    ///
    /// The call succeeds exactly on the texts `semver_text_ok` accepts:
    /// three dot-separated `u32` components, components after the third
    /// ignored. Each component may carry a leading plus sign, as
    /// `str::parse::<u32>` allows.
    pub fn parse(s: &str) -> (r: Result<SemVer, SemVerErr>)
        ensures
            r is Ok <==> semver_text_ok(s.spec_bytes()),
            r matches Ok(v) ==> {
                &&& v.major == u32_text_val(major_part(s.spec_bytes()))
                &&& v.minor == u32_text_val(minor_part(s.spec_bytes()))
                &&& v.patch == u32_text_val(patch_part(s.spec_bytes()))
            },
            r matches Err(e) ==> e == SemVerErr::InvalidVersion,
    {
        let bytes = s.as_bytes();
        let n = bytes.len();
        let d1 = find_dot(bytes, 0);
        if d1 == n {
            return Err(SemVerErr::InvalidVersion);
        }
        let d2 = find_dot(bytes, d1 + 1);
        if d2 == n {
            return Err(SemVerErr::InvalidVersion);
        }
        let d3 = find_dot(bytes, d2 + 1);
        let major = match parse_number(bytes, 0, d1) {
            Some(v) => v,
            None => {
                return Err(SemVerErr::InvalidVersion);
            },
        };
        let minor = match parse_number(bytes, d1 + 1, d2) {
            Some(v) => v,
            None => {
                return Err(SemVerErr::InvalidVersion);
            },
        };
        let patch = match parse_number(bytes, d2 + 1, d3) {
            Some(v) => v,
            None => {
                return Err(SemVerErr::InvalidVersion);
            },
        };
        Ok(SemVer { major, minor, patch })
    }

    /// Prints the version as `major.minor.patch`.
    pub fn to_string(&self) -> (r: String)
        ensures
            r@ == display_bytes(*self).map_values(|b: u8| b as char),
    {
        let mut out: Vec<u8> = Vec::new();
        push_decimal(self.major, &mut out);
        out.push(DOT);
        push_decimal(self.minor, &mut out);
        out.push(DOT);
        push_decimal(self.patch, &mut out);
        proof {
            assert(out@ =~= display_bytes(*self));
            lemma_dec_rep_digits(self.major as int);
            lemma_dec_rep_digits(self.minor as int);
            lemma_dec_rep_digits(self.patch as int);
            let a = dec_rep(self.major as int);
            let b = dec_rep(self.minor as int);
            let c = dec_rep(self.patch as int);
            assert forall|j: int| 0 <= j < out@.len() implies out@[j] < 128 by {
                if j < a.len() {
                    assert(is_digit(a[j]));
                } else if j == a.len() {
                    assert(out@[j] == DOT);
                } else if j < a.len() + 1 + b.len() {
                    assert(is_digit(b[j - a.len() - 1]));
                } else if j == a.len() + 1 + b.len() {
                    assert(out@[j] == DOT);
                } else {
                    assert(is_digit(c[j - a.len() - b.len() - 2]));
                }
            }
        }
        crate::ascii::ascii_string(out)
    }

    pub fn is_stable(&self) -> (r: bool)
        ensures
            r == (self.major > 0),
    {
        self.major > 0
    }
}

/// What `is_compatible_with` decides.
pub open spec fn spec_compatible(v: SemVer, target: SemVer) -> bool {
    &&& v.major == target.major
    &&& (v.major == 0 ==> v.minor == target.minor)
}

/// The value of a digit text is never negative.
proof fn lemma_digits_val_nonneg(t: Seq<u8>)
    requires
        forall|i: int| 0 <= i < t.len() ==> is_digit(t[i]),
    ensures
        digits_val(t) >= 0,
    decreases t.len(),
{
    if t.len() > 0 {
        lemma_digits_val_nonneg(t.drop_last());
    }
}

/// The value of a prefix of a digit text never exceeds the whole value.
proof fn lemma_digits_val_prefix(t: Seq<u8>, k: int)
    requires
        0 <= k <= t.len(),
        forall|i: int| 0 <= i < t.len() ==> is_digit(t[i]),
    ensures
        digits_val(t.take(k)) <= digits_val(t),
    decreases t.len() - k,
{
    if k < t.len() {
        lemma_digits_val_prefix(t, k + 1);
        assert(t.take(k + 1).drop_last() =~= t.take(k));
        assert(t.take(k + 1).last() == t[k]);
        lemma_digits_val_nonneg(t.take(k));
    } else {
        assert(t.take(k) =~= t);
    }
}

/// The position of the first dot at or after `from`.
fn find_dot(t: &[u8], from: usize) -> (r: usize)
    requires
        from <= t@.len(),
    ensures
        r == dot_after(t@, from as int),
        from <= r <= t@.len(),
{
    let n = t.len();
    let mut i = from;
    while i < n
        invariant
            from <= i <= n,
            n == t@.len(),
            dot_after(t@, from as int) == dot_after(t@, i as int),
        decreases n - i,
    {
        if t[i] == DOT {
            return i;
        }
        i = i + 1;
    }
    i
}

/// Parses the text between `start` and `end` as a `u32`, as `str::parse`
/// would: an optional plus sign, then decimal digits, rejecting overflow.
fn parse_number(t: &[u8], start: usize, end: usize) -> (r: Option<u32>)
    requires
        start <= end <= t@.len(),
    ensures
        r is Some <==> is_u32_text(t@.subrange(start as int, end as int)),
        r matches Some(v) ==> v == u32_text_val(t@.subrange(start as int, end as int)),
{
    let ghost part = t@.subrange(start as int, end as int);
    let mut i = start;
    if i < end && t[i] == PLUS {
        i = i + 1;
    }
    let ghost dstart = i as int;
    let ghost d = t@.subrange(dstart, end as int);
    proof {
        assert(num_body(part) =~= d);
    }
    if i == end {
        return None;
    }
    let mut acc: u32 = 0;
    while i < end
        invariant
            0 <= dstart <= i <= end <= t@.len(),
            part == t@.subrange(start as int, end as int),
            d == t@.subrange(dstart, end as int),
            d == num_body(part),
            forall|j: int| 0 <= j < i - dstart ==> is_digit(d[j]),
            acc == digits_val(d.take(i - dstart)),
        decreases end - i,
    {
        let b = t[i];
        if b < 48 || b > 57 {
            proof {
                assert(!is_digit(d[i - dstart]));
            }
            return None;
        }
        let digit = b - 48;
        proof {
            assert(d.take(i - dstart + 1).drop_last() =~= d.take(i - dstart));
            assert(d.take(i - dstart + 1).last() == d[i - dstart]);
        }
        if acc > (u32::MAX - digit as u32) / 10 {
            proof {
                assert(digits_val(d.take(i - dstart + 1)) == acc * 10 + digit);
                assert(acc * 10 + digit > u32::MAX);
                if is_u32_text(part) {
                    lemma_digits_val_prefix(d, i - dstart + 1);
                    assert(false);
                }
            }
            return None;
        }
        acc = acc * 10 + digit as u32;
        i = i + 1;
    }
    proof {
        assert(d.take(end - dstart) =~= d);
    }
    Some(acc)
}

/// The decimal digit text of a number, most significant digit first.
pub open spec fn dec_rep(n: int) -> Seq<u8>
    recommends
        n >= 0,
    decreases n,
{
    if n < 10 {
        seq![(48 + n) as u8]
    } else {
        dec_rep(n / 10) + seq![(48 + n % 10) as u8]
    }
}

/// The text `to_string` prints: the three numbers separated by dots.
pub open spec fn display_bytes(v: SemVer) -> Seq<u8> {
    dec_rep(v.major as int) + seq![DOT] + dec_rep(v.minor as int) + seq![DOT] + dec_rep(
        v.patch as int,
    )
}

/// Every byte of a decimal representation is a digit.
proof fn lemma_dec_rep_digits(n: int)
    requires
        n >= 0,
    ensures
        forall|i: int| 0 <= i < dec_rep(n).len() ==> is_digit(dec_rep(n)[i]),
    decreases n,
{
    if n >= 10 {
        lemma_dec_rep_digits(n / 10);
        assert forall|i: int| 0 <= i < dec_rep(n).len() implies is_digit(dec_rep(n)[i]) by {
            if i < dec_rep(n / 10).len() {
                assert(is_digit(dec_rep(n / 10)[i]));
            }
        }
    }
}

/// Appends the decimal digits of `n`.
fn push_decimal(n: u32, out: &mut Vec<u8>)
    ensures
        final(out)@ == old(out)@ + dec_rep(n as int),
    decreases n,
{
    if n < 10 {
        out.push(48 + (n as u8));
        proof {
            assert(out@ =~= old(out)@ + dec_rep(n as int));
        }
    } else {
        push_decimal(n / 10, out);
        out.push(48 + ((n % 10) as u8));
        proof {
            assert(out@ =~= old(out)@ + dec_rep(n as int));
        }
    }
}

impl Default for SemVer {
    /// The starting point of a new project: version `0.1.0`.
    fn default() -> (r: Self)
        ensures
            r == (SemVer { major: 0, minor: 1, patch: 0 }),
    {
        SemVer { major: 0, minor: 1, patch: 0 }
    }
}

} // verus!

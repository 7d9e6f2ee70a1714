use crate::grid::Bounds;
use vstd::prelude::*;
use vstd::std_specs::iter::IteratorSpec;
use vstd::string::StrSliceExecFns;

verus! {

/// `i` is the position of the first `c` in `s`.
pub open spec fn is_first_index(s: Seq<char>, c: char, i: int) -> bool {
    &&& 0 <= i < s.len()
    &&& s[i] == c
    &&& forall|j: int| 0 <= j < i ==> s[j] != c
}

/// What stands before and after the first `c` in `s`, if `c` occurs.
pub open spec fn split_at_first(s: Seq<char>, c: char) -> Option<(Seq<char>, Seq<char>)> {
    if exists|i: int| is_first_index(s, c, i) {
        let i = choose|i: int| is_first_index(s, c, i);
        Some((s.subrange(0, i), s.subrange(i + 1, s.len() as int)))
    } else {
        None
    }
}

/// A first position splits the text there, and nowhere else.
pub proof fn lemma_split_at_first(s: Seq<char>, c: char, i: int)
    requires
        is_first_index(s, c, i),
    ensures
        split_at_first(s, c) == Some((s.subrange(0, i), s.subrange(i + 1, s.len() as int))),
{
    let k = choose|k: int| is_first_index(s, c, k);
    assert(k == i) by {
        if k < i {
            assert(s[k] != c);
        } else if i < k {
            assert(s[i] != c);
        }
    }
}

/// A text without `c` is not split.
pub proof fn lemma_split_without(s: Seq<char>, c: char)
    requires
        forall|j: int| 0 <= j < s.len() ==> s[j] != c,
    ensures
        split_at_first(s, c) is None,
{
}

/// The pair of two parsed halves: both values if both halves parsed.
pub open spec fn both<T, E>(left: Result<T, E>, right: Result<T, E>) -> Option<(T, T)> {
    match (left, right) {
        (Ok(l), Ok(r)) => Some((l, r)),
        _ => None,
    }
}

/// `r` is an outcome of parsing the texts `left` and `right` with `parse`
/// and pairing the results.
pub open spec fn is_pair_of<T, E, P: Fn(&str) -> Result<T, E>>(
    parse: P,
    left: Seq<char>,
    right: Seq<char>,
    r: Option<(T, T)>,
) -> bool {
    exists|l: &str, m: &str, a: Result<T, E>, b: Result<T, E>|
        {
            &&& l@ == left
            &&& m@ == right
            &&& #[trigger] parse.ensures((l,), a)
            &&& #[trigger] parse.ensures((m,), b)
            &&& r == both(a, b)
        }
}

/// Position, counted in characters, of the first `c` in `s`.
pub fn find_first(s: &str, c: char) -> (r: Option<usize>)
    ensures
        match r {
            Some(i) => is_first_index(s@, c, i as int),
            None => forall|j: int| 0 <= j < s@.len() ==> s@[j] != c,
        },
{
    let n: usize = s.unicode_len();
    let mut rest = s.chars();
    let mut i: usize = 0;
    while i < n
        invariant
            n == s@.len(),
            i <= n,
            rest.remaining() == s@.skip(i as int),
            forall|j: int| 0 <= j < i ==> s@[j] != c,
        decreases n - i,
    {
        if rest.next().unwrap() == c {
            return Some(i);
        }
        i += 1;
    }
    None
}

/// Parses `s` as two values with `separator` between them: the text before
/// the first separator and the text after it are each handed to `parse`.
/// Gives the two values if there is a separator and both texts parse.
pub fn parse_pair<T, E, P: Fn(&str) -> Result<T, E>>(s: &str, separator: char, parse: P) -> (r:
    Option<(T, T)>)
    requires
        forall|t: &str| parse.requires((t,)),
    ensures
        match split_at_first(s@, separator) {
            Some((left, right)) => is_pair_of(parse, left, right, r),
            None => r is None,
        },
{
    match find_first(s, separator) {
        None => {
            proof {
                lemma_split_without(s@, separator);
            }
            None
        },
        Some(index) => {
            proof {
                lemma_split_at_first(s@, separator, index as int);
            }
            let n: usize = s.unicode_len();
            let left: &str = s.substring_char(0, index);
            let right: &str = s.substring_char(index + 1, n);
            let l = parse(left);
            let r = parse(right);
            let pair = match (l, r) {
                (Ok(l), Ok(r)) => Some((l, r)),
                _ => None,
            };
            pair
        },
    }
}

/// Why a text was refused as the size of an image.
#[derive(Clone, Copy, Debug, PartialEq, Eq, Structural)]
pub enum InputParseError {
    /// The separator is missing, or a side of it is not a number that fits
    /// the machine.
    Malformed,
    /// A side is zero, or the image has more pixels than can be counted.
    InvalidDimensions,
}

/// The value of a decimal digit, if `c` is one.
pub open spec fn digit_of(c: char) -> Option<nat> {
    if '0' <= c && c <= '9' {
        Some((c as nat - '0' as nat) as nat)
    } else {
        None
    }
}

/// Every character of `s` is a decimal digit.
pub open spec fn all_digits(s: Seq<char>) -> bool {
    forall|i: int| 0 <= i < s.len() ==> (#[trigger] digit_of(s[i])) is Some
}

/// The number that the digits `s` denote in base ten.
pub open spec fn decimal_value(s: Seq<char>) -> nat
    decreases s.len(),
{
    if s.len() == 0 {
        0
    } else {
        10 * decimal_value(s.drop_last()) + digit_of(s.last()).unwrap()
    }
}

/// The digits of an unsigned number: the text without a leading plus sign.
pub open spec fn unsigned_digits(s: Seq<char>) -> Seq<char> {
    if s.len() > 0 && s[0] == '+' {
        s.subrange(1, s.len() as int)
    } else {
        s
    }
}

/// The size that a text denotes: an optional plus sign and then one or more
/// decimal digits and nothing else, with a value that fits in `usize`.
pub open spec fn size_of(s: Seq<char>) -> Option<usize> {
    let digits = unsigned_digits(s);
    if digits.len() > 0 && all_digits(digits) && decimal_value(digits) <= usize::MAX {
        Some(decimal_value(digits) as usize)
    } else {
        None
    }
}

/// The image size that a text denotes: two sizes with an `x` between them,
/// both positive, with a product that fits in `usize`.
pub open spec fn bounds_of(s: Seq<char>) -> Result<Bounds, InputParseError> {
    match split_at_first(s, 'x') {
        None => Err(InputParseError::Malformed),
        Some((left, right)) => match (size_of(left), size_of(right)) {
            (Some(width), Some(height)) => if width > 0 && height > 0 && width * height
                <= usize::MAX {
                Ok(Bounds { width, height })
            } else {
                Err(InputParseError::InvalidDimensions)
            },
            _ => Err(InputParseError::Malformed),
        },
    }
}

/// A number is at least the number that its leading digits denote.
proof fn lemma_decimal_prefix(s: Seq<char>, k: int)
    requires
        0 <= k <= s.len(),
        all_digits(s),
    ensures
        decimal_value(s.subrange(0, k)) <= decimal_value(s),
    decreases s.len() - k,
{
    if k == s.len() {
        assert(s.subrange(0, k) =~= s);
    } else {
        lemma_decimal_prefix(s, k + 1);
        let longer = s.subrange(0, k + 1);
        assert(longer.drop_last() =~= s.subrange(0, k));
        assert(digit_of(s[k]) is Some);
    }
}

/// The value of the decimal digit `c`.
fn digit(c: char) -> (r: Option<usize>)
    ensures
        match r {
            Some(d) => digit_of(c) == Some(d as nat) && d <= 9,
            None => digit_of(c) is None,
        },
{
    match c {
        '0' => Some(0),
        '1' => Some(1),
        '2' => Some(2),
        '3' => Some(3),
        '4' => Some(4),
        '5' => Some(5),
        '6' => Some(6),
        '7' => Some(7),
        '8' => Some(8),
        '9' => Some(9),
        _ => None,
    }
}

/// Parses a size: an optional plus sign, then decimal digits.
pub fn parse_size(s: &str) -> (r: Result<usize, InputParseError>)
    ensures
        r == match size_of(s@) {
            Some(size) => Ok::<usize, InputParseError>(size),
            None => Err(InputParseError::Malformed),
        },
{
    let n: usize = s.unicode_len();
    let mut rest = s.chars();
    let mut i: usize = 0;
    if n > 0 && s.get_char(0) == '+' {
        let _ = rest.next();
        i = 1;
    }
    let first: usize = i;
    let ghost digits = unsigned_digits(s@);
    if first == n {
        return Err(InputParseError::Malformed);
    }
    let mut value: usize = 0;
    proof {
        assert(digits =~= s@.subrange(first as int, n as int));
    }
    while i < n
        invariant
            n == s@.len(),
            first <= i <= n,
            rest.remaining() == s@.skip(i as int),
            digits == unsigned_digits(s@),
            digits == s@.subrange(first as int, n as int),
            forall|j: int| 0 <= j < i - first ==> (#[trigger] digit_of(digits[j])) is Some,
            value == decimal_value(digits.subrange(0, i - first)),
        decreases n - i,
    {
        let ghost k = i - first;
        proof {
            assert(digits.subrange(0, k + 1).drop_last() =~= digits.subrange(0, k));
            assert(digits[k] == rest.remaining()[0]);
        }
        let d: usize = match digit(rest.next().unwrap()) {
            Some(d) => d,
            None => {
                return Err(InputParseError::Malformed);
            },
        };
        let next: Option<usize> = match value.checked_mul(10) {
            Some(scaled) => scaled.checked_add(d),
            None => None,
        };
        value = match next {
            Some(next) => next,
            None => {
                proof {
                    if all_digits(digits) {
                        lemma_decimal_prefix(digits, k + 1);
                    }
                }
                return Err(InputParseError::Malformed);
            },
        };
        i += 1;
    }
    proof {
        assert(digits.subrange(0, digits.len() as int) =~= digits);
    }
    Ok(value)
}

/// Parses the size of an image, written as width, `x`, height.
pub fn parse_bounds(s: &str) -> (r: Result<Bounds, InputParseError>)
    ensures
        r == bounds_of(s@),
        r matches Ok(bounds) ==> bounds.wf(),
{
    match parse_pair(s, 'x', parse_size) {
        None => Err(InputParseError::Malformed),
        Some((width, height)) => match Bounds::new(width, height) {
            Some(bounds) => Ok(bounds),
            None => Err(InputParseError::InvalidDimensions),
        },
    }
}

} // verus!

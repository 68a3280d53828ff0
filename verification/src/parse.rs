use vstd::prelude::*;

use crate::item::Item;

verus! {

/// Why an input text was rejected.  Each variant carries the 1-based
/// number of the offending line; the first line holds the item count
/// and the capacity, each later line one `value weight` pair.
#[derive(Clone, Copy, Debug, PartialEq, Eq, Structural)]
pub enum ParseError {
    /// the input is empty: there is no header line to read
    MissingHeader,
    /// a line holds fewer than the two required numbers
    MissingField(usize),
    /// a token is not a plain decimal number
    InvalidNumber(usize),
    /// a number does not fit the machine word
    Overflow(usize),
}

/// Blank characters that separate tokens within a line.
pub open spec fn is_space(b: u8) -> bool {
    b == 32 || b == 9 || b == 13 || b == 11 || b == 12
}

pub open spec fn is_digit(b: u8) -> bool {
    48 <= b <= 57
}

/// Position of the newline that ends the line starting at `i` (the
/// input's length if none follows).
pub open spec fn line_end(s: Seq<u8>, i: int) -> int
    decreases s.len() - i,
{
    if i >= s.len() {
        s.len() as int
    } else if s[i] == 10 {
        i
    } else {
        line_end(s, i + 1)
    }
}

pub proof fn lemma_line_end_bounds(s: Seq<u8>, i: int)
    requires
        i <= s.len(),
    ensures
        i <= line_end(s, i) <= s.len(),
    decreases s.len() - i,
{
    if i < s.len() && s[i] != 10 {
        lemma_line_end_bounds(s, i + 1);
    }
}

/// First non-blank position at or after `i` within the line `[i, b)`.
pub open spec fn skip_ws(s: Seq<u8>, i: int, b: int) -> int
    decreases b - i,
{
    if i >= b {
        b
    } else if is_space(s[i]) {
        skip_ws(s, i + 1, b)
    } else {
        i
    }
}

/// First blank position at or after `i` within `[i, b)`: the end of
/// the token starting at `i`.
pub open spec fn token_end(s: Seq<u8>, i: int, b: int) -> int
    decreases b - i,
{
    if i >= b {
        b
    } else if is_space(s[i]) {
        i
    } else {
        token_end(s, i + 1, b)
    }
}

pub proof fn lemma_token_end_bounds(s: Seq<u8>, i: int, b: int)
    requires
        i <= b,
    ensures
        i <= token_end(s, i, b) <= b,
    decreases b - i,
{
    if i < b && !is_space(s[i]) {
        lemma_token_end_bounds(s, i + 1, b);
    }
}

/// Numeric value of the decimal digits at `[a, b)`.
pub open spec fn digits_val(s: Seq<u8>, a: int, b: int) -> int
    decreases b - a,
{
    if a >= b {
        0
    } else {
        digits_val(s, a, b - 1) * 10 + (s[b - 1] - 48)
    }
}

pub open spec fn all_digits(s: Seq<u8>, a: int, b: int) -> bool {
    forall|j: int| a <= j < b ==> is_digit(#[trigger] s[j])
}

/// Value of the token at `[a, b)`, or nothing if it is not a plain
/// decimal number.
pub open spec fn token_nat(s: Seq<u8>, a: int, b: int) -> Option<int> {
    if a < b && all_digits(s, a, b) {
        Some(digits_val(s, a, b))
    } else {
        None
    }
}

/// Outcome of checking every token of a line, left to right.
pub enum TokenScan {
    AllGood,
    BadDigit,
    TooLarge,
}

/// Checks all tokens in `[i, le)` in order: the first one that is not
/// a number, or the first that exceeds the machine word, decides.
pub open spec fn scan_tokens(s: Seq<u8>, i: int, le: int) -> TokenScan
    decreases le - i,
{
    if i >= le {
        TokenScan::AllGood
    } else if is_space(s[i]) {
        scan_tokens(s, i + 1, le)
    } else {
        proof {
            lemma_token_end_bounds(s, i + 1, le);
        }
        let te = token_end(s, i, le);
        match token_nat(s, i, te) {
            Option::None => TokenScan::BadDigit,
            Option::Some(v) => if v > usize::MAX {
                TokenScan::TooLarge
            } else {
                scan_tokens(s, te, le)
            },
        }
    }
}

/// Number of tokens in `[i, le)`.
pub open spec fn count_tokens(s: Seq<u8>, i: int, le: int) -> int
    decreases le - i,
{
    if i >= le {
        0
    } else if is_space(s[i]) {
        count_tokens(s, i + 1, le)
    } else {
        proof {
            lemma_token_end_bounds(s, i + 1, le);
        }
        1 + count_tokens(s, token_end(s, i, le), le)
    }
}

/// Value of the `k`-th (0-based) token in `[i, le)`, taken as a
/// number (0 stands in for a token that is not one; the parser only
/// reads this after `scan_tokens` has accepted the line).
pub open spec fn nth_token_val(s: Seq<u8>, i: int, le: int, k: int) -> int
    decreases le - i,
{
    if i >= le {
        0
    } else if is_space(s[i]) {
        nth_token_val(s, i + 1, le, k)
    } else {
        proof {
            lemma_token_end_bounds(s, i + 1, le);
        }
        if k == 0 {
            match token_nat(s, i, token_end(s, i, le)) {
                Option::Some(v) => v,
                Option::None => 0,
            }
        } else {
            nth_token_val(s, token_end(s, i, le), le, k - 1)
        }
    }
}

/// The items described by the lines from position `i` on, or the
/// error of the first bad line (`lineno` numbers that line).
pub open spec fn spec_parse_items(s: Seq<u8>, i: int, lineno: int) -> Result<
    Seq<(int, int)>,
    ParseError,
>
    decreases s.len() - i,
{
    if i >= s.len() {
        Ok(Seq::empty())
    } else {
        proof {
            lemma_line_end_bounds(s, i);
        }
        let le = line_end(s, i);
        match scan_tokens(s, i, le) {
            TokenScan::BadDigit => Err(ParseError::InvalidNumber(lineno as usize)),
            TokenScan::TooLarge => Err(ParseError::Overflow(lineno as usize)),
            TokenScan::AllGood => if count_tokens(s, i, le) < 2 {
                Err(ParseError::MissingField(lineno as usize))
            } else {
                let item = (nth_token_val(s, i, le, 0), nth_token_val(s, i, le, 1));
                if le >= s.len() {
                    Ok(seq![item])
                } else {
                    match spec_parse_items(s, le + 1, lineno + 1) {
                        Ok(rest) => Ok(seq![item] + rest),
                        Err(e) => Err(e),
                    }
                }
            },
        }
    }
}

/// What `parse` returns on a given input: the capacity from the
/// header line's second number, and one `(value, weight)` pair per
/// following line; or the error of the first line that does not
/// conform.  The header's first number (the item count) is read and
/// ignored, as are any tokens beyond the first two of a line.
pub open spec fn spec_parse(s: Seq<u8>) -> Result<(int, Seq<(int, int)>), ParseError> {
    if s.len() == 0 {
        Err(ParseError::MissingHeader)
    } else {
        let le = line_end(s, 0);
        match scan_tokens(s, 0, le) {
            TokenScan::BadDigit => Err(ParseError::InvalidNumber(1)),
            TokenScan::TooLarge => Err(ParseError::Overflow(1)),
            TokenScan::AllGood => if count_tokens(s, 0, le) < 2 {
                Err(ParseError::MissingField(1))
            } else {
                let cap = nth_token_val(s, 0, le, 1);
                if le >= s.len() {
                    Ok((cap, Seq::empty()))
                } else {
                    match spec_parse_items(s, le + 1, 2) {
                        Ok(items) => Ok((cap, items)),
                        Err(e) => Err(e),
                    }
                }
            },
        }
    }
}

fn find_line_end(input: &Vec<u8>, i: usize) -> (r: usize)
    requires
        i <= input@.len(),
    ensures
        r == line_end(input@, i as int),
        i <= r <= input@.len(),
{
    let n = input.len();
    let mut j = i;
    while j < n && input[j] != 10
        invariant
            i <= j <= n,
            n == input@.len(),
            line_end(input@, j as int) == line_end(input@, i as int),
        decreases n - j,
    {
        j = j + 1;
    }
    j
}

fn skip_spaces(input: &Vec<u8>, i: usize, le: usize) -> (r: usize)
    requires
        i <= le <= input@.len(),
    ensures
        r == skip_ws(input@, i as int, le as int),
        i <= r <= le,
        r < le ==> !is_space(input@[r as int]),
{
    let mut j = i;
    while j < le && (input[j] == 32 || input[j] == 9 || input[j] == 13 || input[j] == 11 || input[j]
        == 12)
        invariant
            i <= j <= le,
            le <= input@.len(),
            skip_ws(input@, j as int, le as int) == skip_ws(input@, i as int, le as int),
        decreases le - j,
    {
        j = j + 1;
    }
    j
}

fn find_token_end(input: &Vec<u8>, i: usize, le: usize) -> (r: usize)
    requires
        i <= le <= input@.len(),
    ensures
        r == token_end(input@, i as int, le as int),
        i <= r <= le,
{
    let mut j = i;
    while j < le && !(input[j] == 32 || input[j] == 9 || input[j] == 13 || input[j] == 11
        || input[j] == 12)
        invariant
            i <= j <= le,
            le <= input@.len(),
            token_end(input@, j as int, le as int) == token_end(input@, i as int, le as int),
        decreases le - j,
    {
        j = j + 1;
    }
    j
}

/// The blank prefix of a region changes none of the token views.
proof fn lemma_token_specs_skip(s: Seq<u8>, i: int, le: int, k: int)
    requires
        0 <= i <= le,
    ensures
        scan_tokens(s, skip_ws(s, i, le), le) == scan_tokens(s, i, le),
        count_tokens(s, skip_ws(s, i, le), le) == count_tokens(s, i, le),
        nth_token_val(s, skip_ws(s, i, le), le, k) == nth_token_val(s, i, le, k),
    decreases le - i,
{
    if i < le && is_space(s[i]) {
        lemma_token_specs_skip(s, i + 1, le, k);
    }
}

/// Reads the first two numbers of the line `[ls, le)` after checking
/// every token on it, reporting the line's first defect (a token that
/// is not a number, one too large for the machine word, or fewer than
/// two tokens) against line number `lineno`.
fn parse_line(input: &Vec<u8>, ls: usize, le: usize, lineno: usize) -> (r: Result<
    (usize, usize),
    ParseError,
>)
    requires
        ls <= le <= input@.len(),
    ensures
        match r {
            Ok((v, w)) => scan_tokens(input@, ls as int, le as int) == TokenScan::AllGood
                && count_tokens(input@, ls as int, le as int) >= 2 && v == nth_token_val(
                input@,
                ls as int,
                le as int,
                0,
            ) && w == nth_token_val(input@, ls as int, le as int, 1),
            Err(e) => (scan_tokens(input@, ls as int, le as int) == TokenScan::BadDigit && e
                == ParseError::InvalidNumber(lineno)) || (scan_tokens(input@, ls as int, le as int)
                == TokenScan::TooLarge && e == ParseError::Overflow(lineno)) || (scan_tokens(
                input@,
                ls as int,
                le as int,
            ) == TokenScan::AllGood && count_tokens(input@, ls as int, le as int) < 2 && e
                == ParseError::MissingField(lineno)),
        },
{
    let ghost s = input@;
    let mut i = ls;
    let mut count: usize = 0;
    let mut v0: usize = 0;
    let mut v1: usize = 0;
    loop
        invariant
            ls <= i <= le <= input@.len(),
            s == input@,
            count <= i,
            scan_tokens(s, i as int, le as int) == scan_tokens(s, ls as int, le as int),
            count + count_tokens(s, i as int, le as int) == count_tokens(s, ls as int, le as int),
            count == 0 ==> nth_token_val(s, i as int, le as int, 0) == nth_token_val(
                s,
                ls as int,
                le as int,
                0,
            ) && nth_token_val(s, i as int, le as int, 1) == nth_token_val(
                s,
                ls as int,
                le as int,
                1,
            ),
            count == 1 ==> nth_token_val(s, i as int, le as int, 0) == nth_token_val(
                s,
                ls as int,
                le as int,
                1,
            ),
            count >= 1 ==> v0 == nth_token_val(s, ls as int, le as int, 0),
            count >= 2 ==> v1 == nth_token_val(s, ls as int, le as int, 1),
        ensures
            scan_tokens(s, ls as int, le as int) == TokenScan::AllGood,
            count == count_tokens(s, ls as int, le as int),
            count >= 1 ==> v0 == nth_token_val(s, ls as int, le as int, 0),
            count >= 2 ==> v1 == nth_token_val(s, ls as int, le as int, 1),
        decreases le - i,
    {
        proof {
            lemma_token_specs_skip(s, i as int, le as int, 0);
            lemma_token_specs_skip(s, i as int, le as int, 1);
        }
        let ts = skip_spaces(input, i, le);
        if ts >= le {
            break ;
        }
        let te = find_token_end(input, ts, le);
        assert(te > ts);
        // the token occupies [ts, te): digits only, accumulated with
        // an explicit cap so the value check is exact
        let mut j = ts;
        let mut acc: u128 = 0;
        let mut too_large = false;
        while j < te
            invariant
                ts <= j <= te,
                ts < le <= input@.len(),
                te == token_end(s, ts as int, le as int),
                te <= le,
                !is_space(s[ts as int]),
                scan_tokens(s, ts as int, le as int) == scan_tokens(s, ls as int, le as int),
                s == input@,
                forall|q: int| ts <= q < j ==> is_digit(#[trigger] s[q]),
                !too_large ==> acc == digits_val(s, ts as int, j as int) && acc <= usize::MAX,
                too_large ==> digits_val(s, ts as int, j as int) > usize::MAX,
            decreases te - j,
        {
            let b = input[j];
            if b < 48 || b > 57 {
                // a token with a stray character: the line is bad
                proof {
                    assert(!all_digits(s, ts as int, te as int));
                    assert(token_nat(s, ts as int, te as int) == Option::<int>::None);
                    assert(!is_space(s[ts as int]));
                    assert(scan_tokens(s, ts as int, le as int) == TokenScan::BadDigit);
                }
                return Err(ParseError::InvalidNumber(lineno));
            }
            if too_large {
            } else if acc > (usize::MAX as u128 - (b - 48) as u128) / 10 {
                proof {
                    assert(acc * 10 + (b - 48) > usize::MAX) by (nonlinear_arith)
                        requires
                            acc > (usize::MAX as u128 - (b - 48) as u128) / 10,
                            48 <= b <= 57,
                    ;
                }
                too_large = true;
            } else {
                proof {
                    assert(acc * 10 + (b - 48) <= usize::MAX) by (nonlinear_arith)
                        requires
                            acc <= (usize::MAX as u128 - (b - 48) as u128) / 10,
                            48 <= b <= 57,
                    ;
                }
                acc = acc * 10 + (b - 48) as u128;
            }
            j = j + 1;
        }
        assert(all_digits(s, ts as int, te as int));
        assert(token_nat(s, ts as int, te as int) == Option::Some(
            digits_val(s, ts as int, te as int),
        ));
        if too_large {
            return Err(ParseError::Overflow(lineno));
        }
        let v = acc as usize;
        assert(v == digits_val(s, ts as int, te as int));
        if count == 0 {
            v0 = v;
        } else if count == 1 {
            v1 = v;
        }
        count = count + 1;
        i = te;
    }
    if count < 2 {
        Err(ParseError::MissingField(lineno))
    } else {
        Ok((v0, v1))
    }
}

/// The items' `(value, weight)` pairs, as the parsing model lists
/// them.
pub open spec fn item_tuples(items: Seq<Item>) -> Seq<(int, int)> {
    Seq::new(items.len(), |k: int| (items[k].value as int, items[k].weight as int))
}

/// Parses the input text: a header line with the item count and the
/// capacity, then one line per item holding its value and weight.
/// Returns the capacity together with the items, each carrying its
/// 0-based input position as `index`; or the error the first bad
/// line earns (`spec_parse` states the exact outcome for every
/// input).
pub fn parse(input: &Vec<u8>) -> (r: Result<(usize, Vec<Item>), ParseError>)
    ensures
        match (r, spec_parse(input@)) {
            (Ok((cap, items)), Ok(sp)) => {
                &&& cap == sp.0
                &&& items@.len() == sp.1.len()
                &&& forall|k: int|
                    0 <= k < items@.len() ==> (#[trigger] items@[k]).index == k
                        && items@[k].value == sp.1[k].0 && items@[k].weight == sp.1[k].1
            },
            (Err(e), Err(se)) => e == se,
            _ => false,
        },
{
    let ghost s = input@;
    let n = input.len();
    if n == 0 {
        return Err(ParseError::MissingHeader);
    }
    let hle = find_line_end(input, 0);
    let capacity: usize;
    match parse_line(input, 0, hle, 1) {
        Ok(hv) => {
            // the header's first number is the declared item count,
            // which the solvers never consult
            capacity = hv.1;
        },
        Err(e) => {
            proof {
                assert(spec_parse(s) == Err::<(int, Seq<(int, int)>), ParseError>(e));
            }
            return Err(e);
        },
    }

    let mut items: Vec<Item> = Vec::new();
    if hle >= n {
        proof {
            assert(spec_parse(s) == Ok::<(int, Seq<(int, int)>), ParseError>(
                (capacity as int, Seq::empty()),
            ));
        }
        return Ok((capacity, items));
    }
    let mut start = hle + 1;
    let mut lineno: usize = 2;
    proof {
        assert(item_tuples(items@) =~= Seq::<(int, int)>::empty());
        assert(match spec_parse_items(s, start as int, lineno as int) {
            Ok(rest) => spec_parse(s) == Ok::<(int, Seq<(int, int)>), ParseError>(
                (capacity as int, item_tuples(items@) + rest),
            ) && item_tuples(items@) + rest =~= rest,
            Err(se) => spec_parse(s) == Err::<(int, Seq<(int, int)>), ParseError>(se),
        });
    }
    while start < n
        invariant
            s == input@,
            n == input@.len(),
            0 < start <= n,
            lineno == items@.len() + 2,
            items@.len() < start,
            forall|k: int| 0 <= k < items@.len() ==> (#[trigger] items@[k]).index == k,
            match spec_parse_items(s, start as int, lineno as int) {
                Ok(rest) => spec_parse(s) == Ok::<(int, Seq<(int, int)>), ParseError>(
                    (capacity as int, item_tuples(items@) + rest),
                ),
                Err(se) => spec_parse(s) == Err::<(int, Seq<(int, int)>), ParseError>(se),
            },
        decreases n - start,
    {
        let le = find_line_end(input, start);
        let v: usize;
        let w: usize;
        match parse_line(input, start, le, lineno) {
            Ok(vw) => {
                v = vw.0;
                w = vw.1;
            },
            Err(e) => {
                proof {
                    assert(spec_parse_items(s, start as int, lineno as int) == Err::<
                        Seq<(int, int)>,
                        ParseError,
                    >(e));
                }
                return Err(e);
            },
        }
        let ghost old_items = items@;
        items.push(Item { index: items.len(), value: v, weight: w });
        proof {
            let tup = (v as int, w as int);
            assert(item_tuples(items@) =~= item_tuples(old_items) + seq![tup]);
            if le >= n {
                assert(spec_parse_items(s, start as int, lineno as int) == Ok::<
                    Seq<(int, int)>,
                    ParseError,
                >(seq![tup]));
                assert(spec_parse_items(s, n as int, lineno as int + 1) == Ok::<
                    Seq<(int, int)>,
                    ParseError,
                >(Seq::empty()));
                assert(item_tuples(old_items) + seq![tup] =~= item_tuples(items@)
                    + Seq::<(int, int)>::empty());
            } else {
                match spec_parse_items(s, le + 1, lineno as int + 1) {
                    Ok(rest2) => {
                        assert(spec_parse_items(s, start as int, lineno as int) == Ok::<
                            Seq<(int, int)>,
                            ParseError,
                        >(seq![tup] + rest2));
                        assert(item_tuples(old_items) + (seq![tup] + rest2) =~= item_tuples(
                            items@,
                        ) + rest2);
                    },
                    Err(e2) => {
                        assert(spec_parse_items(s, start as int, lineno as int) == Err::<
                            Seq<(int, int)>,
                            ParseError,
                        >(e2));
                    },
                }
            }
        }
        start = if le < n {
            le + 1
        } else {
            n
        };
        lineno = lineno + 1;
    }
    proof {
        assert(spec_parse_items(s, start as int, lineno as int) == Ok::<
            Seq<(int, int)>,
            ParseError,
        >(Seq::empty()));
        assert(item_tuples(items@) + Seq::<(int, int)>::empty() =~= item_tuples(items@));
    }
    Ok((capacity, items))
}

} // verus!

//! The textual index list: comma-separated ordinals and inclusive ranges.

use std::collections::HashSet;
use vstd::prelude::*;
use vstd::std_specs::iter::IteratorSpec;

verus! {

broadcast use vstd::std_specs::hash::group_hash_axioms;

/// Why an index list was refused.
#[derive(Debug, Clone, Copy, PartialEq, Eq, Structural)]
pub enum ParseError {
    /// A token, or one bound of a range, is not an unsigned 32-bit decimal number.
    InvalidNumber,
    /// A range whose first bound is not smaller than its last.
    RangeNotAscending,
}

impl ParseError {
    /// The text of `message`.
    pub open spec fn text(&self) -> Seq<char> {
        match self {
            ParseError::InvalidNumber => "index is not an unsigned 32-bit number"@,
            ParseError::RangeNotAscending => "range begin value must be smaller than end value"@,
        }
    }

    /// One line that says what is wrong, for a person to read.
    pub fn message(&self) -> (s: String)
        ensures
            s@ == self.text(),
    {
        match self {
            ParseError::InvalidNumber => "index is not an unsigned 32-bit number".to_owned(),
            ParseError::RangeNotAscending => "range begin value must be smaller than end value".to_owned(),
        }
    }
}

/// Characters with the Unicode property `White_Space`.
pub open spec fn is_space(c: char) -> bool {
    let n = c as u32;
    ||| (0x9 <= n && n <= 0xd)
    ||| n == 0x20
    ||| n == 0x85
    ||| n == 0xa0
    ||| n == 0x1680
    ||| (0x2000 <= n && n <= 0x200a)
    ||| n == 0x2028
    ||| n == 0x2029
    ||| n == 0x202f
    ||| n == 0x205f
    ||| n == 0x3000
}

/// `s` without its leading white space.
pub open spec fn trim_start(s: Seq<char>) -> Seq<char>
    decreases s.len(),
{
    if s.len() > 0 && is_space(s.first()) {
        trim_start(s.drop_first())
    } else {
        s
    }
}

/// `s` without its trailing white space.
pub open spec fn trim_end(s: Seq<char>) -> Seq<char>
    decreases s.len(),
{
    if s.len() > 0 && is_space(s.last()) {
        trim_end(s.drop_last())
    } else {
        s
    }
}

/// `s` without white space at either end.
pub open spec fn trim(s: Seq<char>) -> Seq<char> {
    trim_end(trim_start(s))
}

/// The ten ASCII decimal digits.
pub open spec fn is_digit(c: char) -> bool {
    '0' <= c && c <= '9'
}

/// Whether `s` holds decimal digits only.
pub open spec fn all_digits(s: Seq<char>) -> bool {
    forall|i: int| 0 <= i < s.len() ==> is_digit(#[trigger] s[i])
}

/// The value of a run of decimal digits, most significant first.
pub open spec fn digits_value(s: Seq<char>) -> nat
    decreases s.len(),
{
    if s.len() == 0 {
        0
    } else {
        digits_value(s.drop_last()) * 10 + ((s.last() as u32 - '0' as u32) as nat)
    }
}

/// The number that `s` spells: an optional `+`, then one or more decimal
/// digits whose value fits in 32 bits. Anything else spells no number.
pub open spec fn number(s: Seq<char>) -> Option<u32> {
    let digits = if s.len() > 0 && s.first() == '+' {
        s.drop_first()
    } else {
        s
    };
    if digits.len() > 0 && all_digits(digits) && digits_value(digits) <= u32::MAX {
        Some(digits_value(digits) as u32)
    } else {
        None
    }
}

/// Position of the first `-` in `s`, or `s.len()` where there is none.
pub open spec fn first_dash(s: Seq<char>) -> int
    decreases s.len(),
{
    if s.len() == 0 || s.first() == '-' {
        0
    } else {
        1 + first_dash(s.drop_first())
    }
}

/// The inclusive bounds that one trimmed token stands for. A token with a
/// `-` is a range, cut at its first `-`; any other token is a single ordinal.
pub open spec fn token_bounds(tok: Seq<char>) -> Result<(u32, u32), ParseError> {
    let dash = first_dash(tok);
    if dash < tok.len() {
        match (number(tok.take(dash)), number(tok.skip(dash + 1))) {
            (Some(from), Some(to)) => if from < to {
                Ok((from, to))
            } else {
                Err(ParseError::RangeNotAscending)
            },
            _ => Err(ParseError::InvalidNumber),
        }
    } else {
        match number(tok) {
            Some(n) => Ok((n, n)),
            None => Err(ParseError::InvalidNumber),
        }
    }
}

/// The comma-separated fields of `s`. There is always at least one: the
/// empty text has one empty field.
pub open spec fn fields(s: Seq<char>) -> Seq<Seq<char>>
    decreases s.len(),
{
    if s.len() == 0 {
        seq![Seq::empty()]
    } else {
        let before = fields(s.drop_last());
        if s.last() == ',' {
            before.push(Seq::empty())
        } else {
            before.drop_last().push(before.last().push(s.last()))
        }
    }
}

/// All ordinals from `from` to `to`, both included.
pub open spec fn span(from: u32, to: u32) -> Set<u32> {
    Set::new(|i: u32| from <= i && i <= to)
}

/// The ordinals that a list of tokens selects: the union of what each
/// trimmed token stands for. The leftmost token that stands for nothing
/// decides the error.
pub open spec fn tokens_selection(tokens: Seq<Seq<char>>) -> Result<Set<u32>, ParseError>
    decreases tokens.len(),
{
    if tokens.len() == 0 {
        Ok(Set::empty())
    } else {
        match tokens_selection(tokens.drop_last()) {
            Err(e) => Err(e),
            Ok(chosen) => match token_bounds(trim(tokens.last())) {
                Err(e) => Err(e),
                Ok((from, to)) => Ok(chosen.union(span(from, to))),
            },
        }
    }
}

/// The ordinals that the index list `text` selects.
pub open spec fn selection(text: Seq<char>) -> Result<Set<u32>, ParseError> {
    tokens_selection(fields(text))
}

/// Whether the ordinal `k` lies within what the field `token` stands for.
pub open spec fn covers(token: Seq<char>, k: u32) -> bool {
    match token_bounds(trim(token)) {
        Ok((from, to)) => from <= k && k <= to,
        Err(_) => false,
    }
}

/// A list is accepted exactly when each of its fields stands for
/// something: one field that does not, wherever it is, has the whole list
/// refused.
pub proof fn lemma_selection_ok(tokens: Seq<Seq<char>>)
    ensures
        tokens_selection(tokens) is Ok <==> forall|j: int|
            0 <= j < tokens.len() ==> token_bounds(trim(#[trigger] tokens[j])) is Ok,
    decreases tokens.len(),
{
    if tokens.len() > 0 {
        let front = tokens.drop_last();
        lemma_selection_ok(front);
        if tokens_selection(tokens) is Ok {
            assert forall|j: int| 0 <= j < tokens.len() implies token_bounds(
                trim(#[trigger] tokens[j]),
            ) is Ok by {
                if j < front.len() {
                    assert(front[j] == tokens[j]);
                }
            }
        }
        if forall|j: int|
            0 <= j < tokens.len() ==> token_bounds(trim(#[trigger] tokens[j])) is Ok {
            assert forall|j: int| 0 <= j < front.len() implies token_bounds(
                trim(#[trigger] front[j]),
            ) is Ok by {
                assert(front[j] == tokens[j]);
            }
            assert(token_bounds(trim(tokens[tokens.len() - 1])) is Ok);
        }
    }
}

/// The selected set of an accepted list is the union of what its fields
/// stand for: an ordinal is in it exactly when some field covers it.
pub proof fn lemma_selection_members(tokens: Seq<Seq<char>>, k: u32)
    requires
        tokens_selection(tokens) is Ok,
    ensures
        tokens_selection(tokens)->Ok_0.contains(k) <==> exists|j: int|
            0 <= j < tokens.len() && covers(#[trigger] tokens[j], k),
    decreases tokens.len(),
{
    if tokens.len() > 0 {
        let front = tokens.drop_last();
        let n = tokens.len() - 1;
        lemma_selection_members(front, k);
        if tokens_selection(tokens)->Ok_0.contains(k) {
            if covers(tokens[n], k) {
            } else {
                let j = choose|j: int| 0 <= j < front.len() && covers(#[trigger] front[j], k);
                assert(covers(tokens[j], k));
            }
        }
        if exists|j: int| 0 <= j < tokens.len() && covers(#[trigger] tokens[j], k) {
            let j = choose|j: int| 0 <= j < tokens.len() && covers(#[trigger] tokens[j], k);
            if j < n {
                assert(covers(front[j], k));
            }
        }
    }
}

/// A field without a `-` that spells no number is refused.
pub proof fn lemma_not_a_number(tok: Seq<char>)
    requires
        forall|i: int| 0 <= i < tok.len() ==> tok[i] != '-',
        number(tok) is None,
    ensures
        token_bounds(tok) == Err::<(u32, u32), ParseError>(ParseError::InvalidNumber),
{
    lemma_first_dash(tok, tok.len() as int);
}

/// No field holds a comma.
pub proof fn lemma_fields_hold_no_comma(s: Seq<char>, j: int, i: int)
    requires
        0 <= j < fields(s).len(),
        0 <= i < fields(s)[j].len(),
    ensures
        fields(s)[j][i] != ',',
    decreases s.len(),
{
    if s.len() > 0 {
        let before = fields(s.drop_last());
        lemma_fields_nonempty(s.drop_last());
        if s.last() == ',' {
            if j < before.len() {
                lemma_fields_hold_no_comma(s.drop_last(), j, i);
            }
        } else {
            if j < before.len() - 1 {
                lemma_fields_hold_no_comma(s.drop_last(), j, i);
            } else if i < before.last().len() {
                lemma_fields_hold_no_comma(s.drop_last(), j, i);
            }
        }
    }
}

/// A text has at least one field.
pub proof fn lemma_fields_nonempty(s: Seq<char>)
    ensures
        fields(s).len() > 0,
    decreases s.len(),
{
    if s.len() > 0 {
        lemma_fields_nonempty(s.drop_last());
    }
}

/// Two numbers with a `-` between them are refused as a range when the
/// first is not smaller than the second.
pub proof fn lemma_descending_range(from: Seq<char>, to: Seq<char>)
    requires
        number(from) is Some,
        number(to) is Some,
        number(from)->0 >= number(to)->0,
    ensures
        token_bounds(from + seq!['-'] + to) == Err::<(u32, u32), ParseError>(
            ParseError::RangeNotAscending,
        ),
{
    let tok = from + seq!['-'] + to;
    assert forall|j: int| 0 <= j < from.len() implies tok[j] != '-' by {
        if from.first() == '+' {
            if j > 0 {
                assert(is_digit(from.drop_first()[j - 1]));
            }
        } else {
            assert(is_digit(from[j]));
        }
    }
    lemma_first_dash(tok, from.len() as int);
    assert(tok.take(from.len() as int) =~= from);
    assert(tok.skip(from.len() as int + 1) =~= to);
}

proof fn lemma_digits_prefix(s: Seq<char>, k: int)
    requires
        0 <= k <= s.len(),
    ensures
        digits_value(s.take(k)) <= digits_value(s),
    decreases s.len(),
{
    if k < s.len() {
        assert(s.drop_last().take(k) =~= s.take(k));
        lemma_digits_prefix(s.drop_last(), k);
    } else {
        assert(s.take(k) =~= s);
    }
}

proof fn lemma_first_dash(s: Seq<char>, i: int)
    requires
        0 <= i <= s.len(),
        forall|j: int| 0 <= j < i ==> s[j] != '-',
        i < s.len() ==> s[i] == '-',
    ensures
        first_dash(s) == i,
    decreases s.len(),
{
    if i > 0 {
        lemma_first_dash(s.drop_first(), i - 1);
    }
}

fn is_whitespace(c: char) -> (b: bool)
    ensures
        b == is_space(c),
{
    let n: u32 = c as u32;
    (0x9 <= n && n <= 0xd) || n == 0x20 || n == 0x85 || n == 0xa0 || n == 0x1680 || (0x2000 <= n
        && n <= 0x200a) || n == 0x2028 || n == 0x2029 || n == 0x202f || n == 0x205f || n == 0x3000
}

/// The characters of `text`, in order.
fn to_chars(text: &str) -> (chars: Vec<char>)
    ensures
        chars@ == text@,
{
    let mut chars: Vec<char> = Vec::new();
    for c in it: text.chars()
        invariant
            it.seq() == text@,
            chars@ == it.seq().take(it.index() as int),
    {
        chars.push(c);
    }
    chars
}

/// Bounds of what `trim` leaves of `s[lo..hi]`.
fn trim_bounds(s: &Vec<char>, lo: usize, hi: usize) -> (r: (usize, usize))
    requires
        lo <= hi <= s.len(),
    ensures
        lo <= r.0 <= r.1 <= hi,
        s@.subrange(r.0 as int, r.1 as int) == trim(s@.subrange(lo as int, hi as int)),
{
    let mut a: usize = lo;
    while a < hi && is_whitespace(s[a])
        invariant
            lo <= a <= hi <= s.len(),
            trim_start(s@.subrange(lo as int, hi as int)) == trim_start(
                s@.subrange(a as int, hi as int),
            ),
        decreases hi - a,
    {
        assert(s@.subrange(a as int, hi as int).drop_first() =~= s@.subrange(
            a as int + 1,
            hi as int,
        ));
        a += 1;
    }
    let mut b: usize = hi;
    while a < b && is_whitespace(s[b - 1])
        invariant
            a <= b <= hi <= s.len(),
            trim_end(s@.subrange(a as int, hi as int)) == trim_end(s@.subrange(a as int, b as int)),
        decreases b - a,
    {
        assert(s@.subrange(a as int, b as int).drop_last() =~= s@.subrange(
            a as int,
            b as int - 1,
        ));
        b -= 1;
    }
    (a, b)
}

/// The number that `s[lo..hi]` spells.
fn parse_number(s: &Vec<char>, lo: usize, hi: usize) -> (r: Option<u32>)
    requires
        lo <= hi <= s.len(),
    ensures
        r == number(s@.subrange(lo as int, hi as int)),
{
    let ghost whole = s@.subrange(lo as int, hi as int);
    let start: usize = if lo < hi && s[lo] == '+' {
        lo + 1
    } else {
        lo
    };
    let ghost digits = s@.subrange(start as int, hi as int);
    assert(digits =~= if whole.len() > 0 && whole.first() == '+' {
        whole.drop_first()
    } else {
        whole
    });
    if start == hi {
        return None;
    }
    let mut acc: u64 = 0;
    let mut i: usize = start;
    while i < hi
        invariant
            lo <= start <= i <= hi <= s.len(),
            whole == s@.subrange(lo as int, hi as int),
            digits == s@.subrange(start as int, hi as int),
            digits == if whole.len() > 0 && whole.first() == '+' {
                whole.drop_first()
            } else {
                whole
            },
            all_digits(digits.take(i - start)),
            acc == digits_value(digits.take(i - start)),
            acc <= u32::MAX,
        decreases hi - i,
    {
        let c = s[i];
        if !(c >= '0' && c <= '9') {
            assert(!is_digit(digits[i - start]));
            return None;
        }
        let d: u64 = (c as u32 - '0' as u32) as u64;
        let next: u64 = acc * 10 + d;
        proof {
            assert(digits.take(i + 1 - start).drop_last() =~= digits.take(i - start));
            assert(digits.take(i + 1 - start).last() == c);
        }
        if next > u32::MAX as u64 {
            proof {
                lemma_digits_prefix(digits, i + 1 - start);
            }
            return None;
        }
        acc = next;
        i += 1;
    }
    assert(digits.take(i - start) =~= digits);
    Some(acc as u32)
}

/// The bounds that the trimmed token `s[lo..hi]` stands for.
fn parse_token(s: &Vec<char>, lo: usize, hi: usize) -> (r: Result<(u32, u32), ParseError>)
    requires
        lo <= hi <= s.len(),
    ensures
        r == token_bounds(s@.subrange(lo as int, hi as int)),
{
    let ghost tok = s@.subrange(lo as int, hi as int);
    let mut dash: usize = lo;
    while dash < hi && s[dash] != '-'
        invariant
            lo <= dash <= hi <= s.len(),
            tok == s@.subrange(lo as int, hi as int),
            forall|j: int| 0 <= j < dash - lo ==> tok[j] != '-',
        decreases hi - dash,
    {
        dash += 1;
    }
    proof {
        lemma_first_dash(tok, dash - lo);
    }
    if dash < hi {
        assert(tok.take(dash - lo) =~= s@.subrange(lo as int, dash as int));
        assert(tok.skip(dash - lo + 1) =~= s@.subrange(dash as int + 1, hi as int));
        let from = parse_number(s, lo, dash);
        let to = parse_number(s, dash + 1, hi);
        match (from, to) {
            (Some(from), Some(to)) => if from < to {
                Ok((from, to))
            } else {
                Err(ParseError::RangeNotAscending)
            },
            _ => Err(ParseError::InvalidNumber),
        }
    } else {
        match parse_number(s, lo, hi) {
            Some(n) => Ok((n, n)),
            None => Err(ParseError::InvalidNumber),
        }
    }
}

/// Adds every ordinal from `from` to `to` to `set`.
fn insert_span(set: &mut HashSet<u32>, from: u32, to: u32)
    requires
        from <= to,
    ensures
        final(set)@ == old(set)@.union(span(from, to)),
{
    let mut i: u32 = from;
    set.insert(i);
    while i < to
        invariant
            from <= i <= to,
            set@ =~= old(set)@.union(span(from, i)),
        decreases to - i,
    {
        i += 1;
        set.insert(i);
    }
}

/// Adds to `set` what the field `s[lo..hi]` stands for, once trimmed.
fn add_field(s: &Vec<char>, lo: usize, hi: usize, set: &mut HashSet<u32>) -> (r: Result<
    (),
    ParseError,
>)
    requires
        lo <= hi <= s.len(),
    ensures
        match token_bounds(trim(s@.subrange(lo as int, hi as int))) {
            Ok((from, to)) => r is Ok && final(set)@ == old(set)@.union(span(from, to)),
            Err(e) => r == Err::<(), ParseError>(e) && final(set)@ == old(set)@,
        },
{
    let (a, b) = trim_bounds(s, lo, hi);
    match parse_token(s, a, b) {
        Ok((from, to)) => {
            insert_span(set, from, to);
            Ok(())
        },
        Err(e) => Err(e),
    }
}

/// What the scan of an index list has found so far.
spec fn outcome(failed: Option<ParseError>, chosen: Set<u32>) -> Result<
    Set<u32>,
    ParseError,
> {
    match failed {
        Some(e) => Err(e),
        None => Ok(chosen),
    }
}

/// Reads an index list: fields separated by `,`, each trimmed of white
/// space, each either one ordinal or a range `A-B` with `A < B`.
pub fn parse_selection(text: &str) -> (r: Result<HashSet<u32>, ParseError>)
    ensures
        match selection(text@) {
            Ok(chosen) => r is Ok && r->Ok_0@ == chosen,
            Err(e) => r == Err::<HashSet<u32>, ParseError>(e),
        },
{
    let s = to_chars(text);
    let mut set: HashSet<u32> = HashSet::new();
    let mut failed: Option<ParseError> = None;
    let ghost mut done: Seq<Seq<char>> = Seq::empty();
    let mut start: usize = 0;
    let mut i: usize = 0;
    proof {
        assert(s@.take(0).len() == 0);
        assert(s@.subrange(0, 0) =~= Seq::<char>::empty());
        assert(seq![Seq::<char>::empty()] =~= done.push(Seq::<char>::empty()));
    }
    while i < s.len()
        invariant
            start <= i <= s.len(),
            s@ == text@,
            fields(s@.take(i as int)) == done.push(s@.subrange(start as int, i as int)),
            tokens_selection(done) == outcome(failed, set@),
        decreases s.len() - i,
    {
        proof {
            let cur = s@.subrange(start as int, i as int);
            assert(s@.take(i + 1).drop_last() =~= s@.take(i as int));
            assert(done.push(cur).drop_last() =~= done);
            assert(cur.push(s@[i as int]) =~= s@.subrange(start as int, i as int + 1));
        }
        if s[i] == ',' {
            if failed.is_none() {
                match add_field(&s, start, i, &mut set) {
                    Ok(()) => {},
                    Err(e) => {
                        failed = Some(e);
                    },
                }
            }
            proof {
                done = done.push(s@.subrange(start as int, i as int));
            }
            start = i + 1;
            assert(s@.subrange(start as int, i as int + 1) =~= Seq::<char>::empty());
        }
        i += 1;
    }
    proof {
        assert(s@.take(i as int) =~= s@);
        assert(done.push(s@.subrange(start as int, i as int)).drop_last() =~= done);
    }
    if failed.is_none() {
        match add_field(&s, start, i, &mut set) {
            Ok(()) => {},
            Err(e) => {
                failed = Some(e);
            },
        }
    }
    match failed {
        Some(e) => Err(e),
        None => Ok(set),
    }
}

} // verus!

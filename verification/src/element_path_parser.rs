//! The path syntax parser: dot-separated bare keys, single-quoted keys, and
//! bracketed array indices (`[7]`) or the wildcard (`[_]`).  The grammar is
//! specified as a character-by-character state machine, and the parser is
//! proved to follow it exactly.

use vstd::prelude::*;
use crate::path::{ArrayIndex, Path, PathElement, PathElemModel, elems_view};
use crate::ext::string_push;

verus! {

/// Why a path string was rejected.
#[derive(Clone, Copy, Debug, PartialEq, Eq, Structural)]
pub enum ParseError {
    /// The input, or the element list it denotes, is empty.
    EmptyPath,
    /// A quote opened while a bare key was already being read.
    UnexpectedQuote,
    /// A quoted key closed without any content (`''`).
    EmptyQuotedKey,
    /// The input starts with a separator dot.
    PathStartsWithDot,
    /// A closing bracket appeared outside any bracketed index.
    UnexpectedClosingBracket,
    /// Bracket content is neither `_` nor a decimal index that fits.
    InvalidArrayIndex,
    /// The input ended inside a quoted key.
    UnclosedQuote,
    /// The input ended inside a bracketed index.
    UnclosedBracket,
}

/// The parser's state between two characters.
pub struct ParseState {
    /// The elements recognised so far.
    pub elems: Seq<PathElemModel>,
    /// The characters of the token being read.
    pub cur: Seq<char>,
    /// Whether the position is inside a quoted key.
    pub in_quotes: bool,
    /// Whether the position is inside a bracketed index.
    pub in_brackets: bool,
}

/// The state the parser starts from.
pub open spec fn init_state() -> ParseState {
    ParseState { elems: Seq::empty(), cur: Seq::empty(), in_quotes: false, in_brackets: false }
}

/// Whether every character is a decimal digit.
pub open spec fn all_digits(s: Seq<char>) -> bool {
    forall|i: int| 0 <= i < s.len() ==> '0' as u32 <= #[trigger] (s[i] as u32) <= '9' as u32
}

/// The value of a decimal digit string.
pub open spec fn digits_val(s: Seq<char>) -> int
    decreases s.len(),
{
    if s.len() == 0 {
        0
    } else {
        digits_val(s.drop_last()) * 10 + (s.last() as u32 - '0' as u32)
    }
}

/// The array index a bracket's content denotes: a non-empty digit string
/// whose value fits in `usize`; anything else is rejected.
pub open spec fn spec_index_of(s: Seq<char>) -> Option<usize> {
    if s.len() > 0 && all_digits(s) && digits_val(s) <= usize::MAX {
        Some(digits_val(s) as usize)
    } else {
        None
    }
}

/// One step of the parser: how one character transforms the state.
pub open spec fn spec_step(st: ParseState, c: char) -> Result<ParseState, ParseError> {
    if c == '\'' {
        if st.in_quotes {
            if st.cur.len() == 0 {
                Err(ParseError::EmptyQuotedKey)
            } else {
                Ok(
                    ParseState {
                        elems: st.elems.push(PathElemModel::Key(st.cur)),
                        cur: Seq::empty(),
                        in_quotes: false,
                        in_brackets: st.in_brackets,
                    },
                )
            }
        } else {
            if st.cur.len() > 0 {
                Err(ParseError::UnexpectedQuote)
            } else {
                Ok(
                    ParseState {
                        elems: st.elems,
                        cur: st.cur,
                        in_quotes: true,
                        in_brackets: st.in_brackets,
                    },
                )
            }
        }
    } else if c == '.' {
        if st.in_quotes {
            Ok(
                ParseState {
                    elems: st.elems,
                    cur: st.cur.push(c),
                    in_quotes: st.in_quotes,
                    in_brackets: st.in_brackets,
                },
            )
        } else if st.cur.len() > 0 {
            Ok(
                ParseState {
                    elems: st.elems.push(PathElemModel::Key(st.cur)),
                    cur: Seq::empty(),
                    in_quotes: st.in_quotes,
                    in_brackets: st.in_brackets,
                },
            )
        } else if st.elems.len() == 0 {
            Err(ParseError::PathStartsWithDot)
        } else {
            Ok(st)
        }
    } else if c == '[' {
        if st.in_quotes {
            Ok(
                ParseState {
                    elems: st.elems,
                    cur: st.cur.push(c),
                    in_quotes: st.in_quotes,
                    in_brackets: st.in_brackets,
                },
            )
        } else {
            Ok(
                ParseState {
                    elems: if st.cur.len() > 0 {
                        st.elems.push(PathElemModel::Key(st.cur))
                    } else {
                        st.elems
                    },
                    cur: Seq::empty(),
                    in_quotes: st.in_quotes,
                    in_brackets: true,
                },
            )
        }
    } else if c == ']' {
        if st.in_quotes {
            Ok(
                ParseState {
                    elems: st.elems,
                    cur: st.cur.push(c),
                    in_quotes: st.in_quotes,
                    in_brackets: st.in_brackets,
                },
            )
        } else if st.in_brackets {
            if st.cur == seq!['_'] {
                Ok(
                    ParseState {
                        elems: st.elems.push(PathElemModel::Ix(ArrayIndex::All)),
                        cur: Seq::empty(),
                        in_quotes: st.in_quotes,
                        in_brackets: false,
                    },
                )
            } else {
                match spec_index_of(st.cur) {
                    Some(ix) => Ok(
                        ParseState {
                            elems: st.elems.push(PathElemModel::Ix(ArrayIndex::Index(ix))),
                            cur: Seq::empty(),
                            in_quotes: st.in_quotes,
                            in_brackets: false,
                        },
                    ),
                    None => Err(ParseError::InvalidArrayIndex),
                }
            }
        } else {
            Err(ParseError::UnexpectedClosingBracket)
        }
    } else {
        Ok(
            ParseState {
                elems: st.elems,
                cur: st.cur.push(c),
                in_quotes: st.in_quotes,
                in_brackets: st.in_brackets,
            },
        )
    }
}

/// The parser's state after reading a whole string, character by character;
/// an error, once reached, stands.
pub open spec fn spec_run(st: ParseState, s: Seq<char>) -> Result<ParseState, ParseError>
    decreases s.len(),
{
    if s.len() == 0 {
        Ok(st)
    } else {
        match spec_run(st, s.drop_last()) {
            Ok(st2) => spec_step(st2, s.last()),
            Err(e) => Err(e),
        }
    }
}

/// What a path string denotes: empty input is rejected; after the last
/// character no quote or bracket may stay open; a trailing bare token becomes
/// a final key; the element list must not be empty.
pub open spec fn spec_parse(s: Seq<char>) -> Result<Seq<PathElemModel>, ParseError> {
    if s.len() == 0 {
        Err(ParseError::EmptyPath)
    } else {
        match spec_run(init_state(), s) {
            Err(e) => Err(e),
            Ok(st) => if st.in_quotes {
                Err(ParseError::UnclosedQuote)
            } else if st.in_brackets {
                Err(ParseError::UnclosedBracket)
            } else {
                let elems = if st.cur.len() > 0 {
                    st.elems.push(PathElemModel::Key(st.cur))
                } else {
                    st.elems
                };
                if elems.len() == 0 {
                    Err(ParseError::EmptyPath)
                } else {
                    Ok(elems)
                }
            },
        }
    }
}

pub proof fn lemma_run_snoc(st: ParseState, s: Seq<char>, i: int)
    requires
        0 <= i < s.len(),
    ensures
        spec_run(st, s.take(i + 1)) == match spec_run(st, s.take(i)) {
            Ok(st2) => spec_step(st2, s[i]),
            Err(e) => Err(e),
        },
{
    assert(s.take(i + 1).drop_last() =~= s.take(i));
    assert(s.take(i + 1).last() == s[i]);
}

pub proof fn lemma_run_err_extends(st: ParseState, s: Seq<char>, i: int)
    requires
        0 <= i <= s.len(),
        spec_run(st, s.take(i)) is Err,
    ensures
        spec_run(st, s) == spec_run(st, s.take(i)),
    decreases s.len() - i,
{
    if i == s.len() {
        assert(s.take(i) =~= s);
    } else {
        lemma_run_snoc(st, s, i);
        lemma_run_err_extends(st, s, i + 1);
    }
}

/// The characters of a string, in order.
fn chars_of(s: &str) -> (v: Vec<char>)
    ensures
        v@ == s@,
{
    broadcast use vstd::string::axiom_spec_iter, vstd::string::next_postcondition;

    let mut it = s.chars();
    let mut v: Vec<char> = Vec::new();
    loop
        invariant
            v@ + vstd::std_specs::iter::IteratorSpec::remaining(&it) == s@,
            vstd::std_specs::iter::IteratorSpec::decrease(&it) is Some,
        decreases vstd::std_specs::iter::IteratorSpec::decrease(&it)->Some_0,
    {
        match it.next() {
            Some(c) => {
                v.push(c);
            },
            None => {
                proof {
                    assert(v@ =~= s@);
                }
                return v;
            },
        }
    }
}

/// A string holding exactly the given characters.
fn chars_to_string(v: &Vec<char>) -> (s: String)
    ensures
        s@ == v@,
{
    let mut out = String::new();
    let n = v.len();
    for i in 0..n
        invariant
            n == v.len(),
            out@ == v@.take(i as int),
    {
        string_push(&mut out, v[i]);
        proof {
            assert(v@.take(i + 1) =~= v@.take(i as int).push(v@[i as int]));
        }
    }
    proof {
        assert(v@.take(n as int) =~= v@);
    }
    out
}

proof fn lemma_digits_val_bounds(s: Seq<char>)
    requires
        all_digits(s),
    ensures
        digits_val(s) >= 0,
    decreases s.len(),
{
    if s.len() > 0 {
        assert(all_digits(s.drop_last()));
        lemma_digits_val_bounds(s.drop_last());
        assert(digits_val(s.drop_last()) * 10 >= 0) by (nonlinear_arith)
            requires
                digits_val(s.drop_last()) >= 0,
        ;
    }
}

proof fn lemma_digits_val_mono(s: Seq<char>, j: int)
    requires
        all_digits(s),
        0 <= j <= s.len(),
    ensures
        digits_val(s.take(j)) <= digits_val(s),
    decreases s.len() - j,
{
    if j < s.len() {
        assert(all_digits(s.take(j + 1)));
        assert(s.take(j + 1).drop_last() =~= s.take(j));
        assert(digits_val(s.take(j + 1)) == digits_val(s.take(j)) * 10 + (s[j] as u32 - '0'
            as u32));
        assert(all_digits(s.take(j)));
        lemma_digits_val_bounds(s.take(j));
        assert(digits_val(s.take(j)) * 10 >= digits_val(s.take(j))) by (nonlinear_arith)
            requires
                digits_val(s.take(j)) >= 0,
        ;
        lemma_digits_val_mono(s, j + 1);
    } else {
        assert(s.take(j) =~= s);
    }
}

/// The array index the bracket content denotes, if any.
fn parse_index(cur: &Vec<char>) -> (r: Option<usize>)
    ensures
        r == spec_index_of(cur@),
{
    if cur.len() == 0 {
        return None;
    }
    let mut acc: usize = 0;
    let n = cur.len();
    for i in 0..n
        invariant
            n == cur.len(),
            n > 0,
            all_digits(cur@.take(i as int)),
            acc == digits_val(cur@.take(i as int)),
    {
        let u = cur[i] as u32;
        proof {
            assert(cur@.take(i + 1).drop_last() =~= cur@.take(i as int));
        }
        if u < '0' as u32 || u > '9' as u32 {
            proof {
                assert(!all_digits(cur@));
            }
            return None;
        }
        let d = (u - '0' as u32) as usize;
        if acc > (usize::MAX - d) / 10 {
            proof {
                assert(all_digits(cur@.take(i + 1)));
                assert(digits_val(cur@.take(i + 1)) == acc * 10 + d);
                assert(acc * 10 + d > usize::MAX) by (nonlinear_arith)
                    requires
                        acc > (usize::MAX - d) / 10,
                        0 <= d <= 9,
                ;
                if all_digits(cur@) {
                    lemma_digits_val_mono(cur@, i + 1);
                }
            }
            return None;
        }
        acc = acc * 10 + d;
        proof {
            assert(all_digits(cur@.take(i + 1)));
            assert(acc == digits_val(cur@.take(i + 1)));
        }
    }
    proof {
        assert(cur@.take(n as int) =~= cur@);
    }
    Some(acc)
}

/// Parse a path string into its elements.  The grammar and every rejection
/// are exactly those of [`spec_parse`]; a malformed input yields the error
/// that the first offending character causes.
pub fn parse_element_path(s: &str) -> (r: Result<Vec<PathElement>, ParseError>)
    ensures
        match r {
            Ok(p) => spec_parse(s@) == Ok::<Seq<PathElemModel>, ParseError>(elems_view(p@)),
            Err(e) => spec_parse(s@) == Err::<Seq<PathElemModel>, ParseError>(e),
        },
{
    let chars = chars_of(s);
    let n = chars.len();
    if n == 0 {
        return Err(ParseError::EmptyPath);
    }
    let mut result: Vec<PathElement> = Vec::new();
    let mut current: Vec<char> = Vec::new();
    let mut in_quotes = false;
    let mut in_brackets = false;
    proof {
        assert(s@.take(0) =~= Seq::<char>::empty());
        assert(elems_view(result@) =~= Seq::<PathElemModel>::empty());
    }
    for i in 0..n
        invariant
            n == chars@.len(),
            n > 0,
            chars@ == s@,
            spec_run(init_state(), s@.take(i as int)) == Ok::<ParseState, ParseError>(
                ParseState {
                    elems: elems_view(result@),
                    cur: current@,
                    in_quotes: in_quotes,
                    in_brackets: in_brackets,
                },
            ),
    {
        proof {
            lemma_run_snoc(init_state(), s@, i as int);
        }
        let c = chars[i];
        if c == '\'' {
            if in_quotes {
                if current.len() == 0 {
                    proof {
                        lemma_run_err_extends(init_state(), s@, i + 1);
                    }
                    return Err(ParseError::EmptyQuotedKey);
                }
                let key = chars_to_string(&current);
                result.push(PathElement::Key(key));
                current = Vec::new();
                in_quotes = false;
                proof {
                    assert(elems_view(result@) =~= spec_run(init_state(), s@.take(i + 1))->Ok_0.elems);
                }
            } else {
                if current.len() > 0 {
                    proof {
                        lemma_run_err_extends(init_state(), s@, i + 1);
                    }
                    return Err(ParseError::UnexpectedQuote);
                }
                in_quotes = true;
            }
        } else if c == '.' {
            if in_quotes {
                current.push(c);
            } else if current.len() > 0 {
                let key = chars_to_string(&current);
                result.push(PathElement::Key(key));
                current = Vec::new();
                proof {
                    assert(elems_view(result@) =~= spec_run(init_state(), s@.take(i + 1))->Ok_0.elems);
                }
            } else if result.len() == 0 {
                proof {
                    lemma_run_err_extends(init_state(), s@, i + 1);
                }
                return Err(ParseError::PathStartsWithDot);
            }
        } else if c == '[' {
            if in_quotes {
                current.push(c);
            } else {
                if current.len() > 0 {
                    let key = chars_to_string(&current);
                    result.push(PathElement::Key(key));
                    current = Vec::new();
                }
                in_brackets = true;
                proof {
                    assert(current@ =~= Seq::<char>::empty());
                    assert(elems_view(result@) =~= spec_run(init_state(), s@.take(i + 1))->Ok_0.elems);
                }
            }
        } else if c == ']' {
            if in_quotes {
                current.push(c);
            } else if in_brackets {
                if current.len() == 1 && current[0] == '_' {
                    proof {
                        assert(current@ =~= seq!['_']);
                    }
                    result.push(PathElement::ArrayIndex(ArrayIndex::All));
                    current = Vec::new();
                    in_brackets = false;
                    proof {
                        assert(elems_view(result@) =~= spec_run(init_state(), s@.take(i + 1))->Ok_0.elems);
                    }
                } else {
                    proof {
                        if current@ == seq!['_'] {
                            assert(current@.len() == 1 && current@[0] == '_');
                        }
                    }
                    match parse_index(&current) {
                        Some(ix) => {
                            result.push(PathElement::ArrayIndex(ArrayIndex::Index(ix)));
                            current = Vec::new();
                            in_brackets = false;
                            proof {
                                assert(elems_view(result@) =~= spec_run(init_state(), s@.take(i + 1))->Ok_0.elems);
                            }
                        },
                        None => {
                            proof {
                                lemma_run_err_extends(init_state(), s@, i + 1);
                            }
                            return Err(ParseError::InvalidArrayIndex);
                        },
                    }
                }
            } else {
                proof {
                    lemma_run_err_extends(init_state(), s@, i + 1);
                }
                return Err(ParseError::UnexpectedClosingBracket);
            }
        } else {
            current.push(c);
        }
    }
    proof {
        assert(s@.take(n as int) =~= s@);
    }
    if in_quotes {
        return Err(ParseError::UnclosedQuote);
    }
    if in_brackets {
        return Err(ParseError::UnclosedBracket);
    }
    if current.len() > 0 {
        let key = chars_to_string(&current);
        result.push(PathElement::Key(key));
    }
    if result.len() == 0 {
        return Err(ParseError::EmptyPath);
    }
    proof {
        assert(elems_view(result@) == spec_parse(s@)->Ok_0);
    }
    Ok(result)
}


/// The character of one decimal digit.
pub open spec fn spec_digit_char(d: int) -> char {
    if d == 0 { '0' } else if d == 1 { '1' } else if d == 2 { '2' } else if d == 3 { '3' }
    else if d == 4 { '4' } else if d == 5 { '5' } else if d == 6 { '6' } else if d == 7 { '7' }
    else if d == 8 { '8' } else { '9' }
}

/// The decimal digits of a non-negative number, most significant first.
pub open spec fn dec_digits(n: int) -> Seq<char>
    decreases n,
{
    if n < 10 {
        seq![spec_digit_char(if n < 0 { 0 } else { n })]
    } else {
        dec_digits(n / 10).push(spec_digit_char(n % 10))
    }
}

/// Whether a key must be quoted to round-trip: it holds a separator dot or a
/// bracket.
pub open spec fn key_needs_quotes(k: Seq<char>) -> bool {
    exists|i: int| 0 <= i < k.len() && ((#[trigger] k[i]) == '.' || k[i] == '[' || k[i] == ']')
}

/// The text of one path element: a key, quoted when it needs it, or a
/// bracketed index or wildcard.
pub open spec fn render_elem(e: PathElemModel) -> Seq<char> {
    match e {
        PathElemModel::Key(k) => if key_needs_quotes(k) {
            seq!['\''] + k + seq!['\'']
        } else {
            k
        },
        PathElemModel::Ix(ArrayIndex::Index(n)) => seq!['['] + dec_digits(n as int) + seq![']'],
        PathElemModel::Ix(ArrayIndex::All) => seq!['[', '_', ']'],
    }
}

/// The text of a path: its elements joined by separator dots.
pub open spec fn spec_render(p: Seq<PathElemModel>) -> Seq<char>
    decreases p.len(),
{
    if p.len() == 0 {
        Seq::empty()
    } else if p.len() == 1 {
        render_elem(p[0])
    } else {
        spec_render(p.drop_last()) + seq!['.'] + render_elem(p.last())
    }
}

/// The character of one decimal digit.
fn digit_char(d: usize) -> (c: char)
    requires
        d < 10,
    ensures
        c == spec_digit_char(d as int),
{
    if d == 0 { '0' } else if d == 1 { '1' } else if d == 2 { '2' } else if d == 3 { '3' }
    else if d == 4 { '4' } else if d == 5 { '5' } else if d == 6 { '6' } else if d == 7 { '7' }
    else if d == 8 { '8' } else { '9' }
}

/// The decimal digits of a number, most significant first.
fn digits_of(n: usize) -> (v: Vec<char>)
    ensures
        v@ == dec_digits(n as int),
    decreases n,
{
    if n < 10 {
        let mut v: Vec<char> = Vec::new();
        v.push(digit_char(n));
        proof {
            assert(v@ =~= dec_digits(n as int));
        }
        v
    } else {
        let mut v = digits_of(n / 10);
        v.push(digit_char(n % 10));
        v
    }
}

/// Whether a key must be quoted to round-trip.
fn needs_quotes(k: &String) -> (r: bool)
    ensures
        r == key_needs_quotes(k@),
{
    let cs = chars_of(k.as_str());
    let n = cs.len();
    for i in 0..n
        invariant
            n == cs.len(),
            cs@ == k@,
            forall|j: int| 0 <= j < i ==> !((#[trigger] k@[j]) == '.' || k@[j] == '[' || k@[j] == ']'),
    {
        let c = cs[i];
        if c == '.' || c == '[' || c == ']' {
            return true;
        }
    }
    false
}

impl Path {
    /// The textual form of this path: elements joined by dots, keys quoted
    /// when they hold a dot or a bracket.  Parsing the result yields this
    /// path back; see [`crate::laws::lemma_parse_render_round_trip`].
    pub fn to_path_string(&self) -> (s: String)
        ensures
            s@ == spec_render(self@),
    {
        let mut out = String::new();
        let n = self.0.len();
        for i in 0..n
            invariant
                n == self.0.len(),
                out@ == spec_render(self@.take(i as int)),
        {
            proof {
                assert(self@[i as int] == self.0@[i as int]@);
                if i > 0 {
                    assert(self@.take(i + 1).drop_last() =~= self@.take(i as int));
                    assert(self@.take(i + 1).last() == self@[i as int]);
                } else {
                    assert(self@.take(1).drop_last() =~= Seq::<PathElemModel>::empty());
                    assert(self@.take(1)[0] == self@[0]);
                }
            }
            if i > 0 {
                string_push(&mut out, '.');
            }
            match &self.0[i] {
                PathElement::Key(k) => {
                    if needs_quotes(k) {
                        string_push(&mut out, '\'');
                        out.append(k.as_str());
                        string_push(&mut out, '\'');
                    } else {
                        out.append(k.as_str());
                    }
                },
                PathElement::ArrayIndex(ArrayIndex::Index(ix)) => {
                    string_push(&mut out, '[');
                    let ds = digits_of(*ix);
                    let m = ds.len();
                    for j in 0..m
                        invariant
                            m == ds.len(),
                            out@ == spec_render(self@.take(i as int)) + (if i > 0 {
                                seq!['.']
                            } else {
                                Seq::<char>::empty()
                            }) + seq!['['] + ds@.take(j as int),
                        decreases m - j,
                    {
                        string_push(&mut out, ds[j]);
                        proof {
                            assert(ds@.take(j + 1) =~= ds@.take(j as int).push(ds@[j as int]));
                        }
                    }
                    proof {
                        assert(ds@.take(m as int) =~= ds@);
                    }
                    string_push(&mut out, ']');
                },
                PathElement::ArrayIndex(ArrayIndex::All) => {
                    string_push(&mut out, '[');
                    string_push(&mut out, '_');
                    string_push(&mut out, ']');
                },
            }
            proof {
                assert(out@ =~= spec_render(self@.take(i + 1)));
            }
        }
        proof {
            assert(self@.take(n as int) =~= self@);
        }
        out
    }
}


impl core::str::FromStr for Path {
    type Err = ParseError;

    /// Parse a path from its textual form; see [`parse_element_path`].
    fn from_str(s: &str) -> Result<Path, ParseError> {
        match parse_element_path(s) {
            Ok(elements) => Ok(Path(elements)),
            Err(e) => Err(e),
        }
    }
}

} // verus!

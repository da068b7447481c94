use vstd::prelude::*;

verus! {

/// A token of the task-definition language.
#[derive(Debug, Clone)]
pub enum Token {
    Keyword(Keyword),
    Symbol(Symbol),
    Literal(String),
}

/// The brackets around a list.
#[derive(Debug, Clone, Copy, PartialEq, Eq, Structural)]
pub enum Symbol {
    StartArray,
    EndArray,
}

/// The words that open a line.
#[allow(non_camel_case_types)]
#[derive(Debug, Clone, Copy, PartialEq, Eq, Structural)]
pub enum Keyword {
    IN,
    OUT,
    INIT_CONDITIONS,
    TASK,
    REQUIRES,
    SATISFIES,
}

/// A token as plain values.
pub enum Tok {
    Kw(Keyword),
    Sym(Symbol),
    Lit(Seq<char>),
}

/// The plain value of a token.
pub open spec fn tok(t: Token) -> Tok {
    match t {
        Token::Keyword(k) => Tok::Kw(k),
        Token::Symbol(s) => Tok::Sym(s),
        Token::Literal(l) => Tok::Lit(l@),
    }
}

/// The plain values of a sequence of tokens.
pub open spec fn toks(ts: Seq<Token>) -> Seq<Tok> {
    Seq::new(ts.len(), |i: int| tok(ts[i]))
}

/// Why a text is not in the task-definition language.
pub enum ParseError {
    DuplicateIn,
    DuplicateOut,
    DuplicateInit,
    UnknownAt,
    MissingOpen,
    MissingClose,
    BadCycles,
}

/// Blank characters, which surround names and lines.
pub open spec fn is_space(c: char) -> bool {
    c == ' ' || c == '\t' || c == '\r'
}

/// `s` without its leading blanks.
pub open spec fn trim_start(s: Seq<char>) -> Seq<char>
    decreases s.len(),
{
    if s.len() > 0 && is_space(s[0]) {
        trim_start(s.drop_first())
    } else {
        s
    }
}

/// `s` without its trailing blanks.
pub open spec fn trim_end(s: Seq<char>) -> Seq<char>
    decreases s.len(),
{
    if s.len() > 0 && is_space(s.last()) {
        trim_end(s.drop_last())
    } else {
        s
    }
}

/// `s` without its leading and trailing blanks.
pub open spec fn trim(s: Seq<char>) -> Seq<char> {
    trim_end(trim_start(s))
}

/// The pieces of `s` between occurrences of `sep` (one more piece than occurrences).
pub open spec fn split(s: Seq<char>, sep: char) -> Seq<Seq<char>>
    decreases s.len(),
{
    if s.len() == 0 {
        seq![Seq::empty()]
    } else {
        let p = split(s.drop_last(), sep);
        if s.last() == sep {
            p.push(Seq::empty())
        } else {
            p.update(p.len() - 1, p.last().push(s.last()))
        }
    }
}

/// The names of a comma-separated list: its pieces without blanks around them, empty
/// pieces left out.
pub open spec fn names_in(pieces: Seq<Seq<char>>) -> Seq<Tok>
    decreases pieces.len(),
{
    if pieces.len() == 0 {
        Seq::empty()
    } else {
        let r = names_in(pieces.drop_last());
        let t = trim(pieces.last());
        if t.len() == 0 {
            r
        } else {
            r.push(Tok::Lit(t))
        }
    }
}

/// A bracketed list of the names in the comma-separated text `s`.
pub open spec fn list_of(s: Seq<char>) -> Seq<Tok> {
    seq![Tok::Sym(Symbol::StartArray)] + names_in(split(s, ',')) + seq![Tok::Sym(Symbol::EndArray)]
}

/// `s` begins with `p`.
pub open spec fn starts(s: Seq<char>, p: Seq<char>) -> bool {
    p.len() <= s.len() && s.subrange(0, p.len() as int) == p
}

/// The first position of `c` in `s`, if any.
pub open spec fn index_of(s: Seq<char>, c: char) -> Option<int>
    decreases s.len(),
{
    if s.len() == 0 {
        None
    } else if s[0] == c {
        Some(0)
    } else {
        match index_of(s.drop_first(), c) {
            Some(i) => Some(i + 1),
            None => None,
        }
    }
}

/// `s` is a decimal number: one digit or more, and nothing else.
pub open spec fn is_number(s: Seq<char>) -> bool {
    s.len() > 0 && forall|i: int| 0 <= i < s.len() ==> '0' <= #[trigger] s[i] <= '9'
}

/// The value of the decimal digits `s`.
pub open spec fn value_of(s: Seq<char>) -> int
    decreases s.len(),
{
    if s.len() == 0 {
        0
    } else {
        value_of(s.drop_last()) * 10 + (s.last() as int - '0' as int)
    }
}

/// Which of the three header lines have been seen.
pub struct Seen {
    pub inputs: bool,
    pub outputs: bool,
    pub init: bool,
}

/// The tokens of the task line whose text after `Task` is `rest`: the task's name, its
/// bracketed resources and its cycles.
pub open spec fn task_line(rest: Seq<char>) -> Result<Seq<Tok>, ParseError> {
    match index_of(rest, '(') {
        None => Err(ParseError::MissingOpen),
        Some(o) => {
            let after = rest.subrange(o + 1, rest.len() as int);
            match index_of(after, ')') {
                None => Err(ParseError::MissingClose),
                Some(c) => {
                    let cycles = trim(after.subrange(c + 1, after.len() as int));
                    if is_number(cycles) && value_of(cycles) <= u16::MAX {
                        Ok(
                            seq![Tok::Kw(Keyword::TASK), Tok::Lit(trim(rest.subrange(0, o)))] + list_of(
                                after.subrange(0, c),
                            ) + seq![Tok::Lit(cycles)],
                        )
                    } else {
                        Err(ParseError::BadCycles)
                    }
                },
            }
        },
    }
}

/// The tokens of one trimmed line, given the header lines seen before it, and the header
/// lines seen after it.
pub open spec fn line_tokens(line: Seq<char>, seen: Seen) -> Result<(Seq<Tok>, Seen), ParseError> {
    let init = seq!['I', 'N', 'I', 'T', '_', 'C', 'O', 'N', 'D', 'I', 'T', 'I', 'O', 'N', 'S'];
    let inputs = seq!['I', 'N'];
    let outputs = seq!['O', 'U', 'T'];
    let req = seq!['@', 'r', 'e', 'q', 'u', 'i', 'r', 'e', 's'];
    let sat = seq!['@', 's', 'a', 't', 'i', 's', 'f', 'i', 'e', 's'];
    let task = seq!['T', 'a', 's', 'k'];
    if starts(line, init) {
        if seen.init {
            Err(ParseError::DuplicateInit)
        } else {
            Ok(
                (
                    seq![Tok::Kw(Keyword::INIT_CONDITIONS)] + list_of(line.subrange(15, line.len() as int)),
                    Seen { init: true, ..seen },
                ),
            )
        }
    } else if starts(line, inputs) {
        if seen.inputs {
            Err(ParseError::DuplicateIn)
        } else {
            Ok(
                (
                    seq![Tok::Kw(Keyword::IN)] + list_of(line.subrange(2, line.len() as int)),
                    Seen { inputs: true, ..seen },
                ),
            )
        }
    } else if starts(line, outputs) {
        if seen.outputs {
            Err(ParseError::DuplicateOut)
        } else {
            Ok(
                (
                    seq![Tok::Kw(Keyword::OUT)] + list_of(line.subrange(3, line.len() as int)),
                    Seen { outputs: true, ..seen },
                ),
            )
        }
    } else if starts(line, req) {
        Ok((seq![Tok::Kw(Keyword::REQUIRES)] + list_of(line.subrange(9, line.len() as int)), seen))
    } else if starts(line, sat) {
        Ok((seq![Tok::Kw(Keyword::SATISFIES)] + list_of(line.subrange(10, line.len() as int)), seen))
    } else if starts(line, seq!['@']) {
        Err(ParseError::UnknownAt)
    } else if starts(line, task) {
        match task_line(line.subrange(4, line.len() as int)) {
            Ok(ts) => Ok((ts, seen)),
            Err(e) => Err(e),
        }
    } else {
        Ok((Seq::empty(), seen))
    }
}

/// The tokens of the first `k` lines of `lines`, and the header lines seen in them.
pub open spec fn tokens_upto(lines: Seq<Seq<char>>, k: int) -> Result<(Seq<Tok>, Seen), ParseError>
    decreases k,
{
    if k <= 0 {
        Ok((Seq::empty(), Seen { inputs: false, outputs: false, init: false }))
    } else {
        match tokens_upto(lines, k - 1) {
            Err(e) => Err(e),
            Ok((ts, seen)) => match line_tokens(trim(lines[k - 1]), seen) {
                Err(e) => Err(e),
                Ok((lt, seen2)) => Ok((ts + lt, seen2)),
            },
        }
    }
}

/// The tokens of a whole text, line by line.
pub open spec fn tokens_of(s: Seq<char>) -> Result<Seq<Tok>, ParseError> {
    let lines = split(s, '\n');
    match tokens_upto(lines, lines.len() as int) {
        Err(e) => Err(e),
        Ok((ts, _)) => Ok(ts),
    }
}

/// The characters of `input`, in order.
pub(crate) fn chars_of(input: &str) -> (r: Vec<char>)
    ensures
        r@ == input@,
{
    let n = input.unicode_len();
    let mut r: Vec<char> = Vec::new();
    let mut i: usize = 0;
    while i < n
        invariant
            n == input@.len(),
            i <= n,
            r@ == input@.subrange(0, i as int),
        decreases n - i,
    {
        r.push(input.get_char(i));
        i = i + 1;
        assert(r@ =~= input@.subrange(0, i as int));
    }
    assert(r@ =~= input@);
    r
}

/// Whether `c` is a blank.
fn space(c: char) -> (r: bool)
    ensures
        r == is_space(c),
{
    c == ' ' || c == '\t' || c == '\r'
}

/// The bounds of `cs[lo..hi]` without its leading and trailing blanks.
fn trim_range(cs: &Vec<char>, lo: usize, hi: usize) -> (r: (usize, usize))
    requires
        lo <= hi <= cs@.len(),
    ensures
        lo <= r.0 <= r.1 <= hi,
        cs@.subrange(r.0 as int, r.1 as int) == trim(cs@.subrange(lo as int, hi as int)),
{
    let mut a = lo;
    while a < hi && space(cs[a])
        invariant
            lo <= a <= hi <= cs@.len(),
            trim_start(cs@.subrange(lo as int, hi as int)) == trim_start(cs@.subrange(a as int, hi as int)),
        decreases hi - a,
    {
        assert(cs@.subrange(a as int, hi as int).drop_first() =~= cs@.subrange(a + 1, hi as int));
        a = a + 1;
    }
    assert(trim_start(cs@.subrange(a as int, hi as int)) == cs@.subrange(a as int, hi as int));
    let mut b = hi;
    while b > a && space(cs[b - 1])
        invariant
            lo <= a <= b <= hi <= cs@.len(),
            trim_end(cs@.subrange(a as int, hi as int)) == trim_end(cs@.subrange(a as int, b as int)),
        decreases b - a,
    {
        assert(cs@.subrange(a as int, b as int).drop_last() =~= cs@.subrange(a as int, b - 1));
        b = b - 1;
    }
    assert(trim_end(cs@.subrange(a as int, b as int)) == cs@.subrange(a as int, b as int));
    (a, b)
}

/// Whether `cs[lo..hi]` begins with `p`.
fn starts_at(cs: &Vec<char>, lo: usize, hi: usize, p: &Vec<char>) -> (r: bool)
    requires
        lo <= hi <= cs@.len(),
    ensures
        r == starts(cs@.subrange(lo as int, hi as int), p@),
{
    if p.len() > hi - lo {
        return false;
    }
    let mut k: usize = 0;
    while k < p.len()
        invariant
            p@.len() <= hi - lo,
            lo <= hi <= cs@.len(),
            k <= p@.len(),
            forall|j: int| 0 <= j < k ==> cs@[lo + j] == p@[j],
        decreases p@.len() - k,
    {
        if cs[lo + k] != p[k] {
            assert(cs@.subrange(lo as int, hi as int).subrange(0, p@.len() as int)[k as int] != p@[k as int]);
            return false;
        }
        k = k + 1;
    }
    assert(cs@.subrange(lo as int, hi as int).subrange(0, p@.len() as int) =~= p@);
    true
}

/// The first position of `c` in `cs[lo..hi]`, as a position in `cs`.
fn find_char(cs: &Vec<char>, lo: usize, hi: usize, c: char) -> (r: Option<usize>)
    requires
        lo <= hi <= cs@.len(),
    ensures
        r is None ==> index_of(cs@.subrange(lo as int, hi as int), c) is None,
        r matches Some(i) ==> lo <= i < hi && index_of(cs@.subrange(lo as int, hi as int), c) == Some(
            i - lo,
        ),
{
    let mut i = lo;
    while i < hi
        invariant
            lo <= i <= hi <= cs@.len(),
            index_of(cs@.subrange(lo as int, hi as int), c) == (match index_of(
                cs@.subrange(i as int, hi as int),
                c,
            ) {
                Some(x) => Some(x + (i - lo)),
                None => None,
            }),
        decreases hi - i,
    {
        if cs[i] == c {
            return Some(i);
        }
        assert(cs@.subrange(i as int, hi as int).drop_first() =~= cs@.subrange(i + 1, hi as int));
        i = i + 1;
    }
    None
}

/// The text `input[lo..hi]`, as a string.
fn text(input: &str, cs: &Vec<char>, lo: usize, hi: usize) -> (r: String)
    requires
        cs@ == input@,
        lo <= hi <= cs@.len(),
    ensures
        r@ == cs@.subrange(lo as int, hi as int),
{
    input.substring_char(lo, hi).to_owned()
}

/// Appends the bracketed list of names in the comma-separated text `cs[lo..hi]`.
fn list_tokens(input: &str, cs: &Vec<char>, lo: usize, hi: usize, out: &mut Vec<Token>)
    requires
        cs@ == input@,
        lo <= hi <= cs@.len(),
    ensures
        toks(final(out)@) == toks(old(out)@) + list_of(cs@.subrange(lo as int, hi as int)),
{
    let ghost out0 = toks(out@);
    let ghost before0 = out@;
    out.push(Token::Symbol(Symbol::StartArray));
    assert(toks(out@) =~= toks(before0).push(Tok::Sym(Symbol::StartArray)));
    let ghost mut done: Seq<Seq<char>> = Seq::empty();
    let mut start = lo;
    let mut i = lo;
    assert(cs@.subrange(lo as int, lo as int) =~= Seq::<char>::empty());
    assert(split(cs@.subrange(lo as int, lo as int), ',') =~= done.push(cs@.subrange(start as int, i as int)));
    assert(toks(out@) =~= out0 + seq![Tok::Sym(Symbol::StartArray)] + names_in(done));
    while i < hi
        invariant
            cs@ == input@,
            lo <= start <= i <= hi <= cs@.len(),
            split(cs@.subrange(lo as int, i as int), ',') == done.push(cs@.subrange(start as int, i as int)),
            toks(out@) == out0 + seq![Tok::Sym(Symbol::StartArray)] + names_in(done),
        decreases hi - i,
    {
        let ghost prefix = cs@.subrange(lo as int, i + 1);
        assert(prefix.drop_last() =~= cs@.subrange(lo as int, i as int));
        assert(prefix.last() == cs@[i as int]);
        if cs[i] == ',' {
            let (a, b) = trim_range(cs, start, i);
            let ghost piece = cs@.subrange(start as int, i as int);
            let ghost before = out@;
            if a < b {
                out.push(Token::Literal(text(input, cs, a, b)));
                assert(toks(out@) =~= toks(before).push(Tok::Lit(trim(piece))));
            } else {
                assert(trim(piece).len() == 0);
            }
            proof {
                let d2 = done.push(piece);
                assert(d2.drop_last() =~= done);
                assert(names_in(d2) == (if trim(piece).len() == 0 {
                    names_in(done)
                } else {
                    names_in(done).push(Tok::Lit(trim(piece)))
                }));
                assert(toks(out@) =~= out0 + seq![Tok::Sym(Symbol::StartArray)] + names_in(d2));
                done = d2;
                assert(cs@.subrange(i + 1, i + 1) =~= Seq::<char>::empty());
                assert(split(prefix, ',') =~= done.push(cs@.subrange(i + 1, i + 1)));
            }
            start = i + 1;
        } else {
            assert(cs@.subrange(start as int, i + 1) =~= cs@.subrange(start as int, i as int).push(cs@[i as int]));
            assert(split(prefix, ',') =~= done.push(cs@.subrange(start as int, i + 1)));
        }
        i = i + 1;
    }
    let (a, b) = trim_range(cs, start, hi);
    let ghost piece = cs@.subrange(start as int, hi as int);
    let ghost before = out@;
    if a < b {
        out.push(Token::Literal(text(input, cs, a, b)));
        assert(toks(out@) =~= toks(before).push(Tok::Lit(trim(piece))));
    } else {
        assert(trim(piece).len() == 0);
    }
    let ghost before2 = out@;
    out.push(Token::Symbol(Symbol::EndArray));
    assert(toks(out@) =~= toks(before2).push(Tok::Sym(Symbol::EndArray)));
    proof {
        let d2 = done.push(piece);
        assert(d2.drop_last() =~= done);
        assert(names_in(d2) == (if trim(piece).len() == 0 {
            names_in(done)
        } else {
            names_in(done).push(Tok::Lit(trim(piece)))
        }));
        assert(toks(out@) =~= out0 + list_of(cs@.subrange(lo as int, hi as int)));
    }
}

/// Decimal values grow as digits are added.
proof fn lemma_value_grows(s: Seq<char>, i: int, j: int)
    requires
        0 <= i <= j <= s.len(),
        forall|k: int| 0 <= k < s.len() ==> '0' <= #[trigger] s[k] <= '9',
    ensures
        value_of(s.subrange(0, i)) <= value_of(s.subrange(0, j)),
    decreases j - i,
{
    if i < j {
        lemma_value_grows(s, i, j - 1);
        assert(s.subrange(0, j).drop_last() =~= s.subrange(0, j - 1));
        assert(value_of(s.subrange(0, j - 1)) >= 0) by {
            lemma_value_nonneg(s.subrange(0, j - 1));
        }
    }
}

/// Decimal values are not negative.
proof fn lemma_value_nonneg(s: Seq<char>)
    requires
        forall|k: int| 0 <= k < s.len() ==> '0' <= #[trigger] s[k] <= '9',
    ensures
        value_of(s) >= 0,
    decreases s.len(),
{
    if s.len() > 0 {
        lemma_value_nonneg(s.drop_last());
    }
}

/// The cycles written in `cs[a..b]`, when it is a decimal number that fits in a `u16`.
pub(crate) fn number(cs: &Vec<char>, a: usize, b: usize) -> (r: Option<u16>)
    requires
        a <= b <= cs@.len(),
    ensures
        r is Some <==> (is_number(cs@.subrange(a as int, b as int)) && value_of(cs@.subrange(a as int, b as int))
            <= u16::MAX),
        r matches Some(v) ==> v == value_of(cs@.subrange(a as int, b as int)),
{
    let ghost s = cs@.subrange(a as int, b as int);
    if a == b {
        return None;
    }
    let mut v: u32 = 0;
    let mut i = a;
    while i < b
        invariant
            a <= i <= b <= cs@.len(),
            s == cs@.subrange(a as int, b as int),
            forall|k: int| a <= k < i ==> '0' <= #[trigger] cs@[k] <= '9',
            v == value_of(cs@.subrange(a as int, i as int)),
            v <= 65535,
        decreases b - i,
    {
        let ch = cs[i];
        if ch < '0' || ch > '9' {
            assert(!('0' <= s[i - a] <= '9'));
            return None;
        }
        assert(cs@.subrange(a as int, i + 1).drop_last() =~= cs@.subrange(a as int, i as int));
        v = v * 10 + (ch as u32 - '0' as u32);
        if v > 65535 {
            proof {
                if is_number(s) {
                    lemma_value_grows(s, i + 1 - a, b - a);
                    assert(s.subrange(0, i + 1 - a) =~= cs@.subrange(a as int, i + 1));
                    assert(s.subrange(0, b - a) =~= s);
                }
            }
            return None;
        }
        i = i + 1;
    }
    assert(cs@.subrange(a as int, b as int) =~= s);
    Some(v as u16)
}

/// Appends the tokens of the task line whose text after `Task` is `cs[lo..hi]`.
fn task_tokens(input: &str, cs: &Vec<char>, lo: usize, hi: usize, out: &mut Vec<Token>) -> (r: Result<(), ParseError>)
    requires
        cs@ == input@,
        lo <= hi <= cs@.len(),
    ensures
        match task_line(cs@.subrange(lo as int, hi as int)) {
            Ok(ts) => r is Ok && toks(final(out)@) == toks(old(out)@) + ts,
            Err(e) => r == Err::<(), ParseError>(e),
        },
{
    let ghost rest = cs@.subrange(lo as int, hi as int);
    let o = match find_char(cs, lo, hi, '(') {
        None => {
            return Err(ParseError::MissingOpen);
        },
        Some(o) => o,
    };
    let ghost after = rest.subrange(o - lo + 1, rest.len() as int);
    assert(after =~= cs@.subrange(o + 1, hi as int));
    let c = match find_char(cs, o + 1, hi, ')') {
        None => {
            return Err(ParseError::MissingClose);
        },
        Some(c) => c,
    };
    let (a, b) = trim_range(cs, c + 1, hi);
    assert(after.subrange(c - (o + 1) + 1, after.len() as int) =~= cs@.subrange(c + 1, hi as int));
    match number(cs, a, b) {
        None => {
            return Err(ParseError::BadCycles);
        },
        Some(_) => {},
    }
    let (na, nb) = trim_range(cs, lo, o);
    assert(rest.subrange(0, o - lo) =~= cs@.subrange(lo as int, o as int));
    assert(after.subrange(0, c - (o + 1)) =~= cs@.subrange(o + 1, c as int));
    let ghost before = out@;
    out.push(Token::Keyword(Keyword::TASK));
    out.push(Token::Literal(text(input, cs, na, nb)));
    assert(toks(out@) =~= toks(before) + seq![Tok::Kw(Keyword::TASK), Tok::Lit(trim(rest.subrange(0, o - lo)))]);
    let ghost mid = out@;
    list_tokens(input, cs, o + 1, c, out);
    let ghost before2 = out@;
    out.push(Token::Literal(text(input, cs, a, b)));
    assert(toks(out@) =~= toks(before2).push(Tok::Lit(cs@.subrange(a as int, b as int))));
    assert(toks(out@) =~= toks(before) + task_line(rest)->Ok_0);
    Ok(())
}

/// Appends the tokens of the trimmed line `cs[lo..hi]`, given and updating the header
/// lines seen so far.
fn line_tokens_of(input: &str, cs: &Vec<char>, lo: usize, hi: usize, seen: &mut Seen, out: &mut Vec<Token>) -> (r: Result<(), ParseError>)
    requires
        cs@ == input@,
        lo <= hi <= cs@.len(),
    ensures
        match line_tokens(cs@.subrange(lo as int, hi as int), *old(seen)) {
            Ok((ts, seen2)) => r is Ok && toks(final(out)@) == toks(old(out)@) + ts && *final(seen) == seen2,
            Err(e) => r == Err::<(), ParseError>(e),
        },
{
    let ghost line = cs@.subrange(lo as int, hi as int);
    let init = vec!['I', 'N', 'I', 'T', '_', 'C', 'O', 'N', 'D', 'I', 'T', 'I', 'O', 'N', 'S'];
    let inputs = vec!['I', 'N'];
    let outputs = vec!['O', 'U', 'T'];
    let req = vec!['@', 'r', 'e', 'q', 'u', 'i', 'r', 'e', 's'];
    let sat = vec!['@', 's', 'a', 't', 'i', 's', 'f', 'i', 'e', 's'];
    let at = vec!['@'];
    let task = vec!['T', 'a', 's', 'k'];
    assert(init@ =~= seq!['I', 'N', 'I', 'T', '_', 'C', 'O', 'N', 'D', 'I', 'T', 'I', 'O', 'N', 'S']);
    assert(inputs@ =~= seq!['I', 'N']);
    assert(outputs@ =~= seq!['O', 'U', 'T']);
    assert(req@ =~= seq!['@', 'r', 'e', 'q', 'u', 'i', 'r', 'e', 's']);
    assert(sat@ =~= seq!['@', 's', 'a', 't', 'i', 's', 'f', 'i', 'e', 's']);
    assert(at@ =~= seq!['@']);
    assert(task@ =~= seq!['T', 'a', 's', 'k']);
    let ghost before = out@;
    if starts_at(cs, lo, hi, &init) {
        if seen.init {
            return Err(ParseError::DuplicateInit);
        }
        out.push(Token::Keyword(Keyword::INIT_CONDITIONS));
        assert(line.subrange(15, line.len() as int) =~= cs@.subrange(lo + 15, hi as int));
        let ghost mid = out@;
        assert(toks(mid) =~= toks(before).push(Tok::Kw(Keyword::INIT_CONDITIONS)));
        list_tokens(input, cs, lo + 15, hi, out);
        assert(toks(out@) =~= toks(before) + (seq![Tok::Kw(Keyword::INIT_CONDITIONS)] + list_of(
            line.subrange(15, line.len() as int),
        )));
        seen.init = true;
        Ok(())
    } else if starts_at(cs, lo, hi, &inputs) {
        if seen.inputs {
            return Err(ParseError::DuplicateIn);
        }
        out.push(Token::Keyword(Keyword::IN));
        assert(line.subrange(2, line.len() as int) =~= cs@.subrange(lo + 2, hi as int));
        let ghost mid = out@;
        assert(toks(mid) =~= toks(before).push(Tok::Kw(Keyword::IN)));
        list_tokens(input, cs, lo + 2, hi, out);
        assert(toks(out@) =~= toks(before) + (seq![Tok::Kw(Keyword::IN)] + list_of(line.subrange(2, line.len() as int))));
        seen.inputs = true;
        Ok(())
    } else if starts_at(cs, lo, hi, &outputs) {
        if seen.outputs {
            return Err(ParseError::DuplicateOut);
        }
        out.push(Token::Keyword(Keyword::OUT));
        assert(line.subrange(3, line.len() as int) =~= cs@.subrange(lo + 3, hi as int));
        let ghost mid = out@;
        assert(toks(mid) =~= toks(before).push(Tok::Kw(Keyword::OUT)));
        list_tokens(input, cs, lo + 3, hi, out);
        assert(toks(out@) =~= toks(before) + (seq![Tok::Kw(Keyword::OUT)] + list_of(line.subrange(3, line.len() as int))));
        seen.outputs = true;
        Ok(())
    } else if starts_at(cs, lo, hi, &req) {
        out.push(Token::Keyword(Keyword::REQUIRES));
        assert(line.subrange(9, line.len() as int) =~= cs@.subrange(lo + 9, hi as int));
        let ghost mid = out@;
        assert(toks(mid) =~= toks(before).push(Tok::Kw(Keyword::REQUIRES)));
        list_tokens(input, cs, lo + 9, hi, out);
        assert(toks(out@) =~= toks(before) + (seq![Tok::Kw(Keyword::REQUIRES)] + list_of(line.subrange(9, line.len() as int))));
        Ok(())
    } else if starts_at(cs, lo, hi, &sat) {
        out.push(Token::Keyword(Keyword::SATISFIES));
        assert(line.subrange(10, line.len() as int) =~= cs@.subrange(lo + 10, hi as int));
        let ghost mid = out@;
        assert(toks(mid) =~= toks(before).push(Tok::Kw(Keyword::SATISFIES)));
        list_tokens(input, cs, lo + 10, hi, out);
        assert(toks(out@) =~= toks(before) + (seq![Tok::Kw(Keyword::SATISFIES)] + list_of(line.subrange(10, line.len() as int))));
        Ok(())
    } else if starts_at(cs, lo, hi, &at) {
        Err(ParseError::UnknownAt)
    } else if starts_at(cs, lo, hi, &task) {
        assert(line.subrange(4, line.len() as int) =~= cs@.subrange(lo + 4, hi as int));
        task_tokens(input, cs, lo + 4, hi, out)
    } else {
        assert(toks(out@) =~= toks(before) + Seq::<Tok>::empty());
        Ok(())
    }
}

/// The tokens of the first `k` lines depend on those lines alone.
proof fn lemma_tokens_prefix(a: Seq<Seq<char>>, b: Seq<Seq<char>>, k: int)
    requires
        0 <= k <= a.len(),
        k <= b.len(),
        forall|i: int| 0 <= i < k ==> a[i] == b[i],
    ensures
        tokens_upto(a, k) == tokens_upto(b, k),
    decreases k,
{
    if k > 0 {
        lemma_tokens_prefix(a, b, k - 1);
    }
}

/// Once a line is refused, so is every longer run of lines.
proof fn lemma_tokens_err(a: Seq<Seq<char>>, k: int, m: int)
    requires
        0 <= k <= m,
        tokens_upto(a, k) is Err,
    ensures
        tokens_upto(a, m) == tokens_upto(a, k),
    decreases m - k,
{
    if k < m {
        lemma_tokens_err(a, k, m - 1);
    }
}

/// The pieces of a text that end before its last separator stay as they are when the
/// text grows.
proof fn lemma_split_grows(s: Seq<char>, sep: char, i: int, j: int)
    requires
        0 <= i <= j <= s.len(),
    ensures
        split(s.subrange(0, i), sep).len() <= split(s.subrange(0, j), sep).len(),
        forall|x: int|
            0 <= x < split(s.subrange(0, i), sep).len() - 1 ==> #[trigger] split(s.subrange(0, j), sep)[x]
                == split(s.subrange(0, i), sep)[x],
    decreases j - i,
{
    if i < j {
        lemma_split_grows(s, sep, i, j - 1);
        assert(s.subrange(0, j).drop_last() =~= s.subrange(0, j - 1));
        lemma_split_nonempty(s.subrange(0, j - 1), sep);
    }
}

/// A text has at least one piece.
proof fn lemma_split_nonempty(s: Seq<char>, sep: char)
    ensures
        split(s, sep).len() >= 1,
    decreases s.len(),
{
    if s.len() > 0 {
        lemma_split_nonempty(s.drop_last(), sep);
    }
}

/// The message for a refused text.
fn message(e: ParseError) -> (r: String)
    ensures
        r@ == message_of(e),
{
    match e {
        ParseError::DuplicateIn => "Another IN found".to_owned(),
        ParseError::DuplicateOut => "Another OUT found".to_owned(),
        ParseError::DuplicateInit => "Another INIT_CONDITIONS found".to_owned(),
        ParseError::UnknownAt => "Unknown keyword after @".to_owned(),
        ParseError::MissingOpen => "Missing '(' after task name".to_owned(),
        ParseError::MissingClose => "Missing ')' after task args".to_owned(),
        ParseError::BadCycles => "Cycle must be a number".to_owned(),
    }
}

/// The message that reports `e`.
pub open spec fn message_of(e: ParseError) -> Seq<char> {
    match e {
        ParseError::DuplicateIn => "Another IN found"@,
        ParseError::DuplicateOut => "Another OUT found"@,
        ParseError::DuplicateInit => "Another INIT_CONDITIONS found"@,
        ParseError::UnknownAt => "Unknown keyword after @"@,
        ParseError::MissingOpen => "Missing '(' after task name"@,
        ParseError::MissingClose => "Missing ')' after task args"@,
        ParseError::BadCycles => "Cycle must be a number"@,
    }
}

/// Splits a task definition into tokens, line by line (see `tokens_of`). A line that
/// starts with `INIT_CONDITIONS`, `IN` or `OUT` gives the keyword and the bracketed
/// list of the comma-separated names after it, each at most once; one that starts with
/// `@requires` or `@satisfies` gives the keyword and its list; any other line starting
/// with `@` is refused; `Task NAME(ARGS) CYCLES` gives the keyword, the name, the list
/// of resources and the cycles; other lines are skipped. Names are trimmed of blanks and
/// empty names are left out.
pub fn parse(input: &str) -> (r: Result<Vec<Token>, String>)
    ensures
        r is Ok <==> tokens_of(input@) is Ok,
        r matches Ok(ts) ==> tokens_of(input@) == Ok::<Seq<Tok>, ParseError>(toks(ts@)),
        r matches Err(m) ==> tokens_of(input@) matches Err(e) && m@ == message_of(e),
{
    let cs = chars_of(input);
    let n = cs.len();
    let mut tokens: Vec<Token> = Vec::new();
    let mut seen = Seen { inputs: false, outputs: false, init: false };
    let ghost mut done: Seq<Seq<char>> = Seq::empty();
    let mut start: usize = 0;
    let mut i: usize = 0;
    assert(cs@.subrange(0, 0) =~= Seq::<char>::empty());
    assert(split(cs@.subrange(0, 0), '\n') =~= done.push(cs@.subrange(0, 0)));
    assert(toks(tokens@) =~= Seq::<Tok>::empty());
    while i < n
        invariant
            cs@ == input@,
            n == cs@.len(),
            start <= i <= n,
            split(cs@.subrange(0, i as int), '\n') == done.push(cs@.subrange(start as int, i as int)),
            tokens_upto(done, done.len() as int) == Ok::<(Seq<Tok>, Seen), ParseError>((toks(tokens@), seen)),
        decreases n - i,
    {
        let ghost prefix = cs@.subrange(0, i + 1);
        assert(prefix.drop_last() =~= cs@.subrange(0, i as int));
        if cs[i] == '\n' {
            let ghost line = cs@.subrange(start as int, i as int);
            let ghost d2 = done.push(line);
            let (a, b) = trim_range(&cs, start, i);
            proof {
                lemma_tokens_prefix(d2, done, done.len() as int);
            }
            match line_tokens_of(input, &cs, a, b, &mut seen, &mut tokens) {
                Ok(()) => {},
                Err(e) => {
                    proof {
                        assert(tokens_upto(d2, d2.len() as int) == Err::<(Seq<Tok>, Seen), ParseError>(e));
                        let full = split(cs@, '\n');
                        assert(cs@.subrange(0, n as int) =~= cs@);
                        assert(split(prefix, '\n') =~= d2.push(Seq::empty()));
                        lemma_split_grows(cs@, '\n', i + 1, n as int);
                        lemma_tokens_prefix(d2, full, d2.len() as int);
                        lemma_tokens_err(full, d2.len() as int, full.len() as int);
                    }
                    return Err(message(e));
                },
            }
            proof {
                done = d2;
                assert(cs@.subrange(i + 1, i + 1) =~= Seq::<char>::empty());
                assert(split(prefix, '\n') =~= done.push(cs@.subrange(i + 1, i + 1)));
            }
            start = i + 1;
        } else {
            assert(cs@.subrange(start as int, i + 1) =~= cs@.subrange(start as int, i as int).push(cs@[i as int]));
            assert(split(prefix, '\n') =~= done.push(cs@.subrange(start as int, i + 1)));
        }
        i = i + 1;
    }
    let ghost line = cs@.subrange(start as int, n as int);
    let ghost d2 = done.push(line);
    let (a, b) = trim_range(&cs, start, n);
    proof {
        lemma_tokens_prefix(d2, done, done.len() as int);
        assert(cs@.subrange(0, n as int) =~= cs@);
    }
    match line_tokens_of(input, &cs, a, b, &mut seen, &mut tokens) {
        Ok(()) => Ok(tokens),
        Err(e) => Err(message(e)),
    }
}

/// The names of the run of literals that starts at position `i`, and the position after
/// the run.
pub open spec fn literals_from(ts: Seq<Tok>, i: int) -> (Seq<Seq<char>>, int)
    decreases ts.len() - i,
{
    if 0 <= i < ts.len() && ts[i] is Lit {
        let (l, j) = literals_from(ts, i + 1);
        (seq![ts[i]->Lit_0] + l, j)
    } else {
        (Seq::empty(), i)
    }
}

/// The names of the bracketed list at position `i`, and the position after it.
pub open spec fn list_at(ts: Seq<Tok>, i: int) -> Option<(Seq<Seq<char>>, int)> {
    if 0 <= i < ts.len() && ts[i] == Tok::Sym(Symbol::StartArray) {
        let (l, j) = literals_from(ts, i + 1);
        if j < ts.len() && ts[j] == Tok::Sym(Symbol::EndArray) {
            Some((l, j + 1))
        } else {
            None
        }
    } else {
        None
    }
}

/// The plain texts of `v`.
pub open spec fn texts(v: Seq<String>) -> Seq<Seq<char>> {
    Seq::new(v.len(), |i: int| v[i]@)
}

/// A task as plain values.
pub struct TaskSpec {
    pub name: Seq<char>,
    pub args: Seq<Seq<char>>,
    pub requires: Seq<Seq<char>>,
    pub satisfies: Seq<Seq<char>>,
    pub cycles: u16,
}

/// The task whose tokens start at position `i` (`REQUIRES` and its list, `TASK`, the
/// name, the list of resources, the cycles, `SATISFIES` and its list), and the position
/// after them.
pub open spec fn task_at(ts: Seq<Tok>, i: int) -> Option<(TaskSpec, int)> {
    if 0 <= i < ts.len() && ts[i] == Tok::Kw(Keyword::REQUIRES) {
        match list_at(ts, i + 1) {
            None => None,
            Some((req, j)) => if j + 1 < ts.len() && ts[j] == Tok::Kw(Keyword::TASK) && ts[j + 1] is Lit {
                match list_at(ts, j + 2) {
                    None => None,
                    Some((args, k)) => if k + 1 < ts.len() && ts[k] is Lit && is_number(ts[k]->Lit_0)
                        && value_of(ts[k]->Lit_0) <= u16::MAX && ts[k + 1] == Tok::Kw(Keyword::SATISFIES) {
                        match list_at(ts, k + 2) {
                            None => None,
                            Some((sat, m)) => Some(
                                (
                                    TaskSpec {
                                        name: ts[j + 1]->Lit_0,
                                        args,
                                        requires: req,
                                        satisfies: sat,
                                        cycles: value_of(ts[k]->Lit_0) as u16,
                                    },
                                    m,
                                ),
                            ),
                        }
                    } else {
                        None
                    },
                }
            } else {
                None
            },
        }
    } else {
        None
    }
}

/// The tasks whose tokens fill `ts` from position `i` to its end.
pub open spec fn tasks_from(ts: Seq<Tok>, i: int) -> Option<Seq<TaskSpec>>
    decreases ts.len() - i,
{
    if i >= ts.len() {
        Some(Seq::empty())
    } else {
        match task_at(ts, i) {
            None => None,
            Some((t, j)) => if j <= i {
                // a task spans several tokens, so this cannot happen
                None
            } else {
                match tasks_from(ts, j) {
                    None => None,
                    Some(rest) => Some(seq![t] + rest),
                }
            },
        }
    }
}

/// The header at the start of `ts` (`IN`, `OUT` and `INIT_CONDITIONS`, each with its
/// list): its input ports, output ports and initial conditions, and the position after it.
pub open spec fn header_of(ts: Seq<Tok>) -> Option<(Seq<Seq<char>>, Seq<Seq<char>>, Seq<Seq<char>>, int)> {
    if ts.len() > 0 && ts[0] == Tok::Kw(Keyword::IN) {
        match list_at(ts, 1) {
            None => None,
            Some((ins, j1)) => if j1 < ts.len() && ts[j1] == Tok::Kw(Keyword::OUT) {
                match list_at(ts, j1 + 1) {
                    None => None,
                    Some((outs, j2)) => if j2 < ts.len() && ts[j2] == Tok::Kw(Keyword::INIT_CONDITIONS) {
                        match list_at(ts, j2 + 1) {
                            None => None,
                            Some((inits, j3)) => Some((ins, outs, inits, j3)),
                        }
                    } else {
                        None
                    },
                }
            } else {
                None
            },
        }
    } else {
        None
    }
}

/// A configuration as plain values: input ports, output ports, initial conditions and
/// tasks.
pub open spec fn conf_of(ts: Seq<Tok>) -> Option<(Seq<Seq<char>>, Seq<Seq<char>>, Seq<Seq<char>>, Seq<TaskSpec>)> {
    match header_of(ts) {
        None => None,
        Some((ins, outs, inits, j)) => match tasks_from(ts, j) {
            None => None,
            Some(tasks) => Some((ins, outs, inits, tasks)),
        },
    }
}

/// `t` holds the plain values `v`.
pub open spec fn task_is(t: crate::conf::Task, v: TaskSpec) -> bool {
    &&& t.name@ == v.name
    &&& texts(t.args@) == v.args
    &&& texts(t.requires@) == v.requires
    &&& texts(t.satisfies@) == v.satisfies
    &&& t.cycles == v.cycles
}

} // verus!

use vstd::prelude::*;

use crate::parse::{
    chars_of, conf_of, header_of, list_at, literals_from, number, parse, task_at, task_is, tasks_from, texts, tok,
    tokens_of, toks, Keyword, Symbol, TaskSpec, Tok, Token,
};

verus! {

/// One task of a unit: the resources it holds while it runs, the conditions it waits
/// for, the conditions its completion makes true, and its duration in cycles.
#[derive(Debug, Clone)]
pub struct Task {
    pub name: String,
    pub args: Vec<String>,
    pub requires: Vec<String>,
    pub satisfies: Vec<String>,
    pub cycles: u16,
}

/// One unit's configuration: its ports, its initially true conditions and its tasks.
#[derive(Debug, Clone)]
pub struct Conf {
    pub inports: Vec<String>,
    pub outports: Vec<String>,
    pub initial: Vec<String>,
    pub tasks: Vec<Task>,
}

/// The texts held in `v`.
pub open spec fn names_of(v: Seq<String>) -> Set<Seq<char>> {
    Set::new(|c: Seq<char>| exists|i: int| 0 <= i < v.len() && v[i]@ == c)
}

/// Every condition that `t` requires is in `sat`.
pub open spec fn requires_met(t: Task, sat: Set<Seq<char>>) -> bool {
    forall|k: int| 0 <= k < t.requires.len() ==> sat.contains(#[trigger] t.requires@[k]@)
}

/// No two tasks in `ts` share a name.
pub open spec fn names_unique(ts: Seq<Task>) -> bool {
    forall|i: int, j: int|
        0 <= i < ts.len() && 0 <= j < ts.len() && i != j ==> #[trigger] ts[i].name@ != #[trigger] ts[j].name@
}

/// `a` and `b` hold the same name, resources, conditions and cycles.
pub open spec fn same_task(a: Task, b: Task) -> bool {
    &&& a.name@ == b.name@
    &&& a.args@ == b.args@
    &&& a.requires@ == b.requires@
    &&& a.satisfies@ == b.satisfies@
    &&& a.cycles == b.cycles
}

/// Whether some text in `v` equals `s`.
pub fn contains_name(v: &Vec<String>, s: &String) -> (r: bool)
    ensures
        r == names_of(v@).contains(s@),
{
    let mut i: usize = 0;
    while i < v.len()
        invariant
            i <= v.len(),
            forall|j: int| 0 <= j < i ==> v@[j]@ != s@,
        decreases v.len() - i,
    {
        if v[i] == *s {
            assert(names_of(v@).contains(s@)) by {
                assert(v@[i as int]@ == s@);
            }
            return true;
        }
        i = i + 1;
    }
    false
}

impl Task {
    /// A task with the same name, resources, conditions and cycles as this one.
    pub fn duplicate(&self) -> (r: Task)
        ensures
            same_task(r, *self),
    {
        let args = self.args.clone();
        let reqs = self.requires.clone();
        let satisfies = self.satisfies.clone();
        assert(args@ =~= self.args@);
        assert(reqs@ =~= self.requires@);
        assert(satisfies@ =~= self.satisfies@);
        Task { name: self.name.clone(), args, requires: reqs, satisfies, cycles: self.cycles }
    }
}

/// Whether `t` is a literal.
fn is_literal(t: &Token) -> (r: bool)
    ensures
        r == (tok(*t) is Lit),
{
    match t {
        Token::Literal(_) => true,
        _ => false,
    }
}

/// The next token, which must be `keyword_type`; moves past it.
fn parse_keyword(tokens: &Vec<Token>, pos: &mut usize, keyword_type: Keyword) -> (r: Result<(), String>)
    requires
        *old(pos) <= tokens@.len(),
    ensures
        r is Ok <==> (*old(pos) < tokens@.len() && toks(tokens@)[*old(pos) as int] == Tok::Kw(keyword_type)),
        r is Ok ==> *final(pos) == *old(pos) + 1,
        r is Err ==> *final(pos) == *old(pos),
{
    if *pos >= tokens.len() {
        return Err("Failed to extract token".to_string());
    }
    match &tokens[*pos] {
        Token::Keyword(x) => {
            if *x == keyword_type {
                *pos = *pos + 1;
                Ok(())
            } else {
                Err("Different type keyword".to_string())
            }
        },
        _ => Err("Not Keyword".to_string()),
    }
}

/// The next token, which must be `symbol_type`; moves past it.
fn parse_symbol(tokens: &Vec<Token>, pos: &mut usize, symbol_type: Symbol) -> (r: Result<(), String>)
    requires
        *old(pos) <= tokens@.len(),
    ensures
        r is Ok <==> (*old(pos) < tokens@.len() && toks(tokens@)[*old(pos) as int] == Tok::Sym(symbol_type)),
        r is Ok ==> *final(pos) == *old(pos) + 1,
        r is Err ==> *final(pos) == *old(pos),
{
    if *pos >= tokens.len() {
        return Err("Failed to extract token".to_string());
    }
    match &tokens[*pos] {
        Token::Symbol(x) => {
            if *x == symbol_type {
                *pos = *pos + 1;
                Ok(())
            } else {
                Err("Different type symbol".to_string())
            }
        },
        _ => Err("Not Symbol".to_string()),
    }
}

/// Reads the bracketed list at the current position into `inports`; moves past it.
fn populate(inports: &mut Vec<String>, tokens: &Vec<Token>, pos: &mut usize) -> (r: Result<(), String>)
    requires
        *old(pos) <= tokens@.len(),
    ensures
        r is Ok <==> list_at(toks(tokens@), *old(pos) as int) is Some,
        r is Ok ==> texts(final(inports)@) == texts(old(inports)@) + list_at(toks(tokens@), *old(pos) as int)->Some_0.0
            && *final(pos) == list_at(toks(tokens@), *old(pos) as int)->Some_0.1,
        r is Ok ==> *final(pos) > *old(pos),
        *final(pos) <= tokens@.len(),
{
    let ghost ts = toks(tokens@);
    let ghost p0 = *pos as int;
    match parse_symbol(tokens, pos, Symbol::StartArray) {
        Ok(()) => {},
        Err(e) => {
            return Err(e);
        },
    }
    let ghost names0 = texts(inports@);
    assert(texts(inports@) =~= names0 + Seq::<Seq<char>>::empty());
    while *pos < tokens.len() && is_literal(&tokens[*pos])
        invariant
            ts == toks(tokens@),
            p0 + 1 <= *pos <= tokens@.len(),
            literals_from(ts, p0 + 1) == (texts(inports@).subrange(names0.len() as int, texts(inports@).len() as int)
                + literals_from(ts, *pos as int).0, literals_from(ts, *pos as int).1),
            texts(inports@).len() >= names0.len(),
            texts(inports@).subrange(0, names0.len() as int) == names0,
        decreases tokens@.len() - *pos,
    {
        let ghost before = inports@;
        match &tokens[*pos] {
            Token::Literal(x) => {
                inports.push(x.clone());
                proof {
                    let i = *pos as int;
                    assert(ts[i] == Tok::Lit(x@));
                    assert(texts(inports@) =~= texts(before).push(x@));
                    assert(texts(inports@).subrange(names0.len() as int, texts(inports@).len() as int) =~= texts(
                        before,
                    ).subrange(names0.len() as int, texts(before).len() as int).push(x@));
                    assert(texts(inports@).subrange(0, names0.len() as int) =~= texts(before).subrange(0, names0.len() as int));
                    let (l, j) = literals_from(ts, i + 1);
                    assert(literals_from(ts, i) == (seq![x@] + l, j));
                    assert(texts(before).subrange(names0.len() as int, texts(before).len() as int) + (seq![x@] + l) =~= texts(
                        before,
                    ).subrange(names0.len() as int, texts(before).len() as int).push(x@) + l);
                }
            },
            _ => {},
        }
        *pos = *pos + 1;
    }
    proof {
        let i = *pos as int;
        assert(literals_from(ts, i) == (Seq::<Seq<char>>::empty(), i));
        assert(texts(inports@) =~= names0 + texts(inports@).subrange(names0.len() as int, texts(inports@).len() as int));
    }
    parse_symbol(tokens, pos, Symbol::EndArray)
}

/// Reads the header at the start of `tokens` (`IN`, `OUT` and `INIT_CONDITIONS`, each
/// with its list) into a configuration without tasks; moves past it.
fn parse_conf(tokens: &Vec<Token>, pos: &mut usize) -> (r: Result<Conf, String>)
    requires
        *old(pos) == 0,
    ensures
        r is Ok <==> header_of(toks(tokens@)) is Some,
        r matches Ok(c) ==> {
            let h = header_of(toks(tokens@))->Some_0;
            &&& texts(c.inports@) == h.0
            &&& texts(c.outports@) == h.1
            &&& texts(c.initial@) == h.2
            &&& c.tasks@.len() == 0
            &&& *final(pos) == h.3
        },
        *final(pos) <= tokens@.len(),
{
    let ghost ts = toks(tokens@);
    let mut config = Conf { inports: Vec::new(), initial: Vec::new(), outports: Vec::new(), tasks: Vec::new() };
    assert(texts(config.inports@) =~= Seq::<Seq<char>>::empty());
    assert(texts(config.outports@) =~= Seq::<Seq<char>>::empty());
    assert(texts(config.initial@) =~= Seq::<Seq<char>>::empty());
    match parse_keyword(tokens, pos, Keyword::IN) {
        Ok(()) => {},
        Err(e) => {
            return Err(e);
        },
    }
    match populate(&mut config.inports, tokens, pos) {
        Ok(()) => {},
        Err(e) => {
            return Err(e);
        },
    }
    match parse_keyword(tokens, pos, Keyword::OUT) {
        Ok(()) => {},
        Err(e) => {
            return Err(e);
        },
    }
    match populate(&mut config.outports, tokens, pos) {
        Ok(()) => {},
        Err(e) => {
            return Err(e);
        },
    }
    match parse_keyword(tokens, pos, Keyword::INIT_CONDITIONS) {
        Ok(()) => {},
        Err(e) => {
            return Err(e);
        },
    }
    match populate(&mut config.initial, tokens, pos) {
        Ok(()) => {},
        Err(e) => {
            return Err(e);
        },
    }
    Ok(config)
}

/// Reads the task whose tokens start at the current position; moves past it.
fn parse_tasks(tokens: &Vec<Token>, pos: &mut usize) -> (r: Result<Task, String>)
    requires
        *old(pos) <= tokens@.len(),
    ensures
        r is Ok <==> task_at(toks(tokens@), *old(pos) as int) is Some,
        *old(pos) == tokens@.len() ==> (r matches Err(m) && m@ == "EMPTY"@),
        r matches Ok(t) ==> task_is(t, task_at(toks(tokens@), *old(pos) as int)->Some_0.0) && *final(pos)
            == task_at(toks(tokens@), *old(pos) as int)->Some_0.1 && *final(pos) > *old(pos),
        *final(pos) <= tokens@.len(),
{
    let ghost ts = toks(tokens@);
    let ghost p0 = *pos as int;
    if *pos == tokens.len() {
        return Err("EMPTY".to_owned());
    }
    let mut reqs: Vec<String> = Vec::new();
    let mut args: Vec<String> = Vec::new();
    let mut satisfies: Vec<String> = Vec::new();
    assert(texts(reqs@) =~= Seq::<Seq<char>>::empty());
    assert(texts(args@) =~= Seq::<Seq<char>>::empty());
    assert(texts(satisfies@) =~= Seq::<Seq<char>>::empty());
    match parse_keyword(tokens, pos, Keyword::REQUIRES) {
        Ok(()) => {},
        Err(e) => {
            return Err(e);
        },
    }
    match populate(&mut reqs, tokens, pos) {
        Ok(()) => {},
        Err(e) => {
            return Err(e);
        },
    }
    match parse_keyword(tokens, pos, Keyword::TASK) {
        Ok(()) => {},
        Err(e) => {
            return Err(e);
        },
    }
    if *pos >= tokens.len() {
        return Err("Task Name Expected".to_string());
    }
    let name = match &tokens[*pos] {
        Token::Literal(x) => x.clone(),
        _ => {
            return Err("Task Name Expected".to_string());
        },
    };
    *pos = *pos + 1;
    match populate(&mut args, tokens, pos) {
        Ok(()) => {},
        Err(e) => {
            return Err(e);
        },
    }
    if *pos >= tokens.len() {
        return Err("Cycles Expected".to_string());
    }
    let cycles = match &tokens[*pos] {
        Token::Literal(x) => {
            let cs = chars_of(x.as_str());
            assert(cs@.subrange(0, cs@.len() as int) =~= cs@);
            match number(&cs, 0, cs.len()) {
                Some(v) => v,
                None => {
                    return Err("Cycles Expected".to_string());
                },
            }
        },
        _ => {
            return Err("Cycles Expected".to_string());
        },
    };
    *pos = *pos + 1;
    match parse_keyword(tokens, pos, Keyword::SATISFIES) {
        Ok(()) => {},
        Err(e) => {
            return Err(e);
        },
    }
    match populate(&mut satisfies, tokens, pos) {
        Ok(()) => {},
        Err(e) => {
            return Err(e);
        },
    }
    let t = Task { name, args, requires: reqs, satisfies, cycles };
    proof {
        let spec = task_at(ts, p0)->Some_0.0;
        assert(t.name@ == spec.name);
        assert(texts(t.args@) == spec.args);
        assert(texts(t.requires@) == spec.requires);
        assert(texts(t.satisfies@) == spec.satisfies);
        assert(t.cycles == spec.cycles);
        assert(*pos == task_at(ts, p0)->Some_0.1);
        assert(*pos > p0);
    }
    Ok(t)
}

/// The configuration that `tokens` describe (see `conf_of`): the header, then tasks up
/// to the last token.
pub fn coder(tokens: Vec<Token>) -> (r: Result<Conf, String>)
    ensures
        r is Ok <==> conf_of(toks(tokens@)) is Some,
        r matches Ok(c) ==> {
            let v = conf_of(toks(tokens@))->Some_0;
            &&& texts(c.inports@) == v.0
            &&& texts(c.outports@) == v.1
            &&& texts(c.initial@) == v.2
            &&& c.tasks@.len() == v.3.len()
            &&& forall|i: int| 0 <= i < c.tasks@.len() ==> task_is(#[trigger] c.tasks@[i], v.3[i])
        },
{
    let ghost ts = toks(tokens@);
    let mut pos: usize = 0;
    let mut config = match parse_conf(&tokens, &mut pos) {
        Ok(c) => c,
        Err(e) => {
            return Err(e);
        },
    };
    let ghost j3 = pos as int;
    let ghost mut specs: Seq<TaskSpec> = Seq::empty();
    while pos < tokens.len()
        invariant
            ts == toks(tokens@),
            j3 <= pos <= tokens@.len(),
            header_of(ts) is Some,
            header_of(ts)->Some_0.3 == j3,
            texts(config.inports@) == header_of(ts)->Some_0.0,
            texts(config.outports@) == header_of(ts)->Some_0.1,
            texts(config.initial@) == header_of(ts)->Some_0.2,
            tasks_from(ts, j3) is Some <==> tasks_from(ts, pos as int) is Some,
            tasks_from(ts, pos as int) is Some ==> tasks_from(ts, j3)->Some_0 == specs + tasks_from(ts, pos as int)->Some_0,
            config.tasks@.len() == specs.len(),
            forall|i: int| 0 <= i < config.tasks@.len() ==> task_is(#[trigger] config.tasks@[i], specs[i]),
        decreases tokens@.len() - pos,
    {
        let ghost p = pos as int;
        match parse_tasks(&tokens, &mut pos) {
            Ok(t) => {
                proof {
                    let (ts1, j) = task_at(ts, p)->Some_0;
                    if tasks_from(ts, j) is Some {
                        assert(tasks_from(ts, p)->Some_0 == seq![ts1] + tasks_from(ts, j)->Some_0);
                        assert(specs + tasks_from(ts, p)->Some_0 =~= specs.push(ts1) + tasks_from(ts, j)->Some_0);
                    }
                    specs = specs.push(ts1);
                }
                config.tasks.push(t);
            },
            Err(e) => {
                return Err(e);
            },
        }
    }
    proof {
        assert(tasks_from(ts, pos as int) == Some(Seq::<TaskSpec>::empty()));
        assert(specs + Seq::<TaskSpec>::empty() =~= specs);
    }
    Ok(config)
}

/// The configuration written in the task-definition text `content`: its tokens (see
/// `parse`) read as a header and tasks (see `coder`).
pub fn conf_from_text(content: &str) -> (r: Result<Conf, String>)
    ensures
        r is Ok <==> (tokens_of(content@) is Ok && conf_of(tokens_of(content@)->Ok_0) is Some),
        r matches Ok(c) ==> {
            let v = conf_of(tokens_of(content@)->Ok_0)->Some_0;
            &&& texts(c.inports@) == v.0
            &&& texts(c.outports@) == v.1
            &&& texts(c.initial@) == v.2
            &&& c.tasks@.len() == v.3.len()
            &&& forall|i: int| 0 <= i < c.tasks@.len() ==> task_is(#[trigger] c.tasks@[i], v.3[i])
        },
{
    match parse(content) {
        Ok(tokens) => coder(tokens),
        Err(e) => Err(e),
    }
}

} // verus!

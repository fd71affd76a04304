use vstd::prelude::*;
use crate::instruction::{hex_literal, operation_named, operation_of, parse_hex_chars, Operation};
use crate::text::{chars_of, lines, split_lines, text_of, tokenize, tokens, views};

verus! {

/// The word of the `NOP` operation, which blank lines assemble to.
pub const NOP_CODE: u16 = 0x020;

/// The word of the `DEF` operation, which opens a definition line.
pub const DEF_CODE: u16 = 0x021;

/// The most source lines a program may have: every line index must fit a word.
pub const MAX_LINES: usize = 0x10000;

/// A definition as the assembler sees it: a name, the line it stands on, and its
/// words for a constant (`None` for a label).
pub struct DefModel {
    pub name: Seq<char>,
    pub line: int,
    pub words: Option<Seq<u16>>,
}

/// One entry of the symbol table: a label (`words` is `None`), which stands for the
/// index of the line that defines it, or a constant, which stands for its words.
pub struct Definition {
    pub name: Vec<char>,
    pub line: usize,
    pub words: Option<Vec<u16>>,
}

impl Definition {
    pub open spec fn model(&self) -> DefModel {
        DefModel {
            name: self.name@,
            line: self.line as int,
            words: match self.words {
                Some(w) => Some(w@),
                None => None,
            },
        }
    }
}

/// The names that `DEF` lines have bound, in the order of their lines.
pub struct SymbolTable {
    pub defs: Vec<Definition>,
}

impl View for SymbolTable {
    type V = Seq<DefModel>;

    open spec fn view(&self) -> Seq<DefModel> {
        self.defs@.map_values(|d: Definition| d.model())
    }
}

/// The definition of `name` in `d`; the latest one if there were several.
pub open spec fn lookup(d: Seq<DefModel>, name: Seq<char>) -> Option<DefModel>
    decreases d.len(),
{
    if d.len() == 0 {
        None
    } else if d.last().name == name {
        Some(d.last())
    } else {
        lookup(d.drop_last(), name)
    }
}

/// Every constant of the table stands for at least one word.
pub open spec fn table_wf(d: Seq<DefModel>) -> bool {
    forall|i: int| 0 <= i < d.len() ==> ((#[trigger] d[i]).words matches Some(w) ==> w.len() > 0)
}

/// The words that token `t` on line `line` stands for: a literal is one word, the
/// mnemonic of an operation is its code, a constant defined on an earlier line is its
/// words, and, when `labels` holds, a label is the index of its line.
pub open spec fn resolve(d: Seq<DefModel>, t: Seq<char>, line: int, labels: bool) -> Option<Seq<u16>> {
    match hex_literal(t) {
        Some(v) => Some(seq![v]),
        None => match operation_named(t) {
            Some(op) => Some(seq![op.code()]),
            None => match lookup(d, t) {
            Some(def) => match def.words {
                Some(w) => if def.line < line {
                    Some(w)
                } else {
                    None
                },
                None => if labels {
                    Some(seq![def.line as u16])
                } else {
                    None
                },
            },
            None => None,
            },
        },
    }
}

/// The words of the tokens `ts` one after another, or the index of the first token
/// that does not resolve.
pub open spec fn resolve_all(d: Seq<DefModel>, ts: Seq<Seq<char>>, line: int, labels: bool) -> Result<
    Seq<u16>,
    int,
>
    decreases ts.len(),
{
    if ts.len() == 0 {
        Ok(Seq::empty())
    } else {
        match resolve_all(d, ts.drop_last(), line, labels) {
            Err(k) => Err(k),
            Ok(w) => match resolve(d, ts.last(), line, labels) {
                Some(x) => Ok(w + x),
                None => Err(ts.len() - 1),
            },
        }
    }
}

proof fn lemma_lookup_in_table(d: Seq<DefModel>, name: Seq<char>)
    ensures
        lookup(d, name) matches Some(def) ==> exists|i: int| 0 <= i < d.len() && d[i] == def,
    decreases d.len(),
{
    if d.len() > 0 && d.last().name != name {
        lemma_lookup_in_table(d.drop_last(), name);
        if let Some(def) = lookup(d, name) {
            let i = choose|i: int| 0 <= i < d.drop_last().len() && d.drop_last()[i] == def;
            assert(d[i] == def);
        }
    } else if d.len() > 0 {
        assert(d[d.len() - 1] == d.last());
    }
}

proof fn lemma_resolve_nonempty(d: Seq<DefModel>, t: Seq<char>, line: int, labels: bool)
    requires
        table_wf(d),
    ensures
        resolve(d, t, line, labels) matches Some(w) ==> w.len() > 0,
{
    lemma_lookup_in_table(d, t);
}

proof fn lemma_resolve_all_nonempty(d: Seq<DefModel>, ts: Seq<Seq<char>>, line: int, labels: bool)
    requires
        table_wf(d),
        ts.len() > 0,
    ensures
        resolve_all(d, ts, line, labels) matches Ok(w) ==> w.len() > 0,
{
    lemma_resolve_nonempty(d, ts.last(), line, labels);
}

fn same_chars(a: &[char], b: &[char]) -> (r: bool)
    ensures
        r == (a@ == b@),
{
    if a.len() != b.len() {
        return false;
    }
    let mut i: usize = 0;
    while i < a.len()
        invariant
            a.len() == b.len(),
            0 <= i <= a.len(),
            a@.take(i as int) == b@.take(i as int),
        decreases a.len() - i,
    {
        if a[i] != b[i] {
            assert(a@[i as int] != b@[i as int]);
            return false;
        }
        assert(a@.take(i + 1) == a@.take(i as int).push(a@[i as int]));
        assert(b@.take(i + 1) == b@.take(i as int).push(b@[i as int]));
        i = i + 1;
    }
    assert(a@.take(a.len() as int) == a@);
    assert(b@.take(b.len() as int) == b@);
    true
}

fn copy_of<T: Copy>(w: &[T]) -> (r: Vec<T>)
    ensures
        r@ == w@,
{
    let mut r: Vec<T> = Vec::new();
    let mut i: usize = 0;
    while i < w.len()
        invariant
            0 <= i <= w.len(),
            r@ == w@.take(i as int),
        decreases w.len() - i,
    {
        r.push(w[i]);
        assert(w@.take(i + 1) == w@.take(i as int).push(w@[i as int]));
        i = i + 1;
    }
    assert(w@.take(w.len() as int) == w@);
    r
}

impl SymbolTable {
    /// An empty table.
    pub fn new() -> (r: SymbolTable)
        ensures
            r@ == Seq::<DefModel>::empty(),
    {
        SymbolTable { defs: Vec::new() }
    }

    /// The position of the definition of `name`; see `lookup`.
    pub fn find(&self, name: &[char]) -> (r: Option<usize>)
        ensures
            match r {
                Some(i) => i < self@.len() && lookup(self@, name@) == Some(self@[i as int]),
                None => lookup(self@, name@) is None,
            },
    {
        let mut i: usize = self.defs.len();
        assert(self@.take(i as int) =~= self@);
        while i > 0
            invariant
                0 <= i <= self.defs.len(),
                lookup(self@, name@) == lookup(self@.take(i as int), name@),
            decreases i,
        {
            assert(self@.take(i as int).drop_last() == self@.take(i - 1));
            assert(self@.take(i as int).last() == self@[i - 1]);
            if same_chars(self.defs[i - 1].name.as_slice(), name) {
                return Some(i - 1);
            }
            i = i - 1;
        }
        assert(self@.take(0) == Seq::<DefModel>::empty());
        None
    }
}

/// Resolves a literal or a constant defined before `line`; `None` for anything else.
pub fn parse_argument(arg: &[char], table: &SymbolTable, line: usize) -> (r: Option<Vec<u16>>)
    ensures
        match r {
            Some(w) => resolve(table@, arg@, line as int, false) == Some(w@),
            None => resolve(table@, arg@, line as int, false) is None,
        },
{
    resolve_token(arg, table, line, false)
}

/// Resolves a literal, a constant defined before `line`, or, when `labels` holds, a
/// label; see `resolve`.
pub fn resolve_token(arg: &[char], table: &SymbolTable, line: usize, labels: bool) -> (r: Option<
    Vec<u16>,
>)
    ensures
        match r {
            Some(w) => resolve(table@, arg@, line as int, labels) == Some(w@),
            None => resolve(table@, arg@, line as int, labels) is None,
        },
{
    if let Some(v) = parse_hex_chars(arg) {
        let mut w: Vec<u16> = Vec::new();
        w.push(v);
        assert(w@ =~= seq![v]);
        return Some(w);
    }
    if let Some(op) = Operation::from_mnemonic(arg) {
        let mut w: Vec<u16> = Vec::new();
        w.push(op.to_word());
        assert(w@ =~= seq![op.code()]);
        return Some(w);
    }
    match table.find(arg) {
        None => None,
        Some(i) => {
            let def = &table.defs[i];
            match &def.words {
                Some(words) => {
                    if def.line < line {
                        Some(copy_of(words.as_slice()))
                    } else {
                        None
                    }
                },
                None => {
                    if labels {
                        let mut w: Vec<u16> = Vec::new();
                        w.push(def.line as u16);
                        assert(w@ =~= seq![def.line as u16]);
                        Some(w)
                    } else {
                        None
                    }
                },
            }
        },
    }
}

/// Resolves every token of `ts` and joins their words; on failure, the index of the
/// first token that does not resolve. See `resolve_all`.
pub fn resolve_tokens(ts: &[Vec<char>], table: &SymbolTable, line: usize, labels: bool) -> (r: Result<
    Vec<u16>,
    usize,
>)
    ensures
        match r {
            Ok(w) => resolve_all(table@, views(ts@), line as int, labels) == Ok::<Seq<u16>, int>(w@),
            Err(k) => resolve_all(table@, views(ts@), line as int, labels) == Err::<Seq<u16>, int>(
                k as int,
            ),
        },
{
    let mut acc: Vec<u16> = Vec::new();
    let mut k: usize = 0;
    assert(views(ts@).take(0) =~= Seq::<Seq<char>>::empty());
    while k < ts.len()
        invariant
            0 <= k <= ts.len(),
            resolve_all(table@, views(ts@).take(k as int), line as int, labels) == Ok::<
                Seq<u16>,
                int,
            >(acc@),
        decreases ts.len() - k,
    {
        assert(views(ts@).take(k + 1).drop_last() == views(ts@).take(k as int));
        assert(views(ts@).take(k + 1).last() == ts@[k as int]@);
        match resolve_token(ts[k].as_slice(), table, line, labels) {
            None => {
                proof {
                    lemma_resolve_all_prefix_err(table@, views(ts@), line as int, labels, k + 1);
                }
                return Err(k);
            },
            Some(w) => {
                let mut j: usize = 0;
                let ghost before = acc@;
                while j < w.len()
                    invariant
                        0 <= j <= w.len(),
                        acc@ == before + w@.take(j as int),
                    decreases w.len() - j,
                {
                    acc.push(w[j]);
                    assert(w@.take(j + 1) == w@.take(j as int).push(w@[j as int]));
                    j = j + 1;
                }
                assert(w@.take(w.len() as int) == w@);
            },
        }
        k = k + 1;
    }
    assert(views(ts@).take(ts.len() as int) == views(ts@));
    Ok(acc)
}

proof fn lemma_resolve_all_err_bound(d: Seq<DefModel>, ts: Seq<Seq<char>>, line: int, labels: bool)
    ensures
        resolve_all(d, ts, line, labels) matches Err(k) ==> 0 <= k < ts.len(),
    decreases ts.len(),
{
    if ts.len() > 0 {
        lemma_resolve_all_err_bound(d, ts.drop_last(), line, labels);
    }
}

/// Once a prefix of the tokens fails to resolve, the whole list fails at the same token.
proof fn lemma_resolve_all_prefix_err(
    d: Seq<DefModel>,
    ts: Seq<Seq<char>>,
    line: int,
    labels: bool,
    n: int,
)
    requires
        0 <= n <= ts.len(),
        resolve_all(d, ts.take(n), line, labels) is Err,
    ensures
        resolve_all(d, ts, line, labels) == resolve_all(d, ts.take(n), line, labels),
    decreases ts.len() - n,
{
    if n < ts.len() {
        assert(ts.take(n + 1).drop_last() == ts.take(n));
        lemma_resolve_all_prefix_err(d, ts, line, labels, n + 1);
    } else {
        assert(ts.take(n) == ts);
    }
}

/// Why assembly failed, with the index of the source line (counting from zero).
#[derive(Clone, Debug, PartialEq, Eq)]
pub enum CompileError {
    /// The source has more lines than a word can number.
    TooManyLines { lines: usize },
    /// A `DEF` with no name after it.
    MissingName { line: usize },
    /// A name that an earlier `DEF` already bound, or the mnemonic of an operation.
    DuplicateName { line: usize, name: String },
    /// A token that is no literal, no constant defined above, and (outside `DEF` lines)
    /// no label.
    UnresolvedToken { line: usize, token: String },
    /// A line whose first word encodes no operation.
    UnknownOperation { line: usize, code: u16 },
}

/// The mathematical value of a `CompileError`.
pub enum CompileFault {
    TooManyLines { lines: int },
    MissingName { line: int },
    DuplicateName { line: int, name: Seq<char> },
    UnresolvedToken { line: int, token: Seq<char> },
    UnknownOperation { line: int, code: u16 },
}

impl View for CompileError {
    type V = CompileFault;

    open spec fn view(&self) -> CompileFault {
        match self {
            CompileError::TooManyLines { lines } => CompileFault::TooManyLines { lines: *lines as int },
            CompileError::MissingName { line } => CompileFault::MissingName { line: *line as int },
            CompileError::DuplicateName { line, name } => CompileFault::DuplicateName {
                line: *line as int,
                name: name@,
            },
            CompileError::UnresolvedToken { line, token } => CompileFault::UnresolvedToken {
                line: *line as int,
                token: token@,
            },
            CompileError::UnknownOperation { line, code } => CompileFault::UnknownOperation {
                line: *line as int,
                code: *code,
            },
        }
    }
}

/// Whether a line with tokens `t` is a definition: its first token resolves, without
/// labels, to words that start with the `DEF` code.
pub open spec fn is_def_line(d: Seq<DefModel>, t: Seq<Seq<char>>, line: int) -> bool {
    t.len() > 0 && match resolve(d, t[0], line, false) {
        Some(w) => w.len() > 0 && w[0] == DEF_CODE,
        None => false,
    }
}

/// The table after the first pass has read line `line`, whose tokens are `t`: a `DEF`
/// with a name alone binds a label to the line, one with more tokens binds a constant to
/// their words; any other line leaves the table as it is.
pub open spec fn define(d: Seq<DefModel>, t: Seq<Seq<char>>, line: int) -> Result<
    Seq<DefModel>,
    CompileFault,
> {
    if !is_def_line(d, t, line) {
        Ok(d)
    } else if t.len() < 2 {
        Err(CompileFault::MissingName { line })
    } else if lookup(d, t[1]) is Some || operation_named(t[1]) is Some {
        Err(CompileFault::DuplicateName { line, name: t[1] })
    } else if t.len() == 2 {
        Ok(d.push(DefModel { name: t[1], line, words: None }))
    } else {
        match resolve_all(d, t.skip(2), line, false) {
            Ok(w) => Ok(d.push(DefModel { name: t[1], line, words: Some(w) })),
            Err(k) => Err(CompileFault::UnresolvedToken { line, token: t[k + 2] }),
        }
    }
}

/// The symbol table built by the first pass over the first `n` lines of `ls`.
pub open spec fn definitions(ls: Seq<Seq<char>>, n: int) -> Result<Seq<DefModel>, CompileFault>
    decreases n,
{
    if n <= 0 {
        Ok(Seq::empty())
    } else {
        match definitions(ls, n - 1) {
            Err(e) => Err(e),
            Ok(d) => define(d, tokens(ls[n - 1]), n - 1),
        }
    }
}

/// The row that the second pass emits for line `line` with tokens `t`: a `NOP` for a
/// blank line, a `DEF` placeholder for a definition, and otherwise the words of all its
/// tokens, labels included, which must start with an operation.
pub open spec fn row_of(d: Seq<DefModel>, t: Seq<Seq<char>>, line: int) -> Result<
    Seq<u16>,
    CompileFault,
> {
    if t.len() == 0 {
        Ok(seq![NOP_CODE])
    } else if is_def_line(d, t, line) {
        Ok(seq![DEF_CODE])
    } else {
        match resolve_all(d, t, line, true) {
            Err(k) => Err(CompileFault::UnresolvedToken { line, token: t[k] }),
            Ok(w) => if operation_of(w[0]) is Some {
                Ok(w)
            } else {
                Err(CompileFault::UnknownOperation { line, code: w[0] })
            },
        }
    }
}

/// The rows of the first `n` lines of `ls`, one per line, against the table `d`.
pub open spec fn rows_of(ls: Seq<Seq<char>>, d: Seq<DefModel>, n: int) -> Result<
    Seq<Seq<u16>>,
    CompileFault,
>
    decreases n,
{
    if n <= 0 {
        Ok(Seq::empty())
    } else {
        match rows_of(ls, d, n - 1) {
            Err(e) => Err(e),
            Ok(rows) => match row_of(d, tokens(ls[n - 1]), n - 1) {
                Err(e) => Err(e),
                Ok(row) => Ok(rows.push(row)),
            },
        }
    }
}

/// Whether a row is a placeholder (`NOP` or `DEF`) that dead-row elimination drops.
pub open spec fn is_dead(row: Seq<u16>) -> bool {
    row.len() > 0 && (row[0] == NOP_CODE || row[0] == DEF_CODE)
}

/// The number of rows before index `k` that are kept: the new index of row `k`.
pub open spec fn live_before(rows: Seq<Seq<u16>>, k: int) -> nat
    decreases k,
{
    if k <= 0 {
        0
    } else {
        live_before(rows, k - 1) + if is_dead(rows[k - 1]) {
            0nat
        } else {
            1nat
        }
    }
}

/// Where a branch to `t` goes after elimination: the new index of row `t + 1` when that
/// row exists and is kept (a label marks the line after which execution resumes), and
/// `t` unchanged otherwise.
pub open spec fn retarget(rows: Seq<Seq<u16>>, t: u16) -> u16 {
    let j = t + 1;
    if j < rows.len() && !is_dead(rows[j]) {
        live_before(rows, j) as u16
    } else {
        t
    }
}

/// A row after elimination: a branch row has its target rewritten by `retarget`.
pub open spec fn rewrite(rows: Seq<Seq<u16>>, row: Seq<u16>) -> Seq<u16> {
    if row.len() >= 2 && (operation_of(row[0]) matches Some(op) && op.is_branch()) {
        row.update(1, retarget(rows, row[1]))
    } else {
        row
    }
}

/// The kept rows among the first `k` of `rows`, rewritten, in order.
pub open spec fn compact_prefix(rows: Seq<Seq<u16>>, k: int) -> Seq<Seq<u16>>
    decreases k,
{
    if k <= 0 {
        Seq::empty()
    } else {
        let p = compact_prefix(rows, k - 1);
        if is_dead(rows[k - 1]) {
            p
        } else {
            p.push(rewrite(rows, rows[k - 1]))
        }
    }
}

/// Dead-row elimination of a whole program.
pub open spec fn compact(rows: Seq<Seq<u16>>) -> Seq<Seq<u16>> {
    compact_prefix(rows, rows.len() as int)
}

/// The contents of a program's rows.
pub open spec fn rows_view(p: Seq<Vec<u16>>) -> Seq<Seq<u16>> {
    p.map_values(|r: Vec<u16>| r@)
}

/// What assembling the source text `src` gives.
pub open spec fn assemble(src: Seq<char>) -> Result<Seq<Seq<u16>>, CompileFault> {
    let ls = lines(src);
    if ls.len() > MAX_LINES {
        Err(CompileFault::TooManyLines { lines: ls.len() as int })
    } else {
        match definitions(ls, ls.len() as int) {
            Err(e) => Err(e),
            Ok(d) => match rows_of(ls, d, ls.len() as int) {
                Err(e) => Err(e),
                Ok(rows) => Ok(compact(rows)),
            },
        }
    }
}

proof fn lemma_definitions_wf(ls: Seq<Seq<char>>, n: int)
    ensures
        definitions(ls, n) matches Ok(d) ==> table_wf(d),
    decreases n,
{
    if n > 0 {
        lemma_definitions_wf(ls, n - 1);
        if let Ok(d) = definitions(ls, n - 1) {
            let t = tokens(ls[n - 1]);
            if t.len() > 2 {
                lemma_resolve_all_nonempty(d, t.skip(2), n - 1, false);
            }
            if let Ok(d2) = definitions(ls, n) {
                assert forall|i: int| 0 <= i < d2.len() implies ((#[trigger] d2[i]).words matches Some(
                    w,
                ) ==> w.len() > 0) by {
                    if i < d.len() {
                        assert(d2[i] == d[i]);
                    }
                }
            }
        }
    }
}

fn is_definition(table: &SymbolTable, t: &Vec<Vec<char>>, line: usize) -> (r: bool)
    ensures
        r == is_def_line(table@, views(t@), line as int),
{
    if t.len() == 0 {
        return false;
    }
    match resolve_token(t[0].as_slice(), table, line, false) {
        Some(w) => w.len() > 0 && w[0] == DEF_CODE,
        None => false,
    }
}

/// The first pass on one line; see `define`.
fn define_line(table: &mut SymbolTable, t: &Vec<Vec<char>>, line: usize) -> (r: Result<
    (),
    CompileError,
>)
    ensures
        match r {
            Ok(_) => define(old(table)@, views(t@), line as int) == Ok::<
                Seq<DefModel>,
                CompileFault,
            >(final(table)@),
            Err(e) => define(old(table)@, views(t@), line as int) == Err::<
                Seq<DefModel>,
                CompileFault,
            >(e@),
        },
{
    let ghost ts = views(t@);
    if !is_definition(table, t, line) {
        return Ok(());
    }
    if t.len() < 2 {
        return Err(CompileError::MissingName { line });
    }
    assert(ts[1] == t@[1]@);
    if table.find(t[1].as_slice()).is_some() || Operation::from_mnemonic(t[1].as_slice()).is_some() {
        return Err(CompileError::DuplicateName { line, name: text_of(t[1].as_slice()) });
    }
    let words = if t.len() == 2 {
        None
    } else {
        assert(views(t@.skip(2)) =~= ts.skip(2));
        match resolve_tokens(&t.as_slice()[2..t.len()], table, line, false) {
            Ok(w) => Some(w),
            Err(k) => {
                proof {
                    lemma_resolve_all_err_bound(table@, ts.skip(2), line as int, false);
                }
                assert(ts[k + 2] == t@[k + 2]@);
                return Err(CompileError::UnresolvedToken { line, token: text_of(t[k + 2].as_slice()) });
            },
        }
    };
    let def = Definition { name: copy_of(t[1].as_slice()), line, words };
    let ghost before = table@;
    table.defs.push(def);
    assert(table@ =~= before.push(def.model()));
    Ok(())
}

/// The second pass on one line; see `row_of`.
fn assemble_line(table: &SymbolTable, t: &Vec<Vec<char>>, line: usize) -> (r: Result<
    Vec<u16>,
    CompileError,
>)
    requires
        table_wf(table@),
    ensures
        match r {
            Ok(row) => row_of(table@, views(t@), line as int) == Ok::<Seq<u16>, CompileFault>(row@),
            Err(e) => row_of(table@, views(t@), line as int) == Err::<Seq<u16>, CompileFault>(e@),
        },
{
    let ghost ts = views(t@);
    let mut row: Vec<u16> = Vec::new();
    if t.len() == 0 {
        row.push(NOP_CODE);
        assert(row@ =~= seq![NOP_CODE]);
        return Ok(row);
    }
    if is_definition(table, t, line) {
        row.push(DEF_CODE);
        assert(row@ =~= seq![DEF_CODE]);
        return Ok(row);
    }
    match resolve_tokens(t.as_slice(), table, line, true) {
        Err(k) => {
            proof {
                lemma_resolve_all_err_bound(table@, ts, line as int, true);
            }
            assert(ts[k as int] == t@[k as int]@);
            Err(CompileError::UnresolvedToken { line, token: text_of(t[k].as_slice()) })
        },
        Ok(w) => {
            proof {
                lemma_resolve_all_nonempty(table@, ts, line as int, true);
            }
            if Operation::from_word(w[0]).is_some() {
                Ok(w)
            } else {
                Err(CompileError::UnknownOperation { line, code: w[0] })
            }
        },
    }
}

fn dead_row(row: &Vec<u16>) -> (r: bool)
    ensures
        r == is_dead(row@),
{
    row.len() > 0 && (row[0] == NOP_CODE || row[0] == DEF_CODE)
}

proof fn lemma_live_before_bound(rows: Seq<Seq<u16>>, k: int)
    requires
        0 <= k,
    ensures
        live_before(rows, k) <= k,
    decreases k,
{
    if k > 0 {
        lemma_live_before_bound(rows, k - 1);
    }
}

/// Drops the `NOP` and `DEF` rows and points every branch at the new index of the row
/// after its old target; see `compact`.
pub fn eliminate_dead_rows(rows: &Vec<Vec<u16>>) -> (r: Vec<Vec<u16>>)
    requires
        rows.len() <= MAX_LINES,
    ensures
        rows_view(r@) == compact(rows_view(rows@)),
{
    let ghost rs = rows_view(rows@);
    let mut index: Vec<u16> = Vec::new();
    let mut count: usize = 0;
    let mut k: usize = 0;
    while k < rows.len()
        invariant
            0 <= k <= rows.len() <= MAX_LINES,
            rs == rows_view(rows@),
            index.len() == k,
            forall|j: int| 0 <= j < k ==> index@[j] == live_before(rs, j),
            count == live_before(rs, k as int),
            count <= k,
        decreases rows.len() - k,
    {
        index.push(count as u16);
        assert(rs[k as int] == rows@[k as int]@);
        if !dead_row(&rows[k]) {
            count = count + 1;
        }
        k = k + 1;
    }
    let mut out: Vec<Vec<u16>> = Vec::new();
    let mut k: usize = 0;
    while k < rows.len()
        invariant
            0 <= k <= rows.len() <= MAX_LINES,
            rs == rows_view(rows@),
            index.len() == rows.len(),
            forall|j: int| 0 <= j < rows.len() ==> index@[j] == live_before(rs, j),
            rows_view(out@) == compact_prefix(rs, k as int),
        decreases rows.len() - k,
    {
        assert(rs[k as int] == rows@[k as int]@);
        if !dead_row(&rows[k]) {
            let mut row = copy_of(rows[k].as_slice());
            if row.len() >= 2 {
                let op = Operation::from_word(row[0]);
                if op.is_some() && op.unwrap().branches() {
                    let t = row[1];
                    let j: usize = t as usize + 1;
                    if j < rows.len() && !dead_row(&rows[j]) {
                        proof {
                            lemma_live_before_bound(rs, j as int);
                        }
                        assert(rs[j as int] == rows@[j as int]@);
                        row.set(1, index[j]);
                    } else {
                        assert(j < rows.len() ==> rs[j as int] == rows@[j as int]@);
                    }
                }
            }
            assert(row@ =~= rewrite(rs, rs[k as int]));
            let ghost before = out@;
            out.push(row);
            assert(rows_view(out@) =~= rows_view(before).push(row@));
        }
        k = k + 1;
    }
    out
}

/// Assembles source text into a program: the first pass binds every `DEF` name, the
/// second emits one row per line, and dead-row elimination compacts the rows.
pub fn compile(program: String) -> (r: Result<Vec<Vec<u16>>, CompileError>)
    ensures
        match r {
            Ok(p) => assemble(program@) == Ok::<Seq<Seq<u16>>, CompileFault>(rows_view(p@)),
            Err(e) => assemble(program@) == Err::<Seq<Seq<u16>>, CompileFault>(e@),
        },
{
    let chars = chars_of(program.as_str());
    let ls = split_lines(chars.as_slice());
    let ghost lsv = lines(program@);
    assert(views(ls@) == lsv);
    if ls.len() > MAX_LINES {
        return Err(CompileError::TooManyLines { lines: ls.len() });
    }
    let mut toks: Vec<Vec<Vec<char>>> = Vec::new();
    let mut i: usize = 0;
    while i < ls.len()
        invariant
            0 <= i <= ls.len(),
            views(ls@) == lsv,
            lsv == lines(program@),
            toks.len() == i,
            forall|j: int| 0 <= j < i ==> views(#[trigger] toks@[j]@) == tokens(lsv[j]),
        decreases ls.len() - i,
    {
        assert(lsv[i as int] == ls@[i as int]@);
        toks.push(tokenize(ls[i].as_slice()));
        i = i + 1;
    }
    let mut table = SymbolTable::new();
    let mut i: usize = 0;
    while i < ls.len()
        invariant
            0 <= i <= ls.len() <= MAX_LINES,
            views(ls@) == lsv,
            lsv == lines(program@),
            toks.len() == ls.len(),
            forall|j: int| 0 <= j < ls.len() ==> views(#[trigger] toks@[j]@) == tokens(lsv[j]),
            definitions(lsv, i as int) == Ok::<Seq<DefModel>, CompileFault>(table@),
        decreases ls.len() - i,
    {
        assert(views(toks@[i as int]@) == tokens(lsv[i as int]));
        match define_line(&mut table, &toks[i], i) {
            Ok(_) => {},
            Err(e) => {
                proof {
                    lemma_definitions_err(lsv, i as int + 1, lsv.len() as int);
                }
                return Err(e);
            },
        }
        i = i + 1;
    }
    proof {
        lemma_definitions_wf(lsv, lsv.len() as int);
    }
    let mut rows: Vec<Vec<u16>> = Vec::new();
    let mut i: usize = 0;
    assert(rows_view(rows@) =~= Seq::<Seq<u16>>::empty());
    while i < ls.len()
        invariant
            0 <= i <= ls.len() <= MAX_LINES,
            views(ls@) == lsv,
            lsv == lines(program@),
            toks.len() == ls.len(),
            forall|j: int| 0 <= j < ls.len() ==> views(#[trigger] toks@[j]@) == tokens(lsv[j]),
            definitions(lsv, lsv.len() as int) == Ok::<Seq<DefModel>, CompileFault>(table@),
            table_wf(table@),
            rows.len() == i,
            rows_of(lsv, table@, i as int) == Ok::<Seq<Seq<u16>>, CompileFault>(rows_view(rows@)),
        decreases ls.len() - i,
    {
        assert(views(toks@[i as int]@) == tokens(lsv[i as int]));
        match assemble_line(&table, &toks[i], i) {
            Ok(row) => {
                let ghost before = rows@;
                rows.push(row);
                assert(rows_view(rows@) =~= rows_view(before).push(row@));
            },
            Err(e) => {
                proof {
                    lemma_rows_of_err(lsv, table@, i as int + 1, lsv.len() as int);
                }
                return Err(e);
            },
        }
        i = i + 1;
    }
    Ok(eliminate_dead_rows(&rows))
}

proof fn lemma_definitions_err(ls: Seq<Seq<char>>, n: int, m: int)
    requires
        0 <= n <= m,
        definitions(ls, n) is Err,
    ensures
        definitions(ls, m) == definitions(ls, n),
    decreases m - n,
{
    if n < m {
        lemma_definitions_err(ls, n, m - 1);
    }
}

proof fn lemma_rows_of_err(ls: Seq<Seq<char>>, d: Seq<DefModel>, n: int, m: int)
    requires
        0 <= n <= m,
        rows_of(ls, d, n) is Err,
    ensures
        rows_of(ls, d, m) == rows_of(ls, d, n),
    decreases m - n,
{
    if n < m {
        lemma_rows_of_err(ls, d, n, m - 1);
    }
}

/// After elimination there is one row per kept row, and kept row `i` stands at its new
/// index `live_before(rows, i)`, rewritten.
pub proof fn lemma_compact_index(rows: Seq<Seq<u16>>, n: int, i: int)
    requires
        0 <= i < n <= rows.len(),
        !is_dead(rows[i]),
    ensures
        compact_prefix(rows, n).len() == live_before(rows, n),
        live_before(rows, i) < live_before(rows, n),
        compact_prefix(rows, n)[live_before(rows, i) as int] == rewrite(rows, rows[i]),
    decreases n,
{
    lemma_compact_len(rows, n);
    if i < n - 1 {
        lemma_compact_index(rows, n - 1, i);
    }
}

proof fn lemma_compact_len(rows: Seq<Seq<u16>>, n: int)
    requires
        0 <= n <= rows.len(),
    ensures
        compact_prefix(rows, n).len() == live_before(rows, n),
    decreases n,
{
    if n > 0 {
        lemma_compact_len(rows, n - 1);
    }
}

/// A branch row with its target `t` replaced by `2 * t`: the line of the label that a
/// source with a label line before every row gives row `t`.
pub open spec fn label_target(row: Seq<u16>) -> Seq<u16> {
    if row.len() >= 2 && (operation_of(row[0]) matches Some(op) && op.is_branch()) {
        row.update(1, (2 * row[1]) as u16)
    } else {
        row
    }
}

/// The rows that the second pass emits for program `p` written out with a label line
/// before every row: a `DEF` placeholder, then the row with its target relabeled.
pub open spec fn relabeled(p: Seq<Seq<u16>>) -> Seq<Seq<u16>> {
    Seq::new(
        2 * p.len(),
        |i: int|
            if i % 2 == 0 {
                seq![DEF_CODE]
            } else {
                label_target(p[i / 2])
            },
    )
}

/// Whether `r` starts with the rows of `relabeled(p)`.
pub open spec fn starts_relabeled(r: Seq<Seq<u16>>, p: Seq<Seq<u16>>) -> bool {
    r.len() >= 2 * p.len() && forall|i: int| 0 <= i < 2 * p.len() ==> #[trigger] r[i] == relabeled(p)[i]
}

proof fn lemma_relabeled_live_before(r: Seq<Seq<u16>>, p: Seq<Seq<u16>>, i: int)
    requires
        0 <= i <= p.len(),
        starts_relabeled(r, p),
        forall|k: int| 0 <= k < p.len() ==> !is_dead(#[trigger] p[k]),
    ensures
        live_before(r, 2 * i) == i,
        i < p.len() ==> live_before(r, 2 * i + 1) == i,
    decreases i,
{
    let q = relabeled(p);
    if i > 0 {
        lemma_relabeled_live_before(r, p, i - 1);
        assert(r[2 * i - 2] == q[2 * i - 2]);
        assert(q[2 * i - 2] == seq![DEF_CODE]);
        assert((2 * i - 1) / 2 == i - 1);
        assert(r[2 * i - 1] == q[2 * i - 1]);
        assert(q[2 * i - 1] == label_target(p[i - 1]));
        assert(!is_dead(p[i - 1]));
    }
    if i < p.len() {
        assert(r[2 * i] == q[2 * i]);
        assert(q[2 * i] == seq![DEF_CODE]);
        assert(is_dead(r[2 * i]));
        assert(live_before(r, 2 * i + 1) == live_before(r, 2 * i) + 0);
    }
}

/// The first `2 * n` rows of a row list that starts with `relabeled(p)` eliminate to the
/// first `n` rows of `p`.
pub proof fn lemma_relabel_prefix(r: Seq<Seq<u16>>, p: Seq<Seq<u16>>, n: int)
    requires
        0 <= n <= p.len(),
        p.len() <= 0x8000,
        starts_relabeled(r, p),
        forall|i: int| 0 <= i < p.len() ==> !is_dead(#[trigger] p[i]),
        forall|i: int|
            0 <= i < p.len() && #[trigger] p[i].len() >= 2 && (operation_of(p[i][0]) matches Some(
                op,
            ) && op.is_branch()) ==> (p[i][1] as int) < p.len(),
    ensures
        compact_prefix(r, 2 * n) == p.take(n),
    decreases n,
{
    let q = relabeled(p);
    if n > 0 {
        lemma_relabel_prefix(r, p, n - 1);
        let i = n - 1;
        assert(r[2 * i] == q[2 * i]);
        assert(q[2 * i] == seq![DEF_CODE]);
        assert((2 * i + 1) / 2 == i);
        assert(r[2 * i + 1] == q[2 * i + 1]);
        assert(q[2 * i + 1] == label_target(p[i]));
        assert(!is_dead(p[i]));
        assert(compact_prefix(r, 2 * i + 1) == compact_prefix(r, 2 * i));
        let row = p[i];
        if row.len() >= 2 && (operation_of(row[0]) matches Some(op) && op.is_branch()) {
            let t = row[1] as int;
            assert(t < p.len());
            lemma_relabeled_live_before(r, p, t);
            assert((2 * t + 1) / 2 == t);
            assert(r[2 * t + 1] == q[2 * t + 1]);
            assert(q[2 * t + 1] == label_target(p[t]));
            assert(!is_dead(p[t]));
            assert(retarget(r, (2 * t) as u16) == t);
            assert(rewrite(r, r[2 * i + 1]) =~= row);
        }
        assert(p.take(n) =~= p.take(n - 1).push(p[i]));
    }
}

/// The rows that the second pass emits for `src`, before elimination; empty when a
/// pass fails.
pub open spec fn emitted(src: Seq<char>) -> Seq<Seq<u16>> {
    let ls = lines(src);
    match definitions(ls, ls.len() as int) {
        Ok(d) => match rows_of(ls, d, ls.len() as int) {
            Ok(rows) => rows,
            Err(_) => Seq::empty(),
        },
        Err(_) => Seq::empty(),
    }
}

/// No mnemonic reads as a literal.
proof fn lemma_mnemonic_not_literal(t: Seq<char>)
    ensures
        operation_named(t) is Some ==> hex_literal(t) is None,
{
    if operation_named(t) is Some {
        assert(t[0] != '0');
    }
}

proof fn lemma_definitions_prefix_ok(ls: Seq<Seq<char>>, n: int, m: int)
    requires
        0 <= n <= m,
        definitions(ls, m) is Ok,
    ensures
        definitions(ls, n) is Ok,
    decreases m - n,
{
    if n < m {
        lemma_definitions_prefix_ok(ls, n + 1, m);
    }
}

/// Once the first pass binds a label, later lines leave it bound.
proof fn lemma_label_persists(ls: Seq<Seq<char>>, j: int, n: int)
    requires
        0 <= j < n <= ls.len(),
        definitions(ls, n) is Ok,
        tokens(ls[j]).len() == 2,
        operation_named(tokens(ls[j])[0]) == Some(Operation::DEF),
    ensures
        lookup(definitions(ls, n)->Ok_0, tokens(ls[j])[1]) == Some(
            DefModel { name: tokens(ls[j])[1], line: j, words: None },
        ),
        operation_named(tokens(ls[j])[1]) is None,
    decreases n,
{
    let name = tokens(ls[j])[1];
    lemma_definitions_prefix_ok(ls, n - 1, n);
    let d = definitions(ls, n - 1)->Ok_0;
    let t = tokens(ls[n - 1]);
    if n == j + 1 {
        lemma_mnemonic_not_literal(t[0]);
        assert(resolve(d, t[0], j, false) == Some(seq![DEF_CODE]));
        assert(is_def_line(d, t, j));
    } else {
        lemma_label_persists(ls, j, n - 1);
        let d2 = definitions(ls, n)->Ok_0;
        if d2 != d {
            assert(lookup(d, t[1]) is None);
            assert(t[1] != name);
            assert(d2.drop_last() == d);
        }
    }
}

proof fn lemma_rows_of_index(ls: Seq<Seq<char>>, d: Seq<DefModel>, n: int, i: int)
    requires
        0 <= i < n,
        rows_of(ls, d, n) is Ok,
    ensures
        rows_of(ls, d, n)->Ok_0.len() == n,
        row_of(d, tokens(ls[i]), i) is Ok,
        rows_of(ls, d, n)->Ok_0[i] == row_of(d, tokens(ls[i]), i)->Ok_0,
    decreases n,
{
    if i < n - 1 {
        lemma_rows_of_index(ls, d, n - 1, i);
    } else if n - 1 > 0 {
        lemma_rows_of_index(ls, d, n - 1, 0);
    }
}

proof fn lemma_resolve_all_prefix(d: Seq<DefModel>, ts: Seq<Seq<char>>, line: int, labels: bool, n: int)
    requires
        0 <= n <= ts.len(),
        resolve_all(d, ts, line, labels) is Ok,
    ensures
        resolve_all(d, ts.take(n), line, labels) is Ok,
        resolve_all(d, ts.take(n), line, labels)->Ok_0.len() <= resolve_all(d, ts, line, labels)->Ok_0.len(),
        resolve_all(d, ts, line, labels)->Ok_0.take(
            resolve_all(d, ts.take(n), line, labels)->Ok_0.len() as int,
        ) == resolve_all(d, ts.take(n), line, labels)->Ok_0,
    decreases ts.len() - n,
{
    if n == ts.len() {
        assert(ts.take(n) == ts);
        let w = resolve_all(d, ts, line, labels)->Ok_0;
        assert(w.take(w.len() as int) == w);
    } else {
        lemma_resolve_all_prefix(d, ts, line, labels, n + 1);
        assert(ts.take(n + 1).drop_last() == ts.take(n));
        let w = resolve_all(d, ts, line, labels)->Ok_0;
        let w1 = resolve_all(d, ts.take(n + 1), line, labels)->Ok_0;
        let w0 = resolve_all(d, ts.take(n), line, labels)->Ok_0;
        assert(w1.take(w0.len() as int) =~= w0);
        assert(w.take(w0.len() as int) =~= w1.take(w0.len() as int));
    }
}

/// A branch to a label resolves to the new index of the row that follows the label,
/// whether the label stands before or after the branch: the branch row's target is that
/// index, and the row there has the operation of the line after the label. Excluded: a
/// label whose name reads as a literal (the literal wins), and a line after the label
/// that assembles to a placeholder, which has no row of its own.
pub proof fn lemma_label_resolution(src: Seq<char>, j: int, k: int, op: Operation)
    requires
        assemble(src) is Ok,
        0 <= j && j + 1 < lines(src).len(),
        0 <= k < lines(src).len(),
        tokens(lines(src)[j]).len() == 2,
        operation_named(tokens(lines(src)[j])[0]) == Some(Operation::DEF),
        hex_literal(tokens(lines(src)[j])[1]) is None,
        tokens(lines(src)[k]).len() >= 2,
        operation_named(tokens(lines(src)[k])[0]) == Some(op),
        op.is_branch(),
        tokens(lines(src)[k])[1] == tokens(lines(src)[j])[1],
        !is_dead(emitted(src)[j + 1]),
    ensures
        ({
            let rows = emitted(src);
            let p = assemble(src)->Ok_0;
            let at = live_before(rows, k) as int;
            let target = live_before(rows, j + 1) as int;
            &&& 0 <= at < p.len()
            &&& 0 <= target < p.len()
            &&& p[at][0] == op.code()
            &&& p[at][1] == target
            &&& p[target][0] == rows[j + 1][0]
        }),
{
    let ls = lines(src);
    let n = ls.len() as int;
    let d = definitions(ls, n)->Ok_0;
    let rows = rows_of(ls, d, n)->Ok_0;
    assert(emitted(src) == rows);
    assert(assemble(src) == Ok::<Seq<Seq<u16>>, CompileFault>(compact(rows)));
    let name = tokens(ls[j])[1];
    lemma_label_persists(ls, j, n);
    lemma_definitions_wf(ls, n);
    let t = tokens(ls[k]);
    lemma_mnemonic_not_literal(t[0]);
    assert(resolve(d, t[0], k, false) == Some(seq![op.code()]));
    assert(!is_def_line(d, t, k));
    assert(resolve(d, t[0], k, true) == Some(seq![op.code()]));
    assert(resolve(d, t[1], k, true) == Some(seq![j as u16]));
    lemma_rows_of_index(ls, d, n, k);
    lemma_rows_of_index(ls, d, n, j + 1);
    let w = resolve_all(d, t, k, true)->Ok_0;
    assert(rows[k] == w);
    lemma_resolve_all_prefix(d, t, k, true, 2);
    let t2 = t.take(2);
    assert(t2.drop_last() == t.take(1));
    assert(t.take(1).drop_last() == t.take(0));
    assert(t.take(0) == Seq::<Seq<char>>::empty());
    assert(t2.last() == t[1]);
    assert(t.take(1).last() == t[0]);
    assert(resolve_all(d, t.take(0), k, true) == Ok::<Seq<u16>, int>(Seq::empty()));
    assert(Seq::<u16>::empty() + seq![op.code()] =~= seq![op.code()]);
    assert(resolve_all(d, t.take(1), k, true) == Ok::<Seq<u16>, int>(seq![op.code()]));
    assert(seq![op.code()] + seq![j as u16] =~= seq![op.code(), j as u16]);
    assert(resolve_all(d, t2, k, true)->Ok_0 =~= seq![op.code(), j as u16]);
    assert(w[0] == op.code());
    assert(w[1] == j as u16);
    assert(n <= MAX_LINES);
    assert(!is_dead(rows[k]));
    lemma_compact_index(rows, n, k);
    lemma_compact_index(rows, n, j + 1);
    lemma_live_before_bound(rows, j + 1);
    assert(retarget(rows, j as u16) == live_before(rows, j + 1) as u16);
}

} // verus!

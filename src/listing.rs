use vstd::prelude::*;
use crate::compiler::{
    assemble, compact_prefix, definitions, is_dead, label_target, lemma_relabel_prefix,
    lookup, relabeled, resolve, resolve_all, row_of, rows_of, DefModel, CompileFault, DEF_CODE,
    NOP_CODE,
};
use crate::instruction::{all_hex_digits, hex_digit, hex_literal, hex_value, operation_named, operation_of, Operation};
use crate::text::{
    holds, is_space, is_word, join, lemma_lines_append, lemma_lines_single, lemma_no_comment,
    lemma_words_join, lines, tokens,
};

verus! {

/// The hexadecimal digit of value `v`, upper case.
pub open spec fn digit_char(v: int) -> char {
    seq!['0', '1', '2', '3', '4', '5', '6', '7', '8', '9', 'A', 'B', 'C', 'D', 'E', 'F'][v]
}

proof fn lemma_digit_char(v: int)
    requires
        0 <= v < 16,
    ensures
        hex_digit(digit_char(v)) == Some(v as nat),
        !is_space(digit_char(v)),
        digit_char(v) != '\n',
        digit_char(v) != '/',
{
    if v == 0 {
        assert(digit_char(v) == '0');
    } else if v == 1 {
        assert(digit_char(v) == '1');
    } else if v == 2 {
        assert(digit_char(v) == '2');
    } else if v == 3 {
        assert(digit_char(v) == '3');
    } else if v == 4 {
        assert(digit_char(v) == '4');
    } else if v == 5 {
        assert(digit_char(v) == '5');
    } else if v == 6 {
        assert(digit_char(v) == '6');
    } else if v == 7 {
        assert(digit_char(v) == '7');
    } else if v == 8 {
        assert(digit_char(v) == '8');
    } else if v == 9 {
        assert(digit_char(v) == '9');
    } else if v == 10 {
        assert(digit_char(v) == 'A');
    } else if v == 11 {
        assert(digit_char(v) == 'B');
    } else if v == 12 {
        assert(digit_char(v) == 'C');
    } else if v == 13 {
        assert(digit_char(v) == 'D');
    } else if v == 14 {
        assert(digit_char(v) == 'E');
    } else if v == 15 {
        assert(digit_char(v) == 'F');
    }
}

/// The four hexadecimal digits of a word, most significant first.
pub open spec fn digits4(w: int) -> Seq<char> {
    seq![digit_char(w / 4096), digit_char((w / 256) % 16), digit_char((w / 16) % 16), digit_char(w % 16)]
}

proof fn lemma_digits4(w: int)
    requires
        0 <= w < 0x10000,
    ensures
        all_hex_digits(digits4(w)),
        hex_value(digits4(w)) == w,
        forall|i: int| 0 <= i < 4 ==> !is_space(#[trigger] digits4(w)[i]) && digits4(w)[i] != '\n'
            && digits4(w)[i] != '/',
{
    let d = digits4(w);
    lemma_digit_char(w / 4096);
    lemma_digit_char((w / 256) % 16);
    lemma_digit_char((w / 16) % 16);
    lemma_digit_char(w % 16);
    assert(d.drop_last().drop_last().drop_last().drop_last() =~= Seq::<char>::empty());
    assert(d.drop_last().drop_last().drop_last() =~= seq![digit_char(w / 4096)]);
    assert(d.drop_last().drop_last() =~= seq![digit_char(w / 4096), digit_char((w / 256) % 16)]);
    assert(d.drop_last() =~= seq![digit_char(w / 4096), digit_char((w / 256) % 16), digit_char((w / 16) % 16)]);
    let d1 = d.drop_last();
    let d2 = d1.drop_last();
    let d3 = d2.drop_last();
    assert(hex_value(d3.drop_last()) == 0);
    assert(hex_value(d3) == w / 4096);
    assert(hex_value(d2) == (w / 4096) * 16 + (w / 256) % 16);
    assert(hex_value(d1) == ((w / 4096) * 16 + (w / 256) % 16) * 16 + (w / 16) % 16);
    assert(hex_value(d) == (((w / 4096) * 16 + (w / 256) % 16) * 16 + (w / 16) % 16) * 16 + w % 16);
    assert((((w / 4096) * 16 + (w / 256) % 16) * 16 + (w / 16) % 16) * 16 + w % 16 == w) by (nonlinear_arith)
        requires
            0 <= w < 65536,
    ;
}

/// A word written as a literal token: `0x` and four digits.
pub open spec fn literal_text(w: u16) -> Seq<char> {
    seq!['0', 'x'] + digits4(w as int)
}

/// The name of the label before row `i` of a listing: `L` and four digits.
pub open spec fn label_name(i: int) -> Seq<char> {
    seq!['L'] + digits4(i)
}

proof fn lemma_literal_text(w: u16)
    ensures
        hex_literal(literal_text(w)) == Some(w),
        operation_named(literal_text(w)) is None,
        is_word(literal_text(w)),
        !holds(literal_text(w), '\n'),
        !holds(literal_text(w), '/'),
{
    let t = literal_text(w);
    lemma_digits4(w as int);
    assert(t.skip(2) =~= digits4(w as int));
    assert(t.len() == 6);
    assert forall|i: int| 0 <= i < t.len() implies !is_space(#[trigger] t[i]) && t[i] != '\n' && t[i] != '/' by {
        if i >= 2 {
            assert(t[i] == digits4(w as int)[i - 2]);
        }
    }
}

proof fn lemma_label_name(i: int, j: int)
    requires
        0 <= i < 0x10000,
        0 <= j < 0x10000,
    ensures
        hex_literal(label_name(i)) is None,
        operation_named(label_name(i)) is None,
        is_word(label_name(i)),
        !holds(label_name(i), '\n'),
        !holds(label_name(i), '/'),
        label_name(i) == label_name(j) ==> i == j,
{
    let t = label_name(i);
    lemma_digits4(i);
    lemma_digits4(j);
    assert(t.len() == 5);
    assert forall|k: int| 0 <= k < t.len() implies !is_space(#[trigger] t[k]) && t[k] != '\n' && t[k] != '/' by {
        if k >= 1 {
            assert(t[k] == digits4(i)[k - 1]);
        }
    }
    if label_name(i) == label_name(j) {
        assert(digits4(i) =~= label_name(i).skip(1));
        assert(digits4(j) =~= label_name(j).skip(1));
    }
}

/// Whether a row is a branch with a target operand.
pub open spec fn is_branch_row(row: Seq<u16>) -> bool {
    row.len() >= 2 && (operation_of(row[0]) matches Some(op) && op.is_branch())
}

/// The tokens of a row in a listing: each word as a literal, except the target of a
/// branch, which names the label of the row it targets.
pub open spec fn row_tokens(row: Seq<u16>) -> Seq<Seq<char>> {
    Seq::new(
        row.len(),
        |k: int|
            if k == 1 && is_branch_row(row) {
                label_name(row[1] as int)
            } else {
                literal_text(row[k])
            },
    )
}

/// The characters `DEF`.
pub open spec fn def_text() -> Seq<char> {
    seq!['D', 'E', 'F']
}

/// The line that puts the label of row `i` before it.
pub open spec fn label_line(i: int) -> Seq<char> {
    def_text() + seq![' '] + label_name(i)
}

/// The line that writes out a row.
pub open spec fn row_line(row: Seq<u16>) -> Seq<char> {
    join(row_tokens(row))
}

/// Program `p` as source text: for every row, the line of its label and then the row
/// itself, each line ended by a line break.
pub open spec fn listing(p: Seq<Seq<u16>>) -> Seq<char>
    decreases p.len(),
{
    if p.len() == 0 {
        Seq::empty()
    } else {
        listing(p.drop_last()) + label_line(p.len() - 1) + seq!['\n'] + row_line(p.last()) + seq![
            '\n',
        ]
    }
}

/// The lines of a listing, without the empty line after its last line break.
pub open spec fn listing_lines(p: Seq<Seq<u16>>) -> Seq<Seq<char>> {
    Seq::new(
        2 * p.len(),
        |i: int|
            if i % 2 == 0 {
                label_line(i / 2)
            } else {
                row_line(p[i / 2])
            },
    )
}

proof fn lemma_join_lacks(ts: Seq<Seq<char>>, c: char)
    requires
        c != ' ',
        forall|i: int| 0 <= i < ts.len() ==> !holds(#[trigger] ts[i], c),
    ensures
        !holds(join(ts), c),
    decreases ts.len(),
{
    if ts.len() == 1 {
        assert(!holds(ts[0], c));
    } else if ts.len() > 1 {
        lemma_join_lacks(ts.drop_last(), c);
        assert(!holds(ts[ts.len() - 1], c));
        let a = join(ts.drop_last());
        let j = a + seq![' '] + ts.last();
        if holds(j, c) {
            let i = choose|i: int| 0 <= i < j.len() && j[i] == c;
            if i < a.len() {
                assert(a[i] == c);
            } else if i > a.len() {
                assert(ts.last()[i - a.len() - 1] == c);
            }
        }
    }
}

proof fn lemma_row_tokens(row: Seq<u16>)
    ensures
        forall|k: int| 0 <= k < row.len() ==> is_word(#[trigger] row_tokens(row)[k])
            && !holds(row_tokens(row)[k], '\n') && !holds(row_tokens(row)[k], '/'),
{
    assert forall|k: int| 0 <= k < row.len() implies is_word(#[trigger] row_tokens(row)[k])
        && !holds(row_tokens(row)[k], '\n') && !holds(row_tokens(row)[k], '/') by {
        lemma_literal_text(row[k]);
        lemma_label_name(row[1] as int, 0);
    }
}

proof fn lemma_line_facts(i: int, row: Seq<u16>)
    requires
        0 <= i < 0x10000,
    ensures
        !holds(label_line(i), '\n'),
        !holds(row_line(row), '\n'),
        tokens(label_line(i)) == seq![def_text(), label_name(i)],
        tokens(row_line(row)) == row_tokens(row),
{
    lemma_label_name(i, 0);
    let l = label_line(i);
    let ws = seq![def_text(), label_name(i)];
    assert(join(ws.drop_last()) == def_text());
    assert(join(ws) =~= l);
    assert(is_word(def_text()));
    lemma_words_join(ws);
    assert(!holds(l, '\n') && !holds(l, '/')) by {
        if holds(l, '\n') || holds(l, '/') {
            let k = choose|k: int| 0 <= k < l.len() && (l[k] == '\n' || l[k] == '/');
            if k >= 4 {
                assert(l[k] == label_name(i)[k - 4]);
            }
        }
    }
    lemma_no_comment(l, 0);
    assert(l.take(l.len() as int) == l);
    lemma_row_tokens(row);
    lemma_join_lacks(row_tokens(row), '\n');
    lemma_join_lacks(row_tokens(row), '/');
    lemma_words_join(row_tokens(row));
    lemma_no_comment(row_line(row), 0);
    assert(row_line(row).take(row_line(row).len() as int) == row_line(row));
}

#[verifier::rlimit(60)]
proof fn lemma_listing_lines(p: Seq<Seq<u16>>)
    requires
        p.len() < 0x10000,
    ensures
        lines(listing(p)) == listing_lines(p).push(Seq::empty()),
        p.len() > 0 ==> listing(p).len() > 0 && listing(p).last() == '\n',
    decreases p.len(),
{
    if p.len() == 0 {
        assert(listing_lines(p) =~= Seq::<Seq<char>>::empty());
        assert(lines(Seq::<char>::empty()) =~= seq![Seq::<char>::empty()]);
    } else {
        let q = p.drop_last();
        let n = p.len() - 1;
        lemma_listing_lines(q);
        let a = label_line(n);
        let b = row_line(p.last());
        lemma_line_facts(n, p.last());
        let an = a + seq!['\n'];
        let bn = b + seq!['\n'];
        let block = an + bn;
        assert(listing(p) =~= listing(q) + block);
        assert(an.drop_last() =~= a);
        assert(bn.drop_last() =~= b);
        lemma_lines_single(a);
        lemma_lines_single(b);
        assert(lines(an) == lines(a).push(Seq::empty()));
        assert(lines(bn) == lines(b).push(Seq::empty()));
        lemma_lines_append(an, bn);
        assert(lines(block) =~= seq![a, b, Seq::empty()]);
        if q.len() == 0 {
            assert(listing(q) + block =~= block);
            assert(listing_lines(q) =~= Seq::<Seq<char>>::empty());
        } else {
            lemma_lines_append(listing(q), block);
        }
        assert(lines(listing(p)) == listing_lines(q) + lines(block));
        assert forall|i: int| 0 <= i < 2 * p.len() implies #[trigger] listing_lines(p)[i] == (
        listing_lines(q) + seq![a, b])[i] by {
            if i < 2 * n {
                assert(listing_lines(q)[i] == listing_lines(p)[i]);
                assert(q[i / 2] == p[i / 2]);
            } else if i == 2 * n {
                assert(i / 2 == n);
            } else {
                assert(i / 2 == n);
                assert(i % 2 == 1);
            }
        }
        assert(listing_lines(p) =~= listing_lines(q) + seq![a, b]);
        assert(listing_lines(p).push(Seq::empty()) =~= listing_lines(q) + seq![a, b, Seq::empty()]);
        assert(block.last() == '\n');
    }
}

/// The symbol table of a listing's first `k` labels.
pub open spec fn labels(k: int) -> Seq<DefModel> {
    Seq::new(k as nat, |i: int| DefModel { name: label_name(i), line: 2 * i, words: None })
}

proof fn lemma_lookup_labels(k: int, t: int)
    requires
        0 <= k < 0x10000,
        0 <= t < 0x10000,
    ensures
        lookup(labels(k), label_name(t)) == if t < k {
            Some(labels(k)[t])
        } else {
            None::<DefModel>
        },
    decreases k,
{
    if k > 0 {
        lemma_label_name(k - 1, t);
        assert(labels(k).drop_last() =~= labels(k - 1));
        assert(labels(k).last() == labels(k)[k - 1]);
        lemma_lookup_labels(k - 1, t);
        if t < k - 1 {
            assert(labels(k - 1)[t] == labels(k)[t]);
        }
    }
}

/// Whether `p` can be listed and read back: it is short enough for its labels, every
/// row starts with an operation other than a placeholder, and every branch targets a
/// row of `p`.
pub open spec fn listable(p: Seq<Seq<u16>>) -> bool {
    &&& p.len() <= 0x7FFF
    &&& forall|i: int|
        0 <= i < p.len() ==> #[trigger] p[i].len() > 0 && operation_of(p[i][0]) is Some && !is_dead(
            p[i],
        )
    &&& forall|i: int| 0 <= i < p.len() && is_branch_row(#[trigger] p[i]) ==> (p[i][1] as int) < p.len()
}

proof fn lemma_def_resolves(d: Seq<DefModel>, line: int, labels_too: bool)
    ensures
        resolve(d, def_text(), line, labels_too) == Some(seq![DEF_CODE]),
{
    assert(def_text()[0] == 'D');
    assert(operation_named(def_text()) == Some(Operation::DEF));
}

proof fn lemma_row_not_def(p: Seq<Seq<u16>>, k: int, d: Seq<DefModel>, line: int)
    requires
        listable(p),
        0 <= k < p.len(),
    ensures
        row_tokens(p[k]).len() > 0,
        row_tokens(p[k])[0] == literal_text(p[k][0]),
        resolve(d, row_tokens(p[k])[0], line, false) == Some(seq![p[k][0]]),
        !crate::compiler::is_def_line(d, row_tokens(p[k]), line),
{
    assert(p[k].len() > 0 && !is_dead(p[k]));
    lemma_literal_text(p[k][0]);
}

proof fn lemma_listing_line(p: Seq<Seq<u16>>, i: int)
    requires
        listable(p),
        0 <= i <= 2 * p.len(),
    ensures
        i < 2 * p.len() && i % 2 == 0 ==> tokens(lines(listing(p))[i]) == seq![def_text(), label_name(i / 2)],
        i < 2 * p.len() && i % 2 == 1 ==> tokens(lines(listing(p))[i]) == row_tokens(p[i / 2]),
        i == 2 * p.len() ==> tokens(lines(listing(p))[i]) == Seq::<Seq<char>>::empty(),
        lines(listing(p)).len() == 2 * p.len() + 1,
{
    lemma_listing_lines(p);
    if i < 2 * p.len() {
        lemma_line_facts(i / 2, p[i / 2]);
    } else {
        assert(lines(listing(p))[i] == Seq::<char>::empty());
        assert(crate::text::comment_start(Seq::<char>::empty(), 0) == 0);
        assert(Seq::<char>::empty().take(0) =~= Seq::<char>::empty());
    }
}

#[verifier::rlimit(60)]
proof fn lemma_pass_one(p: Seq<Seq<u16>>, m: int)
    requires
        listable(p),
        0 <= m <= 2 * p.len(),
    ensures
        definitions(lines(listing(p)), m) == Ok::<Seq<DefModel>, CompileFault>(labels((m + 1) / 2)),
    decreases m,
{
    let ls = lines(listing(p));
    if m == 0 {
        assert(labels(0) =~= Seq::<DefModel>::empty());
    } else {
        lemma_pass_one(p, m - 1);
        let i = m - 1;
        lemma_listing_line(p, i);
        let d = labels((i + 1) / 2);
        if i % 2 == 0 {
            let k = i / 2;
            assert(d == labels(k));
            lemma_def_resolves(d, i, false);
            lemma_lookup_labels(k, k);
            lemma_label_name(k, 0);
            assert(labels(k).push(DefModel { name: label_name(k), line: i, words: None }) =~= labels(
                k + 1,
            ));
        } else {
            lemma_row_not_def(p, i / 2, d, i);
        }
    }
}

proof fn lemma_resolve_row(n: int, row: Seq<u16>, line: int, j: int)
    requires
        0 <= n <= 0x8000,
        0 <= j <= row.len(),
        is_branch_row(row) ==> (row[1] as int) < n,
    ensures
        resolve_all(labels(n), row_tokens(row).take(j), line, true) == Ok::<Seq<u16>, int>(
            label_target(row).take(j),
        ),
    decreases j,
{
    let ts = row_tokens(row);
    if j == 0 {
        assert(ts.take(0) =~= Seq::<Seq<char>>::empty());
        assert(label_target(row).take(0) =~= Seq::<u16>::empty());
    } else {
        lemma_resolve_row(n, row, line, j - 1);
        let k = j - 1;
        assert(ts.take(j).drop_last() =~= ts.take(k));
        assert(ts.take(j).last() == ts[k]);
        let x = if k == 1 && is_branch_row(row) {
            let t = row[1] as int;
            lemma_label_name(t, 0);
            lemma_lookup_labels(n, t);
            assert(resolve(labels(n), ts[k], line, true) == Some(seq![(2 * t) as u16]));
            (2 * t) as u16
        } else {
            lemma_literal_text(row[k]);
            row[k]
        };
        assert(resolve(labels(n), ts[k], line, true) == Some(seq![x]));
        assert(label_target(row)[k] == x);
        assert(label_target(row).take(k) + seq![x] =~= label_target(row).take(j));
    }
}

proof fn lemma_pass_two(p: Seq<Seq<u16>>, m: int)
    requires
        listable(p),
        0 <= m <= 2 * p.len(),
    ensures
        rows_of(lines(listing(p)), labels(p.len() as int), m) == Ok::<Seq<Seq<u16>>, CompileFault>(
            relabeled(p).take(m),
        ),
    decreases m,
{
    let d = labels(p.len() as int);
    if m == 0 {
        assert(relabeled(p).take(0) =~= Seq::<Seq<u16>>::empty());
    } else {
        lemma_pass_two(p, m - 1);
        let i = m - 1;
        lemma_listing_line(p, i);
        if i % 2 == 0 {
            lemma_def_resolves(d, i, false);
            assert(row_of(d, seq![def_text(), label_name(i / 2)], i) == Ok::<Seq<u16>, CompileFault>(
                seq![DEF_CODE],
            ));
        } else {
            let k = i / 2;
            let row = p[k];
            lemma_row_not_def(p, k, d, i);
            lemma_resolve_row(p.len() as int, row, i, row.len() as int);
            assert(row_tokens(row).take(row.len() as int) =~= row_tokens(row));
            assert(label_target(row).take(row.len() as int) =~= label_target(row));
            assert(label_target(row)[0] == row[0]);
            assert(row_of(d, row_tokens(row), i) == Ok::<Seq<u16>, CompileFault>(label_target(row)));
            assert(relabeled(p)[i] == label_target(row));
        }
        assert(relabeled(p).take(m) =~= relabeled(p).take(i).push(relabeled(p)[i]));
    }
}

/// Dead-row elimination is consistent with labels: list a program in hexadecimal
/// literals with a label line before each row and every branch target naming the label
/// of its row, assemble that text, and the program comes back row for row; it therefore
/// runs exactly as the program does. Excluded: programs with more rows than half of what
/// a word can number, a row that does not start with an operation or starts with a
/// placeholder, and a branch target past the last row (it has no label).
pub proof fn lemma_listing_round_trip(p: Seq<Seq<u16>>)
    requires
        listable(p),
    ensures
        assemble(listing(p)) == Ok::<Seq<Seq<u16>>, CompileFault>(p),
{
    let n = p.len() as int;
    let ls = lines(listing(p));
    lemma_listing_line(p, 2 * n);
    lemma_pass_one(p, 2 * n);
    assert((2 * n + 1) / 2 == n);
    assert(definitions(ls, 2 * n + 1) == Ok::<Seq<DefModel>, CompileFault>(labels(n)));
    lemma_pass_two(p, 2 * n);
    let r = relabeled(p).take(2 * n).push(seq![NOP_CODE]);
    assert(rows_of(ls, labels(n), 2 * n + 1) == Ok::<Seq<Seq<u16>>, CompileFault>(r));
    assert(crate::compiler::starts_relabeled(r, p));
    assert forall|i: int|
        0 <= i < p.len() && #[trigger] p[i].len() >= 2 && (operation_of(p[i][0]) matches Some(op)
            && op.is_branch()) implies (p[i][1] as int) < p.len() by {
        assert(is_branch_row(p[i]));
    }
    lemma_relabel_prefix(r, p, n);
    assert(is_dead(r[2 * n]));
    assert(compact_prefix(r, 2 * n + 1) == compact_prefix(r, 2 * n));
    assert(p.take(n) =~= p);
}

} // verus!

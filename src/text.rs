use vstd::prelude::*;

verus! {

/// The characters of `s`, in order.
pub fn chars_of(s: &str) -> (r: Vec<char>)
    ensures
        r@ == s@,
{
    let mut r: Vec<char> = Vec::new();
    for c in it: s.chars()
        invariant
            r@ == it.seq().take(it.index() as int),
            it.seq() == s@,
    {
        r.push(c);
    }
    r
}

/// Relies on `String::push`: appends one character to the end of the string.
#[verifier::external_body]
fn push_char(s: &mut String, c: char)
    ensures
        final(s)@ == old(s)@.push(c),
{
    s.push(c)
}

/// A string holding the characters `t`.
pub fn text_of(t: &[char]) -> (r: String)
    ensures
        r@ == t@,
{
    let mut r = String::new();
    let mut i: usize = 0;
    while i < t.len()
        invariant
            0 <= i <= t.len(),
            r@ == t@.take(i as int),
        decreases t.len() - i,
    {
        push_char(&mut r, t[i]);
        assert(t@.take(i + 1) == t@.take(i as int).push(t@[i as int]));
        i = i + 1;
    }
    assert(t@.take(t.len() as int) == t@);
    r
}

/// The contents of a sequence of character vectors.
pub open spec fn views(v: Seq<Vec<char>>) -> Seq<Seq<char>> {
    v.map_values(|w: Vec<char>| w@)
}

/// The lines of `s`: the pieces between `'\n'` characters. There is always at least
/// one, and text that ends with a line break ends with an empty line.
pub open spec fn lines(s: Seq<char>) -> Seq<Seq<char>>
    decreases s.len(),
{
    if s.len() == 0 {
        seq![Seq::empty()]
    } else {
        let prev = lines(s.drop_last());
        if s.last() == '\n' {
            prev.push(Seq::empty())
        } else {
            prev.update(prev.len() - 1, prev.last().push(s.last()))
        }
    }
}

pub proof fn lemma_lines_nonempty(s: Seq<char>)
    ensures
        lines(s).len() >= 1,
    decreases s.len(),
{
    if s.len() > 0 {
        lemma_lines_nonempty(s.drop_last());
    }
}

/// Splits text into lines; see `lines`.
pub fn split_lines(s: &[char]) -> (r: Vec<Vec<char>>)
    ensures
        views(r@) == lines(s@),
{
    let mut r: Vec<Vec<char>> = Vec::new();
    r.push(Vec::new());
    let mut i: usize = 0;
    assert(s@.take(0) == Seq::<char>::empty());
    assert(views(r@) =~= lines(s@.take(0)));
    while i < s.len()
        invariant
            0 <= i <= s.len(),
            views(r@) == lines(s@.take(i as int)),
        decreases s.len() - i,
    {
        let c = s[i];
        proof {
            lemma_lines_nonempty(s@.take(i as int));
            assert(s@.take(i + 1).drop_last() == s@.take(i as int));
        }
        if c == '\n' {
            r.push(Vec::new());
            assert(views(r@) =~= lines(s@.take(i + 1)));
        } else {
            let mut last = r.pop().unwrap();
            last.push(c);
            r.push(last);
            assert(views(r@) =~= lines(s@.take(i + 1)));
        }
        i = i + 1;
    }
    assert(s@.take(s.len() as int) == s@);
    r
}

/// The index at which a `//` comment starts in `l`, searching from `from`; the length
/// of `l` when there is none.
pub open spec fn comment_start(l: Seq<char>, from: int) -> int
    decreases l.len() - from,
{
    if from < 0 || from + 1 >= l.len() {
        l.len() as int
    } else if l[from] == '/' && l[from + 1] == '/' {
        from
    } else {
        comment_start(l, from + 1)
    }
}

/// What precedes the first `//` of a line.
pub open spec fn code_of(l: Seq<char>) -> Seq<char> {
    l.take(comment_start(l, 0))
}

/// The characters that `split_ascii_whitespace` separates on.
pub open spec fn is_space(c: char) -> bool {
    c == ' ' || c == '\t' || c == '\n' || c == '\x0C' || c == '\r'
}

/// The maximal runs of non-space characters of `s`, in order.
pub open spec fn words(s: Seq<char>) -> Seq<Seq<char>>
    decreases s.len(),
{
    if s.len() == 0 {
        Seq::empty()
    } else {
        let prev = words(s.drop_last());
        let c = s.last();
        if is_space(c) {
            prev
        } else if s.len() >= 2 && !is_space(s[s.len() - 2]) {
            prev.update(prev.len() - 1, prev.last().push(c))
        } else {
            prev.push(seq![c])
        }
    }
}

pub proof fn lemma_words_nonempty(s: Seq<char>)
    requires
        s.len() > 0,
        !is_space(s.last()),
    ensures
        words(s).len() > 0,
    decreases s.len(),
{
    if s.len() >= 2 && !is_space(s[s.len() - 2]) {
        lemma_words_nonempty(s.drop_last());
    }
}

/// The tokens of a source line: the words of what precedes its first `//`.
pub open spec fn tokens(l: Seq<char>) -> Seq<Seq<char>> {
    words(code_of(l))
}

fn is_space_char(c: char) -> (r: bool)
    ensures
        r == is_space(c),
{
    c == ' ' || c == '\t' || c == '\n' || c == '\x0C' || c == '\r'
}

/// Splits a source line into tokens; see `tokens`.
pub fn tokenize(l: &[char]) -> (r: Vec<Vec<char>>)
    ensures
        views(r@) == tokens(l@),
{
    let mut end: usize = 0;
    while end < l.len() && !(end + 1 < l.len() && l[end] == '/' && l[end + 1] == '/')
        invariant
            0 <= end <= l.len(),
            comment_start(l@, end as int) == comment_start(l@, 0),
        decreases l.len() - end,
    {
        end = end + 1;
    }
    assert(end == comment_start(l@, 0));
    let ghost code = code_of(l@);
    let mut r: Vec<Vec<char>> = Vec::new();
    let mut i: usize = 0;
    assert(code.take(0) == Seq::<char>::empty());
    assert(views(r@) =~= words(code.take(0)));
    while i < end
        invariant
            0 <= i <= end <= l.len(),
            code == l@.take(end as int),
            views(r@) == words(code.take(i as int)),
        decreases end - i,
    {
        let c = l[i];
        proof {
            assert(code.take(i + 1).drop_last() == code.take(i as int));
            assert(code.take(i + 1).last() == c);
            assert(i >= 1 ==> code.take(i + 1)[i - 1] == l@[i - 1]);
        }
        if is_space_char(c) {
        } else if i >= 1 && !is_space_char(l[i - 1]) {
            proof {
                assert(code.take(i + 1)[i - 1] == code.take(i as int).last());
                lemma_words_nonempty(code.take(i as int));
            }
            let mut last = r.pop().unwrap();
            last.push(c);
            r.push(last);
            assert(views(r@) =~= words(code.take(i + 1)));
        } else {
            let mut w: Vec<char> = Vec::new();
            w.push(c);
            assert(w@ =~= seq![c]);
            r.push(w);
            assert(views(r@) =~= words(code.take(i + 1)));
        }
        i = i + 1;
    }
    assert(code.take(end as int) == code);
    r
}

/// Whether `s` holds the character `c`.
pub open spec fn holds(s: Seq<char>, c: char) -> bool {
    exists|i: int| 0 <= i < s.len() && s[i] == c
}

/// A text without line breaks is one line.
pub proof fn lemma_lines_single(s: Seq<char>)
    requires
        !holds(s, '\n'),
    ensures
        lines(s) == seq![s],
    decreases s.len(),
{
    if s.len() > 0 {
        assert(!holds(s.drop_last(), '\n')) by {
            if holds(s.drop_last(), '\n') {
                let i = choose|i: int| 0 <= i < s.drop_last().len() && s.drop_last()[i] == '\n';
                assert(s[i] == '\n');
            }
        }
        lemma_lines_single(s.drop_last());
        assert(s.last() != '\n') by {
            assert(s[s.len() - 1] == s.last());
        }
        assert(s.drop_last().push(s.last()) =~= s);
        assert(seq![s.drop_last()].update(0, s.drop_last().push(s.last())) =~= seq![s]);
    } else {
        assert(s =~= Seq::<char>::empty());
    }
}

/// After a line break, the lines of what follows simply continue the list.
pub proof fn lemma_lines_append(s: Seq<char>, t: Seq<char>)
    requires
        s.len() > 0,
        s.last() == '\n',
    ensures
        lines(s + t) == lines(s).drop_last() + lines(t),
    decreases t.len(),
{
    lemma_lines_nonempty(s);
    if t.len() == 0 {
        assert(s + t =~= s);
        assert(s.drop_last() + seq!['\n'] =~= s);
        lemma_lines_nonempty(s.drop_last());
        assert(lines(s) == lines(s.drop_last()).push(Seq::empty()));
        assert(lines(s).drop_last() + lines(t) =~= lines(s));
    } else {
        lemma_lines_append(s, t.drop_last());
        assert((s + t).drop_last() =~= s + t.drop_last());
        assert((s + t).last() == t.last());
        lemma_lines_nonempty(t.drop_last());
        let a = lines(s).drop_last();
        let b = lines(t.drop_last());
        if t.last() == '\n' {
            assert((a + b).push(Seq::empty()) =~= a + b.push(Seq::empty()));
        } else {
            assert((a + b).update((a + b).len() - 1, (a + b).last().push(t.last())) =~= a + b.update(
                b.len() - 1,
                b.last().push(t.last()),
            ));
        }
    }
}

/// A line with no `/` has no comment.
pub proof fn lemma_no_comment(l: Seq<char>, from: int)
    requires
        0 <= from,
        !holds(l, '/'),
    ensures
        comment_start(l, from) == l.len(),
    decreases l.len() - from,
{
    if from + 1 < l.len() {
        assert(l[from] != '/');
        lemma_no_comment(l, from + 1);
    }
}

/// Words joined by single spaces.
pub open spec fn join(ws: Seq<Seq<char>>) -> Seq<char>
    decreases ws.len(),
{
    if ws.len() == 0 {
        Seq::empty()
    } else if ws.len() == 1 {
        ws[0]
    } else {
        join(ws.drop_last()) + seq![' '] + ws.last()
    }
}

/// Whether `w` can stand as a word: not empty, and without spaces.
pub open spec fn is_word(w: Seq<char>) -> bool {
    w.len() > 0 && forall|i: int| 0 <= i < w.len() ==> !is_space(#[trigger] w[i])
}

/// A word alone is one word.
proof fn lemma_words_single(w: Seq<char>)
    requires
        is_word(w),
    ensures
        words(w) == seq![w],
    decreases w.len(),
{
    assert(!is_space(w.last())) by {
        assert(w[w.len() - 1] == w.last());
    }
    if w.len() == 1 {
        assert(w.drop_last() =~= Seq::<char>::empty());
        assert(words(w.drop_last()) == Seq::<Seq<char>>::empty());
        assert(w =~= seq![w[0]]);
        assert(seq![w.last()] =~= w);
    } else {
        assert forall|i: int| 0 <= i < w.drop_last().len() implies !is_space(
            #[trigger] w.drop_last()[i],
        ) by {
            assert(w.drop_last()[i] == w[i]);
        }
        lemma_words_single(w.drop_last());
        assert(!is_space(w.last())) by {
            assert(w[w.len() - 1] == w.last());
        }
        assert(!is_space(w[w.len() - 2]));
        assert(w.drop_last().push(w.last()) =~= w);
        assert(seq![w.drop_last()].update(0, w.drop_last().push(w.last())) =~= seq![w]);
    }
}

/// The words of `a`, a space, then `b` are those of `a` followed by those of `b`.
proof fn lemma_words_space(a: Seq<char>, b: Seq<char>)
    ensures
        words(a + seq![' '] + b) == words(a) + words(b),
    decreases b.len(),
{
    let s = a + seq![' '];
    if b.len() == 0 {
        assert(s + b =~= s);
        assert(s.drop_last() =~= a);
        assert(words(a) + words(b) =~= words(a));
    } else {
        lemma_words_space(a, b.drop_last());
        assert((s + b).drop_last() =~= s + b.drop_last());
        assert((s + b).last() == b.last());
        let c = b.last();
        let pa = words(a);
        let pb = words(b.drop_last());
        if is_space(c) {
        } else if b.len() >= 2 && !is_space(b[b.len() - 2]) {
            assert((s + b)[(s + b).len() - 2] == b[b.len() - 2]);
            assert(b.drop_last().last() == b[b.len() - 2]);
            lemma_words_nonempty(b.drop_last());
            assert((pa + pb).update((pa + pb).len() - 1, (pa + pb).last().push(c)) =~= pa + pb.update(
                pb.len() - 1,
                pb.last().push(c),
            ));
        } else {
            assert(b.len() >= 2 ==> (s + b)[(s + b).len() - 2] == b[b.len() - 2]);
            assert(b.len() == 1 ==> (s + b)[(s + b).len() - 2] == ' ');
            assert((pa + pb).push(seq![c]) =~= pa + pb.push(seq![c]));
        }
    }
}

/// Splitting words joined by spaces gives them back.
pub proof fn lemma_words_join(ws: Seq<Seq<char>>)
    requires
        forall|i: int| 0 <= i < ws.len() ==> is_word(#[trigger] ws[i]),
    ensures
        words(join(ws)) == ws,
    decreases ws.len(),
{
    if ws.len() == 0 {
        assert(words(Seq::<char>::empty()) == Seq::<Seq<char>>::empty());
        assert(ws =~= Seq::<Seq<char>>::empty());
    } else if ws.len() == 1 {
        lemma_words_single(ws[0]);
        assert(ws =~= seq![ws[0]]);
    } else {
        lemma_words_join(ws.drop_last());
        lemma_words_space(join(ws.drop_last()), ws.last());
        lemma_words_single(ws.last());
        assert(ws.drop_last() + seq![ws.last()] =~= ws);
    }
}

} // verus!

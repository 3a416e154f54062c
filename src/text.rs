use vstd::prelude::*;

verus! {

/// The characters that separate words on a line: ASCII whitespace.
pub open spec fn is_space(c: char) -> bool {
    c == ' ' || c == '\t' || c == '\n' || c == '\r' || c == '\x0C'
}

/// Reading `s` from the left: the words completed so far, and the word being read.
pub open spec fn scan_words(s: Seq<char>) -> (Seq<Seq<char>>, Seq<char>)
    decreases s.len(),
{
    if s.len() == 0 {
        (Seq::empty(), Seq::empty())
    } else {
        let (done, cur) = scan_words(s.drop_last());
        if is_space(s.last()) {
            if cur.len() > 0 {
                (done.push(cur), Seq::empty())
            } else {
                (done, cur)
            }
        } else {
            (done, cur.push(s.last()))
        }
    }
}

/// The maximal runs of non-space characters of `s`, in order.
pub open spec fn words(s: Seq<char>) -> Seq<Seq<char>> {
    let (done, cur) = scan_words(s);
    if cur.len() > 0 {
        done.push(cur)
    } else {
        done
    }
}

/// Reading `s` from the left: the lines completed so far, and the line being read.
pub open spec fn scan_lines(s: Seq<char>) -> (Seq<Seq<char>>, Seq<char>)
    decreases s.len(),
{
    if s.len() == 0 {
        (Seq::empty(), Seq::empty())
    } else {
        let (done, cur) = scan_lines(s.drop_last());
        if s.last() == '\n' {
            (done.push(cur), Seq::empty())
        } else {
            (done, cur.push(s.last()))
        }
    }
}

/// The pieces of `s` between line breaks: one more than there are breaks.
pub open spec fn lines(s: Seq<char>) -> Seq<Seq<char>> {
    let (done, cur) = scan_lines(s);
    done.push(cur)
}

/// The words `ws` joined with single spaces.
pub open spec fn joined(ws: Seq<Seq<char>>) -> Seq<char>
    decreases ws.len(),
{
    if ws.len() == 0 {
        Seq::empty()
    } else if ws.len() == 1 {
        ws[0]
    } else {
        joined(ws.drop_last()) + seq![' '] + ws.last()
    }
}

/// The words `ws` joined with single spaces, or nothing where there is no word.
pub open spec fn optional_text(ws: Seq<Seq<char>>) -> Option<Seq<char>> {
    if ws.len() == 0 {
        None
    } else {
        Some(joined(ws))
    }
}

/// The contents of a sequence of character vectors.
pub open spec fn views(v: Seq<Vec<char>>) -> Seq<Seq<char>> {
    v.map_values(|x: Vec<char>| x@)
}

/// The contents of an optional string.
pub open spec fn opt_view(o: Option<String>) -> Option<Seq<char>> {
    match o {
        Some(s) => Some(s@),
        None => None,
    }
}

/// A word that the text form carries unchanged: not empty, no space and no `#`.
pub open spec fn is_word(w: Seq<char>) -> bool {
    w.len() > 0 && forall|i: int| 0 <= i < w.len() ==> !is_space(#[trigger] w[i]) && w[i] != '#'
}

/// Words that the text form carries unchanged.
pub open spec fn all_words(ws: Seq<Seq<char>>) -> bool {
    forall|i: int| 0 <= i < ws.len() ==> is_word(#[trigger] ws[i])
}

/// A value or label that the text form carries unchanged: one or more such words joined by
/// single spaces.
pub open spec fn is_field(t: Seq<char>) -> bool {
    exists|ws: Seq<Seq<char>>| ws.len() > 0 && all_words(ws) && t == joined(ws)
}

pub proof fn lemma_scan_lines_append(x: Seq<char>, y: Seq<char>)
    requires
        scan_lines(x).1.len() == 0,
    ensures
        scan_lines(x + y) == (scan_lines(x).0 + scan_lines(y).0, scan_lines(y).1),
    decreases y.len(),
{
    if y.len() == 0 {
        assert(x + y =~= x);
        assert(scan_lines(x).0 + scan_lines(y).0 =~= scan_lines(x).0);
    } else {
        lemma_scan_lines_append(x, y.drop_last());
        assert((x + y).drop_last() =~= x + y.drop_last());
        assert((x + y).last() == y.last());
        let a = scan_lines(x).0;
        let b = scan_lines(y.drop_last()).0;
        let c = scan_lines(y.drop_last()).1;
        assert((a + b).push(c) =~= a + b.push(c));
    }
}

pub proof fn lemma_scan_lines_plain(a: Seq<char>)
    requires
        forall|i: int| 0 <= i < a.len() ==> a[i] != '\n',
    ensures
        scan_lines(a) == (Seq::<Seq<char>>::empty(), a),
    decreases a.len(),
{
    if a.len() > 0 {
        lemma_scan_lines_plain(a.drop_last());
        assert(a.drop_last().push(a.last()) =~= a);
    }
}

pub proof fn lemma_scan_words_append(x: Seq<char>, y: Seq<char>)
    requires
        scan_words(x).1.len() == 0,
    ensures
        scan_words(x + y) == (scan_words(x).0 + scan_words(y).0, scan_words(y).1),
    decreases y.len(),
{
    if y.len() == 0 {
        assert(x + y =~= x);
        assert(scan_words(x).0 + scan_words(y).0 =~= scan_words(x).0);
    } else {
        lemma_scan_words_append(x, y.drop_last());
        assert((x + y).drop_last() =~= x + y.drop_last());
        assert((x + y).last() == y.last());
        let a = scan_words(x).0;
        let b = scan_words(y.drop_last()).0;
        let c = scan_words(y.drop_last()).1;
        assert((a + b).push(c) =~= a + b.push(c));
    }
}

pub proof fn lemma_scan_words_plain(a: Seq<char>)
    requires
        forall|i: int| 0 <= i < a.len() ==> !is_space(a[i]),
    ensures
        scan_words(a) == (Seq::<Seq<char>>::empty(), a),
    decreases a.len(),
{
    if a.len() > 0 {
        lemma_scan_words_plain(a.drop_last());
        assert(a.drop_last().push(a.last()) =~= a);
    }
}

/// Reading words joined by single spaces gives the words back.
pub proof fn lemma_scan_joined(ws: Seq<Seq<char>>)
    requires
        ws.len() > 0,
        all_words(ws),
    ensures
        scan_words(joined(ws)) == (ws.drop_last(), ws.last()),
        words(joined(ws)) == ws,
    decreases ws.len(),
{
    assert(is_word(ws.last()));
    if ws.len() == 1 {
        lemma_scan_words_plain(ws[0]);
        assert(ws.drop_last() =~= Seq::<Seq<char>>::empty());
        assert(seq![ws[0]] =~= ws);
    } else {
        let pre = ws.drop_last();
        assert forall|i: int| 0 <= i < pre.len() implies is_word(#[trigger] pre[i]) by {
            assert(pre[i] == ws[i]);
        }
        lemma_scan_joined(pre);
        let x = joined(pre) + seq![' '];
        assert(x.drop_last() =~= joined(pre));
        assert(pre.last().len() > 0);
        assert(scan_words(x) == (pre.drop_last().push(pre.last()), Seq::<char>::empty()));
        assert(pre.drop_last().push(pre.last()) =~= pre);
        lemma_scan_words_plain(ws.last());
        lemma_scan_words_append(x, ws.last());
        assert(joined(ws) == x + ws.last());
    }
    assert(ws.drop_last().push(ws.last()) =~= ws);
}

/// The words of a word, a space and more text are that word and the words of the rest.
pub proof fn lemma_words_after_word(a: Seq<char>, t: Seq<char>)
    requires
        is_word(a),
    ensures
        words(a + seq![' '] + t) == seq![a] + words(t),
{
    lemma_scan_words_plain(a);
    let x = a + seq![' '];
    assert(x.drop_last() =~= a);
    assert(scan_words(x) == (seq![a], Seq::<char>::empty()));
    lemma_scan_words_append(x, t);
    let (d, c) = scan_words(t);
    if c.len() > 0 {
        assert((seq![a] + d).push(c) =~= seq![a] + d.push(c));
    }
}

/// Relies on str::chars: it yields the characters of the string in order.
#[verifier::external_body]
pub(crate) fn chars_of(s: &str) -> (r: Vec<char>)
    ensures
        r@ == s@,
{
    s.chars().collect()
}

/// Relies on String's FromIterator<&char>: the string holds the characters in order.
#[verifier::external_body]
pub(crate) fn string_of(cs: &Vec<char>) -> (r: String)
    ensures
        r@ == cs@,
{
    String::from_iter(cs.iter())
}

/// Appends the characters of `w` to `out`.
pub fn append_chars(out: &mut Vec<char>, w: &Vec<char>)
    ensures
        final(out)@ == old(out)@ + w@,
{
    let mut i: usize = 0;
    while i < w.len()
        invariant
            i <= w@.len(),
            out@ == old(out)@ + w@.subrange(0, i as int),
        decreases w@.len() - i,
    {
        out.push(w[i]);
        i = i + 1;
        assert(out@ =~= old(out)@ + w@.subrange(0, i as int));
    }
    assert(w@.subrange(0, i as int) =~= w@);
}

/// The words of `s` between positions `lo` and `hi`.
pub fn split_words(s: &Vec<char>, lo: usize, hi: usize) -> (r: Vec<Vec<char>>)
    requires
        lo <= hi <= s@.len(),
    ensures
        views(r@) == words(s@.subrange(lo as int, hi as int)),
{
    let mut done: Vec<Vec<char>> = Vec::new();
    let mut cur: Vec<char> = Vec::new();
    let mut i: usize = lo;
    while i < hi
        invariant
            lo <= i <= hi <= s@.len(),
            (views(done@), cur@) == scan_words(s@.subrange(lo as int, i as int)),
        decreases hi - i,
    {
        let c = s[i];
        let ghost prev = s@.subrange(lo as int, i as int);
        assert(s@.subrange(lo as int, i + 1).drop_last() =~= prev);
        if c == ' ' || c == '\t' || c == '\n' || c == '\r' || c == '\x0C' {
            if cur.len() > 0 {
                let ghost d = done@;
                done.push(cur);
                cur = Vec::new();
                assert(views(done@) =~= views(d).push(scan_words(prev).1));
            }
        } else {
            cur.push(c);
        }
        i = i + 1;
    }
    if cur.len() > 0 {
        let ghost d = done@;
        done.push(cur);
        assert(views(done@) =~= views(d).push(scan_words(s@.subrange(lo as int, hi as int)).1));
    }
    done
}

/// The lines of `s` between positions `lo` and `hi`, each as the positions where it starts
/// and ends.
pub fn split_lines(s: &Vec<char>, lo: usize, hi: usize) -> (r: Vec<(usize, usize)>)
    requires
        lo <= hi <= s@.len(),
    ensures
        r@.len() == lines(s@.subrange(lo as int, hi as int)).len(),
        forall|k: int| 0 <= k < r@.len() ==> {
            &&& lo <= (#[trigger] r@[k]).0 <= r@[k].1 <= hi
            &&& s@.subrange(r@[k].0 as int, r@[k].1 as int) == lines(
                s@.subrange(lo as int, hi as int),
            )[k]
        },
{
    let mut done: Vec<(usize, usize)> = Vec::new();
    let mut start: usize = lo;
    let mut i: usize = lo;
    while i < hi
        invariant
            lo <= start <= i <= hi <= s@.len(),
            done@.len() == scan_lines(s@.subrange(lo as int, i as int)).0.len(),
            s@.subrange(start as int, i as int) == scan_lines(s@.subrange(lo as int, i as int)).1,
            forall|k: int| 0 <= k < done@.len() ==> {
                &&& lo <= (#[trigger] done@[k]).0 <= done@[k].1 <= start
                &&& s@.subrange(done@[k].0 as int, done@[k].1 as int) == scan_lines(
                    s@.subrange(lo as int, i as int),
                ).0[k]
            },
        decreases hi - i,
    {
        let ghost prev = s@.subrange(lo as int, i as int);
        assert(s@.subrange(lo as int, i + 1).drop_last() =~= prev);
        if s[i] == '\n' {
            done.push((start, i));
            start = i + 1;
            assert(s@.subrange(start as int, i + 1) =~= Seq::<char>::empty());
        } else {
            assert(s@.subrange(start as int, i + 1) =~= s@.subrange(start as int, i as int).push(
                s@[i as int],
            ));
        }
        i = i + 1;
    }
    done.push((start, hi));
    done
}

/// The words of `ws` from position `from` on, joined with single spaces; nothing where there
/// is none.
pub fn extract_value(ws: &Vec<Vec<char>>, from: usize) -> (r: Option<String>)
    requires
        from <= ws@.len(),
    ensures
        opt_view(r) == optional_text(views(ws@).subrange(from as int, ws@.len() as int)),
{
    if from >= ws.len() {
        return None;
    }
    let mut out: Vec<char> = Vec::new();
    let mut i: usize = from;
    while i < ws.len()
        invariant
            from <= i <= ws@.len(),
            out@ == joined(views(ws@).subrange(from as int, i as int)),
        decreases ws@.len() - i,
    {
        let ghost before = views(ws@).subrange(from as int, i as int);
        assert(views(ws@).subrange(from as int, i + 1).drop_last() =~= before);
        if i > from {
            out.push(' ');
        }
        append_chars(&mut out, &ws[i]);
        assert(views(ws@)[i as int] == ws@[i as int]@);
        proof {
            if i == from {
                assert(out@ =~= joined(views(ws@).subrange(from as int, i + 1)));
            } else {
                assert(out@ =~= joined(before) + seq![' '] + ws@[i as int]@);
            }
        }
        i = i + 1;
    }
    Some(string_of(&out))
}

} // verus!

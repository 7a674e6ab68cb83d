//! Splitting text into lines and joining lines back into text, with the
//! conventions of buffered line reading: a line ends at `'\n'`, a `'\r'`
//! right before that `'\n'` is dropped too, and text after the last `'\n'`
//! forms a final line of its own when it is not empty.
use vstd::prelude::*;
use crate::text::{chars_of, push_char};

verus! {

/// Index of the first `'\n'` in `s`, or `s.len()` when there is none.
pub open spec fn newline_index(s: Seq<char>) -> nat
    decreases s.len(),
{
    if s.len() == 0 {
        0
    } else if s[0] == '\n' {
        0
    } else {
        1 + newline_index(s.drop_first())
    }
}

/// A line as it was terminated by `'\n'`: a trailing `'\r'` is dropped.
pub open spec fn strip_cr(line: Seq<char>) -> Seq<char> {
    if line.len() > 0 && line.last() == '\r' {
        line.drop_last()
    } else {
        line
    }
}

/// The lines of `s`.
pub open spec fn split_lines_spec(s: Seq<char>) -> Seq<Seq<char>>
    decreases s.len(),
{
    if s.len() == 0 {
        seq![]
    } else {
        let i = newline_index(s);
        if i >= s.len() {
            seq![s]
        } else {
            seq![strip_cr(s.take(i as int))] + split_lines_spec(s.skip(i + 1int))
        }
    }
}

/// Each line followed by `'\n'`.
pub open spec fn join_lines_spec(lines: Seq<Seq<char>>) -> Seq<char>
    decreases lines.len(),
{
    if lines.len() == 0 {
        seq![]
    } else {
        lines[0] + seq!['\n'] + join_lines_spec(lines.drop_first())
    }
}

/// A line that writing and reading back leaves unchanged: it holds no
/// `'\n'` and does not end in `'\r'`.
pub open spec fn plain_line(line: Seq<char>) -> bool {
    &&& !line.contains('\n')
    &&& !(line.len() > 0 && line.last() == '\r')
}

proof fn lemma_newline_index(s: Seq<char>, n: int)
    requires
        0 <= n <= s.len(),
        forall|k: int| 0 <= k < n ==> s[k] != '\n',
        n == s.len() || s[n] == '\n',
    ensures
        newline_index(s) == n,
    decreases n,
{
    if n > 0 {
        assert(s[0] != '\n');
        lemma_newline_index(s.drop_first(), n - 1);
    }
}

proof fn lemma_newline_index_bound(s: Seq<char>)
    ensures
        newline_index(s) <= s.len(),
        newline_index(s) < s.len() ==> s[newline_index(s) as int] == '\n',
        forall|k: int| 0 <= k < newline_index(s) ==> s[k] != '\n',
    decreases s.len(),
{
    if s.len() > 0 && s[0] != '\n' {
        lemma_newline_index_bound(s.drop_first());
        assert forall|k: int| 0 <= k < newline_index(s) implies s[k] != '\n' by {
            if k > 0 {
                assert(s[k] == s.drop_first()[k - 1]);
            }
        }
    }
}

/// The lines of `text`, as buffered line reading yields them.
pub fn split_lines(text: &str) -> (lines: Vec<String>)
    ensures
        lines@.map_values(|l: String| l@) == split_lines_spec(text@),
{
    let chars = chars_of(text);
    let n = chars.len();
    let mut lines: Vec<String> = Vec::new();
    let mut start: usize = 0;
    assert(chars@.skip(0) == chars@);
    while start < n
        invariant
            chars@ == text@,
            n == chars@.len(),
            start <= n,
            lines@.map_values(|l: String| l@) + split_lines_spec(chars@.skip(start as int))
                == split_lines_spec(text@),
        decreases n - start,
    {
        let ghost rest = chars@.skip(start as int);
        let mut end = start;
        while end < n && chars[end] != '\n'
            invariant
                start <= end <= n,
                n == chars@.len(),
                forall|k: int| start <= k < end ==> chars@[k] != '\n',
            decreases n - end,
        {
            end = end + 1;
        }
        proof {
            lemma_newline_index(rest, end - start);
        }
        let mut stop = end;
        if end < n && end > start && chars[end - 1] == '\r' {
            stop = end - 1;
        }
        let mut line = String::new();
        let mut k = start;
        while k < stop
            invariant
                start <= k <= stop <= n,
                n == chars@.len(),
                line@ == chars@.subrange(start as int, k as int),
            decreases stop - k,
        {
            push_char(&mut line, chars[k]);
            k = k + 1;
        }
        let ghost old_lines = lines@;
        lines.push(line);
        proof {
            if end < n {
                assert(line@ == strip_cr(rest.take((end - start) as int)));
                assert(rest.skip(end - start + 1) == chars@.skip(end + 1));
            } else {
                assert(line@ == rest);
                assert(chars@.skip(n as int) == Seq::<char>::empty());
            }
            assert(lines@.map_values(|l: String| l@) == old_lines.map_values(|l: String| l@).push(line@));
        }
        if end < n {
            start = end + 1;
        } else {
            start = n;
        }
    }
    proof {
        assert(chars@.skip(n as int) == Seq::<char>::empty());
    }
    lines
}


proof fn lemma_join_push(lines: Seq<Seq<char>>, line: Seq<char>)
    ensures
        join_lines_spec(lines.push(line)) == join_lines_spec(lines) + line + seq!['\n'],
    decreases lines.len(),
{
    if lines.len() > 0 {
        lemma_join_push(lines.drop_first(), line);
        assert(lines.push(line).drop_first() == lines.drop_first().push(line));
        assert(lines.push(line)[0] == lines[0]);
        assert(join_lines_spec(lines.push(line)) =~= join_lines_spec(lines) + line + seq!['\n']);
    } else {
        assert(lines.push(line).drop_first() =~= Seq::<Seq<char>>::empty());
        assert(join_lines_spec(Seq::<Seq<char>>::empty()) == Seq::<char>::empty());
        assert(join_lines_spec(lines) == Seq::<char>::empty());
        assert(lines.push(line)[0] == line);
        assert(join_lines_spec(lines.push(line)) =~= join_lines_spec(lines) + line + seq!['\n']);
    }
}

/// The text that writing `lines` one per line produces: each line followed
/// by `'\n'`.
pub fn join_lines(lines: &Vec<String>) -> (text: String)
    ensures
        text@ == join_lines_spec(lines@.map_values(|l: String| l@)),
{
    let mut text = String::new();
    let mut i: usize = 0;
    while i < lines.len()
        invariant
            i <= lines@.len(),
            text@ == join_lines_spec(lines@.take(i as int).map_values(|l: String| l@)),
        decreases lines@.len() - i,
    {
        proof {
            lemma_join_push(lines@.take(i as int).map_values(|l: String| l@), lines@[i as int]@);
            assert(lines@.take(i + 1).map_values(|l: String| l@)
                == lines@.take(i as int).map_values(|l: String| l@).push(lines@[i as int]@));
        }
        text.append(lines[i].as_str());
        text.append("\n");
        proof {
            reveal_strlit("\n");
        }
        i = i + 1;
    }
    assert(lines@.take(lines@.len() as int) == lines@);
    text
}

/// Reading back what `join_lines` wrote gives the same lines, provided no
/// line holds a `'\n'` or ends in `'\r'`.
pub proof fn lemma_split_join_roundtrip(lines: Seq<Seq<char>>)
    requires
        forall|i: int| 0 <= i < lines.len() ==> plain_line(#[trigger] lines[i]),
    ensures
        split_lines_spec(join_lines_spec(lines)) == lines,
    decreases lines.len(),
{
    if lines.len() > 0 {
        let first = lines[0];
        let rest = lines.drop_first();
        let text = join_lines_spec(lines);
        assert(plain_line(first));
        assert forall|i: int| 0 <= i < rest.len() implies plain_line(#[trigger] rest[i]) by {
            assert(rest[i] == lines[i + 1]);
        }
        lemma_split_join_roundtrip(rest);
        assert(text == first + seq!['\n'] + join_lines_spec(rest));
        assert forall|k: int| 0 <= k < first.len() implies text[k] != '\n' by {
            assert(text[k] == first[k]);
            if first[k] == '\n' {
                assert(first.contains('\n'));
            }
        }
        assert(text[first.len() as int] == '\n');
        lemma_newline_index(text, first.len() as int);
        assert(text.take(first.len() as int) == first);
        assert(text.skip(first.len() + 1int) == join_lines_spec(rest));
    }
}

/// Writing the lines of `text` back gives `text` again, provided it holds no
/// `'\r'` and is empty or ends in `'\n'`.
pub proof fn lemma_join_split_roundtrip(text: Seq<char>)
    requires
        !text.contains('\r'),
        text.len() == 0 || text.last() == '\n',
    ensures
        join_lines_spec(split_lines_spec(text)) == text,
    decreases text.len(),
{
    if text.len() > 0 {
        lemma_newline_index_bound(text);
        let i = newline_index(text) as int;
        if i >= text.len() {
            assert(text[text.len() - 1] == '\n');
            assert(false);
        }
        let rest = text.skip(i + 1);
        assert forall|k: int| 0 <= k < rest.len() implies rest[k] != '\r' by {
            assert(rest[k] == text[i + 1 + k]);
            if text[i + 1 + k] == '\r' {
                assert(text.contains('\r'));
            }
        }
        if rest.len() > 0 {
            assert(rest.last() == text.last());
        }
        lemma_join_split_roundtrip(rest);
        let line = text.take(i);
        if line.len() > 0 {
            assert(line.last() == text[i - 1]);
            if line.last() == '\r' {
                assert(text.contains('\r'));
            }
        }
        assert(strip_cr(line) == line);
        assert(split_lines_spec(text) == seq![line] + split_lines_spec(rest));
        assert((seq![line] + split_lines_spec(rest)).drop_first() == split_lines_spec(rest));
        assert(text == line + seq!['\n'] + rest);
    }
}

/// The lines of several texts, one text after the other.
pub open spec fn cat_lines_spec(texts: Seq<Seq<char>>) -> Seq<Seq<char>>
    decreases texts.len(),
{
    if texts.len() == 0 {
        seq![]
    } else {
        cat_lines_spec(texts.drop_last()) + split_lines_spec(texts.last())
    }
}

/// The lines of each text in turn, as concatenating files line by line gives
/// them.
pub fn cat_texts(texts: &Vec<String>) -> (lines: Vec<String>)
    ensures
        lines@.map_values(|l: String| l@) == cat_lines_spec(texts@.map_values(|t: String| t@)),
{
    let mut lines: Vec<String> = Vec::new();
    let mut i: usize = 0;
    while i < texts.len()
        invariant
            i <= texts@.len(),
            lines@.map_values(|l: String| l@)
                == cat_lines_spec(texts@.take(i as int).map_values(|t: String| t@)),
        decreases texts@.len() - i,
    {
        let mut more = split_lines(texts[i].as_str());
        let ghost before = lines@;
        lines.append(&mut more);
        proof {
            let views = texts@.take(i + 1).map_values(|t: String| t@);
            assert(views.drop_last() == texts@.take(i as int).map_values(|t: String| t@));
            assert(views.last() == texts@[i as int]@);
            assert(lines@.map_values(|l: String| l@)
                == before.map_values(|l: String| l@) + split_lines_spec(texts@[i as int]@));
        }
        i = i + 1;
    }
    assert(texts@.take(texts@.len() as int) == texts@);
    lines
}


/// Concatenating two lists of texts concatenates their lines; a single text
/// gives its own lines, and no text gives no lines.
pub proof fn lemma_cat_lines_append(first: Seq<Seq<char>>, second: Seq<Seq<char>>)
    ensures
        cat_lines_spec(first + second) == cat_lines_spec(first) + cat_lines_spec(second),
        cat_lines_spec(Seq::<Seq<char>>::empty()) == Seq::<Seq<char>>::empty(),
    decreases second.len(),
{
    if second.len() == 0 {
        assert(first + second == first);
        assert(cat_lines_spec(first) + Seq::<Seq<char>>::empty() == cat_lines_spec(first));
    } else {
        lemma_cat_lines_append(first, second.drop_last());
        assert((first + second).drop_last() == first + second.drop_last());
        assert((first + second).last() == second.last());
    }
}

/// The lines of one text alone are its own lines.
pub proof fn lemma_cat_lines_single(text: Seq<char>)
    ensures
        cat_lines_spec(seq![text]) == split_lines_spec(text),
{
    assert(seq![text].drop_last() == Seq::<Seq<char>>::empty());
    assert(cat_lines_spec(Seq::<Seq<char>>::empty()) == Seq::<Seq<char>>::empty());
    assert(Seq::<Seq<char>>::empty() + split_lines_spec(text) == split_lines_spec(text));
}

} // verus!
